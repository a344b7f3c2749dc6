use gtfs_split::boundary::{
    assigned_state, load_boundaries, locate, locate_by_crossings, locate_further, Feature,
    LocateStep, StateBoundary,
};
use gtfs_split::coordinate::Coordinate;
use gtfs_split::geometry::{ring_edges, Geometry};

fn c(value: f64) -> Coordinate {
    Coordinate { bits: value.to_bits() }
}

fn square(from: f64, to: f64) -> Vec<Vec<Vec<Coordinate>>> {
    vec![vec![
        vec![c(from), c(from)],
        vec![c(to), c(from)],
        vec![c(to), c(to)],
        vec![c(from), c(to)],
    ]]
}

fn states() -> Vec<StateBoundary> {
    load_boundaries(&[
        Feature {
            name: "Thüringen".to_string(),
            geometry: Geometry::Polygon { coordinates: square(0.0, 4.0) },
        },
        Feature {
            name: "Sachsen-Anhalt".to_string(),
            geometry: Geometry::MultiPolygon { coordinates: vec![square(2.0, 6.0)] },
        },
    ])
}

#[test]
fn boundaries_follow_the_features() {
    let boundaries = states();
    assert_eq!(boundaries.len(), 2);
    assert_eq!(boundaries[0].name, "Thüringen");
    assert_eq!(boundaries[0].clean_name, "thueringen");
    assert_eq!(boundaries[0].coordinates, vec![square(0.0, 4.0)]);
    assert_eq!(boundaries[1].clean_name, "sachsen_anhalt");
    assert_eq!(boundaries[1].bbox, (c(2.0), c(6.0), c(2.0), c(6.0)));
}

#[test]
fn a_stop_without_position_lies_nowhere() {
    let boundaries = states();
    assert_eq!(locate(&boundaries, None, Some(c(1.0))), LocateStep::Nowhere);
    assert_eq!(locate(&boundaries, Some(c(1.0)), None), LocateStep::Nowhere);
    assert_eq!(locate(&[], Some(c(1.0)), Some(c(1.0))), LocateStep::Nowhere);
    assert_eq!(assigned_state(&boundaries, LocateStep::Nowhere), None);
}

#[test]
fn the_first_state_that_contains_the_stop_is_found() {
    let boundaries = states();
    let (lon, lat) = (c(3.0), c(3.0));
    let first = locate(&boundaries, Some(lon), Some(lat));
    assert_eq!(first, LocateStep::Test { index: 0 });
    assert_eq!(
        locate_further(&boundaries, lon, lat, 0, true),
        LocateStep::Found { index: 0 }
    );
    let second = locate_further(&boundaries, lon, lat, 0, false);
    assert_eq!(second, LocateStep::Test { index: 1 });
    let found = locate_further(&boundaries, lon, lat, 1, true);
    assert_eq!(assigned_state(&boundaries, found), Some("sachsen_anhalt".to_string()));
    assert_eq!(assigned_state(&boundaries, second), None);
    assert_eq!(locate_further(&boundaries, lon, lat, 1, false), LocateStep::Nowhere);
}

#[test]
fn states_whose_box_is_elsewhere_are_passed_over() {
    let boundaries = states();
    assert_eq!(
        locate(&boundaries, Some(c(5.0)), Some(c(5.0))),
        LocateStep::Test { index: 1 }
    );
    assert_eq!(locate(&boundaries, Some(c(9.0)), Some(c(9.0))), LocateStep::Nowhere);
    assert_eq!(locate(&boundaries, Some(c(f64::NAN)), Some(c(3.0))), LocateStep::Nowhere);
}

/// Where the edges around a territory cross latitude `lat`.
fn crossings(state: &StateBoundary, lat: f64) -> Vec<Vec<Vec<Coordinate>>> {
    let number = |value: Coordinate| f64::from_bits(value.bits);
    let crossing = |ends: ((Coordinate, Coordinate), (Coordinate, Coordinate))| {
        let (xi, yi) = (number(ends.0 .0), number(ends.0 .1));
        let (xj, yj) = (number(ends.1 .0), number(ends.1 .1));
        c((xj - xi) * (lat - yi) / (yj - yi) + xi)
    };
    let of_ring = |ring: &Vec<Vec<Coordinate>>| {
        ring_edges(ring).into_iter().map(|edge| edge.map_or(c(0.0), crossing)).collect()
    };
    state.coordinates.iter().map(|polygon| polygon.iter().map(of_ring).collect()).collect()
}

/// The state that a search by crossings ends at.
fn search(boundaries: &[StateBoundary], lon: f64, lat: f64) -> LocateStep {
    let mut step = locate(boundaries, Some(c(lon)), Some(c(lat)));
    while let LocateStep::Test { index } = step {
        let met = crossings(&boundaries[index], lat);
        step = locate_by_crossings(boundaries, c(lon), c(lat), index, &met).unwrap();
    }
    step
}

#[test]
fn the_territory_decides_after_the_box() {
    let boundaries = load_boundaries(&[
        Feature {
            name: "Corner".to_string(),
            geometry: Geometry::Polygon {
                coordinates: vec![vec![
                    vec![c(0.0), c(0.0)],
                    vec![c(8.0), c(0.0)],
                    vec![c(0.0), c(8.0)],
                ]],
            },
        },
        Feature {
            name: "Square".to_string(),
            geometry: Geometry::Polygon { coordinates: square(4.0, 7.0) },
        },
    ]);
    assert_eq!(search(&boundaries, 1.0, 1.0), LocateStep::Found { index: 0 });
    assert_eq!(search(&boundaries, 5.0, 6.0), LocateStep::Found { index: 1 });
    assert_eq!(search(&boundaries, 7.5, 7.5), LocateStep::Nowhere);
    assert_eq!(search(&boundaries, 9.0, 9.0), LocateStep::Nowhere);
    let met = crossings(&boundaries[0], 6.0);
    assert_eq!(
        locate_by_crossings(&boundaries, c(5.0), c(6.0), 0, &met),
        Some(LocateStep::Test { index: 1 })
    );
}

#[test]
fn the_boxes_lose_no_state() {
    let boundaries = states();
    for lon in -1..8 {
        for lat in -1..8 {
            let (lon, lat) = (lon as f64, lat as f64);
            let inside: Vec<bool> = (0..boundaries.len())
                .map(|k| {
                    let met = crossings(&boundaries[k], lat);
                    let step = locate_by_crossings(&boundaries, c(lon), c(lat), k, &met);
                    step == Some(LocateStep::Found { index: k })
                })
                .collect();
            let expected = match inside.iter().position(|contained| *contained) {
                Some(index) => LocateStep::Found { index },
                None => LocateStep::Nowhere,
            };
            assert_eq!(search(&boundaries, lon, lat), expected);
        }
    }
}

#[test]
fn a_deciding_vertex_without_position_stops_the_search() {
    let boundaries = load_boundaries(&[Feature {
        name: "Broken".to_string(),
        geometry: Geometry::Polygon {
            coordinates: vec![vec![
                vec![c(0.0), c(0.0)],
                vec![c(4.0)],
                vec![c(4.0), c(4.0)],
            ]],
        },
    }]);
    let met = crossings(&boundaries[0], 1.0);
    assert_eq!(locate_by_crossings(&boundaries, c(1.0), c(1.0), 0, &met), None);
}
