use gtfs_split::coordinate::Coordinate;
use gtfs_split::geometry::{
    calculate_bbox, multipolygon_is_located, point_in_bbox, point_in_multipolygon, point_in_polygon,
    point_in_ring, polygon_is_located, ring_edges, ring_is_located, Geometry,
};

type Ring = Vec<Vec<Coordinate>>;

fn c(value: f64) -> Coordinate {
    Coordinate { bits: value.to_bits() }
}

fn ring(points: &[(f64, f64)]) -> Ring {
    points.iter().map(|p| vec![c(p.0), c(p.1)]).collect()
}

fn number(value: Coordinate) -> f64 {
    f64::from_bits(value.bits)
}

/// Where the lines through the edges cross latitude `y`.
fn crossings(y: f64, ring: &Ring) -> Vec<Coordinate> {
    ring_edges(ring)
        .into_iter()
        .map(|edge| match edge {
            Some(((xi, yi), (xj, yj))) => {
                let (xi, yi) = (number(xi), number(yi));
                let (xj, yj) = (number(xj), number(yj));
                c((xj - xi) * (y - yi) / (yj - yi) + xi)
            }
            None => c(0.0),
        })
        .collect()
}

fn square(from: f64, to: f64) -> Ring {
    ring(&[(from, from), (to, from), (to, to), (from, to)])
}

fn in_ring(x: f64, y: f64, ring: &Ring) -> bool {
    point_in_ring(c(x), c(y), ring, &crossings(y, ring))
}

fn in_polygon(x: f64, y: f64, polygon: &Vec<Ring>) -> bool {
    let met: Vec<Vec<Coordinate>> = polygon.iter().map(|r| crossings(y, r)).collect();
    assert!(polygon_is_located(c(x), c(y), polygon, &met));
    point_in_polygon(c(x), c(y), polygon, &met)
}

fn in_multipolygon(x: f64, y: f64, polygons: &Vec<Vec<Ring>>) -> bool {
    let met: Vec<Vec<Vec<Coordinate>>> =
        polygons.iter().map(|p| p.iter().map(|r| crossings(y, r)).collect()).collect();
    assert!(multipolygon_is_located(c(x), c(y), polygons, &met));
    point_in_multipolygon(c(x), c(y), polygons, &met)
}

#[test]
fn coordinates_are_ordered_as_numbers() {
    let values = [
        f64::NEG_INFINITY, f64::MIN, -180.0, -1.5, -1.0, -f64::MIN_POSITIVE, -5e-324, -0.0, 0.0,
        5e-324, f64::MIN_POSITIVE, 0.1, 1.0, 1.0000000000000002, 8.5, 13.4, 52.5, f64::MAX,
        f64::INFINITY, f64::NAN, -f64::NAN,
    ];
    for a in values {
        for b in values {
            assert_eq!(c(a).is_below(c(b)), a < b);
            assert_eq!(c(a).is_at_least(c(b)), a >= b);
        }
    }
}

#[test]
fn a_polygon_is_a_list_of_one() {
    let polygon = vec![square(0.0, 1.0), square(0.25, 0.5)];
    let single = Geometry::Polygon { coordinates: polygon.clone() };
    assert_eq!(single.to_multipolygon(), vec![polygon.clone()]);
    let many = Geometry::MultiPolygon { coordinates: vec![polygon.clone(), vec![]] };
    assert_eq!(many.to_multipolygon(), vec![polygon, vec![]]);
}

#[test]
fn the_box_is_spanned_by_the_extremes() {
    let polygons = vec![
        vec![ring(&[(8.0, 50.0), (9.5, 49.0), (7.25, 51.0)])],
        vec![ring(&[(10.0, 48.5)]), ring(&[(6.0, 54.0)])],
    ];
    assert_eq!(calculate_bbox(&polygons), (c(6.0), c(10.0), c(48.5), c(54.0)));
}

#[test]
fn the_box_of_nothing_is_inside_out() {
    let infinite = (c(f64::INFINITY), c(f64::NEG_INFINITY), c(f64::INFINITY), c(f64::NEG_INFINITY));
    assert_eq!(calculate_bbox(&[]), infinite);
    assert_eq!(calculate_bbox(&[vec![vec![vec![c(1.0)], vec![]]]]), infinite);
    assert!(!point_in_bbox(c(0.0), c(0.0), &infinite));
}

#[test]
fn the_box_skips_what_is_no_number_and_keeps_the_first_zero() {
    let polygons = vec![vec![ring(&[(f64::NAN, 1.0), (-0.0, f64::NAN), (0.0, 2.0), (3.0, 2.0)])]];
    let bbox = calculate_bbox(&polygons);
    assert_eq!(bbox, (c(-0.0), c(3.0), c(1.0), c(2.0)));
}

#[test]
fn the_box_contains_its_edges_and_vertices() {
    let polygons = vec![vec![square(1.0, 2.0)]];
    let bbox = calculate_bbox(&polygons);
    for vertex in &polygons[0][0] {
        assert!(point_in_bbox(vertex[0], vertex[1], &bbox));
    }
    assert!(point_in_bbox(c(1.5), c(1.0), &bbox));
    assert!(!point_in_bbox(c(0.999), c(1.5), &bbox));
    assert!(!point_in_bbox(c(2.001), c(1.5), &bbox));
    assert!(!point_in_bbox(c(1.5), c(0.999), &bbox));
    assert!(!point_in_bbox(c(1.5), c(2.001), &bbox));
    assert!(!point_in_bbox(c(f64::NAN), c(1.5), &bbox));
}

#[test]
fn a_point_lies_in_a_ring_or_not() {
    let line = square(0.0, 2.0);
    assert!(in_ring(1.0, 1.0, &line));
    assert!(!in_ring(3.0, 1.0, &line));
    assert!(!in_ring(-1.0, 1.0, &line));
    assert!(!in_ring(1.0, 3.0, &line));
    assert!(in_ring(0.0, 0.0, &line));
    assert!(!in_ring(2.0, 2.0, &line));
    let arrow = ring(&[(0.0, 0.0), (4.0, 0.0), (4.0, 4.0), (2.0, 1.0), (0.0, 4.0)]);
    assert!(!in_ring(2.0, 2.0, &arrow));
    assert!(in_ring(0.5, 2.0, &arrow));
    assert!(in_ring(3.5, 2.0, &arrow));
}

#[test]
fn a_ring_of_two_points_contains_nothing() {
    let line = ring(&[(0.0, 0.0), (4.0, 4.0)]);
    assert!(!in_ring(1.0, 1.0, &line));
    assert!(!in_ring(1.0, 1.0, &vec![]));
    assert!(!point_in_ring(c(0.0), c(0.0), &[vec![], vec![]], &[c(1.0), c(1.0)]));
}

#[test]
fn holes_are_outside() {
    let polygon = vec![square(0.0, 10.0), square(2.0, 4.0), square(6.0, 8.0)];
    assert!(in_polygon(1.0, 1.0, &polygon));
    assert!(in_polygon(5.0, 5.0, &polygon));
    assert!(!in_polygon(3.0, 3.0, &polygon));
    assert!(!in_polygon(7.0, 7.0, &polygon));
    assert!(!in_polygon(11.0, 1.0, &polygon));
    assert!(!in_polygon(1.0, 1.0, &vec![]));
}

#[test]
fn one_polygon_is_enough() {
    let polygons = vec![vec![square(0.0, 1.0)], vec![], vec![square(5.0, 6.0), square(5.2, 5.8)]];
    assert!(in_multipolygon(0.5, 0.5, &polygons));
    assert!(in_multipolygon(5.1, 5.1, &polygons));
    assert!(!in_multipolygon(5.5, 5.5, &polygons));
    assert!(!in_multipolygon(3.0, 3.0, &polygons));
    assert!(!in_multipolygon(3.0, 3.0, &vec![]));
}

#[test]
fn contained_points_have_latitudes_in_the_box() {
    let polygons = vec![vec![ring(&[(0.0, 0.0), (5.0, 1.0), (3.0, 7.0), (-2.0, 4.0)])]];
    let bbox = calculate_bbox(&polygons);
    for step in 0..200 {
        let (x, y) = (step as f64 * 0.05 - 3.0, step as f64 * 0.06 - 2.0);
        if in_multipolygon(x, y, &polygons) {
            assert!(c(y).is_at_least(bbox.2) && bbox.3.is_at_least(c(y)));
        }
    }
}

#[test]
fn unlocated_vertices_matter_only_where_they_decide() {
    let short: Ring = vec![vec![c(0.0)], vec![c(1.0), c(1.0)], vec![c(2.0), c(0.0)]];
    assert!(!ring_is_located(&short));
    assert!(ring_is_located(&[vec![], vec![]]));
    assert!(ring_is_located(&square(0.0, 1.0)));
    let polygon = vec![square(0.0, 10.0), square(2.0, 4.0), short.clone()];
    let at = |x: f64, y: f64| {
        let met: Vec<Vec<Coordinate>> = polygon.iter().map(|r| crossings(y, r)).collect();
        polygon_is_located(c(x), c(y), &polygon, &met)
    };
    assert!(at(20.0, 1.0));
    assert!(at(3.0, 3.0));
    assert!(!at(1.0, 1.0));
    let polygons = vec![vec![square(0.0, 1.0)], vec![short]];
    let all = |x: f64, y: f64| {
        let met: Vec<Vec<Vec<Coordinate>>> =
            polygons.iter().map(|p| p.iter().map(|r| crossings(y, r)).collect()).collect();
        multipolygon_is_located(c(x), c(y), &polygons, &met)
    };
    assert!(all(0.5, 0.5));
    assert!(!all(2.0, 2.0));
}

#[test]
fn each_edge_runs_from_the_vertex_before() {
    let line = ring(&[(1.0, 2.0), (3.0, 4.0), (5.0, 6.0)]);
    let at = |x: f64, y: f64| (c(x), c(y));
    assert_eq!(
        ring_edges(&line),
        vec![
            Some((at(1.0, 2.0), at(5.0, 6.0))),
            Some((at(3.0, 4.0), at(1.0, 2.0))),
            Some((at(5.0, 6.0), at(3.0, 4.0))),
        ]
    );
    assert_eq!(ring_edges(&[]), vec![]);
    assert_eq!(
        ring_edges(&[vec![c(1.0), c(2.0), c(9.0)]]),
        vec![Some((at(1.0, 2.0), at(1.0, 2.0)))]
    );
}

#[test]
fn an_edge_without_two_located_ends_has_none() {
    let line: Ring = vec![vec![c(1.0), c(2.0)], vec![c(3.0)], vec![c(5.0), c(6.0)], vec![]];
    assert_eq!(ring_edges(&line), vec![None; 4]);
    let line: Ring = vec![vec![c(1.0), c(2.0)], vec![c(3.0)], vec![c(5.0), c(6.0)]];
    assert_eq!(
        ring_edges(&line),
        vec![Some(((c(1.0), c(2.0)), (c(5.0), c(6.0)))), None, None]
    );
}

/// A ring that is neither convex nor free of vertices at equal latitudes.
fn jagged() -> Ring {
    ring(&[
        (0.0, 0.0), (9.0, 1.0), (7.0, 4.0), (10.0, 8.0), (5.0, 5.0), (3.0, 9.0), (4.0, 5.0),
        (-2.0, 6.0),
    ])
}

#[test]
fn contained_points_lie_in_the_box() {
    let polygons = vec![vec![jagged()], vec![square(20.0, 23.0)]];
    let bbox = calculate_bbox(&polygons);
    let mut contained = 0;
    for x in -4..26 {
        for y in -2..25 {
            if in_multipolygon(x as f64, y as f64, &polygons) {
                contained += 1;
                assert!(point_in_bbox(c(x as f64), c(y as f64), &bbox));
            }
        }
    }
    assert!(contained > 20);
}

#[test]
fn the_direction_of_a_ring_does_not_matter() {
    let forth = jagged();
    let back: Ring = forth.iter().rev().cloned().collect();
    assert!(in_ring(6.0, 3.0, &forth) && in_ring(6.0, 3.0, &back));
    for x in -4..12 {
        for y in -2..11 {
            assert_eq!(in_ring(x as f64, y as f64, &back), in_ring(x as f64, y as f64, &forth));
        }
    }
}

#[test]
fn a_cut_ring_is_shared_out() {
    let whole = jagged();
    for k in 2..=whole.len() - 2 {
        let first: Ring = whole[..=k].to_vec();
        let mut second: Ring = whole[k..].to_vec();
        second.push(whole[0].clone());
        for x in -4..12 {
            for y in -2..11 {
                let (x, y) = (x as f64, y as f64);
                assert_eq!(in_ring(x, y, &whole), in_ring(x, y, &first) != in_ring(x, y, &second));
            }
        }
    }
    let whole = square(0.0, 2.0);
    let first = ring(&[(0.0, 0.0), (2.0, 0.0), (2.0, 2.0)]);
    let second = ring(&[(2.0, 2.0), (0.0, 2.0), (0.0, 0.0)]);
    assert!(in_ring(1.0, 1.0, &whole));
    assert!(in_ring(1.0, 1.0, &first) != in_ring(1.0, 1.0, &second));
}
