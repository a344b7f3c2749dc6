//! State boundaries, and the state in which a stop lies.

use crate::coordinate::Coordinate;
use crate::geometry::{
    all_numbers, bounds, calculate_bbox, crossings_match, in_bbox, in_multipolygon,
    law_contained_point_is_in_bbox, multipolygon_is_located, multipolygon_located,
    outer_crossings_between, point_in_bbox, point_in_multipolygon, positions, BoundingBox, Geometry,
};
use crate::text::{folder_name, lowercase, transliterate_state_name};
use vstd::prelude::*;

verus! {

/// A named shape.
#[derive(Debug)]
pub struct Feature {
    pub name: String,
    pub geometry: Geometry,
}

/// A state with the folder that belongs to it, its territory and the box around that.
#[derive(Debug)]
pub struct StateBoundary {
    pub name: String,
    pub clean_name: String,
    pub coordinates: Vec<Vec<Vec<Vec<Coordinate>>>>,
    pub bbox: BoundingBox,
}

impl StateBoundary {
    /// Whether this is the boundary that the feature describes.
    pub open spec fn describes(self, feature: Feature) -> bool {
        &&& self.name@ == feature.name@
        &&& self.clean_name@ == folder_name(lowercase(feature.name@))
        &&& self.coordinates.deep_view() == feature.geometry.polygons()
        &&& bounds(positions(feature.geometry.polygons()), self.bbox)
    }

    pub fn from_feature(feature: &Feature) -> (boundary: StateBoundary)
        ensures
            boundary.describes(*feature),
    {
        let clean_name: String = transliterate_state_name(feature.name.as_str());
        let coordinates: Vec<Vec<Vec<Vec<Coordinate>>>> = feature.geometry.to_multipolygon();
        let shape: &[Vec<Vec<Vec<Coordinate>>>] = coordinates.as_slice();
        let bbox: BoundingBox = calculate_bbox(shape);
        assert(shape.deep_view() =~= coordinates.deep_view());
        StateBoundary { name: feature.name.clone(), clean_name, coordinates, bbox }
    }
}

/// The boundaries that the features describe, in their order.
pub fn load_boundaries(features: &[Feature]) -> (boundaries: Vec<StateBoundary>)
    ensures
        boundaries.len() == features@.len(),
        forall|i: int|
            0 <= i < features@.len() ==> (#[trigger] boundaries@[i]).describes(features@[i]),
{
    let mut boundaries: Vec<StateBoundary> = Vec::new();
    let mut i: usize = 0;
    while i < features.len()
        invariant
            i <= features@.len(),
            boundaries.len() == i,
            forall|k: int|
                0 <= k < i ==> (#[trigger] boundaries@[k]).describes(features@[k]),
        decreases features@.len() - i,
    {
        boundaries.push(StateBoundary::from_feature(&features[i]));
        i += 1;
    }
    boundaries
}

/// Where the search for a stop's state stands.
#[derive(Clone, Copy, Debug, PartialEq, Eq, Structural)]
pub enum LocateStep {
    /// The box of this state contains the stop: find out whether its territory does.
    Test { index: usize },
    /// The stop lies in this state.
    Found { index: usize },
    /// The stop lies in no state.
    Nowhere,
}

/// The step at which the states from `from` on are still to be looked at.
pub open spec fn search_from(
    boundaries: Seq<StateBoundary>,
    lon: Coordinate,
    lat: Coordinate,
    from: nat,
) -> LocateStep
    decreases boundaries.len() - from,
{
    if from >= boundaries.len() {
        LocateStep::Nowhere
    } else if in_bbox(lon, lat, boundaries[from as int].bbox) {
        LocateStep::Test { index: from as usize }
    } else {
        search_from(boundaries, lon, lat, from + 1)
    }
}

fn search(
    boundaries: &[StateBoundary],
    lon: Coordinate,
    lat: Coordinate,
    from: usize,
) -> (step: LocateStep)
    requires
        from <= boundaries@.len(),
    ensures
        step == search_from(boundaries@, lon, lat, from as nat),
        match step {
            LocateStep::Test { index } => {
                &&& from <= index < boundaries@.len()
                &&& in_bbox(lon, lat, boundaries@[index as int].bbox)
                &&& forall|k: int|
                    from <= k < index ==> !in_bbox(lon, lat, (#[trigger] boundaries@[k]).bbox)
            },
            LocateStep::Found { index } => false,
            LocateStep::Nowhere => forall|k: int|
                from <= k < boundaries@.len() ==> !in_bbox(
                    lon,
                    lat,
                    (#[trigger] boundaries@[k]).bbox,
                ),
        },
{
    let mut i: usize = from;
    while i < boundaries.len()
        invariant
            from <= i <= boundaries@.len(),
            forall|k: int|
                from <= k < i ==> !in_bbox(lon, lat, (#[trigger] boundaries@[k]).bbox),
            search_from(boundaries@, lon, lat, from as nat) == search_from(
                boundaries@,
                lon,
                lat,
                i as nat,
            ),
        decreases boundaries@.len() - i,
    {
        if point_in_bbox(lon, lat, &boundaries[i].bbox) {
            return LocateStep::Test { index: i };
        }
        i += 1;
    }
    LocateStep::Nowhere
}

/// Starts the search for the state of a stop.  A stop without a position lies in no state.
pub fn locate(
    boundaries: &[StateBoundary],
    lon: Option<Coordinate>,
    lat: Option<Coordinate>,
) -> (step: LocateStep)
    ensures
        step == match (lon, lat) {
            (Some(lon), Some(lat)) => search_from(boundaries@, lon, lat, 0),
            _ => LocateStep::Nowhere,
        },
        match step {
            LocateStep::Test { index } => {
                &&& lon is Some && lat is Some
                &&& index < boundaries@.len()
                &&& in_bbox(lon->0, lat->0, boundaries@[index as int].bbox)
                &&& forall|k: int|
                    0 <= k < index ==> !in_bbox(
                        lon->0,
                        lat->0,
                        (#[trigger] boundaries@[k]).bbox,
                    )
            },
            LocateStep::Found { index } => false,
            LocateStep::Nowhere => lon is None || lat is None || forall|k: int|
                0 <= k < boundaries@.len() ==> !in_bbox(
                    lon->0,
                    lat->0,
                    (#[trigger] boundaries@[k]).bbox,
                ),
        },
{
    match (lon, lat) {
        (Some(lon), Some(lat)) => search(boundaries, lon, lat, 0),
        _ => LocateStep::Nowhere,
    }
}

/// The step after it was found out whether the territory of state `index` contains the stop.
pub open spec fn answered(
    boundaries: Seq<StateBoundary>,
    lon: Coordinate,
    lat: Coordinate,
    index: usize,
    inside: bool,
) -> LocateStep {
    if inside {
        LocateStep::Found { index }
    } else {
        search_from(boundaries, lon, lat, (index + 1) as nat)
    }
}

/// Goes on with the search: `inside` tells whether the territory of state `index` contains the
/// stop.
pub fn locate_further(
    boundaries: &[StateBoundary],
    lon: Coordinate,
    lat: Coordinate,
    index: usize,
    inside: bool,
) -> (step: LocateStep)
    requires
        index < boundaries@.len(),
    ensures
        step == answered(boundaries@, lon, lat, index, inside),
        match step {
            LocateStep::Test { index: next } => {
                &&& !inside
                &&& index < next < boundaries@.len()
                &&& in_bbox(lon, lat, boundaries@[next as int].bbox)
                &&& forall|k: int|
                    index < k < next ==> !in_bbox(lon, lat, (#[trigger] boundaries@[k]).bbox)
            },
            LocateStep::Found { index: found } => inside && found == index,
            LocateStep::Nowhere => !inside && forall|k: int|
                index < k < boundaries@.len() ==> !in_bbox(
                    lon,
                    lat,
                    (#[trigger] boundaries@[k]).bbox,
                ),
        },
{
    let n: usize = boundaries.len();
    assert(index < n);
    if inside {
        LocateStep::Found { index }
    } else {
        search(boundaries, lon, lat, index + 1)
    }
}

/// Goes on with the search, where `crossings` tells at which longitudes the edges around the
/// territory of state `index` cross the latitude of the stop.  There is no next step if a vertex
/// that decides has no position.
pub fn locate_by_crossings(
    boundaries: &[StateBoundary],
    lon: Coordinate,
    lat: Coordinate,
    index: usize,
    crossings: &[Vec<Vec<Coordinate>>],
) -> (step: Option<LocateStep>)
    requires
        index < boundaries@.len(),
        crossings_match(
            boundaries@[index as int].coordinates.deep_view(),
            crossings.deep_view(),
        ),
    ensures
        step == if multipolygon_located(
            lon,
            lat,
            boundaries@[index as int].coordinates.deep_view(),
            crossings.deep_view(),
        ) {
            Some(
                answered(
                    boundaries@,
                    lon,
                    lat,
                    index,
                    in_multipolygon(
                        lon,
                        lat,
                        boundaries@[index as int].coordinates.deep_view(),
                        crossings.deep_view(),
                    ),
                ),
            )
        } else {
            None
        },
        step is None <==> !multipolygon_located(
            lon,
            lat,
            boundaries@[index as int].coordinates.deep_view(),
            crossings.deep_view(),
        ),
        match step {
            Some(LocateStep::Test { index: next }) => {
                &&& !in_multipolygon(
                    lon,
                    lat,
                    boundaries@[index as int].coordinates.deep_view(),
                    crossings.deep_view(),
                )
                &&& index < next < boundaries@.len()
                &&& in_bbox(lon, lat, boundaries@[next as int].bbox)
                &&& forall|k: int|
                    index < k < next ==> !in_bbox(lon, lat, (#[trigger] boundaries@[k]).bbox)
            },
            Some(LocateStep::Found { index: found }) => in_multipolygon(
                    lon,
                    lat,
                    boundaries@[index as int].coordinates.deep_view(),
                    crossings.deep_view(),
                ) && found == index,
            Some(LocateStep::Nowhere) => !in_multipolygon(
                    lon,
                    lat,
                    boundaries@[index as int].coordinates.deep_view(),
                    crossings.deep_view(),
                ) && forall|k: int|
                index < k < boundaries@.len() ==> !in_bbox(
                    lon,
                    lat,
                    (#[trigger] boundaries@[k]).bbox,
                ),
            None => true,
        },
{
    let shape: &[Vec<Vec<Vec<Coordinate>>>] = boundaries[index].coordinates.as_slice();
    assert(shape.deep_view() =~= boundaries@[index as int].coordinates.deep_view());
    if multipolygon_is_located(lon, lat, shape, crossings) {
        let inside: bool = point_in_multipolygon(lon, lat, shape, crossings);
        Some(locate_further(boundaries, lon, lat, index, inside))
    } else {
        None
    }
}

/// The folder of the state that was found.
pub open spec fn found_state(boundaries: Seq<StateBoundary>, step: LocateStep) -> Option<Seq<char>> {
    match step {
        LocateStep::Found { index } => Some(boundaries[index as int].clean_name@),
        _ => None,
    }
}

/// The folder of the state in which the stop lies, once the search is over.
pub fn assigned_state(boundaries: &[StateBoundary], step: LocateStep) -> (state: Option<String>)
    requires
        step matches LocateStep::Found { index } ==> index < boundaries@.len(),
    ensures
        crate::text::text_of(state) == found_state(boundaries@, step),
        match step {
            LocateStep::Found { index } => state is Some && state->0@
                == boundaries@[index as int].clean_name@,
            _ => state is None,
        },
{
    match step {
        LocateStep::Found { index } => Some(boundaries[index].clean_name.clone()),
        _ => None,
    }
}

/// Where the search ends if `inside[i]` tells whether the territory of state `i` contains the stop.
pub open spec fn search_end(
    boundaries: Seq<StateBoundary>,
    lon: Coordinate,
    lat: Coordinate,
    inside: Seq<bool>,
    from: nat,
) -> LocateStep
    decreases boundaries.len() - from,
    when boundaries.len() <= usize::MAX
    via search_end_decreases
{
    match search_from(boundaries, lon, lat, from) {
        LocateStep::Test { index } => if inside[index as int] {
            LocateStep::Found { index }
        } else {
            search_end(boundaries, lon, lat, inside, (index + 1) as nat)
        },
        step => step,
    }
}

#[via_fn]
proof fn search_end_decreases(
    boundaries: Seq<StateBoundary>,
    lon: Coordinate,
    lat: Coordinate,
    inside: Seq<bool>,
    from: nat,
) {
    lemma_search_stops_at_box(boundaries, lon, lat, from);
}

/// A search asks about the first state, from `from` on, whose box contains the stop.
proof fn lemma_search_stops_at_box(
    boundaries: Seq<StateBoundary>,
    lon: Coordinate,
    lat: Coordinate,
    from: nat,
)
    requires
        boundaries.len() <= usize::MAX,
    ensures
        match search_from(boundaries, lon, lat, from) {
            LocateStep::Test { index } => {
                &&& from <= index < boundaries.len()
                &&& in_bbox(lon, lat, boundaries[index as int].bbox)
                &&& forall|k: int|
                    from <= k < index ==> !in_bbox(lon, lat, (#[trigger] boundaries[k]).bbox)
            },
            LocateStep::Found { index } => false,
            LocateStep::Nowhere => forall|k: int|
                from <= k < boundaries.len() ==> !in_bbox(
                    lon,
                    lat,
                    (#[trigger] boundaries[k]).bbox,
                ),
        },
    decreases boundaries.len() - from,
{
    if from < boundaries.len() && !in_bbox(lon, lat, boundaries[from as int].bbox) {
        lemma_search_stops_at_box(boundaries, lon, lat, from + 1);
    }
}

/// Whether state `i` is the first, from `from` on, whose box and territory contain the stop.
pub open spec fn first_containing(
    boundaries: Seq<StateBoundary>,
    lon: Coordinate,
    lat: Coordinate,
    inside: Seq<bool>,
    from: nat,
    i: int,
) -> bool {
    &&& from <= i < boundaries.len()
    &&& in_bbox(lon, lat, boundaries[i].bbox) && inside[i]
    &&& forall|k: int|
        from <= k < i ==> !(in_bbox(lon, lat, (#[trigger] boundaries[k]).bbox) && inside[k])
}

/// The search ends at the first state whose box and territory contain the stop, and nowhere if
/// there is none.
pub proof fn law_search_finds_first_state(
    boundaries: Seq<StateBoundary>,
    lon: Coordinate,
    lat: Coordinate,
    inside: Seq<bool>,
    from: nat,
)
    requires
        boundaries.len() <= usize::MAX,
    ensures
        match search_end(boundaries, lon, lat, inside, from) {
            LocateStep::Test { index } => false,
            LocateStep::Found { index } => first_containing(
                boundaries,
                lon,
                lat,
                inside,
                from,
                index as int,
            ),
            LocateStep::Nowhere => forall|k: int|
                from <= k < boundaries.len() ==> !(in_bbox(
                    lon,
                    lat,
                    (#[trigger] boundaries[k]).bbox,
                ) && inside[k]),
        },
    decreases boundaries.len() - from,
{
    lemma_search_stops_at_box(boundaries, lon, lat, from);
    if let LocateStep::Test { index } = search_from(boundaries, lon, lat, from) {
        if !inside[index as int] {
            law_search_finds_first_state(boundaries, lon, lat, inside, (index + 1) as nat);
        }
    }
}

/// Whether `inside` tells of each state if its territory contains the stop, and the box of each
/// state is the one around its territory.
pub open spec fn territories_answered(
    boundaries: Seq<StateBoundary>,
    lon: Coordinate,
    lat: Coordinate,
    crossings: Seq<Seq<Seq<Seq<Coordinate>>>>,
    inside: Seq<bool>,
) -> bool {
    forall|k: int|
        0 <= k < boundaries.len() ==> {
            let territory = (#[trigger] boundaries[k]).coordinates.deep_view();
            &&& bounds(positions(territory), boundaries[k].bbox)
            &&& inside[k] == in_multipolygon(lon, lat, territory, crossings[k])
        }
}

/// The boxes lose no state: the search ends at the first state whose territory contains the stop,
/// and nowhere if there is none.
pub proof fn law_boxes_lose_no_state(
    boundaries: Seq<StateBoundary>,
    lon: Coordinate,
    lat: Coordinate,
    crossings: Seq<Seq<Seq<Seq<Coordinate>>>>,
    inside: Seq<bool>,
)
    requires
        boundaries.len() <= usize::MAX,
        territories_answered(boundaries, lon, lat, crossings, inside),
        forall|k: int|
            0 <= k < boundaries.len() ==> {
                let territory = (#[trigger] boundaries[k]).coordinates.deep_view();
                &&& all_numbers(territory)
                &&& outer_crossings_between(lat, territory, crossings[k])
            },
    ensures
        match search_end(boundaries, lon, lat, inside, 0) {
            LocateStep::Test { index } => false,
            LocateStep::Found { index } => {
                &&& index < boundaries.len()
                &&& inside[index as int]
                &&& forall|k: int| 0 <= k < index ==> !#[trigger] inside[k]
            },
            LocateStep::Nowhere => forall|k: int|
                0 <= k < boundaries.len() ==> !#[trigger] inside[k],
        },
{
    law_search_finds_first_state(boundaries, lon, lat, inside, 0);
    assert forall|k: int| 0 <= k < boundaries.len() && #[trigger] inside[k] implies in_bbox(
        lon,
        lat,
        boundaries[k].bbox,
    ) by {
        law_contained_point_is_in_bbox(
            lon,
            lat,
            boundaries[k].coordinates.deep_view(),
            crossings[k],
            boundaries[k].bbox,
        );
    }
}

/// What follows a territory's answer.  A yes ends the search at that state; a no leads on to the
/// first later state whose box contains the stop, and to the end only if no later box does.
pub proof fn law_search_goes_on_after_a_no(
    boundaries: Seq<StateBoundary>,
    lon: Coordinate,
    lat: Coordinate,
    index: usize,
    inside: bool,
)
    requires
        boundaries.len() <= usize::MAX,
        index < boundaries.len(),
    ensures
        inside ==> answered(boundaries, lon, lat, index, inside) == (LocateStep::Found { index }),
        !inside ==> match answered(boundaries, lon, lat, index, inside) {
            LocateStep::Test { index: next } => {
                &&& index < next < boundaries.len()
                &&& in_bbox(lon, lat, boundaries[next as int].bbox)
                &&& forall|k: int|
                    index < k < next ==> !in_bbox(lon, lat, (#[trigger] boundaries[k]).bbox)
            },
            LocateStep::Found { index: found } => false,
            LocateStep::Nowhere => forall|k: int|
                index < k < boundaries.len() ==> !in_bbox(
                    lon,
                    lat,
                    (#[trigger] boundaries[k]).bbox,
                ),
        },
{
    lemma_search_stops_at_box(boundaries, lon, lat, (index + 1) as nat);
}

/// A search step by step, from the first step through the answers of the states it asks about to a
/// step that asks no more, ends at the first state whose box and territory contain the stop, and
/// nowhere only if there is none.
pub proof fn law_steps_lead_to_the_first_state(
    boundaries: Seq<StateBoundary>,
    lon: Coordinate,
    lat: Coordinate,
    inside: Seq<bool>,
    steps: Seq<LocateStep>,
)
    requires
        boundaries.len() <= usize::MAX,
        steps.len() > 0,
        steps[0] == search_from(boundaries, lon, lat, 0),
        forall|i: int|
            0 <= i < steps.len() - 1 ==> match #[trigger] steps[i] {
                LocateStep::Test { index } => steps[i + 1] == answered(
                    boundaries,
                    lon,
                    lat,
                    index,
                    inside[index as int],
                ),
                _ => false,
            },
        !(steps.last() is Test),
    ensures
        match steps.last() {
            LocateStep::Test { index } => false,
            LocateStep::Found { index } => {
                &&& index < boundaries.len()
                &&& in_bbox(lon, lat, boundaries[index as int].bbox) && inside[index as int]
                &&& forall|k: int|
                    0 <= k < index ==> !(in_bbox(lon, lat, (#[trigger] boundaries[k]).bbox)
                        && inside[k])
            },
            LocateStep::Nowhere => forall|k: int|
                0 <= k < boundaries.len() ==> !(in_bbox(lon, lat, (#[trigger] boundaries[k]).bbox)
                    && inside[k]),
        },
{
    lemma_steps(boundaries, lon, lat, inside, steps, (steps.len() - 1) as nat);
}

/// Where step `i` of a search stands.
proof fn lemma_steps(
    boundaries: Seq<StateBoundary>,
    lon: Coordinate,
    lat: Coordinate,
    inside: Seq<bool>,
    steps: Seq<LocateStep>,
    i: nat,
)
    requires
        boundaries.len() <= usize::MAX,
        i < steps.len(),
        steps[0] == search_from(boundaries, lon, lat, 0),
        forall|k: int|
            0 <= k < steps.len() - 1 ==> match #[trigger] steps[k] {
                LocateStep::Test { index } => steps[k + 1] == answered(
                    boundaries,
                    lon,
                    lat,
                    index,
                    inside[index as int],
                ),
                _ => false,
            },
    ensures
        match steps[i as int] {
            LocateStep::Test { index } => {
                &&& index < boundaries.len()
                &&& in_bbox(lon, lat, boundaries[index as int].bbox)
                &&& forall|k: int|
                    0 <= k < index ==> !(in_bbox(lon, lat, (#[trigger] boundaries[k]).bbox)
                        && inside[k])
            },
            LocateStep::Found { index } => {
                &&& index < boundaries.len()
                &&& in_bbox(lon, lat, boundaries[index as int].bbox) && inside[index as int]
                &&& forall|k: int|
                    0 <= k < index ==> !(in_bbox(lon, lat, (#[trigger] boundaries[k]).bbox)
                        && inside[k])
            },
            LocateStep::Nowhere => forall|k: int|
                0 <= k < boundaries.len() ==> !(in_bbox(lon, lat, (#[trigger] boundaries[k]).bbox)
                    && inside[k]),
        },
    decreases i,
{
    if i == 0 {
        lemma_search_stops_at_box(boundaries, lon, lat, 0);
    } else {
        lemma_steps(boundaries, lon, lat, inside, steps, (i - 1) as nat);
        assert(steps[i - 1] is Test);
        let index = steps[i - 1]->Test_index;
        law_search_goes_on_after_a_no(boundaries, lon, lat, index, inside[index as int]);
    }
}

/// A boundary has the name of its feature, the folder that the name gives, every polygon of the
/// feature in its place, and the box of those polygons.
pub proof fn law_boundary_is_that_of_its_feature(boundary: StateBoundary, feature: Feature)
    requires
        boundary.describes(feature),
    ensures
        boundary.name@ == feature.name@,
        boundary.clean_name@ == folder_name(lowercase(feature.name@)),
        match feature.geometry {
            Geometry::Polygon { coordinates } => {
                &&& boundary.coordinates@.len() == 1
                &&& boundary.coordinates@[0].deep_view() == coordinates.deep_view()
            },
            Geometry::MultiPolygon { coordinates } => {
                &&& boundary.coordinates@.len() == coordinates@.len()
                &&& forall|p: int|
                    0 <= p < coordinates@.len() ==> (
                    #[trigger] boundary.coordinates@[p]).deep_view() == coordinates@[p].deep_view()
            },
        },
        bounds(positions(boundary.coordinates.deep_view()), boundary.bbox),
{
    assert(boundary.coordinates.deep_view().len() == boundary.coordinates@.len());
    match feature.geometry {
        Geometry::Polygon { coordinates } => {
            assert(boundary.coordinates.deep_view()[0] == boundary.coordinates@[0].deep_view());
        },
        Geometry::MultiPolygon { coordinates } => {
            assert forall|p: int| 0 <= p < coordinates@.len() implies (
            #[trigger] boundary.coordinates@[p]).deep_view() == coordinates@[p].deep_view() by {
                assert(boundary.coordinates.deep_view()[p]
                    == boundary.coordinates@[p].deep_view());
                assert(coordinates.deep_view()[p] == coordinates@[p].deep_view());
            }
        },
    }
}

} // verus!
