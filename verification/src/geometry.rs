//! Polygons on the map: bounding boxes and containment.

use crate::coordinate::{Coordinate, INFINITE};
use vstd::prelude::*;

verus! {

/// The bit pattern of negative infinity.
pub const NEGATIVE_INFINITE: u64 = 0xfff0_0000_0000_0000;

/// A point: longitude, latitude, and whatever else the source gave.
pub type PointModel = Seq<Coordinate>;

/// The vertices of a closed line; the last is joined to the first.
pub type RingModel = Seq<PointModel>;

/// An outer ring, followed by its holes.
pub type PolygonModel = Seq<RingModel>;

pub type MultiPolygonModel = Seq<PolygonModel>;

/// Least longitude, greatest longitude, least latitude, greatest latitude.
pub type BoundingBox = (Coordinate, Coordinate, Coordinate, Coordinate);

/// The positions at which an edge ends and starts, each a longitude and a latitude.
pub type EdgeEnds = ((Coordinate, Coordinate), (Coordinate, Coordinate));

/// The shape of a state's territory.
#[allow(inconsistent_fields)]
#[derive(Debug)]
pub enum Geometry {
    Polygon { coordinates: Vec<Vec<Vec<Coordinate>>> },
    MultiPolygon { coordinates: Vec<Vec<Vec<Vec<Coordinate>>>> },
}

impl Geometry {
    /// The polygons that make up the shape.
    pub open spec fn polygons(self) -> MultiPolygonModel {
        match self {
            Geometry::Polygon { coordinates } => seq![coordinates.deep_view()],
            Geometry::MultiPolygon { coordinates } => coordinates.deep_view(),
        }
    }

    /// The shape as a list of polygons; a single polygon is a list of one.
    pub fn to_multipolygon(&self) -> (result: Vec<Vec<Vec<Vec<Coordinate>>>>)
        ensures
            result.deep_view() == self.polygons(),
            match self {
                Geometry::Polygon { coordinates } => {
                    &&& result@.len() == 1
                    &&& result@[0].deep_view() == coordinates.deep_view()
                },
                Geometry::MultiPolygon { coordinates } => {
                    &&& result@.len() == coordinates@.len()
                    &&& forall|p: int|
                        0 <= p < coordinates@.len() ==> (#[trigger] result@[p]).deep_view()
                            == coordinates@[p].deep_view()
                },
            },
    {
        match self {
            Geometry::Polygon { coordinates } => {
                let mut result: Vec<Vec<Vec<Vec<Coordinate>>>> = Vec::new();
                result.push(copy_polygon(coordinates));
                assert(result.deep_view() =~= seq![coordinates.deep_view()]);
                result
            },
            Geometry::MultiPolygon { coordinates } => copy_multipolygon(coordinates),
        }
    }
}

fn copy_point(point: &Vec<Coordinate>) -> (result: Vec<Coordinate>)
    ensures
        result.deep_view() == point.deep_view(),
{
    let mut result: Vec<Coordinate> = Vec::new();
    let mut i: usize = 0;
    while i < point.len()
        invariant
            i <= point.len(),
            result.len() == i,
            forall|k: int|
                0 <= k < i ==> (#[trigger] result@[k]).deep_view() == point@[k].deep_view(),
        decreases point.len() - i,
    {
        result.push(point[i]);
        i += 1;
    }
    assert(result.deep_view() =~= point.deep_view());
    result
}

fn copy_ring(ring: &Vec<Vec<Coordinate>>) -> (result: Vec<Vec<Coordinate>>)
    ensures
        result.deep_view() == ring.deep_view(),
{
    let mut result: Vec<Vec<Coordinate>> = Vec::new();
    let mut i: usize = 0;
    while i < ring.len()
        invariant
            i <= ring.len(),
            result.len() == i,
            forall|k: int|
                0 <= k < i ==> (#[trigger] result@[k]).deep_view() == ring@[k].deep_view(),
        decreases ring.len() - i,
    {
        result.push(copy_point(&ring[i]));
        i += 1;
    }
    assert(result.deep_view() =~= ring.deep_view());
    result
}

fn copy_polygon(polygon: &Vec<Vec<Vec<Coordinate>>>) -> (result: Vec<Vec<Vec<Coordinate>>>)
    ensures
        result.deep_view() == polygon.deep_view(),
{
    let mut result: Vec<Vec<Vec<Coordinate>>> = Vec::new();
    let mut i: usize = 0;
    while i < polygon.len()
        invariant
            i <= polygon.len(),
            result.len() == i,
            forall|k: int|
                0 <= k < i ==> (#[trigger] result@[k]).deep_view() == polygon@[k].deep_view(),
        decreases polygon.len() - i,
    {
        result.push(copy_ring(&polygon[i]));
        i += 1;
    }
    assert(result.deep_view() =~= polygon.deep_view());
    result
}

fn copy_multipolygon(multipolygon: &Vec<Vec<Vec<Vec<Coordinate>>>>) -> (result: Vec<
    Vec<Vec<Vec<Coordinate>>>,
>)
    ensures
        result.deep_view() == multipolygon.deep_view(),
        result@.len() == multipolygon@.len(),
        forall|p: int|
            0 <= p < multipolygon@.len() ==> (#[trigger] result@[p]).deep_view()
                == multipolygon@[p].deep_view(),
{
    let mut result: Vec<Vec<Vec<Vec<Coordinate>>>> = Vec::new();
    let mut i: usize = 0;
    while i < multipolygon.len()
        invariant
            i <= multipolygon.len(),
            result.len() == i,
            forall|k: int|
                0 <= k < i ==> (#[trigger] result@[k]).deep_view() == multipolygon@[k].deep_view(),
        decreases multipolygon.len() - i,
    {
        result.push(copy_polygon(&multipolygon[i]));
        i += 1;
    }
    assert(result.deep_view() =~= multipolygon.deep_view());
    result
}

/// The vertex before vertex `i` on a ring of `n` vertices.
pub open spec fn previous_vertex(i: int, n: int) -> int {
    if i == 0 {
        n - 1
    } else {
        i - 1
    }
}

/// Whether edge `i`, which ends in vertex `i`, passes from one side of latitude `y` to the other.
pub open spec fn edge_straddles(y: Coordinate, ring: RingModel, i: int) -> bool {
    y.below(ring[i][1]) != y.below(ring[previous_vertex(i, ring.len() as int)][1])
}

/// Whether the ray from `(x, y)` eastwards meets edge `i`, which crosses latitude `y` at longitude
/// `crossings[i]`.
pub open spec fn ray_meets_edge(
    x: Coordinate,
    y: Coordinate,
    ring: RingModel,
    crossings: Seq<Coordinate>,
    i: int,
) -> bool {
    edge_straddles(y, ring, i) && x.below(crossings[i])
}

/// How many of the first `n` edges the ray meets.
pub open spec fn edges_met(
    x: Coordinate,
    y: Coordinate,
    ring: RingModel,
    crossings: Seq<Coordinate>,
    n: nat,
) -> nat
    decreases n,
{
    if n == 0 {
        0
    } else {
        edges_met(x, y, ring, crossings, (n - 1) as nat) + if ray_meets_edge(
            x,
            y,
            ring,
            crossings,
            n - 1,
        ) {
            1nat
        } else {
            0nat
        }
    }
}

/// A point lies in a ring of three or more vertices if its ray meets an odd number of edges.
pub open spec fn in_ring(
    x: Coordinate,
    y: Coordinate,
    ring: RingModel,
    crossings: Seq<Coordinate>,
) -> bool {
    ring.len() >= 3 && edges_met(x, y, ring, crossings, ring.len()) % 2 == 1
}

/// A point lies in a polygon if it lies in the outer ring and in none of the holes.
pub open spec fn in_polygon(
    x: Coordinate,
    y: Coordinate,
    polygon: PolygonModel,
    crossings: Seq<Seq<Coordinate>>,
) -> bool {
    &&& polygon.len() > 0
    &&& in_ring(x, y, polygon[0], crossings[0])
    &&& forall|k: int|
        1 <= k < polygon.len() ==> !#[trigger] in_ring(x, y, polygon[k], crossings[k])
}

/// A point lies in a list of polygons if it lies in one of them.
pub open spec fn in_multipolygon(
    x: Coordinate,
    y: Coordinate,
    multipolygon: MultiPolygonModel,
    crossings: Seq<Seq<Seq<Coordinate>>>,
) -> bool {
    exists|p: int|
        0 <= p < multipolygon.len() && #[trigger] in_polygon(x, y, multipolygon[p], crossings[p])
}

/// Whether every vertex of the ring has a longitude and a latitude.
pub open spec fn ring_located(ring: RingModel) -> bool {
    ring.len() >= 3 ==> forall|i: int| 0 <= i < ring.len() ==> (#[trigger] ring[i]).len() >= 2
}

/// Whether every ring that decides on `(x, y)` is located.  A hole decides only on points in the
/// outer ring that lie in no earlier hole.
pub open spec fn polygon_located(
    x: Coordinate,
    y: Coordinate,
    polygon: PolygonModel,
    crossings: Seq<Seq<Coordinate>>,
) -> bool {
    polygon.len() > 0 ==> {
        &&& ring_located(polygon[0])
        &&& in_ring(x, y, polygon[0], crossings[0]) ==> forall|k: int|
            1 <= k < polygon.len() && no_hole_before(x, y, polygon, crossings, k)
                ==> #[trigger] ring_located(polygon[k])
    }
}

/// Whether none of the holes before hole `k` contains the point.
pub open spec fn no_hole_before(
    x: Coordinate,
    y: Coordinate,
    polygon: PolygonModel,
    crossings: Seq<Seq<Coordinate>>,
    k: int,
) -> bool {
    forall|h: int| 1 <= h < k ==> !#[trigger] in_ring(x, y, polygon[h], crossings[h])
}

/// Whether every polygon that decides on `(x, y)` is located.  A polygon decides only on points
/// that lie in no earlier one.
pub open spec fn multipolygon_located(
    x: Coordinate,
    y: Coordinate,
    multipolygon: MultiPolygonModel,
    crossings: Seq<Seq<Seq<Coordinate>>>,
) -> bool {
    forall|p: int|
        0 <= p < multipolygon.len() && no_polygon_before(x, y, multipolygon, crossings, p)
            ==> #[trigger] polygon_located(x, y, multipolygon[p], crossings[p])
}

/// Whether none of the polygons before polygon `p` contains the point.
pub open spec fn no_polygon_before(
    x: Coordinate,
    y: Coordinate,
    multipolygon: MultiPolygonModel,
    crossings: Seq<Seq<Seq<Coordinate>>>,
    p: int,
) -> bool {
    forall|q: int| 0 <= q < p ==> !#[trigger] in_polygon(x, y, multipolygon[q], crossings[q])
}

/// Whether there is one crossing for each edge of each ring.
pub open spec fn polygon_crossings_match(
    polygon: PolygonModel,
    crossings: Seq<Seq<Coordinate>>,
) -> bool {
    &&& crossings.len() == polygon.len()
    &&& forall|k: int|
        #![trigger polygon[k]]
        #![trigger crossings[k]]
        0 <= k < polygon.len() ==> crossings[k].len() == polygon[k].len()
}

/// Whether there is one crossing for each edge of each ring of each polygon.
pub open spec fn crossings_match(
    multipolygon: MultiPolygonModel,
    crossings: Seq<Seq<Seq<Coordinate>>>,
) -> bool {
    &&& crossings.len() == multipolygon.len()
    &&& forall|p: int|
        #![trigger multipolygon[p]]
        #![trigger crossings[p]]
        0 <= p < multipolygon.len() ==> polygon_crossings_match(multipolygon[p], crossings[p])
}

/// The positions of the two vertices that bound edge `i`: vertex `i`, then the one before it.
/// There are none unless both vertices have a longitude and a latitude.
pub open spec fn edge_ends(ring: RingModel, i: int) -> Option<EdgeEnds> {
    let here = ring[i];
    let before = ring[previous_vertex(i, ring.len() as int)];
    if here.len() >= 2 && before.len() >= 2 {
        Some(((here[0], here[1]), (before[0], before[1])))
    } else {
        None
    }
}

/// The ends of each edge of the ring, in order.
pub fn ring_edges(ring: &[Vec<Coordinate>]) -> (edges: Vec<Option<EdgeEnds>>)
    ensures
        edges@.len() == ring.deep_view().len(),
        forall|i: int|
            0 <= i < edges@.len() ==> #[trigger] edges@[i] == edge_ends(ring.deep_view(), i),
        forall|i: int|
            0 <= i < edges@.len() ==> {
                let before = if i == 0 {
                    ring@.len() - 1
                } else {
                    i - 1
                };
                match #[trigger] edges@[i] {
                    Some((end, start)) => {
                        &&& ring@[i]@.len() >= 2 && ring@[before]@.len() >= 2
                        &&& end == (ring@[i]@[0], ring@[i]@[1])
                        &&& start == (ring@[before]@[0], ring@[before]@[1])
                    },
                    None => ring@[i]@.len() < 2 || ring@[before]@.len() < 2,
                }
            },
{
    let n: usize = ring.len();
    let ghost model = ring.deep_view();
    let mut edges: Vec<Option<EdgeEnds>> = Vec::new();
    let mut i: usize = 0;
    while i < n
        invariant
            i <= n,
            n == ring@.len(),
            model == ring.deep_view(),
            edges@.len() == i,
            forall|k: int| 0 <= k < i ==> #[trigger] edges@[k] == edge_ends(model, k),
            forall|k: int|
                0 <= k < i ==> {
                    let before = if k == 0 {
                        n - 1
                    } else {
                        k - 1
                    };
                    match #[trigger] edges@[k] {
                        Some((end, start)) => {
                            &&& ring@[k]@.len() >= 2 && ring@[before]@.len() >= 2
                            &&& end == (ring@[k]@[0], ring@[k]@[1])
                            &&& start == (ring@[before]@[0], ring@[before]@[1])
                        },
                        None => ring@[k]@.len() < 2 || ring@[before]@.len() < 2,
                    }
                },
        decreases n - i,
    {
        let j: usize = if i == 0 {
            n - 1
        } else {
            i - 1
        };
        let here: &Vec<Coordinate> = &ring[i];
        let before: &Vec<Coordinate> = &ring[j];
        assert(model[i as int] == here.deep_view());
        assert(model[j as int] == before.deep_view());
        if here.len() >= 2 && before.len() >= 2 {
            edges.push(Some(((here[0], here[1]), (before[0], before[1]))));
        } else {
            edges.push(None);
        }
        i += 1;
    }
    edges
}

/// Those of the first `n` edges that the ray meets.
spec fn met_edges(
    x: Coordinate,
    y: Coordinate,
    ring: RingModel,
    crossings: Seq<Coordinate>,
    n: nat,
) -> Set<int> {
    Set::new(|i: int| 0 <= i < n && ray_meets_edge(x, y, ring, crossings, i))
}

proof fn lemma_met_edges(
    x: Coordinate,
    y: Coordinate,
    ring: RingModel,
    crossings: Seq<Coordinate>,
    n: nat,
)
    ensures
        met_edges(x, y, ring, crossings, n).finite(),
        met_edges(x, y, ring, crossings, n).len() == edges_met(x, y, ring, crossings, n),
    decreases n,
{
    let edges = met_edges(x, y, ring, crossings, n);
    if n == 0 {
        assert(edges =~= Set::empty());
    } else {
        let before = met_edges(x, y, ring, crossings, (n - 1) as nat);
        lemma_met_edges(x, y, ring, crossings, (n - 1) as nat);
        if ray_meets_edge(x, y, ring, crossings, n - 1) {
            assert(edges =~= before.insert(n - 1));
        } else {
            assert(edges =~= before);
        }
    }
}

/// Decides whether `(x, y)` lies in the ring, where `crossings[i]` is the longitude at which the
/// line through edge `i` (from the vertex before `i` to vertex `i`) crosses latitude `y`.
pub fn point_in_ring(
    x: Coordinate,
    y: Coordinate,
    ring: &[Vec<Coordinate>],
    crossings: &[Coordinate],
) -> (inside: bool)
    requires
        ring_located(ring.deep_view()),
        crossings.deep_view().len() == ring.deep_view().len(),
    ensures
        inside == in_ring(x, y, ring.deep_view(), crossings.deep_view()),
        inside <==> ring@.len() >= 3 && Set::<int>::new(
            |i: int|
                0 <= i < ring@.len() && y.below(ring@[i]@[1]) != y.below(
                    ring@[if i == 0 {
                        ring@.len() - 1
                    } else {
                        i - 1
                    }]@[1],
                ) && x.below(crossings@[i]),
        ).len() % 2 == 1,
{
    let mut inside: bool = false;
    let n: usize = ring.len();
    if n < 3 {
        return false;
    }
    let ghost model = ring.deep_view();
    let ghost met = crossings.deep_view();
    proof {
        lemma_met_edges(x, y, model, met, n as nat);
        let counted = Set::<int>::new(
            |i: int|
                0 <= i < ring@.len() && y.below(ring@[i]@[1]) != y.below(
                    ring@[if i == 0 {
                        ring@.len() - 1
                    } else {
                        i - 1
                    }]@[1],
                ) && x.below(crossings@[i]),
        );
        assert forall|i: int| counted.contains(i) <==> met_edges(
            x,
            y,
            model,
            met,
            n as nat,
        ).contains(i) by {
            if 0 <= i < n {
                let j = previous_vertex(i, n as int);
                assert(model[i] == ring@[i].deep_view());
                assert(model[j] == ring@[j].deep_view());
                assert(model[i].len() >= 2 && model[j].len() >= 2);
                assert(model[i][1] == ring@[i]@[1]);
                assert(model[j][1] == ring@[j]@[1]);
                assert(met[i] == crossings@[i]);
            }
        }
        assert(counted =~= met_edges(x, y, model, met, n as nat));
    }
    let mut j: usize = n - 1;
    let mut i: usize = 0;
    while i < n
        invariant
            n >= 3,
            n == ring@.len(),
            n == crossings@.len(),
            i <= n,
            i < n ==> j == previous_vertex(i as int, n as int),
            model == ring.deep_view(),
            met == crossings.deep_view(),
            ring_located(model),
            inside == (edges_met(x, y, model, met, i as nat) % 2 == 1),
        decreases n - i,
    {
        assert(model[i as int] == ring@[i as int].deep_view());
        assert(model[j as int] == ring@[j as int].deep_view());
        let yi: Coordinate = ring[i][1];
        let yj: Coordinate = ring[j][1];
        assert(model[i as int][1] == yi);
        assert(model[j as int][1] == yj);
        if y.is_below(yi) != y.is_below(yj) && x.is_below(crossings[i]) {
            inside = !inside;
        }
        j = i;
        i += 1;
    }
    inside
}

/// Decides whether `(lon, lat)` lies in the polygon.
pub fn point_in_polygon(
    lon: Coordinate,
    lat: Coordinate,
    polygon: &[Vec<Vec<Coordinate>>],
    crossings: &[Vec<Coordinate>],
) -> (inside: bool)
    requires
        polygon_crossings_match(polygon.deep_view(), crossings.deep_view()),
        polygon_located(lon, lat, polygon.deep_view(), crossings.deep_view()),
    ensures
        inside == in_polygon(lon, lat, polygon.deep_view(), crossings.deep_view()),
        inside <==> {
            &&& polygon@.len() > 0
            &&& in_ring(lon, lat, polygon@[0].deep_view(), crossings@[0].deep_view())
            &&& forall|k: int|
                1 <= k < polygon@.len() ==> !in_ring(
                    lon,
                    lat,
                    (#[trigger] polygon@[k]).deep_view(),
                    crossings@[k].deep_view(),
                )
        },
{
    let n: usize = polygon.len();
    if n == 0 {
        return false;
    }
    let ghost model = polygon.deep_view();
    let ghost met = crossings.deep_view();
    assert forall|k: int| 0 <= k < n implies model[k] == (#[trigger] polygon@[k]).deep_view()
        && met[k] == crossings@[k].deep_view() by {
        assert(model[k].len() == met[k].len());
    }
    assert(model[0] == polygon@[0].deep_view());
    assert(met[0] == crossings@[0].deep_view());
    if !point_in_ring(lon, lat, polygon[0].as_slice(), crossings[0].as_slice()) {
        return false;
    }
    let mut k: usize = 1;
    while k < n
        invariant
            1 <= k <= n,
            n == polygon@.len(),
            model == polygon.deep_view(),
            met == crossings.deep_view(),
            polygon_crossings_match(model, met),
            polygon_located(lon, lat, model, met),
            in_ring(lon, lat, model[0], met[0]),
            no_hole_before(lon, lat, model, met, k as int),
        decreases n - k,
    {
        assert(model[k as int] == polygon@[k as int].deep_view());
        assert(met[k as int] == crossings@[k as int].deep_view());
        if point_in_ring(lon, lat, polygon[k].as_slice(), crossings[k].as_slice()) {
            return false;
        }
        k += 1;
    }
    true
}

/// Decides whether `(lon, lat)` lies in one of the polygons.
pub fn point_in_multipolygon(
    lon: Coordinate,
    lat: Coordinate,
    multipolygon: &[Vec<Vec<Vec<Coordinate>>>],
    crossings: &[Vec<Vec<Coordinate>>],
) -> (inside: bool)
    requires
        crossings_match(multipolygon.deep_view(), crossings.deep_view()),
        multipolygon_located(lon, lat, multipolygon.deep_view(), crossings.deep_view()),
    ensures
        inside == in_multipolygon(lon, lat, multipolygon.deep_view(), crossings.deep_view()),
        inside <==> exists|p: int|
            0 <= p < multipolygon@.len() && in_polygon(
                lon,
                lat,
                (#[trigger] multipolygon@[p]).deep_view(),
                crossings@[p].deep_view(),
            ),
{
    let n: usize = multipolygon.len();
    let ghost model = multipolygon.deep_view();
    let ghost met = crossings.deep_view();
    assert forall|p: int| 0 <= p < n implies model[p] == (#[trigger] multipolygon@[p]).deep_view()
        && met[p] == crossings@[p].deep_view() by {
        assert(polygon_crossings_match(model[p], met[p]));
    }
    let mut p: usize = 0;
    while p < n
        invariant
            p <= n,
            n == multipolygon@.len(),
            model == multipolygon.deep_view(),
            met == crossings.deep_view(),
            crossings_match(model, met),
            multipolygon_located(lon, lat, model, met),
            no_polygon_before(lon, lat, model, met, p as int),
        decreases n - p,
    {
        assert(model[p as int] == multipolygon@[p as int].deep_view());
        assert(met[p as int] == crossings@[p as int].deep_view());
        assert(polygon_located(lon, lat, model[p as int], met[p as int]));
        if point_in_polygon(lon, lat, multipolygon[p].as_slice(), crossings[p].as_slice()) {
            return true;
        }
        p += 1;
    }
    false
}

/// The positions of the located vertices of a ring, in order.
pub open spec fn ring_positions(ring: RingModel) -> Seq<(Coordinate, Coordinate)>
    decreases ring.len(),
{
    if ring.len() == 0 {
        Seq::empty()
    } else if ring.last().len() >= 2 {
        ring_positions(ring.drop_last()).push((ring.last()[0], ring.last()[1]))
    } else {
        ring_positions(ring.drop_last())
    }
}

/// The positions of the located vertices of a polygon, in order.
pub open spec fn polygon_positions(polygon: PolygonModel) -> Seq<(Coordinate, Coordinate)>
    decreases polygon.len(),
{
    if polygon.len() == 0 {
        Seq::empty()
    } else {
        polygon_positions(polygon.drop_last()) + ring_positions(polygon.last())
    }
}

/// The positions of the located vertices of a list of polygons, in order.
pub open spec fn positions(multipolygon: MultiPolygonModel) -> Seq<(Coordinate, Coordinate)>
    decreases multipolygon.len(),
{
    if multipolygon.len() == 0 {
        Seq::empty()
    } else {
        positions(multipolygon.drop_last()) + polygon_positions(multipolygon.last())
    }
}

pub open spec fn longitudes(of: Seq<(Coordinate, Coordinate)>) -> Seq<Coordinate> {
    of.map_values(|position: (Coordinate, Coordinate)| position.0)
}

pub open spec fn latitudes(of: Seq<(Coordinate, Coordinate)>) -> Seq<Coordinate> {
    of.map_values(|position: (Coordinate, Coordinate)| position.1)
}

/// Whether no number in `values` is smaller than the one at `k`, and none before `k` equals it.
pub open spec fn first_least_at(values: Seq<Coordinate>, k: int) -> bool {
    &&& values[k].is_number()
    &&& forall|j: int| 0 <= j < values.len() ==> !(#[trigger] values[j]).below(values[k])
    &&& forall|j: int|
        0 <= j < k && (#[trigger] values[j]).is_number() ==> values[k].below(values[j])
}

/// Whether no number in `values` is greater than the one at `k`, and none before `k` equals it.
pub open spec fn first_greatest_at(values: Seq<Coordinate>, k: int) -> bool {
    &&& values[k].is_number()
    &&& forall|j: int| 0 <= j < values.len() ==> !values[k].below(#[trigger] values[j])
    &&& forall|j: int|
        0 <= j < k && (#[trigger] values[j]).is_number() ==> values[j].below(values[k])
}

/// Whether `bound` is the first of the least numbers in `values`, or infinity where no number in
/// them is smaller than that.
pub open spec fn is_least(values: Seq<Coordinate>, bound: Coordinate) -> bool {
    ||| bound == (Coordinate { bits: INFINITE }) && forall|j: int|
        0 <= j < values.len() ==> !(#[trigger] values[j]).below(bound)
    ||| exists|k: int|
        0 <= k < values.len() && values[k] == bound && #[trigger] first_least_at(values, k)
}

/// Whether `bound` is the first of the greatest numbers in `values`, or negative infinity where no
/// number in them is greater than that.
pub open spec fn is_greatest(values: Seq<Coordinate>, bound: Coordinate) -> bool {
    ||| bound == (Coordinate { bits: NEGATIVE_INFINITE }) && forall|j: int|
        0 <= j < values.len() ==> !bound.below(#[trigger] values[j])
    ||| exists|k: int|
        0 <= k < values.len() && values[k] == bound && #[trigger] first_greatest_at(values, k)
}

/// Whether the box is spanned by the extreme longitudes and latitudes of the positions.
pub open spec fn bounds(of: Seq<(Coordinate, Coordinate)>, bbox: BoundingBox) -> bool {
    &&& is_least(longitudes(of), bbox.0)
    &&& is_greatest(longitudes(of), bbox.1)
    &&& is_least(latitudes(of), bbox.2)
    &&& is_greatest(latitudes(of), bbox.3)
}

/// Whether the box, edges included, contains `(lon, lat)`.
pub open spec fn in_bbox(lon: Coordinate, lat: Coordinate, bbox: BoundingBox) -> bool {
    &&& lon.at_least(bbox.0)
    &&& bbox.1.at_least(lon)
    &&& lat.at_least(bbox.2)
    &&& bbox.3.at_least(lat)
}

proof fn lemma_least_of_push(values: Seq<Coordinate>, bound: Coordinate, value: Coordinate)
    requires
        is_least(values, bound),
    ensures
        is_least(values.push(value), if value.below(bound) { value } else { bound }),
{
    let longer = values.push(value);
    if value.below(bound) {
        if bound == (Coordinate { bits: INFINITE }) && forall|j: int|
            0 <= j < values.len() ==> !(#[trigger] values[j]).below(bound) {
            assert(first_least_at(longer, values.len() as int));
        } else {
            let k = choose|k: int|
                0 <= k < values.len() && values[k] == bound && #[trigger] first_least_at(values, k);
            assert(first_least_at(longer, values.len() as int));
        }
    } else if !(bound == (Coordinate { bits: INFINITE }) && forall|j: int|
        0 <= j < values.len() ==> !(#[trigger] values[j]).below(bound)) {
        let k = choose|k: int|
            0 <= k < values.len() && values[k] == bound && #[trigger] first_least_at(values, k);
        assert(first_least_at(longer, k));
    }
}

proof fn lemma_greatest_of_push(values: Seq<Coordinate>, bound: Coordinate, value: Coordinate)
    requires
        is_greatest(values, bound),
    ensures
        is_greatest(values.push(value), if bound.below(value) { value } else { bound }),
{
    let longer = values.push(value);
    if bound.below(value) {
        if bound == (Coordinate { bits: NEGATIVE_INFINITE }) && forall|j: int|
            0 <= j < values.len() ==> !bound.below(#[trigger] values[j]) {
            assert(first_greatest_at(longer, values.len() as int));
        } else {
            let k = choose|k: int|
                0 <= k < values.len() && values[k] == bound && #[trigger] first_greatest_at(
                    values,
                    k,
                );
            assert(first_greatest_at(longer, values.len() as int));
        }
    } else if !(bound == (Coordinate { bits: NEGATIVE_INFINITE }) && forall|j: int|
        0 <= j < values.len() ==> !bound.below(#[trigger] values[j])) {
        let k = choose|k: int|
            0 <= k < values.len() && values[k] == bound && #[trigger] first_greatest_at(values, k);
        assert(first_greatest_at(longer, k));
    }
}

/// The box widened, where needed, to take in one more position.
fn widen(bbox: BoundingBox, lon: Coordinate, lat: Coordinate) -> (wider: BoundingBox)
    ensures
        forall|of: Seq<(Coordinate, Coordinate)>| #[trigger]
            bounds(of, bbox) ==> bounds(of.push((lon, lat)), wider),
{
    let (mut min_lon, mut max_lon, mut min_lat, mut max_lat) = bbox;
    if lon.is_below(min_lon) {
        min_lon = lon;
    }
    if max_lon.is_below(lon) {
        max_lon = lon;
    }
    if lat.is_below(min_lat) {
        min_lat = lat;
    }
    if max_lat.is_below(lat) {
        max_lat = lat;
    }
    let wider: BoundingBox = (min_lon, max_lon, min_lat, max_lat);
    proof {
        assert forall|of: Seq<(Coordinate, Coordinate)>| #[trigger] bounds(of, bbox) implies bounds(
            of.push((lon, lat)),
            wider,
        ) by {
            let longer = of.push((lon, lat));
            assert(longitudes(longer) =~= longitudes(of).push(lon));
            assert(latitudes(longer) =~= latitudes(of).push(lat));
            lemma_least_of_push(longitudes(of), bbox.0, lon);
            lemma_greatest_of_push(longitudes(of), bbox.1, lon);
            lemma_least_of_push(latitudes(of), bbox.2, lat);
            lemma_greatest_of_push(latitudes(of), bbox.3, lat);
        }
    }
    wider
}

/// The box that the located vertices span.
pub fn calculate_bbox(coords: &[Vec<Vec<Vec<Coordinate>>>]) -> (bbox: BoundingBox)
    ensures
        bounds(positions(coords.deep_view()), bbox),
{
    let mut bbox: BoundingBox = (
        Coordinate { bits: INFINITE },
        Coordinate { bits: NEGATIVE_INFINITE },
        Coordinate { bits: INFINITE },
        Coordinate { bits: NEGATIVE_INFINITE },
    );
    let ghost model = coords.deep_view();
    assert(bounds(positions(model.take(0)), bbox));
    let mut p: usize = 0;
    while p < coords.len()
        invariant
            p <= coords@.len(),
            model == coords.deep_view(),
            bounds(positions(model.take(p as int)), bbox),
        decreases coords@.len() - p,
    {
        let poly: &Vec<Vec<Vec<Coordinate>>> = &coords[p];
        let ghost polygon = poly.deep_view();
        let ghost before = positions(model.take(p as int));
        assert(before + polygon_positions(polygon.take(0)) =~= before);
        let mut r: usize = 0;
        while r < poly.len()
            invariant
                r <= poly@.len(),
                polygon == poly.deep_view(),
                bounds(before + polygon_positions(polygon.take(r as int)), bbox),
            decreases poly@.len() - r,
        {
            let ring: &Vec<Vec<Coordinate>> = &poly[r];
            let ghost line = ring.deep_view();
            let ghost within = before + polygon_positions(polygon.take(r as int));
            assert(within + ring_positions(line.take(0)) =~= within);
            let mut v: usize = 0;
            while v < ring.len()
                invariant
                    v <= ring@.len(),
                    line == ring.deep_view(),
                    bounds(within + ring_positions(line.take(v as int)), bbox),
                decreases ring@.len() - v,
            {
                let pt: &Vec<Coordinate> = &ring[v];
                let ghost walked = within + ring_positions(line.take(v as int));
                assert(line.take(v + 1).drop_last() =~= line.take(v as int));
                assert(line.take(v + 1).last() == pt.deep_view());
                if pt.len() >= 2 {
                    let lon: Coordinate = pt[0];
                    let lat: Coordinate = pt[1];
                    bbox = widen(bbox, lon, lat);
                    assert(walked.push((lon, lat)) =~= within + ring_positions(line.take(v + 1)));
                }
                v += 1;
            }
            assert(line.take(v as int) =~= line);
            assert(polygon.take(r + 1).drop_last() =~= polygon.take(r as int));
            assert(within + ring_positions(line) =~= before + polygon_positions(
                polygon.take(r + 1),
            ));
            r += 1;
        }
        assert(polygon.take(r as int) =~= polygon);
        assert(model.take(p + 1).drop_last() =~= model.take(p as int));
        assert(before + polygon_positions(polygon) =~= positions(model.take(p + 1)));
        p += 1;
    }
    assert(model.take(p as int) =~= model);
    bbox
}

/// Decides whether the box, edges included, contains `(lon, lat)`.
pub fn point_in_bbox(lon: Coordinate, lat: Coordinate, bbox: &BoundingBox) -> (inside: bool)
    ensures
        inside == in_bbox(lon, lat, *bbox),
        inside <==> lon.at_least(bbox.0) && bbox.1.at_least(lon) && lat.at_least(bbox.2)
            && bbox.3.at_least(lat),
{
    let (min_lon, max_lon, min_lat, max_lat) = *bbox;
    lon.is_at_least(min_lon) && max_lon.is_at_least(lon) && lat.is_at_least(min_lat)
        && max_lat.is_at_least(lat)
}

/// Decides whether every vertex of the ring has a longitude and a latitude, where that matters.
pub fn ring_is_located(ring: &[Vec<Coordinate>]) -> (located: bool)
    ensures
        located == ring_located(ring.deep_view()),
{
    let n: usize = ring.len();
    if n < 3 {
        return true;
    }
    let ghost model = ring.deep_view();
    let mut i: usize = 0;
    while i < n
        invariant
            n >= 3,
            i <= n,
            n == ring@.len(),
            model == ring.deep_view(),
            forall|k: int| 0 <= k < i ==> (#[trigger] model[k]).len() >= 2,
        decreases n - i,
    {
        assert(model[i as int] == ring@[i as int].deep_view());
        if ring[i].len() < 2 {
            return false;
        }
        i += 1;
    }
    true
}

/// Decides whether `point_in_polygon` can be asked about `(lon, lat)`.
pub fn polygon_is_located(
    lon: Coordinate,
    lat: Coordinate,
    polygon: &[Vec<Vec<Coordinate>>],
    crossings: &[Vec<Coordinate>],
) -> (located: bool)
    requires
        polygon_crossings_match(polygon.deep_view(), crossings.deep_view()),
    ensures
        located == polygon_located(lon, lat, polygon.deep_view(), crossings.deep_view()),
{
    let n: usize = polygon.len();
    if n == 0 {
        return true;
    }
    let ghost model = polygon.deep_view();
    let ghost met = crossings.deep_view();
    assert(model[0] == polygon@[0].deep_view());
    assert(met[0] == crossings@[0].deep_view());
    if !ring_is_located(polygon[0].as_slice()) {
        return false;
    }
    if !point_in_ring(lon, lat, polygon[0].as_slice(), crossings[0].as_slice()) {
        return true;
    }
    let mut k: usize = 1;
    while k < n
        invariant
            1 <= k <= n,
            n == polygon@.len(),
            model == polygon.deep_view(),
            met == crossings.deep_view(),
            polygon_crossings_match(model, met),
            ring_located(model[0]),
            in_ring(lon, lat, model[0], met[0]),
            no_hole_before(lon, lat, model, met, k as int),
            forall|h: int| 1 <= h < k ==> #[trigger] ring_located(model[h]),
        decreases n - k,
    {
        assert(model[k as int] == polygon@[k as int].deep_view());
        assert(met[k as int] == crossings@[k as int].deep_view());
        if !ring_is_located(polygon[k].as_slice()) {
            return false;
        }
        if point_in_ring(lon, lat, polygon[k].as_slice(), crossings[k].as_slice()) {
            assert forall|h: int|
                1 <= h < n && no_hole_before(
                    lon,
                    lat,
                    model,
                    met,
                    h,
                ) implies #[trigger] ring_located(model[h]) by {
                if h > k {
                    assert(in_ring(lon, lat, model[k as int], met[k as int]));
                }
            }
            return true;
        }
        k += 1;
    }
    true
}

/// Decides whether `point_in_multipolygon` can be asked about `(lon, lat)`.
pub fn multipolygon_is_located(
    lon: Coordinate,
    lat: Coordinate,
    multipolygon: &[Vec<Vec<Vec<Coordinate>>>],
    crossings: &[Vec<Vec<Coordinate>>],
) -> (located: bool)
    requires
        crossings_match(multipolygon.deep_view(), crossings.deep_view()),
    ensures
        located == multipolygon_located(lon, lat, multipolygon.deep_view(), crossings.deep_view()),
{
    let n: usize = multipolygon.len();
    let ghost model = multipolygon.deep_view();
    let ghost met = crossings.deep_view();
    let mut p: usize = 0;
    while p < n
        invariant
            p <= n,
            n == multipolygon@.len(),
            model == multipolygon.deep_view(),
            met == crossings.deep_view(),
            crossings_match(model, met),
            no_polygon_before(lon, lat, model, met, p as int),
            forall|q: int|
                0 <= q < p ==> #[trigger] polygon_located(lon, lat, model[q], met[q]),
        decreases n - p,
    {
        assert(model[p as int] == multipolygon@[p as int].deep_view());
        assert(met[p as int] == crossings@[p as int].deep_view());
        if !polygon_is_located(lon, lat, multipolygon[p].as_slice(), crossings[p].as_slice()) {
            return false;
        }
        if point_in_polygon(lon, lat, multipolygon[p].as_slice(), crossings[p].as_slice()) {
            assert forall|q: int|
                0 <= q < n && no_polygon_before(
                    lon,
                    lat,
                    model,
                    met,
                    q,
                ) implies #[trigger] polygon_located(lon, lat, model[q], met[q]) by {
                if q > p {
                    assert(in_polygon(lon, lat, model[p as int], met[p as int]));
                }
            }
            return true;
        }
        p += 1;
    }
    true
}

/// A box contains every position that spans it.
pub proof fn law_bbox_contains_positions(
    of: Seq<(Coordinate, Coordinate)>,
    bbox: BoundingBox,
    i: int,
)
    requires
        bounds(of, bbox),
        0 <= i < of.len(),
        of[i].0.is_number(),
        of[i].1.is_number(),
    ensures
        in_bbox(of[i].0, of[i].1, bbox),
{
    assert(longitudes(of)[i] == of[i].0);
    assert(latitudes(of)[i] == of[i].1);
}

/// Whether every vertex of every ring is located by numbers.
pub open spec fn all_numbers(multipolygon: MultiPolygonModel) -> bool {
    forall|p: int, k: int, i: int|
        #![trigger multipolygon[p][k][i]]
        0 <= p < multipolygon.len() && 0 <= k < multipolygon[p].len() && 0 <= i
            < multipolygon[p][k].len() ==> {
            &&& multipolygon[p][k][i].len() >= 2
            &&& multipolygon[p][k][i][0].is_number()
            &&& multipolygon[p][k][i][1].is_number()
        }
}

/// A point that lies in a list of polygons has a latitude within the bounding box, so that no
/// point north or south of the box is lost by asking for the box first.
pub proof fn law_contained_point_has_latitude_in_bbox(
    x: Coordinate,
    y: Coordinate,
    multipolygon: MultiPolygonModel,
    crossings: Seq<Seq<Seq<Coordinate>>>,
    bbox: BoundingBox,
)
    requires
        bounds(positions(multipolygon), bbox),
        all_numbers(multipolygon),
        in_multipolygon(x, y, multipolygon, crossings),
    ensures
        y.at_least(bbox.2),
        bbox.3.at_least(y),
{
    let p = choose|p: int|
        0 <= p < multipolygon.len() && #[trigger] in_polygon(x, y, multipolygon[p], crossings[p]);
    let ring = multipolygon[p][0];
    let i = lemma_some_edge_met(x, y, ring, crossings[p][0], ring.len());
    let j = previous_vertex(i, ring.len() as int);
    assert(multipolygon[p][0][i].len() >= 2);
    assert(multipolygon[p][0][j].len() >= 2);
    let a = lemma_vertex_is_position(multipolygon, p, 0, i);
    let b = lemma_vertex_is_position(multipolygon, p, 0, j);
    law_bbox_contains_positions(positions(multipolygon), bbox, a);
    law_bbox_contains_positions(positions(multipolygon), bbox, b);
}

proof fn lemma_some_edge_met(
    x: Coordinate,
    y: Coordinate,
    ring: RingModel,
    crossings: Seq<Coordinate>,
    n: nat,
) -> (i: int)
    requires
        edges_met(x, y, ring, crossings, n) > 0,
    ensures
        0 <= i < n,
        ray_meets_edge(x, y, ring, crossings, i),
    decreases n,
{
    if ray_meets_edge(x, y, ring, crossings, n - 1) {
        n - 1
    } else {
        lemma_some_edge_met(x, y, ring, crossings, (n - 1) as nat)
    }
}

/// Where a located vertex stands among the positions.
proof fn lemma_vertex_is_position(multipolygon: MultiPolygonModel, p: int, k: int, i: int) -> (at:
    int)
    requires
        0 <= p < multipolygon.len(),
        0 <= k < multipolygon[p].len(),
        0 <= i < multipolygon[p][k].len(),
        multipolygon[p][k][i].len() >= 2,
    ensures
        0 <= at < positions(multipolygon).len(),
        positions(multipolygon)[at] == (multipolygon[p][k][i][0], multipolygon[p][k][i][1]),
    decreases multipolygon.len(),
{
    let rest = multipolygon.drop_last();
    if p < rest.len() {
        assert(rest[p] == multipolygon[p]);
        lemma_vertex_is_position(rest, p, k, i)
    } else {
        positions(rest).len() + lemma_vertex_is_polygon_position(multipolygon[p], k, i)
    }
}

proof fn lemma_vertex_is_polygon_position(polygon: PolygonModel, k: int, i: int) -> (at: int)
    requires
        0 <= k < polygon.len(),
        0 <= i < polygon[k].len(),
        polygon[k][i].len() >= 2,
    ensures
        0 <= at < polygon_positions(polygon).len(),
        polygon_positions(polygon)[at] == (polygon[k][i][0], polygon[k][i][1]),
    decreases polygon.len(),
{
    let rest = polygon.drop_last();
    if k < rest.len() {
        assert(rest[k] == polygon[k]);
        lemma_vertex_is_polygon_position(rest, k, i)
    } else {
        polygon_positions(rest).len() + lemma_vertex_is_ring_position(polygon[k], i)
    }
}

proof fn lemma_vertex_is_ring_position(ring: RingModel, i: int) -> (at: int)
    requires
        0 <= i < ring.len(),
        ring[i].len() >= 2,
    ensures
        0 <= at < ring_positions(ring).len(),
        ring_positions(ring)[at] == (ring[i][0], ring[i][1]),
    decreases ring.len(),
{
    let rest = ring.drop_last();
    if i < rest.len() {
        assert(rest[i] == ring[i]);
        lemma_vertex_is_ring_position(rest, i)
    } else {
        ring_positions(rest).len() as int
    }
}

/// Whether `at` lies between the two longitudes, in whatever order these are given.
pub open spec fn lies_between(at: Coordinate, one: Coordinate, other: Coordinate) -> bool {
    ||| at.at_least(one) && other.at_least(at)
    ||| at.at_least(other) && one.at_least(at)
}

/// Whether each edge that passes latitude `y` crosses it between the longitudes of its ends.
pub open spec fn crossings_between(
    y: Coordinate,
    ring: RingModel,
    crossings: Seq<Coordinate>,
) -> bool {
    forall|i: int|
        0 <= i < ring.len() && #[trigger] edge_straddles(y, ring, i) ==> lies_between(
            crossings[i],
            ring[i][0],
            ring[previous_vertex(i, ring.len() as int)][0],
        )
}

/// Whether the edges of the outer rings cross latitude `y` between the longitudes of their ends.
pub open spec fn outer_crossings_between(
    y: Coordinate,
    multipolygon: MultiPolygonModel,
    crossings: Seq<Seq<Seq<Coordinate>>>,
) -> bool {
    forall|p: int|
        0 <= p < multipolygon.len() && multipolygon[p].len() > 0 ==> #[trigger] crossings_between(
            y,
            multipolygon[p][0],
            crossings[p][0],
        )
}

/// A point that lies in a list of polygons lies in the bounding box, so that no point is lost by
/// asking for the box first.
pub proof fn law_contained_point_is_in_bbox(
    x: Coordinate,
    y: Coordinate,
    multipolygon: MultiPolygonModel,
    crossings: Seq<Seq<Seq<Coordinate>>>,
    bbox: BoundingBox,
)
    requires
        bounds(positions(multipolygon), bbox),
        all_numbers(multipolygon),
        outer_crossings_between(y, multipolygon, crossings),
        in_multipolygon(x, y, multipolygon, crossings),
    ensures
        in_bbox(x, y, bbox),
{
    law_contained_point_has_latitude_in_bbox(x, y, multipolygon, crossings, bbox);
    let p = choose|p: int|
        0 <= p < multipolygon.len() && #[trigger] in_polygon(x, y, multipolygon[p], crossings[p]);
    let ring = multipolygon[p][0];
    let n = ring.len();
    let met = crossings[p][0];
    assert(crossings_between(y, ring, met));
    assert forall|i: int| 0 <= i < n implies {
        &&& (#[trigger] ring[i])[0].at_least(bbox.0)
        &&& bbox.1.at_least(ring[i][0])
    } by {
        assert(multipolygon[p][0][i].len() >= 2);
        let at = lemma_vertex_is_position(multipolygon, p, 0, i);
        law_bbox_contains_positions(positions(multipolygon), bbox, at);
    }
    let i = lemma_some_edge_met(x, y, ring, met, n);
    let j = previous_vertex(i, n as int);
    assert(edge_straddles(y, ring, i));
    assert(ring[i][0].at_least(bbox.0) && ring[j][0].at_least(bbox.0));
    if !x.at_least(bbox.0) {
        assert forall|k: int| 0 <= k < n && #[trigger] edge_straddles(y, ring, k) implies x.below(
            met[k],
        ) by {
            let h = previous_vertex(k, n as int);
            assert(ring[k][0].at_least(bbox.0) && ring[h][0].at_least(bbox.0));
        }
        lemma_parity_west_of_crossings(x, y, ring, met, n);
    }
}

/// West of all crossings, an odd number of the first `m` edges is met if the last of their vertices
/// lies on the other side of latitude `y` than the last vertex of the ring.
proof fn lemma_parity_west_of_crossings(
    x: Coordinate,
    y: Coordinate,
    ring: RingModel,
    crossings: Seq<Coordinate>,
    m: nat,
)
    requires
        1 <= m <= ring.len(),
        forall|k: int|
            0 <= k < ring.len() && #[trigger] edge_straddles(y, ring, k) ==> x.below(crossings[k]),
    ensures
        (edges_met(x, y, ring, crossings, m) % 2 == 1) == (y.below(ring[m - 1][1]) != y.below(
            ring[ring.len() - 1][1],
        )),
    decreases m,
{
    let k = m - 1;
    assert(ray_meets_edge(x, y, ring, crossings, k) == edge_straddles(y, ring, k));
    if m > 1 {
        lemma_parity_west_of_crossings(x, y, ring, crossings, k as nat);
    } else {
        assert(edges_met(x, y, ring, crossings, 0) == 0);
    }
}

/// How many of the numbers from `from` up to, but not including, `to` have the property.
spec fn count(property: spec_fn(int) -> bool, from: int, to: int) -> nat
    decreases to - from,
{
    if to <= from {
        0
    } else {
        count(property, from, to - 1) + if property(to - 1) {
            1nat
        } else {
            0nat
        }
    }
}

proof fn lemma_count_split(property: spec_fn(int) -> bool, from: int, mid: int, to: int)
    requires
        from <= mid <= to,
    ensures
        count(property, from, to) == count(property, from, mid) + count(property, mid, to),
    decreases to - mid,
{
    if mid < to {
        lemma_count_split(property, from, mid, to - 1);
    }
}

proof fn lemma_count_shifted(
    one: spec_fn(int) -> bool,
    other: spec_fn(int) -> bool,
    from: int,
    to: int,
    by: int,
)
    requires
        forall|i: int| from <= i < to ==> #[trigger] one(i) == other(i + by),
    ensures
        count(one, from, to) == count(other, from + by, to + by),
    decreases to - from,
{
    if from < to {
        lemma_count_shifted(one, other, from, to - 1, by);
        assert(one(to - 1) == other(to - 1 + by));
    }
}

proof fn lemma_count_mirrored(
    one: spec_fn(int) -> bool,
    other: spec_fn(int) -> bool,
    from: int,
    to: int,
    sum: int,
)
    requires
        from <= to,
        forall|i: int| from <= i < to ==> #[trigger] one(i) == other(sum - i),
    ensures
        count(one, from, to) == count(other, sum - to + 1, sum - from + 1),
    decreases to - from,
{
    if from < to {
        let first = sum - to + 1;
        lemma_count_mirrored(one, other, from, to - 1, sum);
        lemma_count_split(other, first, first + 1, sum - from + 1);
        assert(one(to - 1) == other(first));
        assert(count(other, first, first) == 0);
    }
}

/// The edges of a ring that the ray from `(x, y)` eastwards meets.
spec fn meets(
    x: Coordinate,
    y: Coordinate,
    ring: RingModel,
    crossings: Seq<Coordinate>,
) -> spec_fn(int) -> bool {
    |i: int| ray_meets_edge(x, y, ring, crossings, i)
}

proof fn lemma_edges_met_are_counted(
    x: Coordinate,
    y: Coordinate,
    ring: RingModel,
    crossings: Seq<Coordinate>,
    n: nat,
)
    ensures
        edges_met(x, y, ring, crossings, n) == count(meets(x, y, ring, crossings), 0, n as int),
    decreases n,
{
    if n > 0 {
        lemma_edges_met_are_counted(x, y, ring, crossings, (n - 1) as nat);
    }
}

/// Where edge `i` of a ring of `n` vertices stands once the ring is walked the other way.
pub open spec fn reversed_edge(i: int, n: int) -> int {
    if i == 0 {
        0
    } else {
        n - i
    }
}

/// The direction in which a ring is walked does not matter, provided that `x` lies on the same side
/// of the crossings of an edge walked either way.
pub proof fn law_direction_does_not_matter(
    x: Coordinate,
    y: Coordinate,
    ring: RingModel,
    crossings: Seq<Coordinate>,
    reversed_crossings: Seq<Coordinate>,
)
    requires
        forall|i: int|
            0 <= i < ring.len() && #[trigger] edge_straddles(y, ring, i) ==> x.below(crossings[i])
                == x.below(reversed_crossings[reversed_edge(i, ring.len() as int)]),
    ensures
        in_ring(x, y, ring.reverse(), reversed_crossings) == in_ring(x, y, ring, crossings),
{
    let n = ring.len() as int;
    if n >= 3 {
        let back = ring.reverse();
        let one = meets(x, y, ring, crossings);
        let other = meets(x, y, back, reversed_crossings);
        assert forall|i: int| 0 <= i < n implies #[trigger] one(i) == other(
            reversed_edge(i, n),
        ) by {
            assert(edge_straddles(y, ring, i) == edge_straddles(y, back, reversed_edge(i, n)));
        }
        assert forall|i: int| 1 <= i < n implies #[trigger] one(i) == other(n - i) by {
            assert(reversed_edge(i, n) == n - i);
        }
        lemma_count_mirrored(one, other, 1, n, n);
        lemma_count_split(one, 0, 1, n);
        lemma_count_split(other, 0, 1, n);
        assert(one(0) == other(0));
        assert(count(one, 0, 0) == 0 && count(other, 0, 0) == 0);
        lemma_edges_met_are_counted(x, y, ring, crossings, n as nat);
        lemma_edges_met_are_counted(x, y, back, reversed_crossings, n as nat);
    }
}

/// A ring cut along the chord between vertices 0 and `k` falls into two parts, and a point lies in
/// the ring if it lies in exactly one of them.  No point on the chord is counted in both parts or
/// lost, provided that `x` lies on the same side of the crossings of the chord walked either way:
/// `chord` from vertex `k` to vertex 0, `chord_back` from vertex 0 to vertex `k`.
pub proof fn law_cut_ring_is_shared_out(
    x: Coordinate,
    y: Coordinate,
    ring: RingModel,
    crossings: Seq<Coordinate>,
    k: int,
    chord: Coordinate,
    chord_back: Coordinate,
)
    requires
        crossings.len() == ring.len(),
        2 <= k <= ring.len() - 2,
        y.below(ring[0][1]) != y.below(ring[k][1]) ==> x.below(chord) == x.below(chord_back),
    ensures
        in_ring(x, y, ring, crossings) == (in_ring(
            x,
            y,
            ring.take(k + 1),
            seq![chord] + crossings.subrange(1, k + 1),
        ) != in_ring(
            x,
            y,
            ring.skip(k).push(ring[0]),
            seq![chord_back] + crossings.skip(k + 1).push(crossings[0]),
        )),
{
    let n = ring.len() as int;
    let first = ring.take(k + 1);
    let second = ring.skip(k).push(ring[0]);
    let first_crossings = seq![chord] + crossings.subrange(1, k + 1);
    let second_crossings = seq![chord_back] + crossings.skip(k + 1).push(crossings[0]);
    let whole = meets(x, y, ring, crossings);
    let one = meets(x, y, first, first_crossings);
    let other = meets(x, y, second, second_crossings);
    assert forall|i: int| 1 <= i < k + 1 implies #[trigger] whole(i) == one(i + 0) by {
        assert(first_crossings[i] == crossings[i]);
        assert(edge_straddles(y, first, i) == edge_straddles(y, ring, i));
    }
    assert forall|i: int| k + 1 <= i < n implies #[trigger] whole(i) == other(i + (-k)) by {
        assert(second_crossings[i - k] == crossings[i]);
        assert(edge_straddles(y, second, i - k) == edge_straddles(y, ring, i));
    }
    assert(whole(0) == other(n - k)) by {
        assert(second_crossings[n - k] == crossings[0]);
        assert(edge_straddles(y, second, n - k) == edge_straddles(y, ring, 0));
    }
    assert(one(0) == other(0)) by {
        assert(edge_straddles(y, first, 0) == edge_straddles(y, second, 0));
    }
    lemma_count_shifted(whole, one, 1, k + 1, 0);
    lemma_count_shifted(whole, other, k + 1, n, -k);
    lemma_count_split(whole, 0, 1, n);
    lemma_count_split(whole, 1, k + 1, n);
    lemma_count_split(one, 0, 1, k + 1);
    lemma_count_split(other, 0, 1, n - k);
    assert(count(whole, 0, 0) == 0 && count(one, 0, 0) == 0 && count(other, 0, 0) == 0);
    lemma_edges_met_are_counted(x, y, ring, crossings, n as nat);
    lemma_edges_met_are_counted(x, y, first, first_crossings, (k + 1) as nat);
    lemma_edges_met_are_counted(x, y, second, second_crossings, (n - k + 1) as nat);
}

/// A feature's territory has its polygons, all of them and in their order, so that a position in
/// any polygon of the feature lies in the territory.
pub proof fn law_territory_has_every_polygon(
    geometry: Geometry,
    x: Coordinate,
    y: Coordinate,
    crossings: Seq<Seq<Seq<Coordinate>>>,
    p: int,
)
    ensures
        geometry matches Geometry::Polygon { coordinates } ==> {
            &&& geometry.polygons() == seq![coordinates.deep_view()]
            &&& in_multipolygon(x, y, geometry.polygons(), crossings) == in_polygon(
                x,
                y,
                coordinates.deep_view(),
                crossings[0],
            )
        },
        geometry matches Geometry::MultiPolygon { coordinates } ==> {
            &&& geometry.polygons().len() == coordinates@.len()
            &&& 0 <= p < coordinates@.len() ==> geometry.polygons()[p]
                == coordinates@[p].deep_view()
            &&& 0 <= p < coordinates@.len() && in_polygon(
                x,
                y,
                coordinates@[p].deep_view(),
                crossings[p],
            ) ==> in_multipolygon(x, y, geometry.polygons(), crossings)
        },
{
    match geometry {
        Geometry::Polygon { coordinates } => {
            let single = seq![coordinates.deep_view()];
            assert(single[0] == coordinates.deep_view());
            if in_polygon(x, y, coordinates.deep_view(), crossings[0]) {
                assert(in_polygon(x, y, single[0], crossings[0]));
            }
        },
        Geometry::MultiPolygon { coordinates } => {
            if 0 <= p < coordinates@.len() {
                assert(coordinates.deep_view()[p] == coordinates@[p].deep_view());
            }
        },
    }
}

/// A point lies in a ring of three or more vertices exactly if the edges that have their two
/// vertices on different sides of its latitude, and cross it east of the point, are odd in number.
pub proof fn law_odd_number_of_edges_is_inside(
    x: Coordinate,
    y: Coordinate,
    ring: RingModel,
    crossings: Seq<Coordinate>,
)
    ensures
        in_ring(x, y, ring, crossings) <==> ring.len() >= 3 && Set::<int>::new(
            |i: int|
                0 <= i < ring.len() && y.below(ring[i][1]) != y.below(
                    ring[if i == 0 {
                        ring.len() - 1
                    } else {
                        i - 1
                    }][1],
                ) && x.below(crossings[i]),
        ).len() % 2 == 1,
{
    lemma_met_edges(x, y, ring, crossings, ring.len());
    assert(Set::<int>::new(
        |i: int|
            0 <= i < ring.len() && y.below(ring[i][1]) != y.below(
                ring[if i == 0 {
                    ring.len() - 1
                } else {
                    i - 1
                }][1],
            ) && x.below(crossings[i]),
    ) =~= met_edges(x, y, ring, crossings, ring.len()));
}

/// A rectangle whose west and east sides cross each latitude at their own longitudes contains the
/// points between its sides, together with those on its west and south sides, and no others.
pub proof fn law_rectangle_contains_its_inside(
    west: Coordinate,
    east: Coordinate,
    south: Coordinate,
    north: Coordinate,
    x: Coordinate,
    y: Coordinate,
    crossings: Seq<Coordinate>,
)
    requires
        west.below(east),
        south.below(north),
        x.is_number(),
        y.is_number(),
        crossings[0] == west,
        crossings[2] == east,
    ensures
        in_ring(
            x,
            y,
            seq![seq![west, south], seq![east, south], seq![east, north], seq![west, north]],
            crossings,
        ) <==> x.at_least(west) && x.below(east) && y.at_least(south) && y.below(north),
{
    let ring = seq![seq![west, south], seq![east, south], seq![east, north], seq![west, north]];
    reveal_with_fuel(edges_met, 5);
    assert(ring[0][1] == south && ring[1][1] == south && ring[2][1] == north && ring[3][1]
        == north);
    assert(ray_meets_edge(x, y, ring, crossings, 0) == (y.at_least(south) && y.below(north)
        && x.below(west)));
    assert(!ray_meets_edge(x, y, ring, crossings, 1));
    assert(ray_meets_edge(x, y, ring, crossings, 2) == (y.at_least(south) && y.below(north)
        && x.below(east)));
    assert(!ray_meets_edge(x, y, ring, crossings, 3));
    assert(edges_met(x, y, ring, crossings, 4) == edges_met(x, y, ring, crossings, 3));
}

/// A polygon without holes contains what its ring contains, and one without rings nothing.
pub proof fn law_polygon_of_one_ring(
    x: Coordinate,
    y: Coordinate,
    ring: RingModel,
    crossings: Seq<Coordinate>,
)
    ensures
        in_polygon(x, y, seq![ring], seq![crossings]) == in_ring(x, y, ring, crossings),
        !in_polygon(x, y, Seq::empty(), Seq::empty()),
{
}

/// One more hole takes away from a polygon exactly the points that lie in the hole.
pub proof fn law_hole_is_cut_out(
    x: Coordinate,
    y: Coordinate,
    polygon: PolygonModel,
    crossings: Seq<Seq<Coordinate>>,
    hole: RingModel,
    hole_crossings: Seq<Coordinate>,
)
    requires
        polygon.len() > 0,
        crossings.len() == polygon.len(),
    ensures
        in_polygon(x, y, polygon.push(hole), crossings.push(hole_crossings)) <==> in_polygon(
            x,
            y,
            polygon,
            crossings,
        ) && !in_ring(x, y, hole, hole_crossings),
{
    let more = polygon.push(hole);
    let met = crossings.push(hole_crossings);
    let last = polygon.len() as int;
    assert(more[last] == hole && met[last] == hole_crossings);
    assert forall|k: int| 0 <= k < last implies #[trigger] in_ring(x, y, more[k], met[k])
        == in_ring(x, y, polygon[k], crossings[k]) by {}
    if in_polygon(x, y, more, met) {
        assert forall|k: int| 1 <= k < last implies !#[trigger] in_ring(
            x,
            y,
            polygon[k],
            crossings[k],
        ) by {
            assert(!in_ring(x, y, more[k], met[k]));
        }
        assert(in_ring(x, y, more[0], met[0]));
        assert(!in_ring(x, y, more[last], met[last]));
    }
}

/// One more polygon adds exactly the points that lie in it; where there is none, no point lies.
pub proof fn law_polygons_add_up(
    x: Coordinate,
    y: Coordinate,
    multipolygon: MultiPolygonModel,
    crossings: Seq<Seq<Seq<Coordinate>>>,
    polygon: PolygonModel,
    polygon_crossings: Seq<Seq<Coordinate>>,
)
    requires
        crossings.len() == multipolygon.len(),
    ensures
        !in_multipolygon(x, y, Seq::empty(), Seq::empty()),
        in_multipolygon(x, y, multipolygon.push(polygon), crossings.push(polygon_crossings)) <==> {
            ||| in_multipolygon(x, y, multipolygon, crossings)
            ||| in_polygon(x, y, polygon, polygon_crossings)
        },
{
    let more = multipolygon.push(polygon);
    let met = crossings.push(polygon_crossings);
    let last = multipolygon.len() as int;
    assert(more[last] == polygon && met[last] == polygon_crossings);
    if in_multipolygon(x, y, multipolygon, crossings) {
        let p = choose|p: int|
            0 <= p < last && #[trigger] in_polygon(x, y, multipolygon[p], crossings[p]);
        assert(in_polygon(x, y, more[p], met[p]));
    }
    if in_polygon(x, y, polygon, polygon_crossings) {
        assert(in_polygon(x, y, more[last], met[last]));
    }
    if in_multipolygon(x, y, more, met) {
        let p = choose|p: int| 0 <= p <= last && #[trigger] in_polygon(x, y, more[p], met[p]);
        if p < last {
            assert(in_polygon(x, y, multipolygon[p], crossings[p]));
        }
    }
}

/// A ring is located if it is too short to matter or each vertex has two coordinates.
pub proof fn law_ring_is_located_by_its_vertices(ring: RingModel)
    ensures
        ring_located(ring) <==> ring.len() < 3 || forall|i: int|
            0 <= i < ring.len() ==> (#[trigger] ring[i]).len() >= 2,
{
}

/// A polygon is located if its outer ring is, and one more hole matters for the points that lay in
/// the polygon without it.
pub proof fn law_rings_that_decide_are_located(
    x: Coordinate,
    y: Coordinate,
    polygon: PolygonModel,
    crossings: Seq<Seq<Coordinate>>,
    ring: RingModel,
    ring_crossings: Seq<Coordinate>,
)
    requires
        crossings.len() == polygon.len(),
    ensures
        polygon_located(x, y, Seq::empty(), Seq::empty()),
        polygon.len() == 0 ==> (polygon_located(
            x,
            y,
            polygon.push(ring),
            crossings.push(ring_crossings),
        ) <==> ring_located(ring)),
        polygon.len() > 0 ==> (polygon_located(
            x,
            y,
            polygon.push(ring),
            crossings.push(ring_crossings),
        ) <==> {
            &&& polygon_located(x, y, polygon, crossings)
            &&& in_polygon(x, y, polygon, crossings) ==> ring_located(ring)
        }),
{
    if polygon.len() > 0 {
        let more = polygon.push(ring);
        let met = crossings.push(ring_crossings);
        let last = polygon.len() as int;
        assert(more[last] == ring && more[0] == polygon[0] && met[0] == crossings[0]);
        assert forall|k: int| 1 <= k <= last implies #[trigger] no_hole_before(x, y, more, met, k)
            == no_hole_before(x, y, polygon, crossings, k) by {
            assert forall|h: int| 1 <= h < k implies #[trigger] in_ring(x, y, more[h], met[h])
                == in_ring(x, y, polygon[h], crossings[h]) by {}
            if no_hole_before(x, y, more, met, k) {
                assert forall|h: int| 1 <= h < k implies !#[trigger] in_ring(
                    x,
                    y,
                    polygon[h],
                    crossings[h],
                ) by {
                    assert(!in_ring(x, y, more[h], met[h]));
                }
            }
        }
        assert(no_hole_before(x, y, more, met, last) == no_hole_before(
            x,
            y,
            polygon,
            crossings,
            last,
        ));
        if polygon_located(x, y, more, met) {
            assert forall|k: int|
                in_ring(x, y, polygon[0], crossings[0]) && 1 <= k < last && no_hole_before(
                    x,
                    y,
                    polygon,
                    crossings,
                    k,
                ) implies #[trigger] ring_located(polygon[k]) by {
                assert(no_hole_before(x, y, more, met, k));
                assert(ring_located(more[k]));
            }
            if in_polygon(x, y, polygon, crossings) {
                assert(no_hole_before(x, y, more, met, last));
                assert(ring_located(more[last]));
            }
        }
        if polygon_located(x, y, polygon, crossings) && (in_polygon(x, y, polygon, crossings)
            ==> ring_located(ring)) {
            assert forall|k: int|
                in_ring(x, y, more[0], met[0]) && 1 <= k < more.len() && no_hole_before(
                    x,
                    y,
                    more,
                    met,
                    k,
                ) implies #[trigger] ring_located(more[k]) by {
                if k < last {
                    assert(no_hole_before(x, y, polygon, crossings, k));
                    assert(ring_located(polygon[k]));
                }
            }
        }
    }
}

/// One more polygon matters for the points that lay in none of the others.
pub proof fn law_polygons_that_decide_are_located(
    x: Coordinate,
    y: Coordinate,
    multipolygon: MultiPolygonModel,
    crossings: Seq<Seq<Seq<Coordinate>>>,
    polygon: PolygonModel,
    polygon_crossings: Seq<Seq<Coordinate>>,
)
    requires
        crossings.len() == multipolygon.len(),
    ensures
        multipolygon_located(x, y, Seq::empty(), Seq::empty()),
        multipolygon_located(
            x,
            y,
            multipolygon.push(polygon),
            crossings.push(polygon_crossings),
        ) <==> {
            &&& multipolygon_located(x, y, multipolygon, crossings)
            &&& !in_multipolygon(x, y, multipolygon, crossings) ==> polygon_located(
                x,
                y,
                polygon,
                polygon_crossings,
            )
        },
{
    let more = multipolygon.push(polygon);
    let met = crossings.push(polygon_crossings);
    let last = multipolygon.len() as int;
    assert(more[last] == polygon && met[last] == polygon_crossings);
    assert forall|p: int| 0 <= p <= last implies #[trigger] no_polygon_before(x, y, more, met, p)
        == no_polygon_before(x, y, multipolygon, crossings, p) by {
        assert forall|q: int| 0 <= q < p implies #[trigger] in_polygon(x, y, more[q], met[q])
            == in_polygon(x, y, multipolygon[q], crossings[q]) by {}
        if no_polygon_before(x, y, more, met, p) {
            assert forall|q: int| 0 <= q < p implies !#[trigger] in_polygon(
                x,
                y,
                multipolygon[q],
                crossings[q],
            ) by {
                assert(!in_polygon(x, y, more[q], met[q]));
            }
        }
    }
    assert(no_polygon_before(x, y, more, met, last) == no_polygon_before(
        x,
        y,
        multipolygon,
        crossings,
        last,
    ));
    if multipolygon_located(x, y, more, met) {
        assert forall|p: int|
            0 <= p < last && no_polygon_before(x, y, multipolygon, crossings, p)
                implies #[trigger] polygon_located(x, y, multipolygon[p], crossings[p]) by {
            assert(no_polygon_before(x, y, more, met, p));
            assert(polygon_located(x, y, more[p], met[p]));
        }
        if !in_multipolygon(x, y, multipolygon, crossings) {
            assert(no_polygon_before(x, y, more, met, last));
            assert(polygon_located(x, y, more[last], met[last]));
        }
    }
    if multipolygon_located(x, y, multipolygon, crossings) && (!in_multipolygon(
        x,
        y,
        multipolygon,
        crossings,
    ) ==> polygon_located(x, y, polygon, polygon_crossings)) {
        assert forall|p: int|
            0 <= p < more.len() && no_polygon_before(x, y, more, met, p)
                implies #[trigger] polygon_located(x, y, more[p], met[p]) by {
            if p < last {
                assert(no_polygon_before(x, y, multipolygon, crossings, p));
                assert(polygon_located(x, y, multipolygon[p], crossings[p]));
            }
        }
    }
}

/// Crossings match a shape if there are as many, at each level, as there are polygons, rings and
/// edges.
pub proof fn law_crossings_match_by_count(
    multipolygon: MultiPolygonModel,
    crossings: Seq<Seq<Seq<Coordinate>>>,
)
    ensures
        crossings_match(multipolygon, crossings) <==> {
            &&& crossings.len() == multipolygon.len()
            &&& forall|p: int|
                0 <= p < multipolygon.len() ==> (#[trigger] crossings[p]).len()
                    == multipolygon[p].len()
            &&& forall|p: int, k: int|
                0 <= p < multipolygon.len() && 0 <= k < multipolygon[p].len()
                    ==> (#[trigger] crossings[p][k]).len() == multipolygon[p][k].len()
        },
{
}

/// The box contains a point if and only if no side of the box separates them.
pub proof fn law_bbox_is_bounded_by_its_sides(lon: Coordinate, lat: Coordinate, bbox: BoundingBox)
    requires
        lon.is_number(),
        lat.is_number(),
        bbox.0.is_number(),
        bbox.1.is_number(),
        bbox.2.is_number(),
        bbox.3.is_number(),
    ensures
        in_bbox(lon, lat, bbox) <==> !lon.below(bbox.0) && !bbox.1.below(lon) && !lat.below(bbox.2)
            && !bbox.3.below(lat),
{
}

/// What is no number lies in no box, and no number lies in a box with a side that is none.
pub proof fn law_bbox_takes_numbers_only(lon: Coordinate, lat: Coordinate, bbox: BoundingBox)
    requires
        in_bbox(lon, lat, bbox),
    ensures
        lon.is_number() && lat.is_number(),
        bbox.0.is_number() && bbox.1.is_number() && bbox.2.is_number() && bbox.3.is_number(),
{
}

/// The positions of a shape are those of its parts, one part after the other.
pub proof fn law_positions_add_up(
    shape: MultiPolygonModel,
    more: MultiPolygonModel,
    polygon: PolygonModel,
    rings: PolygonModel,
    ring: RingModel,
    vertices: RingModel,
)
    ensures
        positions(shape + more) == positions(shape) + positions(more),
        polygon_positions(polygon + rings) == polygon_positions(polygon) + polygon_positions(rings),
        ring_positions(ring + vertices) == ring_positions(ring) + ring_positions(vertices),
    decreases more.len() + rings.len() + vertices.len(),
{
    if more.len() > 0 {
        law_positions_add_up(shape, more.drop_last(), polygon, rings, ring, vertices);
        assert((shape + more).drop_last() =~= shape + more.drop_last());
        assert((shape + more).last() == more.last());
        assert(positions(shape + more) =~= positions(shape) + positions(more));
    } else if rings.len() > 0 {
        law_positions_add_up(shape, more, polygon, rings.drop_last(), ring, vertices);
        assert((polygon + rings).drop_last() =~= polygon + rings.drop_last());
        assert((polygon + rings).last() == rings.last());
        assert(polygon_positions(polygon + rings) =~= polygon_positions(polygon)
            + polygon_positions(rings));
    } else if vertices.len() > 0 {
        assert(shape + more =~= shape);
        assert(polygon + rings =~= polygon);
        law_positions_add_up(shape, more, polygon, rings, ring, vertices.drop_last());
        assert((ring + vertices).drop_last() =~= ring + vertices.drop_last());
        assert((ring + vertices).last() == vertices.last());
        assert(ring_positions(ring + vertices) =~= ring_positions(ring) + ring_positions(vertices));
    } else {
        assert(shape + more =~= shape);
        assert(polygon + rings =~= polygon);
        assert(ring + vertices =~= ring);
    }
}

/// A single vertex has one position if it is located, and none if it is not.
pub proof fn law_positions_of_a_vertex(vertex: PointModel)
    ensures
        positions(seq![seq![seq![vertex]]]) == if vertex.len() >= 2 {
            seq![(vertex[0], vertex[1])]
        } else {
            Seq::empty()
        },
{
    let ring = seq![vertex];
    let polygon = seq![ring];
    let shape = seq![polygon];
    reveal_with_fuel(ring_positions, 2);
    reveal_with_fuel(polygon_positions, 2);
    reveal_with_fuel(positions, 2);
    assert(ring.drop_last() =~= Seq::empty());
    assert(polygon.drop_last() =~= Seq::empty());
    assert(shape.drop_last() =~= Seq::empty());
    assert(positions(shape) =~= ring_positions(ring));
}

/// Each side of a box is the first of the extreme numbers among the coordinates that span it, or
/// infinite where they hold no number beyond that.
pub proof fn law_sides_are_the_first_extremes(
    of: Seq<(Coordinate, Coordinate)>,
    bbox: BoundingBox,
)
    requires
        bounds(of, bbox),
    ensures
        forall|j: int|
            0 <= j < of.len() ==> !(#[trigger] of[j]).0.below(bbox.0) && !bbox.1.below(of[j].0)
                && !of[j].1.below(bbox.2) && !bbox.3.below(of[j].1),
        bbox.0.bits == 0x7ff0_0000_0000_0000 || exists|k: int|
            0 <= k < of.len() && (#[trigger] of[k]).0 == bbox.0 && forall|j: int|
                0 <= j < k && (#[trigger] of[j]).0.is_number() ==> bbox.0.below(of[j].0),
        bbox.1.bits == 0xfff0_0000_0000_0000 || exists|k: int|
            0 <= k < of.len() && (#[trigger] of[k]).0 == bbox.1 && forall|j: int|
                0 <= j < k && (#[trigger] of[j]).0.is_number() ==> of[j].0.below(bbox.1),
        bbox.2.bits == 0x7ff0_0000_0000_0000 || exists|k: int|
            0 <= k < of.len() && (#[trigger] of[k]).1 == bbox.2 && forall|j: int|
                0 <= j < k && (#[trigger] of[j]).1.is_number() ==> bbox.2.below(of[j].1),
        bbox.3.bits == 0xfff0_0000_0000_0000 || exists|k: int|
            0 <= k < of.len() && (#[trigger] of[k]).1 == bbox.3 && forall|j: int|
                0 <= j < k && (#[trigger] of[j]).1.is_number() ==> of[j].1.below(bbox.3),
        bbox.0.is_number() && bbox.1.is_number() && bbox.2.is_number() && bbox.3.is_number(),
{
    let lons = longitudes(of);
    let lats = latitudes(of);
    assert forall|j: int| 0 <= j < of.len() implies lons[j] == (#[trigger] of[j]).0 && lats[j]
        == of[j].1 by {}
    assert forall|j: int| 0 <= j < of.len() implies !(#[trigger] of[j]).0.below(bbox.0)
        && !bbox.1.below(of[j].0) && !of[j].1.below(bbox.2) && !bbox.3.below(of[j].1) by {
        assert(!lons[j].below(bbox.0) && !bbox.1.below(lons[j]));
        assert(!lats[j].below(bbox.2) && !bbox.3.below(lats[j]));
    }
    if bbox.0.bits != 0x7ff0_0000_0000_0000 {
        let k = choose|k: int|
            0 <= k < lons.len() && lons[k] == bbox.0 && #[trigger] first_least_at(lons, k);
        assert(of[k].0 == bbox.0);
        assert forall|j: int| 0 <= j < k && (#[trigger] of[j]).0.is_number() implies bbox.0.below(
            of[j].0,
        ) by {
            assert(lons[j].is_number());
        }
    }
    if bbox.1.bits != 0xfff0_0000_0000_0000 {
        let k = choose|k: int|
            0 <= k < lons.len() && lons[k] == bbox.1 && #[trigger] first_greatest_at(lons, k);
        assert(of[k].0 == bbox.1);
        assert forall|j: int| 0 <= j < k && (#[trigger] of[j]).0.is_number() implies of[j].0.below(
            bbox.1,
        ) by {
            assert(lons[j].is_number());
        }
    }
    if bbox.2.bits != 0x7ff0_0000_0000_0000 {
        let k = choose|k: int|
            0 <= k < lats.len() && lats[k] == bbox.2 && #[trigger] first_least_at(lats, k);
        assert(of[k].1 == bbox.2);
        assert forall|j: int| 0 <= j < k && (#[trigger] of[j]).1.is_number() implies bbox.2.below(
            of[j].1,
        ) by {
            assert(lats[j].is_number());
        }
    }
    if bbox.3.bits != 0xfff0_0000_0000_0000 {
        let k = choose|k: int|
            0 <= k < lats.len() && lats[k] == bbox.3 && #[trigger] first_greatest_at(lats, k);
        assert(of[k].1 == bbox.3);
        assert forall|j: int| 0 <= j < k && (#[trigger] of[j]).1.is_number() implies of[j].1.below(
            bbox.3,
        ) by {
            assert(lats[j].is_number());
        }
    }
}

/// The box of a shape contains every vertex that is located by numbers, wherever in the shape it
/// stands.
pub proof fn law_bbox_contains_every_vertex(
    multipolygon: MultiPolygonModel,
    bbox: BoundingBox,
    p: int,
    k: int,
    i: int,
)
    requires
        bounds(positions(multipolygon), bbox),
        0 <= p < multipolygon.len(),
        0 <= k < multipolygon[p].len(),
        0 <= i < multipolygon[p][k].len(),
        multipolygon[p][k][i].len() >= 2,
        multipolygon[p][k][i][0].is_number(),
        multipolygon[p][k][i][1].is_number(),
    ensures
        in_bbox(multipolygon[p][k][i][0], multipolygon[p][k][i][1], bbox),
{
    let at = lemma_vertex_is_position(multipolygon, p, k, i);
    law_bbox_contains_positions(positions(multipolygon), bbox, at);
}

/// The same positions span one box only.
pub proof fn law_bbox_is_determined(
    of: Seq<(Coordinate, Coordinate)>,
    one: BoundingBox,
    other: BoundingBox,
)
    requires
        bounds(of, one),
        bounds(of, other),
    ensures
        one == other,
{
    lemma_least_is_determined(longitudes(of), one.0, other.0);
    lemma_greatest_is_determined(longitudes(of), one.1, other.1);
    lemma_least_is_determined(latitudes(of), one.2, other.2);
    lemma_greatest_is_determined(latitudes(of), one.3, other.3);
}

proof fn lemma_least_is_determined(values: Seq<Coordinate>, one: Coordinate, other: Coordinate)
    requires
        is_least(values, one),
        is_least(values, other),
    ensures
        one == other,
{
    crate::coordinate::law_order_of_patterns(one, other);
    crate::coordinate::law_order_of_patterns(other, one);
    let infinite = Coordinate { bits: INFINITE };
    if one != infinite && other != infinite {
        let a = choose|k: int|
            0 <= k < values.len() && values[k] == one && #[trigger] first_least_at(values, k);
        let b = choose|k: int|
            0 <= k < values.len() && values[k] == other && #[trigger] first_least_at(values, k);
        assert(!values[a].below(values[b]) && !values[b].below(values[a]));
    } else if one != infinite {
        let a = choose|k: int|
            0 <= k < values.len() && values[k] == one && #[trigger] first_least_at(values, k);
        assert(!values[a].below(other));
    } else if other != infinite {
        let b = choose|k: int|
            0 <= k < values.len() && values[k] == other && #[trigger] first_least_at(values, k);
        assert(!values[b].below(one));
    }
}

proof fn lemma_greatest_is_determined(values: Seq<Coordinate>, one: Coordinate, other: Coordinate)
    requires
        is_greatest(values, one),
        is_greatest(values, other),
    ensures
        one == other,
{
    crate::coordinate::law_order_of_patterns(one, other);
    crate::coordinate::law_order_of_patterns(other, one);
    let infinite = Coordinate { bits: NEGATIVE_INFINITE };
    if one != infinite && other != infinite {
        let a = choose|k: int|
            0 <= k < values.len() && values[k] == one && #[trigger] first_greatest_at(values, k);
        let b = choose|k: int|
            0 <= k < values.len() && values[k] == other && #[trigger] first_greatest_at(values, k);
        assert(!values[a].below(values[b]) && !values[b].below(values[a]));
    } else if one != infinite {
        let a = choose|k: int|
            0 <= k < values.len() && values[k] == one && #[trigger] first_greatest_at(values, k);
        assert(!other.below(values[a]));
    } else if other != infinite {
        let b = choose|k: int|
            0 <= k < values.len() && values[k] == other && #[trigger] first_greatest_at(values, k);
        assert(!one.below(values[b]));
    }
}

} // verus!
