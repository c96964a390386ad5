//! The containment resolver and the batch driver.
use vstd::prelude::*;
use crate::geometry::{Edge, on_segment, bounds_of, in_bounds, contains_bounds, lemma_bounds_hold_edge_points};
use crate::polygon::{Polygon, build_polygon, rings_model, concat, splits_in_range, vertex_count};
use crate::grid::{GridIndex, build_grid, on_any_edge, on_some_edge};
use crate::scanline::{CrossingCache, ring_parity};

verus! {

/// Hole `h` takes `(x, y)` out of the polygon: its box lies within the outer
/// ring's box (so the outer ring is its parent), its box holds the point,
/// and the point is inside the hole by the parity rule.
pub open spec fn hole_excludes(rings: Seq<Seq<Edge>>, h: int, x: int, y: int) -> bool {
    &&& contains_bounds(bounds_of(rings[0]), bounds_of(rings[h]))
    &&& in_bounds(bounds_of(rings[h]), x, y)
    &&& ring_parity(rings[h], x, y)
}

/// Inside the outer ring by the parity rule, and excluded by no hole.
pub open spec fn inside_rings(rings: Seq<Seq<Edge>>, x: int, y: int) -> bool {
    &&& rings.len() > 0
    &&& ring_parity(rings[0], x, y)
    &&& !exists|h: int| 1 <= h < rings.len() && #[trigger] hole_excludes(rings, h, x, y)
}

/// The flag of one point: 0 outside the polygon's box; the boundary flag on
/// an edge; otherwise 1 exactly when the resolver places it inside.
#[verifier::opaque]
pub open spec fn classify_point(rings: Seq<Seq<Edge>>, x: int, y: int, boundary_is_inside: bool) -> u32 {
    if !in_bounds(bounds_of(concat(rings)), x, y) {
        0
    } else if on_some_edge(concat(rings), x, y) {
        if boundary_is_inside {
            1
        } else {
            0
        }
    } else if inside_rings(rings, x, y) {
        1
    } else {
        0
    }
}

/// No point, no vertex or no split: every flag is 0.
pub open spec fn is_trivial(points: Seq<i32>, polygon: Seq<i32>, splits: Seq<u32>) -> bool {
    points.len() / 2 == 0 || polygon.len() == 0 || splits.len() == 0
}

/// The flags of a whole batch, one per `(x, y)` pair of `points`.
pub open spec fn classify_spec(
    points: Seq<i32>,
    polygon: Seq<i32>,
    splits: Seq<u32>,
    boundary_is_inside: bool,
) -> Seq<u32> {
    let n = points.len() / 2;
    if is_trivial(points, polygon, splits) {
        Seq::new(n, |i: int| 0u32)
    } else {
        Seq::new(
            n,
            |i: int|
                classify_point(
                    rings_model(polygon, splits),
                    points[2 * i] as int,
                    points[2 * i + 1] as int,
                    boundary_is_inside,
                ),
        )
    }
}

/// Why a batch was refused.
#[derive(Clone, Copy, Debug, PartialEq, Eq)]
pub enum ClassifyError {
    /// `splits[position] == split` names a vertex past the `vertex_count`
    /// vertices of the polygon.
    SplitOutOfRange { position: usize, split: u32, vertex_count: usize },
}

/// What a classification call returns on the given arguments: the flags of
/// `classify_spec`, or the first split that lies past the vertex array.
pub open spec fn classify_outcome(
    points: Seq<i32>,
    polygon: Seq<i32>,
    splits: Seq<u32>,
    boundary_is_inside: bool,
    r: Result<Vec<u32>, ClassifyError>,
) -> bool {
    match r {
        Ok(v) => {
            &&& is_trivial(points, polygon, splits) || splits_in_range(
                splits,
                vertex_count(polygon),
            )
            &&& v@ == classify_spec(points, polygon, splits, boundary_is_inside)
        },
        Err(ClassifyError::SplitOutOfRange { position, split, vertex_count: m }) => {
            &&& !is_trivial(points, polygon, splits)
            &&& m == vertex_count(polygon)
            &&& position < splits.len()
            &&& split == splits[position as int]
            &&& split > m
            &&& forall|j: int| 0 <= j < position ==> splits[j] <= m
        },
    }
}

/// The containment resolver: parity in the outer ring, then each hole whose
/// box lies in the outer ring's box and holds the point.
fn resolve(poly: &Polygon, cache: &mut CrossingCache, x: i32, y: i32) -> (r: bool)
    requires
        poly.wf(),
        poly.rings@.len() > 0,
        old(cache).holds_for(poly@),
    ensures
        r == inside_rings(poly@, x as int, y as int),
        final(cache).holds_for(poly@),
{
    let ghost rings = poly@;
    proof {
        poly.lemma_ring(0);
    }
    let c0 = cache.count_right_at(poly, 0, x, y);
    if c0 % 2 == 0 {
        return false;
    }
    let outer = poly.rings[0].bounds;
    let mut h: usize = 1;
    while h < poly.rings.len()
        invariant
            poly.wf(),
            rings == poly@,
            rings.len() == poly.rings@.len(),
            1 <= h <= rings.len(),
            outer == bounds_of(rings[0]),
            ring_parity(rings[0], x as int, y as int),
            cache.holds_for(rings),
            forall|j: int| 1 <= j < h ==> !#[trigger] hole_excludes(rings, j, x as int, y as int),
        decreases poly.rings.len() - h,
    {
        proof {
            poly.lemma_ring(h as int);
        }
        let hb = poly.rings[h].bounds;
        if outer.contains(&hb) && hb.contains_point(x, y) {
            let c = cache.count_right_at(poly, h, x, y);
            if c % 2 == 1 {
                assert(hole_excludes(rings, h as int, x as int, y as int));
                return false;
            }
        }
        h = h + 1;
    }
    true
}

/// Which boundary lookup a batch uses.
#[derive(Clone, Copy, Debug, PartialEq, Eq)]
enum BoundaryLookup {
    /// Only the edges listed in the point's grid cell.
    Grid,
    /// Every edge in turn.
    Scan,
}

/// The flag of the point `(x, y)`.
fn classify_one(
    poly: &Polygon,
    grid: &GridIndex,
    cache: &mut CrossingCache,
    x: i32,
    y: i32,
    boundary_is_inside: bool,
    lookup: BoundaryLookup,
) -> (flag: u32)
    requires
        poly.wf(),
        poly.rings@.len() > 0,
        grid.indexes(poly.edges@),
        old(cache).holds_for(poly@),
    ensures
        flag == classify_point(poly@, x as int, y as int, boundary_is_inside),
        final(cache).holds_for(poly@),
{
    reveal(classify_point);
    proof {
        poly.lemma_edges();
    }
    if !poly.bounds.contains_point(x, y) {
        return 0;
    }
    let on_edge = match lookup {
        BoundaryLookup::Grid => grid.on_boundary(poly, x, y),
        BoundaryLookup::Scan => on_any_edge(&poly.edges, x, y),
    };
    if on_edge {
        if boundary_is_inside {
            1
        } else {
            0
        }
    } else if resolve(poly, cache, x, y) {
        1
    } else {
        0
    }
}

/// How a batch visits its points.
#[derive(Clone, Copy, Debug, PartialEq, Eq)]
enum Strategy {
    /// In input order, with the given boundary lookup.
    InputOrder(BoundaryLookup),
    /// In order of height, with grid-indexed boundary lookups.
    Scanline,
}

/// The first split past the vertex array, if any.
fn check_splits(splits: &[u32], m: usize) -> (r: Option<usize>)
    ensures
        match r {
            Some(p) => p < splits@.len() && splits@[p as int] > m && forall|j: int|
                0 <= j < p ==> splits@[j] <= m,
            None => splits_in_range(splits@, m as int),
        },
{
    let mut s: usize = 0;
    while s < splits.len()
        invariant
            s <= splits@.len(),
            forall|j: int| 0 <= j < s ==> splits@[j] <= m,
        decreases splits.len() - s,
    {
        if splits[s] as usize > m {
            return Some(s);
        }
        s = s + 1;
    }
    None
}

/// Classifies every `(x, y)` pair of `points` against the polygon.
fn classify_points(
    points: &[i32],
    polygon: &[i32],
    splits: &[u32],
    boundary_is_inside: bool,
    strategy: Strategy,
) -> (r: Result<Vec<u32>, ClassifyError>)
    ensures
        classify_outcome(points@, polygon@, splits@, boundary_is_inside, r),
{
    let n = points.len() / 2;
    if n == 0 || polygon.len() == 0 || splits.len() == 0 {
        let zeros = vec![0u32; n];
        assert(zeros@ =~= classify_spec(points@, polygon@, splits@, boundary_is_inside));
        return Ok(zeros);
    }
    let m = polygon.len() / 2;
    match check_splits(splits, m) {
        Some(position) => {
            return Err(
                ClassifyError::SplitOutOfRange { position, split: splits[position], vertex_count: m },
            );
        },
        None => {},
    }
    let poly = build_polygon(polygon, splits);
    proof {
        poly.lemma_edges();
    }
    let results = match strategy {
        Strategy::InputOrder(lookup) => classify_batch(&poly, points, boundary_is_inside, lookup),
        Strategy::Scanline => classify_by_scanline(&poly, points, boundary_is_inside),
    };
    assert(results@ =~= classify_spec(points@, polygon@, splits@, boundary_is_inside));
    Ok(results)
}

/// The flags of every `(x, y)` pair of `points` against a built polygon.
fn classify_batch(poly: &Polygon, points: &[i32], boundary_is_inside: bool, lookup: BoundaryLookup) -> (r: Vec<u32>)
    requires
        poly.wf(),
        poly.rings@.len() > 0,
    ensures
        r@ == Seq::new(
            (points@.len() / 2) as nat,
            |i: int| classify_point(poly@, points@[2 * i] as int, points@[2 * i + 1] as int, boundary_is_inside),
        ),
{
    let n = points.len() / 2;
    let grid = build_grid(poly);
    let mut cache = CrossingCache::new();
    let ghost expected = Seq::new(
        n as nat,
        |i: int| classify_point(poly@, points@[2 * i] as int, points@[2 * i + 1] as int, boundary_is_inside),
    );
    let mut results: Vec<u32> = Vec::with_capacity(n);
    let mut i: usize = 0;
    while i < n
        invariant
            n == points@.len() / 2,
            poly.wf(),
            poly.rings@.len() > 0,
            grid.indexes(poly.edges@),
            cache.holds_for(poly@),
            expected == Seq::new(
                n as nat,
                |i: int| classify_point(poly@, points@[2 * i] as int, points@[2 * i + 1] as int, boundary_is_inside),
            ),
            i <= n,
            results@ == expected.take(i as int),
        decreases n - i,
    {
        assert(2 * i + 1 < points.len());
        let x = points[2 * i];
        let y = points[2 * i + 1];
        let flag = classify_one(poly, &grid, &mut cache, x, y, boundary_is_inside, lookup);
        assert(flag == expected[i as int]);
        results.push(flag);
        assert(expected.take(i + 1) =~= expected.take(i as int).push(flag));
        i = i + 1;
    }
    assert(expected.take(n as int) =~= expected);
    results
}

/// `a` comes no later than `b` in lexicographic order.
pub open spec fn key_le(a: (i32, usize), b: (i32, usize)) -> bool {
    a.0 < b.0 || (a.0 == b.0 && a.1 <= b.1)
}

/// Relies on `slice::sort_unstable`: it reorders the elements into ascending
/// order, and tuples of integers compare lexicographically.
#[verifier::external_body]
fn sort_keys(keys: &mut Vec<(i32, usize)>)
    ensures
        final(keys)@.to_multiset() == old(keys)@.to_multiset(),
        forall|i: int, j: int|
            0 <= i < j < final(keys)@.len() ==> key_le(final(keys)@[i], final(keys)@[j]),
{
    keys.sort_unstable();
}

/// The flags of every `(x, y)` pair of `points`, computed scanline by
/// scanline: points are visited in order of height, so that each height's
/// crossings are computed once.
fn classify_by_scanline(poly: &Polygon, points: &[i32], boundary_is_inside: bool) -> (r: Vec<u32>)
    requires
        poly.wf(),
        poly.rings@.len() > 0,
    ensures
        r@ == Seq::new(
            (points@.len() / 2) as nat,
            |i: int| classify_point(poly@, points@[2 * i] as int, points@[2 * i + 1] as int, boundary_is_inside),
        ),
{
    broadcast use vstd::seq_lib::group_to_multiset_ensures;

    let n = points.len() / 2;
    let ghost expected = Seq::new(
        n as nat,
        |i: int| classify_point(poly@, points@[2 * i] as int, points@[2 * i + 1] as int, boundary_is_inside),
    );
    let mut keys: Vec<(i32, usize)> = Vec::with_capacity(n);
    let mut i: usize = 0;
    while i < n
        invariant
            n == points@.len() / 2,
            i <= n,
            keys@.len() == i,
            forall|j: int| 0 <= j < i ==> (#[trigger] keys@[j]).1 == j,
        decreases n - i,
    {
        assert(2 * i + 1 < points.len());
        keys.push((points[2 * i + 1], i));
        i = i + 1;
    }
    let ghost unsorted = keys@;
    sort_keys(&mut keys);
    proof {
        assert(keys@.len() == keys@.to_multiset().len());
        assert(unsorted.len() == unsorted.to_multiset().len());
        assert forall|k: int| 0 <= k < keys@.len() implies (#[trigger] keys@[k]).1 < n by {
            assert(keys@.to_multiset().count(keys@[k]) > 0);
            assert(unsorted.contains(keys@[k]));
        }
    }
    let grid = build_grid(poly);
    let mut cache = CrossingCache::new();
    let mut results: Vec<u32> = vec![0u32; n];
    let mut k: usize = 0;
    while k < n
        invariant
            n == points@.len() / 2,
            keys@.len() == n,
            forall|j: int| 0 <= j < n ==> (#[trigger] keys@[j]).1 < n,
            poly.wf(),
            poly.rings@.len() > 0,
            grid.indexes(poly.edges@),
            cache.holds_for(poly@),
            expected == Seq::new(
                n as nat,
                |i: int| classify_point(poly@, points@[2 * i] as int, points@[2 * i + 1] as int, boundary_is_inside),
            ),
            k <= n,
            results@.len() == n,
            forall|j: int| 0 <= j < k ==> results@[(#[trigger] keys@[j]).1 as int] == expected[keys@[j].1 as int],
        decreases n - k,
    {
        let idx = keys[k].1;
        assert(keys@[k as int].1 < n);
        assert(2 * idx + 1 < points.len());
        let x = points[2 * idx];
        let y = points[2 * idx + 1];
        let flag = classify_one(poly, &grid, &mut cache, x, y, boundary_is_inside, BoundaryLookup::Grid);
        let ghost before = results@;
        results.set(idx, flag);
        proof {
            assert forall|j: int| 0 <= j < k + 1 implies results@[(#[trigger] keys@[j]).1 as int]
                == expected[keys@[j].1 as int] by {
                if keys@[j].1 != idx {
                    assert(results@[keys@[j].1 as int] == before[keys@[j].1 as int]);
                }
            }
        }
        k = k + 1;
    }
    proof {
        assert forall|i: int| 0 <= i < n implies results@[i] == expected[i] by {
            assert(unsorted[i].1 == i);
            assert(unsorted.to_multiset().count(unsorted[i]) > 0);
            assert(keys@.contains(unsorted[i]));
            let j = choose|j: int| 0 <= j < keys@.len() && keys@[j] == unsorted[i];
            assert(keys@[j].1 == i);
        }
        assert(results@ =~= expected);
    }
    results
}

/// Classifies a batch of lattice points against a polygon with holes.
///
/// `points` and `polygon` hold flattened `(x, y)` pairs; `splits` holds the
/// ascending vertex counts that end the outer ring and then each hole, and
/// vertices after the last split form one more hole. The result holds one
/// flag per point, in order: 1 inside, 0 outside, and `boundary_is_inside`
/// for a point on an edge. Boundary lookups go through the grid index.
/// A split past the vertex array is refused.
pub fn point_in_polygon(
    points: &[i32],
    polygon: &[i32],
    splits: &[u32],
    boundary_is_inside: bool,
) -> (r: Result<Vec<u32>, ClassifyError>)
    ensures
        classify_outcome(points@, polygon@, splits@, boundary_is_inside, r),
{
    classify_points(points, polygon, splits, boundary_is_inside, Strategy::InputOrder(BoundaryLookup::Grid))
}

/// As `point_in_polygon`, with boundary lookups that test every edge in
/// turn instead of the grid cell's edges.
pub fn point_in_polygon_rayster(
    points: &[i32],
    polygon: &[i32],
    splits: &[u32],
    boundary_is_inside: bool,
) -> (r: Result<Vec<u32>, ClassifyError>)
    ensures
        classify_outcome(points@, polygon@, splits@, boundary_is_inside, r),
{
    classify_points(points, polygon, splits, boundary_is_inside, Strategy::InputOrder(BoundaryLookup::Scan))
}

/// As `point_in_polygon`, visiting the points scanline by scanline (in
/// order of height), so that points of one height share their crossings
/// however the batch is ordered. The flags still follow the input order.
pub fn point_in_polygon_scanline(
    points: &[i32],
    polygon: &[i32],
    splits: &[u32],
    boundary_is_inside: bool,
) -> (r: Result<Vec<u32>, ClassifyError>)
    ensures
        classify_outcome(points@, polygon@, splits@, boundary_is_inside, r),
{
    classify_points(points, polygon, splits, boundary_is_inside, Strategy::Scanline)
}

/// Classification depends on its arguments alone: two calls with the same
/// arguments have the same outcome, the same flags or the same error,
/// whatever ran before or between them.
pub proof fn lemma_classification_repeatable(
    points: Seq<i32>,
    polygon: Seq<i32>,
    splits: Seq<u32>,
    boundary_is_inside: bool,
    first: Result<Vec<u32>, ClassifyError>,
    second: Result<Vec<u32>, ClassifyError>,
)
    requires
        classify_outcome(points, polygon, splits, boundary_is_inside, first),
        classify_outcome(points, polygon, splits, boundary_is_inside, second),
    ensures
        match (first, second) {
            (Ok(a), Ok(b)) => a@ == b@,
            (Err(a), Err(b)) => a == b,
            _ => false,
        },
{
    let m = vertex_count(polygon);
    match (first, second) {
        (Ok(a), Err(ClassifyError::SplitOutOfRange { position, .. })) => {
            assert(splits[position as int] <= m);
        },
        (Err(ClassifyError::SplitOutOfRange { position, .. }), Ok(b)) => {
            assert(splits[position as int] <= m);
        },
        (
            Err(ClassifyError::SplitOutOfRange { position: p, .. }),
            Err(ClassifyError::SplitOutOfRange { position: q, .. }),
        ) => {
            if p < q {
                assert(splits[p as int] <= m);
            } else if q < p {
                assert(splits[q as int] <= m);
            }
        },
        _ => {},
    }
}

/// One flag per point, each 0 or 1.
pub proof fn lemma_flags_are_binary(
    points: Seq<i32>,
    polygon: Seq<i32>,
    splits: Seq<u32>,
    boundary_is_inside: bool,
)
    ensures
        classify_spec(points, polygon, splits, boundary_is_inside).len() == points.len() / 2,
        forall|i: int|
            0 <= i < points.len() / 2 ==> #[trigger] classify_spec(
                points,
                polygon,
                splits,
                boundary_is_inside,
            )[i] <= 1,
{
    reveal(classify_point);
}

/// A point that lies on an edge of the polygon gets the boundary flag.
pub proof fn lemma_boundary_points_take_flag(
    points: Seq<i32>,
    polygon: Seq<i32>,
    splits: Seq<u32>,
    boundary_is_inside: bool,
    i: int,
)
    requires
        !is_trivial(points, polygon, splits),
        0 <= i < points.len() / 2,
        on_some_edge(
            concat(rings_model(polygon, splits)),
            points[2 * i] as int,
            points[2 * i + 1] as int,
        ),
    ensures
        classify_spec(points, polygon, splits, boundary_is_inside)[i] == if boundary_is_inside {
            1u32
        } else {
            0u32
        },
{
    reveal(classify_point);
    let edges = concat(rings_model(polygon, splits));
    let (x, y) = (points[2 * i] as int, points[2 * i + 1] as int);
    let k = choose|k: int| 0 <= k < edges.len() && on_segment(#[trigger] edges[k], x, y);
    lemma_bounds_hold_edge_points(edges, k, x, y);
}

} // verus!
