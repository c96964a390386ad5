//! Lattice geometry: edges, axis-aligned boxes and exact point/segment tests.
//!
//! Coordinates are `i32` lattice values. Every product is formed in `i128`,
//! so all tests below are exact: a point lies on an edge or it does not.
use vstd::prelude::*;

verus! {

/// A directed segment `(x1, y1) -> (x2, y2)`.
#[derive(Clone, Copy, Debug)]
pub struct Edge {
    pub x1: i32,
    pub y1: i32,
    pub x2: i32,
    pub y2: i32,
}

/// An axis-aligned box. A box with `min_x > max_x` (or `min_y > max_y`)
/// holds no point; `Bounds::empty` holds none at all.
#[derive(Clone, Copy, Debug)]
pub struct Bounds {
    pub min_x: i32,
    pub min_y: i32,
    pub max_x: i32,
    pub max_y: i32,
}

pub open spec fn min_of(a: int, b: int) -> int {
    if a <= b { a } else { b }
}

pub open spec fn max_of(a: int, b: int) -> int {
    if a >= b { a } else { b }
}

/// Twice the signed area of the triangle `(x1, y1), (x2, y2), (x, y)`:
/// zero exactly when the point is on the edge's supporting line.
pub open spec fn cross(e: Edge, x: int, y: int) -> int {
    (e.x2 - e.x1) * (y - e.y1) - (e.y2 - e.y1) * (x - e.x1)
}

/// The point `(x, y)` lies on the closed segment `e`.
pub open spec fn on_segment(e: Edge, x: int, y: int) -> bool {
    &&& cross(e, x, y) == 0
    &&& min_of(e.x1 as int, e.x2 as int) <= x <= max_of(e.x1 as int, e.x2 as int)
    &&& min_of(e.y1 as int, e.y2 as int) <= y <= max_of(e.y1 as int, e.y2 as int)
}

/// The edge has coincident endpoints.
pub open spec fn is_degenerate(e: Edge) -> bool {
    e.x1 == e.x2 && e.y1 == e.y2
}

pub open spec fn empty_bounds() -> Bounds {
    Bounds { min_x: i32::MAX, min_y: i32::MAX, max_x: i32::MIN, max_y: i32::MIN }
}

/// The smallest box holding `b` and both endpoints of `e`.
pub open spec fn extend(b: Bounds, e: Edge) -> Bounds {
    Bounds {
        min_x: min_of(b.min_x as int, min_of(e.x1 as int, e.x2 as int)) as i32,
        min_y: min_of(b.min_y as int, min_of(e.y1 as int, e.y2 as int)) as i32,
        max_x: max_of(b.max_x as int, max_of(e.x1 as int, e.x2 as int)) as i32,
        max_y: max_of(b.max_y as int, max_of(e.y1 as int, e.y2 as int)) as i32,
    }
}

/// The bounding box of every endpoint of every edge in `es`.
pub open spec fn bounds_of(es: Seq<Edge>) -> Bounds
    decreases es.len(),
{
    if es.len() == 0 {
        empty_bounds()
    } else {
        extend(bounds_of(es.drop_last()), es.last())
    }
}

pub open spec fn in_bounds(b: Bounds, x: int, y: int) -> bool {
    b.min_x <= x <= b.max_x && b.min_y <= y <= b.max_y
}

pub open spec fn contains_bounds(outer: Bounds, inner: Bounds) -> bool {
    &&& outer.min_x <= inner.min_x
    &&& outer.max_x >= inner.max_x
    &&& outer.min_y <= inner.min_y
    &&& outer.max_y >= inner.max_y
}

/// The bounding box of a sequence of edges holds every point of each edge.
pub proof fn lemma_bounds_hold_edge_points(s: Seq<Edge>, k: int, x: int, y: int)
    requires
        0 <= k < s.len(),
        on_segment(s[k], x, y),
    ensures
        in_bounds(bounds_of(s), x, y),
    decreases s.len(),
{
    if k < s.len() - 1 {
        assert(s.drop_last()[k] == s[k]);
        lemma_bounds_hold_edge_points(s.drop_last(), k, x, y);
    }
}

/// `a * b` for factors whose size keeps the product far from `i128`'s limits.
pub fn mul_wide(a: i64, b: i64) -> (r: i128)
    requires
        -0x2_0000_0000 <= a <= 0x2_0000_0000,
        -0x2_0000_0000 <= b <= 0x2_0000_0000,
    ensures
        r == a * b,
        -0x4_0000_0000_0000_0000 <= r <= 0x4_0000_0000_0000_0000,
{
    let a2 = a as i128;
    let b2 = b as i128;
    proof {
        assert(-0x4_0000_0000_0000_0000 <= a2 * b2 <= 0x4_0000_0000_0000_0000) by (nonlinear_arith)
            requires
                -0x2_0000_0000 <= a2 <= 0x2_0000_0000,
                -0x2_0000_0000 <= b2 <= 0x2_0000_0000,
        ;
    }
    a2 * b2
}

/// Exact side test: `cross(e, x, y)`.
pub fn cross_exec(e: &Edge, x: i32, y: i32) -> (r: i128)
    ensures
        r == cross(*e, x as int, y as int),
{
    let dx = e.x2 as i64 - e.x1 as i64;
    let dy = e.y2 as i64 - e.y1 as i64;
    let qx = x as i64 - e.x1 as i64;
    let qy = y as i64 - e.y1 as i64;
    let a = mul_wide(dx, qy);
    let b = mul_wide(dy, qx);
    a - b
}

/// Whether `(x, y)` lies on the closed segment `e`.
pub fn point_on_edge(e: &Edge, x: i32, y: i32) -> (r: bool)
    ensures
        r == on_segment(*e, x as int, y as int),
{
    let lo_x = if e.x1 <= e.x2 { e.x1 } else { e.x2 };
    let hi_x = if e.x1 >= e.x2 { e.x1 } else { e.x2 };
    let lo_y = if e.y1 <= e.y2 { e.y1 } else { e.y2 };
    let hi_y = if e.y1 >= e.y2 { e.y1 } else { e.y2 };
    if x < lo_x || x > hi_x || y < lo_y || y > hi_y {
        return false;
    }
    cross_exec(e, x, y) == 0
}

impl Bounds {
    /// The box that holds no point.
    pub fn empty() -> (r: Bounds)
        ensures
            r == empty_bounds(),
    {
        Bounds { min_x: i32::MAX, min_y: i32::MAX, max_x: i32::MIN, max_y: i32::MIN }
    }

    /// The smallest box holding `self` and both endpoints of `e`.
    pub fn extended(&self, e: &Edge) -> (r: Bounds)
        ensures
            r == extend(*self, *e),
    {
        let ex_lo = if e.x1 <= e.x2 { e.x1 } else { e.x2 };
        let ex_hi = if e.x1 >= e.x2 { e.x1 } else { e.x2 };
        let ey_lo = if e.y1 <= e.y2 { e.y1 } else { e.y2 };
        let ey_hi = if e.y1 >= e.y2 { e.y1 } else { e.y2 };
        Bounds {
            min_x: if self.min_x <= ex_lo { self.min_x } else { ex_lo },
            min_y: if self.min_y <= ey_lo { self.min_y } else { ey_lo },
            max_x: if self.max_x >= ex_hi { self.max_x } else { ex_hi },
            max_y: if self.max_y >= ey_hi { self.max_y } else { ey_hi },
        }
    }

    /// Whether the closed box holds `(x, y)`.
    pub fn contains_point(&self, x: i32, y: i32) -> (r: bool)
        ensures
            r == in_bounds(*self, x as int, y as int),
    {
        x >= self.min_x && x <= self.max_x && y >= self.min_y && y <= self.max_y
    }

    /// Whether `self` holds the whole of `inner`.
    pub fn contains(&self, inner: &Bounds) -> (r: bool)
        ensures
            r == contains_bounds(*self, *inner),
    {
        self.min_x <= inner.min_x && self.max_x >= inner.max_x && self.min_y <= inner.min_y
            && self.max_y >= inner.max_y
    }
}

} // verus!
