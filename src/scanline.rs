//! Horizontal-ray crossings of a ring, their parity, and a per-call cache.
//!
//! A crossing is an exact rational `num / den` (`den > 0`), so comparisons
//! against a query point never round.
use vstd::prelude::*;
use crate::geometry::{Edge, mul_wide, min_of, max_of};
use crate::polygon::Polygon;
use std::collections::HashMap;

verus! {

/// The x-coordinate `num / den` at which a ray meets a ring, with `den > 0`.
#[derive(Clone, Copy, Debug)]
pub struct Crossing {
    pub num: i128,
    pub den: i128,
}

/// The sizes every crossing computed here keeps to.
pub open spec fn bounded(c: Crossing) -> bool {
    &&& 0 < c.den <= 0x1_0000_0000
    &&& -0x4_0000_0000_0000_0000 <= c.num <= 0x4_0000_0000_0000_0000
}

/// The crossing at the lattice coordinate `x`.
pub open spec fn at_x(x: int) -> Crossing {
    Crossing { num: x as i128, den: 1 }
}

/// Where the ray at height `y` meets the line through `e` (for `y1 != y2`):
/// `x1 + (y - y1) (x2 - x1) / (y2 - y1)`, with a positive denominator.
pub open spec fn interpolate(e: Edge, y: int) -> Crossing {
    let d = e.y2 - e.y1;
    let n = e.x1 * d + (y - e.y1) * (e.x2 - e.x1);
    if d > 0 {
        Crossing { num: n as i128, den: d as i128 }
    } else {
        Crossing { num: (-n) as i128, den: (-d) as i128 }
    }
}

/// What edge `e`, preceded in its ring by `prev`, adds to the crossings of
/// the ray at height `y`:
/// - a horizontal edge adds both of its ends when the ray runs along it, and
///   nothing otherwise;
/// - an edge that starts on the ray adds its start once, and only when `prev`
///   comes from the other side of the ray than the one `e` goes to;
/// - an edge that ends on the ray adds nothing (its successor decides);
/// - an edge that spans the ray adds the interpolated point.
pub open spec fn edge_crossings(e: Edge, prev: Edge, y: int) -> Seq<Crossing> {
    if e.y1 == e.y2 {
        if y == e.y1 {
            seq![at_x(min_of(e.x1 as int, e.x2 as int)), at_x(max_of(e.x1 as int, e.x2 as int))]
        } else {
            Seq::empty()
        }
    } else if y == e.y1 {
        if (prev.y1 < y && y < e.y2) || (prev.y1 > y && y > e.y2) {
            seq![at_x(e.x1 as int)]
        } else {
            Seq::empty()
        }
    } else if y == e.y2 {
        Seq::empty()
    } else if (e.y1 < y && y < e.y2) || (e.y2 < y && y < e.y1) {
        seq![interpolate(e, y)]
    } else {
        Seq::empty()
    }
}

/// The ring position before `k`, cyclically.
pub open spec fn prev_index(n: int, k: int) -> int {
    if k > 0 {
        k - 1
    } else {
        n - 1
    }
}

/// The crossings that the first `k` edges of `ring` add, in edge order.
pub open spec fn crossings_upto(ring: Seq<Edge>, y: int, k: int) -> Seq<Crossing>
    decreases k,
{
    if k <= 0 {
        Seq::empty()
    } else {
        crossings_upto(ring, y, k - 1) + edge_crossings(
            ring[k - 1],
            ring[prev_index(ring.len() as int, k - 1)],
            y,
        )
    }
}

/// Every crossing of the ray at height `y` with `ring`.
pub open spec fn ring_crossings(ring: Seq<Edge>, y: int) -> Seq<Crossing> {
    crossings_upto(ring, y, ring.len() as int)
}

/// The crossing lies strictly right of `x`.
pub open spec fn right_of(c: Crossing, x: int) -> bool {
    c.num > x * c.den
}

/// How many of `cs` lie strictly right of `x`.
pub open spec fn count_right(cs: Seq<Crossing>, x: int) -> nat
    decreases cs.len(),
{
    if cs.len() == 0 {
        0
    } else {
        count_right(cs.drop_last(), x) + if right_of(cs.last(), x) {
            1nat
        } else {
            0nat
        }
    }
}

/// The parity rule: `(x, y)` is inside `ring` when an odd number of the
/// ring's crossings at height `y` lie strictly right of `x`.
pub open spec fn ring_parity(ring: Seq<Edge>, x: int, y: int) -> bool {
    count_right(ring_crossings(ring, y), x) % 2 == 1
}

proof fn lemma_crossings_bounded(ring: Seq<Edge>, y: i32, k: int)
    requires
        0 <= k <= ring.len(),
    ensures
        forall|i: int|
            0 <= i < crossings_upto(ring, y as int, k).len() ==> bounded(
                #[trigger] crossings_upto(ring, y as int, k)[i],
            ),
    decreases k,
{
    if k > 0 {
        lemma_crossings_bounded(ring, y, k - 1);
        let e = ring[k - 1];
        let d = e.y2 - e.y1;
        let n = e.x1 * d + (y - e.y1) * (e.x2 - e.x1);
        assert(-0x2_0000_0000_0000_0000 <= e.x1 * d <= 0x2_0000_0000_0000_0000) by (nonlinear_arith)
            requires
                -0x8000_0000 <= e.x1 <= 0x7fff_ffff,
                -0x1_0000_0000 <= d <= 0x1_0000_0000,
        ;
        assert(-0x2_0000_0000_0000_0000 <= (y - e.y1) * (e.x2 - e.x1) <= 0x2_0000_0000_0000_0000)
            by (nonlinear_arith)
            requires
                -0x1_0000_0000 <= y - e.y1 <= 0x1_0000_0000,
                -0x1_0000_0000 <= e.x2 - e.x1 <= 0x1_0000_0000,
        ;
        let prev = crossings_upto(ring, y as int, k - 1);
        let add = edge_crossings(e, ring[prev_index(ring.len() as int, k - 1)], y as int);
        assert forall|i: int|
            0 <= i < crossings_upto(ring, y as int, k).len() implies bounded(
                #[trigger] crossings_upto(ring, y as int, k)[i],
            ) by {
            if i >= prev.len() {
                assert(crossings_upto(ring, y as int, k)[i] == add[i - prev.len()]);
            }
        }
    }
}

/// Appends what `e`, preceded by `prev`, adds to the crossings at height `y`.
fn push_edge_crossings(e: &Edge, prev: &Edge, y: i32, out: &mut Vec<Crossing>)
    ensures
        final(out)@ == old(out)@ + edge_crossings(*e, *prev, y as int),
{
    let ghost add = edge_crossings(*e, *prev, y as int);
    if e.y1 == e.y2 {
        if y == e.y1 {
            let lo = if e.x1 <= e.x2 { e.x1 } else { e.x2 };
            let hi = if e.x1 >= e.x2 { e.x1 } else { e.x2 };
            out.push(Crossing { num: lo as i128, den: 1 });
            out.push(Crossing { num: hi as i128, den: 1 });
        }
    } else if y == e.y1 {
        if (prev.y1 < y && y < e.y2) || (prev.y1 > y && y > e.y2) {
            out.push(Crossing { num: e.x1 as i128, den: 1 });
        }
    } else if y == e.y2 {
    } else if (e.y1 < y && y < e.y2) || (e.y2 < y && y < e.y1) {
        let d = e.y2 as i64 - e.y1 as i64;
        let a = mul_wide(e.x1 as i64, d);
        let b = mul_wide(y as i64 - e.y1 as i64, e.x2 as i64 - e.x1 as i64);
        let n = a + b;
        if d > 0 {
            out.push(Crossing { num: n, den: d as i128 });
        } else {
            out.push(Crossing { num: -n, den: -(d as i128) });
        }
    }
    assert(out@ =~= old(out)@ + add);
}

/// The crossings of the ray at height `y` with ring `ring_idx`, in edge order.
pub fn compute_ray_intersections(poly: &Polygon, ring_idx: usize, y: i32) -> (r: Vec<Crossing>)
    requires
        poly.wf(),
        ring_idx < poly.rings@.len(),
    ensures
        r@ == ring_crossings(poly@[ring_idx as int], y as int),
{
    let ghost ring = poly@[ring_idx as int];
    let start = poly.rings[ring_idx].start_idx;
    let count = poly.rings[ring_idx].edge_count;
    proof {
        poly.lemma_ring(ring_idx as int);
    }
    assert(ring.len() == count);
    let mut out: Vec<Crossing> = Vec::new();
    let mut k: usize = 0;
    while k < count
        invariant
            start + count <= poly.edges.len(),
            ring == poly.edges@.subrange(start as int, start + count),
            k <= count,
            out@ == crossings_upto(ring, y as int, k as int),
        decreases count - k,
    {
        let p = if k > 0 {
            k - 1
        } else {
            count - 1
        };
        let e = poly.edges[start + k];
        let prev = poly.edges[start + p];
        assert(e == ring[k as int]);
        assert(prev == ring[prev_index(count as int, k as int)]);
        push_edge_crossings(&e, &prev, y, &mut out);
        k = k + 1;
    }
    out
}

/// `a` lies at or left of `b`.
pub open spec fn crossing_le(a: Crossing, b: Crossing) -> bool {
    a.num * b.den <= b.num * a.den
}

/// The crossings are in ascending order.
pub open spec fn sorted_crossings(cs: Seq<Crossing>) -> bool {
    forall|i: int, j: int| 0 <= i < j < cs.len() ==> crossing_le(#[trigger] cs[i], #[trigger] cs[j])
}

pub open spec fn all_bounded(cs: Seq<Crossing>) -> bool {
    forall|i: int| 0 <= i < cs.len() ==> bounded(#[trigger] cs[i])
}

proof fn lemma_le_transitive(a: Crossing, b: Crossing, c: Crossing)
    requires
        bounded(a),
        bounded(b),
        bounded(c),
        crossing_le(a, b),
        crossing_le(b, c),
    ensures
        crossing_le(a, c),
{
    let (an, ad, bn, bd, cn, cd) = (a.num as int, a.den as int, b.num as int, b.den as int, c.num as int, c.den as int);
    assert(an * cd <= cn * ad) by (nonlinear_arith)
        requires
            an * bd <= bn * ad,
            bn * cd <= cn * bd,
            ad > 0,
            bd > 0,
            cd > 0,
    {
        assert(an * bd * cd <= bn * ad * cd);
        assert(bn * cd * ad <= cn * bd * ad);
        assert(an * cd * bd <= cn * ad * bd);
    }
}

proof fn lemma_right_of_monotone(a: Crossing, b: Crossing, x: int)
    requires
        bounded(a),
        bounded(b),
        crossing_le(a, b),
        right_of(a, x),
    ensures
        right_of(b, x),
{
    let (an, ad, bn, bd) = (a.num as int, a.den as int, b.num as int, b.den as int);
    assert(bn > x * bd) by (nonlinear_arith)
        requires
            an * bd <= bn * ad,
            an > x * ad,
            ad > 0,
            bd > 0,
    {
        assert(an * bd > x * ad * bd);
        assert(bn * ad > x * bd * ad);
    }
}

proof fn lemma_count_insert(s: Seq<Crossing>, p: int, c: Crossing, x: int)
    requires
        0 <= p <= s.len(),
    ensures
        count_right(s.insert(p, c), x) == count_right(s, x) + if right_of(c, x) {
            1nat
        } else {
            0nat
        },
    decreases s.len(),
{
    if p == s.len() {
        assert(s.insert(p, c) =~= s.push(c));
        assert(s.push(c).drop_last() =~= s);
    } else {
        lemma_count_insert(s.drop_last(), p, c, x);
        assert(s.insert(p, c).drop_last() =~= s.drop_last().insert(p, c));
    }
}

proof fn lemma_count_split(s: Seq<Crossing>, lo: int, x: int)
    requires
        0 <= lo <= s.len(),
        forall|i: int| 0 <= i < s.len() ==> (right_of(#[trigger] s[i], x) <==> i >= lo),
    ensures
        count_right(s, x) == s.len() - lo,
    decreases s.len(),
{
    if s.len() > 0 {
        let t = s.drop_last();
        if lo == s.len() {
            assert forall|i: int| 0 <= i < t.len() implies (right_of(#[trigger] t[i], x) <==> i >= lo - 1) by {
                assert(t[i] == s[i]);
            }
            lemma_count_split(t, lo - 1, x);
        } else {
            assert forall|i: int| 0 <= i < t.len() implies (right_of(#[trigger] t[i], x) <==> i >= lo) by {
                assert(t[i] == s[i]);
            }
            lemma_count_split(t, lo, x);
        }
    }
}

/// `a * b` for a crossing numerator and a crossing denominator.
fn mul_num_den(a: i128, b: i128) -> (r: i128)
    requires
        -0x4_0000_0000_0000_0000 <= a <= 0x4_0000_0000_0000_0000,
        0 < b <= 0x1_0000_0000,
    ensures
        r == a * b,
{
    assert(-0x4_0000_0000_0000_0000_0000_0000 <= a * b <= 0x4_0000_0000_0000_0000_0000_0000) by (nonlinear_arith)
        requires
            -0x4_0000_0000_0000_0000 <= a <= 0x4_0000_0000_0000_0000,
            0 < b <= 0x1_0000_0000,
    ;
    a * b
}

/// Whether `a` lies at or left of `b`.
fn crossing_le_exec(a: &Crossing, b: &Crossing) -> (r: bool)
    requires
        bounded(*a),
        bounded(*b),
    ensures
        r == crossing_le(*a, *b),
{
    mul_num_den(a.num, b.den) <= mul_num_den(b.num, a.den)
}

/// Whether `c` lies strictly right of `x`.
fn right_of_exec(c: &Crossing, x: i32) -> (r: bool)
    requires
        bounded(*c),
    ensures
        r == right_of(*c, x as int),
{
    c.num > mul_num_den(x as i128, c.den)
}

/// `cs` in ascending order: an insertion sort, which leaves the number of
/// crossings right of any `x` as it was.
pub fn sort_crossings(cs: &Vec<Crossing>) -> (r: Vec<Crossing>)
    requires
        all_bounded(cs@),
    ensures
        sorted_crossings(r@),
        all_bounded(r@),
        forall|x: int| #[trigger] count_right(r@, x) == count_right(cs@, x),
{
    let mut acc: Vec<Crossing> = Vec::new();
    let mut i: usize = 0;
    assert forall|x: int| #[trigger] count_right(acc@, x) == count_right(cs@.take(0), x) by {
        assert(cs@.take(0) =~= acc@);
    }
    while i < cs.len()
        invariant
            i <= cs@.len(),
            all_bounded(cs@),
            sorted_crossings(acc@),
            all_bounded(acc@),
            forall|x: int| #[trigger] count_right(acc@, x) == count_right(cs@.take(i as int), x),
        decreases cs.len() - i,
    {
        let c = cs[i];
        assert(bounded(cs@[i as int]));
        let mut p: usize = 0;
        while p < acc.len() && crossing_le_exec(&acc[p], &c)
            invariant
                p <= acc@.len(),
                all_bounded(acc@),
                bounded(c),
                forall|j: int| 0 <= j < p ==> crossing_le(#[trigger] acc@[j], c),
            decreases acc.len() - p,
        {
            assert(bounded(acc@[p as int]));
            p = p + 1;
        }
        let ghost before = acc@;
        proof {
            if p < acc@.len() {
                assert(bounded(acc@[p as int]));
            }
        }
        acc.insert(p, c);
        proof {
            assert(acc@ == before.insert(p as int, c));
            assert forall|a: int, b: int| 0 <= a < b < acc@.len() implies crossing_le(#[trigger] acc@[a], #[trigger] acc@[b]) by {
                if b < p {
                    assert(acc@[a] == before[a] && acc@[b] == before[b]);
                } else if b == p {
                    assert(acc@[a] == before[a]);
                } else if a == p {
                    assert(acc@[b] == before[b - 1]);
                    assert(!crossing_le(before[p as int], c));
                    assert(bounded(before[p as int]) && bounded(before[b - 1]));
                    if b - 1 > p {
                        assert(crossing_le(before[p as int], before[b - 1]));
                    }
                    assert(crossing_le(c, before[p as int])) by (nonlinear_arith)
                        requires
                            !(before[p as int].num * c.den <= c.num * before[p as int].den),
                    ;
                    if b - 1 > p {
                        lemma_le_transitive(c, before[p as int], before[b - 1]);
                    }
                } else if a < p {
                    assert(acc@[a] == before[a] && acc@[b] == before[b - 1]);
                } else {
                    assert(acc@[a] == before[a - 1] && acc@[b] == before[b - 1]);
                }
            }
            assert forall|j: int| 0 <= j < acc@.len() implies bounded(#[trigger] acc@[j]) by {
                if j < p {
                    assert(acc@[j] == before[j]);
                } else if j > p {
                    assert(acc@[j] == before[j - 1]);
                }
            }
            assert forall|x: int| #[trigger] count_right(acc@, x) == count_right(cs@.take(i + 1), x) by {
                lemma_count_insert(before, p as int, c, x);
                assert(cs@.take(i + 1).drop_last() =~= cs@.take(i as int));
                assert(count_right(before, x) == count_right(cs@.take(i as int), x));
            }
        }
        i = i + 1;
    }
    assert(cs@.take(i as int) =~= cs@);
    acc
}

/// How many of the sorted crossings `cs` lie strictly right of `x`, found
/// by binary search for the first one that does.
pub fn count_right_sorted(cs: &Vec<Crossing>, x: i32) -> (n: usize)
    requires
        sorted_crossings(cs@),
        all_bounded(cs@),
    ensures
        n == count_right(cs@, x as int),
{
    let mut lo: usize = 0;
    let mut hi: usize = cs.len();
    while lo < hi
        invariant
            lo <= hi <= cs@.len(),
            sorted_crossings(cs@),
            all_bounded(cs@),
            forall|i: int| 0 <= i < lo ==> !right_of(#[trigger] cs@[i], x as int),
            forall|i: int| hi <= i < cs@.len() ==> right_of(#[trigger] cs@[i], x as int),
        decreases hi - lo,
    {
        let mid = lo + (hi - lo) / 2;
        assert(bounded(cs@[mid as int]));
        if right_of_exec(&cs[mid], x) {
            proof {
                assert forall|i: int| mid <= i < cs@.len() implies right_of(#[trigger] cs@[i], x as int) by {
                    if i > mid {
                        assert(crossing_le(cs@[mid as int], cs@[i]));
                        lemma_right_of_monotone(cs@[mid as int], cs@[i], x as int);
                    }
                }
            }
            hi = mid;
        } else {
            proof {
                assert forall|i: int| 0 <= i < mid + 1 implies !right_of(#[trigger] cs@[i], x as int) by {
                    if i < mid {
                        assert(crossing_le(cs@[i], cs@[mid as int]));
                        if right_of(cs@[i], x as int) {
                            lemma_right_of_monotone(cs@[i], cs@[mid as int], x as int);
                        }
                    }
                }
            }
            lo = mid + 1;
        }
    }
    proof {
        lemma_count_split(cs@, lo as int, x as int);
    }
    cs.len() - lo
}

/// The most entries a `CrossingCache` holds.
pub const CACHE_CAPACITY: usize = 1024;

/// The cache key of ring `ring` at height `y`: `y * 2^64 + ring`.
pub open spec fn cache_key(y: i32, ring: usize) -> i128 {
    (y * 0x1_0000_0000_0000_0000 + ring) as i128
}

proof fn lemma_cache_key_injective(y1: i32, r1: usize, y2: i32, r2: usize)
    requires
        cache_key(y1, r1) == cache_key(y2, r2),
    ensures
        y1 == y2,
        r1 == r2,
{
    let k: int = 0x1_0000_0000_0000_0000;
    assert((y1 - y2) * k == r2 - r1);
    assert(y1 == y2) by (nonlinear_arith)
        requires
            (y1 - y2) * k == r2 - r1,
            k == 0x1_0000_0000_0000_0000,
            0 <= r1 < k,
            0 <= r2 < k,
    ;
}

/// `sorted` is `cs` in ascending order: as many of each lie right of any `x`.
pub open spec fn cached_crossings(sorted: Seq<Crossing>, cs: Seq<Crossing>) -> bool {
    &&& sorted_crossings(sorted)
    &&& all_bounded(sorted)
    &&& forall|x: int| #[trigger] count_right(sorted, x) == count_right(cs, x)
}

/// Crossing lists of the call's polygon, keyed by height and ring, so that
/// query points on one scanline share the work. It holds at most
/// `CACHE_CAPACITY` entries: when full, the older half, in insertion order,
/// is evicted.
pub struct CrossingCache {
    entries: HashMap<i128, Vec<Crossing>>,
    order: Vec<i128>,
}

impl CrossingCache {
    /// `order` lists the keys of `entries` once each, oldest first.
    closed spec fn tracks_keys(&self) -> bool {
        &&& self.order@.no_duplicates()
        &&& forall|k: i128| #[trigger] self.entries@.contains_key(k) <==> self.order@.contains(k)
    }

    /// Every entry holds the crossings of the ring and height its key names.
    closed spec fn entries_hold(&self, rings: Seq<Seq<Edge>>) -> bool {
        forall|y: i32, r: usize|
            #[trigger] self.entries@.contains_key(cache_key(y, r)) ==> {
                &&& r < rings.len()
                &&& cached_crossings(self.entries@[cache_key(y, r)]@, ring_crossings(rings[r as int], y as int))
            }
    }

    /// The cache is consistent, within capacity, and true of `rings`.
    pub closed spec fn holds_for(&self, rings: Seq<Seq<Edge>>) -> bool {
        &&& self.order@.len() <= CACHE_CAPACITY
        &&& self.tracks_keys()
        &&& self.entries_hold(rings)
    }

    /// The number of entries.
    pub closed spec fn size(&self) -> nat {
        self.entries@.len()
    }

    proof fn lemma_bounded(&self, rings: Seq<Seq<Edge>>)
        requires
            self.holds_for(rings),
        ensures
            self.size() <= CACHE_CAPACITY,
    {
        self.order@.lemma_cardinality_of_set();
        assert(self.entries@.dom() =~= self.order@.to_set());
    }

    /// An empty cache.
    pub fn new() -> (c: CrossingCache)
        ensures
            forall|rings: Seq<Seq<Edge>>| c.holds_for(rings),
    {
        broadcast use vstd::std_specs::hash::group_hash_axioms;

        let c = CrossingCache { entries: HashMap::new(), order: Vec::new() };
        assert(c.order@.no_duplicates());
        c
    }

    /// Evicts the older half of the entries.
    fn evict_oldest_half(&mut self, Ghost(rings): Ghost<Seq<Seq<Edge>>>)
        requires
            old(self).holds_for(rings),
        ensures
            final(self).holds_for(rings),
            final(self).order@.len() == old(self).order@.len() - old(self).order@.len() / 2,
            forall|k: i128| #[trigger] final(self).entries@.contains_key(k) ==> old(self).entries@.contains_key(k),
    {
        broadcast use vstd::std_specs::hash::group_hash_axioms;

        let ghost start = self.entries@;
        let ghost keys = self.order@;
        let half = self.order.len() / 2;
        let mut i: usize = 0;
        assert(keys.subrange(0, keys.len() as int) =~= keys);
        while i < half
            invariant
                half <= keys.len(),
                i <= half,
                self.order@ == keys,
                keys.no_duplicates(),
                forall|k: i128|
                    #[trigger] self.entries@.contains_key(k) <==> keys.subrange(
                        i as int,
                        keys.len() as int,
                    ).contains(k),
                forall|k: i128|
                    #[trigger] self.entries@.contains_key(k) ==> start.contains_key(k)
                        && self.entries@[k] == start[k],
            decreases half - i,
        {
            let ghost before = self.entries@;
            let key = self.order[i];
            self.entries.remove(&key);
            proof {
                assert forall|k: i128|
                    #[trigger] self.entries@.contains_key(k) <==> keys.subrange(
                        i + 1,
                        keys.len() as int,
                    ).contains(k) by {
                    let tail = keys.subrange(i as int, keys.len() as int);
                    let rest = keys.subrange(i + 1, keys.len() as int);
                    if rest.contains(k) {
                        let j = choose|j: int| 0 <= j < rest.len() && rest[j] == k;
                        assert(tail[j + 1] == k);
                        assert(k != key);
                    }
                    if tail.contains(k) && k != key {
                        let j = choose|j: int| 0 <= j < tail.len() && tail[j] == k;
                        assert(j != 0);
                        assert(rest[j - 1] == k);
                    }
                    assert(tail[0] == key);
                }
            }
            i = i + 1;
        }
        let rest = self.order.split_off(half);
        self.order = rest;
        proof {
            assert(self.order@ =~= keys.subrange(half as int, keys.len() as int));
            assert forall|a: int, b: int|
                0 <= a < self.order@.len() && 0 <= b < self.order@.len() && a != b implies self.order@[a]
                != self.order@[b] by {
                assert(self.order@[a] == keys[a + half]);
                assert(self.order@[b] == keys[b + half]);
            }
            assert forall|y: i32, r: usize|
                #[trigger] self.entries@.contains_key(cache_key(y, r)) implies {
                &&& r < rings.len()
                &&& cached_crossings(self.entries@[cache_key(y, r)]@, ring_crossings(rings[r as int], y as int))
            } by {
                assert(start.contains_key(cache_key(y, r)));
            }
        }
    }

    /// How many crossings of the ray at height `y` with ring `ring_idx` lie
    /// strictly right of `x`; computes and records the crossings on a miss.
    pub fn count_right_at(&mut self, poly: &Polygon, ring_idx: usize, x: i32, y: i32) -> (n: usize)
        requires
            poly.wf(),
            ring_idx < poly.rings@.len(),
            old(self).holds_for(poly@),
        ensures
            n == count_right(ring_crossings(poly@[ring_idx as int], y as int), x as int),
            final(self).holds_for(poly@),
            final(self).size() <= CACHE_CAPACITY,
    {
        broadcast use vstd::std_specs::hash::group_hash_axioms;

        let ghost ring = poly@[ring_idx as int];
        proof {
            poly.lemma_ring(ring_idx as int);
            lemma_crossings_bounded(ring, y, ring.len() as int);
        }
        let key: i128 = (y as i128) * 0x1_0000_0000_0000_0000 + (ring_idx as i128);
        assert(key == cache_key(y, ring_idx));
        match self.entries.get(&key) {
            Some(cs) => {
                assert(self.entries@.contains_key(cache_key(y, ring_idx)));
                proof {
                    self.lemma_bounded(poly@);
                }
                return count_right_sorted(cs, x);
            },
            None => {},
        }
        let found = compute_ray_intersections(poly, ring_idx, y);
        let cs = sort_crossings(&found);
        let n = count_right_sorted(&cs, x);
        if self.order.len() >= CACHE_CAPACITY {
            self.evict_oldest_half(Ghost(poly@));
        }
        let ghost before = self.entries@;
        let ghost old_order = self.order@;
        assert(!before.contains_key(key));
        self.entries.insert(key, cs);
        self.order.push(key);
        proof {
            assert(!old_order.contains(key));
            assert forall|a: int, b: int|
                0 <= a < self.order@.len() && 0 <= b < self.order@.len() && a != b implies self.order@[a]
                != self.order@[b] by {
                if a < old_order.len() && b < old_order.len() {
                    assert(self.order@[a] == old_order[a]);
                    assert(self.order@[b] == old_order[b]);
                } else if a < old_order.len() {
                    assert(self.order@[a] == old_order[a]);
                } else if b < old_order.len() {
                    assert(self.order@[b] == old_order[b]);
                }
            }
            assert forall|k: i128| #[trigger] self.entries@.contains_key(k) <==> self.order@.contains(k) by {
                if self.order@.contains(k) && k != key {
                    let j = choose|j: int| 0 <= j < self.order@.len() && self.order@[j] == k;
                    assert(old_order[j] == k);
                }
                if old_order.contains(k) {
                    let j = choose|j: int| 0 <= j < old_order.len() && old_order[j] == k;
                    assert(self.order@[j] == k);
                }
                assert(self.order@[old_order.len() as int] == key);
            }
            assert forall|y2: i32, r2: usize|
                #[trigger] self.entries@.contains_key(cache_key(y2, r2)) implies {
                &&& r2 < poly@.len()
                &&& cached_crossings(self.entries@[cache_key(y2, r2)]@, ring_crossings(poly@[r2 as int], y2 as int))
            } by {
                if cache_key(y2, r2) == key {
                    lemma_cache_key_injective(y2, r2, y, ring_idx);
                } else {
                    assert(before.contains_key(cache_key(y2, r2)));
                }
            }
            self.lemma_bounded(poly@);
        }
        n
    }
}

} // verus!
