//! The polygon: rings of edges built from a flat vertex array and ring splits.
use vstd::prelude::*;
use crate::geometry::{Bounds, Edge, bounds_of, is_degenerate, extend};

verus! {

/// The number of whole `(x, y)` pairs in a flat coordinate array.
pub open spec fn vertex_count(flat: Seq<i32>) -> int {
    flat.len() as int / 2
}

/// The edge from vertex `a` to vertex `b` of a flat coordinate array.
pub open spec fn edge_between(flat: Seq<i32>, a: int, b: int) -> Edge {
    Edge { x1: flat[2 * a], y1: flat[2 * a + 1], x2: flat[2 * b], y2: flat[2 * b + 1] }
}

/// The non-degenerate edges joining consecutive vertices among the `n`
/// vertices that begin at `start`.
pub open spec fn chain_edges(flat: Seq<i32>, start: int, n: int) -> Seq<Edge>
    decreases n,
{
    if n <= 1 {
        Seq::empty()
    } else {
        let prev = chain_edges(flat, start, n - 1);
        let e = edge_between(flat, start + n - 2, start + n - 1);
        if is_degenerate(e) {
            prev
        } else {
            prev.push(e)
        }
    }
}

/// The edges of the ring on vertices `start..end`: the chain, closed by an
/// edge from the last vertex back to the first unless that edge is degenerate.
pub open spec fn ring_edges(flat: Seq<i32>, start: int, end: int) -> Seq<Edge> {
    let chain = chain_edges(flat, start, end - start);
    let closing = edge_between(flat, end - 1, start);
    if end - start >= 2 && !is_degenerate(closing) {
        chain.push(closing)
    } else {
        chain
    }
}

/// The first vertex of ring `i`.
pub open spec fn ring_start(splits: Seq<u32>, i: int) -> int {
    if i == 0 {
        0
    } else {
        splits[i - 1] as int
    }
}

/// One past the last vertex of ring `i`: the split that closes it, or the
/// vertex count for the trailing ring.
pub open spec fn ring_end(splits: Seq<u32>, m: int, i: int) -> int {
    if i < splits.len() {
        splits[i] as int
    } else {
        m
    }
}

/// One ring per split, and a trailing ring when vertices follow the last split.
pub open spec fn ring_count(splits: Seq<u32>, m: int) -> int {
    if ring_start(splits, splits.len() as int) < m {
        splits.len() as int + 1
    } else {
        splits.len() as int
    }
}

/// Every split names a vertex boundary inside the array.
pub open spec fn splits_in_range(splits: Seq<u32>, m: int) -> bool {
    forall|i: int| 0 <= i < splits.len() ==> splits[i] <= m
}

/// The rings described by a flat vertex array and its ring splits, each as
/// its sequence of edges. Ring 0 is the outer boundary, every later ring a hole.
pub open spec fn rings_model(flat: Seq<i32>, splits: Seq<u32>) -> Seq<Seq<Edge>> {
    let m = vertex_count(flat);
    Seq::new(
        ring_count(splits, m) as nat,
        |i: int| ring_edges(flat, ring_start(splits, i), ring_end(splits, m, i)),
    )
}

/// All edges of all rings, in ring order.
pub open spec fn concat(rings: Seq<Seq<Edge>>) -> Seq<Edge>
    decreases rings.len(),
{
    if rings.len() == 0 {
        Seq::empty()
    } else {
        concat(rings.drop_last()) + rings.last()
    }
}

/// One boundary loop: a range of the polygon's edge store.
#[derive(Clone, Copy, Debug)]
pub struct Ring {
    pub start_idx: usize,
    pub edge_count: usize,
    pub is_hole: bool,
    pub bounds: Bounds,
}

/// The edge store, its rings and the bounding box of all edges.
pub struct Polygon {
    pub edges: Vec<Edge>,
    pub rings: Vec<Ring>,
    pub bounds: Bounds,
}

/// `rings` lays the rings of `model` out over the edge store `edges`: each
/// ring is the range of the store that holds its edges, in order, ring 0 is
/// the only one that is not a hole, and each ring carries its bounding box.
pub open spec fn rings_match(edges: Seq<Edge>, rings: Seq<Ring>, model: Seq<Seq<Edge>>) -> bool {
    &&& rings.len() == model.len()
    &&& edges == concat(model)
    &&& forall|r: int|
        #![trigger rings[r]]
        0 <= r < rings.len() ==> {
            &&& rings[r].start_idx + rings[r].edge_count <= edges.len()
            &&& edges.subrange(rings[r].start_idx as int, rings[r].start_idx + rings[r].edge_count)
                == model[r]
            &&& rings[r].is_hole == (r > 0)
            &&& rings[r].bounds == bounds_of(model[r])
        }
}

impl Polygon {
    /// The edges of ring `i`.
    pub open spec fn ring_view(&self, i: int) -> Seq<Edge> {
        let r = self.rings@[i];
        self.edges@.subrange(r.start_idx as int, r.start_idx + r.edge_count)
    }

    #[verifier::opaque]
    pub open spec fn wf(&self) -> bool {
        &&& rings_match(self.edges@, self.rings@, self@)
        &&& self.bounds == bounds_of(self.edges@)
    }
}

impl Polygon {
    /// What a well-formed polygon says of its ring `i`.
    pub proof fn lemma_ring(&self, i: int)
        requires
            self.wf(),
            0 <= i < self.rings@.len(),
        ensures
            self@.len() == self.rings@.len(),
            self.rings@[i].start_idx + self.rings@[i].edge_count <= self.edges@.len(),
            self@[i] == self.edges@.subrange(
                self.rings@[i].start_idx as int,
                self.rings@[i].start_idx + self.rings@[i].edge_count,
            ),
            self.rings@[i].is_hole == (i > 0),
            self.rings@[i].bounds == bounds_of(self@[i]),
    {
        reveal(Polygon::wf);
        assert(self.rings@[i] == self.rings@[i]);
    }

    /// What a well-formed polygon says of its edge store and box.
    pub proof fn lemma_edges(&self)
        requires
            self.wf(),
        ensures
            self@.len() == self.rings@.len(),
            self.edges@ == concat(self@),
            self.bounds == bounds_of(self.edges@),
    {
        reveal(Polygon::wf);
    }
}

impl View for Polygon {
    type V = Seq<Seq<Edge>>;

    open spec fn view(&self) -> Seq<Seq<Edge>> {
        Seq::new(self.rings@.len(), |i: int| self.ring_view(i))
    }
}

proof fn lemma_bounds_push(s: Seq<Edge>, e: Edge)
    ensures
        bounds_of(s.push(e)) == extend(bounds_of(s), e),
{
    assert(s.push(e).drop_last() =~= s);
}

proof fn lemma_concat_push(rings: Seq<Seq<Edge>>, r: Seq<Edge>)
    ensures
        concat(rings.push(r)) == concat(rings) + r,
{
    assert(rings.push(r).drop_last() =~= rings);
}

/// Reads vertex `j` of a flat coordinate array.
fn edge_from(flat: &[i32], a: usize, b: usize) -> (e: Edge)
    requires
        a < vertex_count(flat@),
        b < vertex_count(flat@),
    ensures
        e == edge_between(flat@, a as int, b as int),
{
    assert(2 * a + 1 < flat.len() && 2 * b + 1 < flat.len());
    Edge { x1: flat[2 * a], y1: flat[2 * a + 1], x2: flat[2 * b], y2: flat[2 * b + 1] }
}

/// Appends the edges of the ring on vertices `start..end` to `edges`, growing
/// `all` by each edge appended, and returns the ring's own bounding box.
fn append_ring(
    flat: &[i32],
    start: usize,
    end: usize,
    edges: &mut Vec<Edge>,
    all: &mut Bounds,
) -> (ring_bounds: Bounds)
    requires
        start <= vertex_count(flat@),
        end <= vertex_count(flat@),
        *old(all) == bounds_of(old(edges)@),
    ensures
        final(edges)@ == old(edges)@ + ring_edges(flat@, start as int, end as int),
        *final(all) == bounds_of(final(edges)@),
        ring_bounds == bounds_of(ring_edges(flat@, start as int, end as int)),
{
    let ghost base = edges@;
    let mut rb = Bounds::empty();
    if end <= start {
        assert(ring_edges(flat@, start as int, end as int) =~= Seq::<Edge>::empty());
        assert(edges@ =~= base + Seq::<Edge>::empty());
        return rb;
    }
    let mut j: usize = start + 1;
    assert(chain_edges(flat@, start as int, 1) =~= Seq::<Edge>::empty());
    assert(edges@ =~= base + chain_edges(flat@, start as int, 1));
    while j < end
        invariant
            start < j <= end,
            end <= vertex_count(flat@),
            edges@ == base + chain_edges(flat@, start as int, j - start),
            rb == bounds_of(chain_edges(flat@, start as int, j - start)),
            *all == bounds_of(edges@),
        decreases end - j,
    {
        let e = edge_from(flat, j - 1, j);
        let ghost chain = chain_edges(flat@, start as int, j - start);
        assert(chain_edges(flat@, start as int, j + 1 - start) == if is_degenerate(e) {
            chain
        } else {
            chain.push(e)
        });
        if !(e.x1 == e.x2 && e.y1 == e.y2) {
            proof {
                lemma_bounds_push(edges@, e);
                lemma_bounds_push(chain, e);
            }
            edges.push(e);
            rb = rb.extended(&e);
            *all = all.extended(&e);
            assert(edges@ =~= base + chain.push(e));
        }
        j = j + 1;
    }
    let closing = edge_from(flat, end - 1, start);
    let ghost chain = chain_edges(flat@, start as int, end - start);
    if end - start >= 2 && !(closing.x1 == closing.x2 && closing.y1 == closing.y2) {
        proof {
            lemma_bounds_push(edges@, closing);
            lemma_bounds_push(chain, closing);
        }
        edges.push(closing);
        rb = rb.extended(&closing);
        *all = all.extended(&closing);
        assert(edges@ =~= base + chain.push(closing));
    }
    rb
}

proof fn lemma_rings_match_push(
    edges: Seq<Edge>,
    rings: Seq<Ring>,
    model: Seq<Seq<Edge>>,
    r: Seq<Edge>,
    ring: Ring,
)
    requires
        rings_match(edges, rings, model),
        ring.start_idx == edges.len(),
        ring.edge_count == r.len(),
        ring.is_hole == (rings.len() > 0),
        ring.bounds == bounds_of(r),
    ensures
        rings_match(edges + r, rings.push(ring), model.push(r)),
{
    let e2 = edges + r;
    let rs = rings.push(ring);
    lemma_concat_push(model, r);
    assert(e2.subrange(ring.start_idx as int, ring.start_idx + ring.edge_count) =~= r);
    assert forall|k: int| #![trigger rs[k]] 0 <= k < rings.len() implies e2.subrange(
        rs[k].start_idx as int,
        rs[k].start_idx + rs[k].edge_count,
    ) == model.push(r)[k] by {
        assert(e2.subrange(rs[k].start_idx as int, rs[k].start_idx + rs[k].edge_count)
            =~= edges.subrange(rings[k].start_idx as int, rings[k].start_idx + rings[k].edge_count));
    }
}

/// Appends ring `rings.len()`, on vertices `start..end`, to the polygon
/// under construction.
fn add_ring(
    flat: &[i32],
    start: usize,
    end: usize,
    edges: &mut Vec<Edge>,
    rings: &mut Vec<Ring>,
    all: &mut Bounds,
    Ghost(model): Ghost<Seq<Seq<Edge>>>,
)
    requires
        start <= vertex_count(flat@),
        end <= vertex_count(flat@),
        rings_match(old(edges)@, old(rings)@, model),
        *old(all) == bounds_of(old(edges)@),
    ensures
        rings_match(
            final(edges)@,
            final(rings)@,
            model.push(ring_edges(flat@, start as int, end as int)),
        ),
        *final(all) == bounds_of(final(edges)@),
{
    let ghost old_edges = edges@;
    let start_idx = edges.len();
    let rb = append_ring(flat, start, end, edges, all);
    let edge_count = edges.len() - start_idx;
    let ring = Ring { start_idx, edge_count, is_hole: rings.len() > 0, bounds: rb };
    proof {
        lemma_rings_match_push(
            old_edges,
            rings@,
            model,
            ring_edges(flat@, start as int, end as int),
            ring,
        );
    }
    rings.push(ring);
}

/// Builds the polygon: ring `i` spans the vertices from split `i - 1` (or 0)
/// up to split `i`, and vertices after the last split form a trailing ring.
/// Degenerate edges are dropped and each ring is closed.
pub fn build_polygon(flat: &[i32], splits: &[u32]) -> (poly: Polygon)
    requires
        splits_in_range(splits@, vertex_count(flat@)),
    ensures
        poly.wf(),
        poly@ == rings_model(flat@, splits@),
{
    let m = flat.len() / 2;
    let ghost model = rings_model(flat@, splits@);
    let mut edges: Vec<Edge> = Vec::new();
    let mut rings: Vec<Ring> = Vec::new();
    let mut bounds = Bounds::empty();
    let mut i: usize = 0;
    assert(model.take(0) =~= Seq::<Seq<Edge>>::empty());
    assert(concat(Seq::<Seq<Edge>>::empty()) =~= Seq::<Edge>::empty());
    while i < splits.len()
        invariant
            m == vertex_count(flat@),
            model == rings_model(flat@, splits@),
            splits_in_range(splits@, m as int),
            i <= splits.len(),
            rings_match(edges@, rings@, model.take(i as int)),
            bounds == bounds_of(edges@),
        decreases splits.len() - i,
    {
        let start: usize = if i == 0 {
            0
        } else {
            splits[i - 1] as usize
        };
        let end = splits[i] as usize;
        add_ring(flat, start, end, &mut edges, &mut rings, &mut bounds, Ghost(model.take(i as int)));
        assert(model.take(i as int).push(model[i as int]) =~= model.take(i + 1));
        i = i + 1;
    }
    let last_start: usize = if splits.len() == 0 {
        0
    } else {
        splits[splits.len() - 1] as usize
    };
    if last_start < m {
        add_ring(flat, last_start, m, &mut edges, &mut rings, &mut bounds, Ghost(model.take(i as int)));
        assert(model.take(i as int).push(model[i as int]) =~= model);
    } else {
        assert(model.take(i as int) =~= model);
    }
    let poly = Polygon { edges, rings, bounds };
    reveal(Polygon::wf);
    assert(poly@ =~= model) by {
        assert forall|r: int| 0 <= r < model.len() implies poly@[r] == model[r] by {
            assert(poly.rings@[r] == poly.rings@[r]);
        }
    }
    poly
}

} // verus!
