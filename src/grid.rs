//! A uniform grid over the polygon's bounding box, listing in each cell the
//! edges that may pass through it, so that a boundary lookup only tests the
//! edges near the query point.
use vstd::prelude::*;
use vstd::arithmetic::div_mod::{lemma_div_is_ordered, lemma_div_pos_is_pos};
use crate::geometry::{Edge, on_segment, point_on_edge, min_of, max_of};
use crate::polygon::Polygon;

verus! {

/// Cells per side of the grid.
pub const GRID_SIZE: usize = 64;

/// The grid column (or row) of coordinate `v` on a side that starts at `lo`
/// and spans `extent`: `floor((v - lo) * GRID_SIZE / extent)`, held to
/// `0 .. GRID_SIZE`.
pub open spec fn cell_coord(v: int, lo: int, extent: int) -> int {
    if v <= lo {
        0
    } else {
        let c = (v - lo) * (GRID_SIZE as int) / extent;
        if c >= GRID_SIZE {
            GRID_SIZE - 1
        } else {
            c
        }
    }
}

/// The position of cell `(cx, cy)` in the flat cell array.
pub open spec fn cell_index(cx: int, cy: int) -> int {
    cx * (GRID_SIZE as int) + cy
}

/// `(x, y)` lies on some edge of `edges`.
pub open spec fn on_some_edge(edges: Seq<Edge>, x: int, y: int) -> bool {
    exists|k: int| 0 <= k < edges.len() && on_segment(#[trigger] edges[k], x, y)
}

proof fn lemma_cell_coord_monotone(v: int, w: int, lo: int, extent: int)
    requires
        v <= w,
        extent > 0,
    ensures
        0 <= cell_coord(v, lo, extent) <= cell_coord(w, lo, extent) < GRID_SIZE,
{
    if w > lo {
        lemma_div_pos_is_pos((w - lo) * (GRID_SIZE as int), extent);
        if v > lo {
            lemma_div_is_ordered((v - lo) * (GRID_SIZE as int), (w - lo) * (GRID_SIZE as int), extent);
            lemma_div_pos_is_pos((v - lo) * (GRID_SIZE as int), extent);
        }
    }
}

/// The grid cells and the box they tile. With zero width or height the grid
/// holds no cell and lookups scan every edge.
pub struct GridIndex {
    cells: Vec<Vec<usize>>,
    min_x: i32,
    min_y: i32,
    width: i64,
    height: i64,
}

/// The cell `(cx, cy)` lies in the rectangle of cells spanned by `e`.
pub open spec fn spans(e: Edge, cx: int, cy: int, min_x: int, min_y: int, width: int, height: int) -> bool {
    &&& cell_coord(min_of(e.x1 as int, e.x2 as int), min_x, width) <= cx
    &&& cx <= cell_coord(max_of(e.x1 as int, e.x2 as int), min_x, width)
    &&& cell_coord(min_of(e.y1 as int, e.y2 as int), min_y, height) <= cy
    &&& cy <= cell_coord(max_of(e.y1 as int, e.y2 as int), min_y, height)
}

/// Every entry of `cells` names one of the first `n` edges.
pub open spec fn entries_below(cells: Seq<Vec<usize>>, n: int) -> bool {
    forall|c: int, j: int|
        0 <= c < cells.len() && 0 <= j < cells[c]@.len() ==> #[trigger] cells[c]@[j] < n
}

/// `to` holds every entry of `from`, cell by cell.
pub open spec fn keeps(from: Seq<Vec<usize>>, to: Seq<Vec<usize>>) -> bool {
    &&& from.len() == to.len()
    &&& forall|c: int, k: usize|
        0 <= c < from.len() && #[trigger] from[c]@.contains(k) ==> #[trigger] to[c]@.contains(k)
}

impl GridIndex {
    pub closed spec fn active(&self) -> bool {
        self.width > 0 && self.height > 0
    }

    /// The grid lists every edge of `edges` in every cell that the edge's
    /// bounding box meets, and lists nothing else.
    pub closed spec fn indexes(&self, edges: Seq<Edge>) -> bool {
        self.active() ==> {
            &&& self.width <= 0x1_0000_0000
            &&& self.height <= 0x1_0000_0000
            &&& self.cells@.len() == GRID_SIZE * GRID_SIZE
            &&& entries_below(self.cells@, edges.len() as int)
            &&& forall|k: usize, cx: int, cy: int|
                k < edges.len() && 0 <= cx < GRID_SIZE && 0 <= cy < GRID_SIZE && spans(
                    edges[k as int],
                    cx,
                    cy,
                    self.min_x as int,
                    self.min_y as int,
                    self.width as int,
                    self.height as int,
                ) ==> #[trigger] self.cells@[cell_index(cx, cy)]@.contains(k)
        }
    }
}

/// `cell_coord(v, lo, extent)`.
fn cell_of(v: i32, lo: i32, extent: i64) -> (c: usize)
    requires
        0 < extent <= 0x1_0000_0000,
    ensures
        c == cell_coord(v as int, lo as int, extent as int),
        c < GRID_SIZE,
{
    let d = v as i64 - lo as i64;
    if d <= 0 {
        return 0;
    }
    let c = (d * 64) / extent;
    if c >= 64 {
        63
    } else {
        c as usize
    }
}

proof fn lemma_push_keeps(s: Seq<usize>, x: usize, k: usize)
    ensures
        s.contains(k) ==> s.push(x).contains(k),
        s.push(x).contains(x),
{
    if s.contains(k) {
        let i = choose|i: int| 0 <= i < s.len() && s[i] == k;
        assert(s.push(x)[i] == k);
    }
    assert(s.push(x)[s.len() as int] == x);
}

/// Adds edge `e` to the cell at `idx`.
fn add_to_cell(cells: &mut Vec<Vec<usize>>, idx: usize, e: usize)
    requires
        idx < old(cells)@.len(),
    ensures
        final(cells)@.len() == old(cells)@.len(),
        final(cells)@[idx as int]@ == old(cells)@[idx as int]@.push(e),
        forall|c: int| 0 <= c < old(cells)@.len() && c != idx ==> final(cells)@[c] == old(cells)@[c],
        keeps(old(cells)@, final(cells)@),
        final(cells)@[idx as int]@.contains(e),
{
    let ghost before = cells@;
    cells[idx].push(e);
    proof {
        assert forall|c: int, k: usize|
            0 <= c < before.len() && #[trigger] before[c]@.contains(k) implies #[trigger] cells@[c]@.contains(k) by {
            if c == idx {
                lemma_push_keeps(before[c]@, e, k);
            }
        }
        lemma_push_keeps(before[idx as int]@, e, e);
    }
}

/// Builds the grid over the polygon's bounding box.
pub fn build_grid(poly: &Polygon) -> (g: GridIndex)
    ensures
        g.indexes(poly.edges@),
        g.active() <==> (poly.bounds.max_x > poly.bounds.min_x && poly.bounds.max_y > poly.bounds.min_y),
{
    let min_x = poly.bounds.min_x;
    let min_y = poly.bounds.min_y;
    let width = poly.bounds.max_x as i64 - min_x as i64;
    let height = poly.bounds.max_y as i64 - min_y as i64;
    if width <= 0 || height <= 0 {
        return GridIndex { cells: Vec::new(), min_x, min_y, width, height };
    }
    let mut cells: Vec<Vec<usize>> = Vec::new();
    let mut i: usize = 0;
    while i < GRID_SIZE * GRID_SIZE
        invariant
            i <= GRID_SIZE * GRID_SIZE,
            cells@.len() == i,
            forall|c: int| 0 <= c < i ==> (#[trigger] cells@[c])@.len() == 0,
        decreases GRID_SIZE * GRID_SIZE - i,
    {
        cells.push(Vec::new());
        i = i + 1;
    }
    let n = poly.edges.len();
    let mut e: usize = 0;
    while e < n
        invariant
            n == poly.edges@.len(),
            e <= n,
            0 < width <= 0x1_0000_0000,
            0 < height <= 0x1_0000_0000,
            cells@.len() == GRID_SIZE * GRID_SIZE,
            entries_below(cells@, n as int),
            forall|k: usize, cx: int, cy: int|
                k < e && 0 <= cx < GRID_SIZE && 0 <= cy < GRID_SIZE && spans(
                    poly.edges@[k as int],
                    cx,
                    cy,
                    min_x as int,
                    min_y as int,
                    width as int,
                    height as int,
                ) ==> #[trigger] cells@[cell_index(cx, cy)]@.contains(k),
        decreases n - e,
    {
        let ed = poly.edges[e];
        let cx0 = cell_of(if ed.x1 <= ed.x2 { ed.x1 } else { ed.x2 }, min_x, width);
        let cx1 = cell_of(if ed.x1 >= ed.x2 { ed.x1 } else { ed.x2 }, min_x, width);
        let cy0 = cell_of(if ed.y1 <= ed.y2 { ed.y1 } else { ed.y2 }, min_y, height);
        let cy1 = cell_of(if ed.y1 >= ed.y2 { ed.y1 } else { ed.y2 }, min_y, height);
        proof {
            lemma_cell_coord_monotone(min_of(ed.x1 as int, ed.x2 as int), max_of(ed.x1 as int, ed.x2 as int), min_x as int, width as int);
            lemma_cell_coord_monotone(min_of(ed.y1 as int, ed.y2 as int), max_of(ed.y1 as int, ed.y2 as int), min_y as int, height as int);
        }
        let ghost start = cells@;
        let mut cx = cx0;
        while cx <= cx1
            invariant
                n == poly.edges@.len(),
                e < n,
                ed == poly.edges@[e as int],
                cx0 <= cx <= cx1 + 1,
                cy0 <= cy1,
                cx1 < GRID_SIZE,
                cy1 < GRID_SIZE,
                cells@.len() == GRID_SIZE * GRID_SIZE,
                entries_below(cells@, n as int),
                keeps(start, cells@),
                forall|cxx: int, cyy: int|
                    cx0 <= cxx < cx && cy0 <= cyy <= cy1 ==> #[trigger] cells@[cell_index(
                        cxx,
                        cyy,
                    )]@.contains(e),
            decreases cx1 + 1 - cx,
        {
            let mut cy = cy0;
            while cy <= cy1
                invariant
                    n == poly.edges@.len(),
                    e < n,
                    cx0 <= cx <= cx1,
                    cx1 < GRID_SIZE,
                    cy0 <= cy <= cy1 + 1,
                    cy1 < GRID_SIZE,
                    cells@.len() == GRID_SIZE * GRID_SIZE,
                    entries_below(cells@, n as int),
                    keeps(start, cells@),
                    forall|cxx: int, cyy: int|
                        ((cx0 <= cxx < cx && cy0 <= cyy <= cy1) || (cxx == cx && cy0 <= cyy < cy))
                            ==> #[trigger] cells@[cell_index(cxx, cyy)]@.contains(e),
                decreases cy1 + 1 - cy,
            {
                let ghost before = cells@;
                let idx = cx * GRID_SIZE + cy;
                assert(idx == cell_index(cx as int, cy as int));
                add_to_cell(&mut cells, idx, e);
                proof {
                    assert forall|c: int, j: int|
                        0 <= c < cells@.len() && 0 <= j < cells@[c]@.len() implies #[trigger] cells@[c]@[j] < n by {
                        if c == idx && j == before[c]@.len() {
                        } else {
                            assert(cells@[c]@[j] == before[c]@[j]);
                        }
                    }
                    assert forall|c: int, k: usize|
                        0 <= c < start.len() && #[trigger] start[c]@.contains(k) implies #[trigger] cells@[c]@.contains(k) by {
                        assert(before[c]@.contains(k));
                    }
                    assert forall|cxx: int, cyy: int|
                        ((cx0 <= cxx < cx && cy0 <= cyy <= cy1) || (cxx == cx && cy0 <= cyy < cy + 1))
                            implies #[trigger] cells@[cell_index(cxx, cyy)]@.contains(e) by {
                        if cxx == cx && cyy == cy {
                        } else {
                            assert(before[cell_index(cxx, cyy)]@.contains(e));
                        }
                    }
                }
                cy = cy + 1;
            }
            cx = cx + 1;
        }
        proof {
            assert forall|k: usize, cx2: int, cy2: int|
                k < e + 1 && 0 <= cx2 < GRID_SIZE && 0 <= cy2 < GRID_SIZE && spans(
                    poly.edges@[k as int],
                    cx2,
                    cy2,
                    min_x as int,
                    min_y as int,
                    width as int,
                    height as int,
                ) implies #[trigger] cells@[cell_index(cx2, cy2)]@.contains(k) by {
                if k < e {
                    assert(start[cell_index(cx2, cy2)]@.contains(k));
                }
            }
        }
        e = e + 1;
    }
    GridIndex { cells, min_x, min_y, width, height }
}

/// Whether `(x, y)` lies on any of `edges`, testing each in turn.
pub fn on_any_edge(edges: &Vec<Edge>, x: i32, y: i32) -> (r: bool)
    ensures
        r == on_some_edge(edges@, x as int, y as int),
{
    let mut k: usize = 0;
    while k < edges.len()
        invariant
            k <= edges@.len(),
            forall|j: int| 0 <= j < k ==> !on_segment(#[trigger] edges@[j], x as int, y as int),
        decreases edges.len() - k,
    {
        if point_on_edge(&edges[k], x, y) {
            return true;
        }
        k = k + 1;
    }
    false
}

impl GridIndex {
    /// Whether `(x, y)` lies on an edge of the polygon, testing only the
    /// edges listed in the point's cell (every edge, when the grid is empty).
    pub fn on_boundary(&self, poly: &Polygon, x: i32, y: i32) -> (r: bool)
        requires
            self.indexes(poly.edges@),
        ensures
            r == on_some_edge(poly.edges@, x as int, y as int),
    {
        if self.width <= 0 || self.height <= 0 {
            return on_any_edge(&poly.edges, x, y);
        }
        let cx = cell_of(x, self.min_x, self.width);
        let cy = cell_of(y, self.min_y, self.height);
        let idx = cx * GRID_SIZE + cy;
        assert(idx == cell_index(cx as int, cy as int));
        let cell = &self.cells[idx];
        let n = poly.edges.len();
        let mut j: usize = 0;
        while j < cell.len()
            invariant
                j <= cell@.len(),
                n == poly.edges@.len(),
                forall|i: int| 0 <= i < cell@.len() ==> #[trigger] cell@[i] < n,
                forall|i: int|
                    0 <= i < j ==> !on_segment(poly.edges@[#[trigger] cell@[i] as int], x as int, y as int),
            decreases cell.len() - j,
        {
            let k = cell[j];
            if point_on_edge(&poly.edges[k], x, y) {
                return true;
            }
            j = j + 1;
        }
        proof {
            if on_some_edge(poly.edges@, x as int, y as int) {
                let k = choose|k: int| 0 <= k < poly.edges@.len() && on_segment(#[trigger] poly.edges@[k], x as int, y as int);
                let ed = poly.edges@[k];
                lemma_cell_coord_monotone(min_of(ed.x1 as int, ed.x2 as int), x as int, self.min_x as int, self.width as int);
                lemma_cell_coord_monotone(x as int, max_of(ed.x1 as int, ed.x2 as int), self.min_x as int, self.width as int);
                lemma_cell_coord_monotone(min_of(ed.y1 as int, ed.y2 as int), y as int, self.min_y as int, self.height as int);
                lemma_cell_coord_monotone(y as int, max_of(ed.y1 as int, ed.y2 as int), self.min_y as int, self.height as int);
                assert(cell@.contains(k as usize));
                let i = choose|i: int| 0 <= i < cell@.len() && cell@[i] == k as usize;
                assert(!on_segment(poly.edges@[cell@[i] as int], x as int, y as int));
            }
        }
        false
    }
}

} // verus!
