//! Uniform grid over element bounds for hit testing.

use vstd::prelude::*;

use crate::element_range::ElementRange;
use crate::geometry::{Point, Rect, POINT};

verus! {

/// Side of one grid cell.
pub const CELL_SIZE: i64 = 50 * POINT;

/// Smallest rectangle holding the visual bounds of all of `rs`; the empty
/// rectangle at the origin when there are none.
pub open spec fn bounds_of(rs: Seq<ElementRange>) -> Rect
    decreases rs.len(),
{
    if rs.len() == 0 {
        Rect { min: Point { x: 0, y: 0 }, max: Point { x: 0, y: 0 } }
    } else if rs.len() == 1 {
        rs[0].visual_bounds
    } else {
        let b = bounds_of(rs.drop_last());
        let v = rs.last().visual_bounds;
        Rect {
            min: Point {
                x: if v.min.x < b.min.x { v.min.x } else { b.min.x },
                y: if v.min.y < b.min.y { v.min.y } else { b.min.y },
            },
            max: Point {
                x: if v.max.x > b.max.x { v.max.x } else { b.max.x },
                y: if v.max.y > b.max.y { v.max.y } else { b.max.y },
            },
        }
    }
}

/// Number of cells needed to cover `extent`; at least one.
pub open spec fn grid_dim(extent: int) -> int {
    if extent <= 0 {
        1
    } else {
        (extent + CELL_SIZE - 1) / CELL_SIZE as int
    }
}

/// Cell holding offset `d` from the grid origin; offsets before the
/// origin fall in the first cell.
pub open spec fn cell_of(d: int) -> int {
    if d < 0 {
        0
    } else {
        d / CELL_SIZE as int
    }
}

/// Whether an element with bounds `b` is registered in cell `(row, col)` of
/// the grid laid over `doc`.
pub open spec fn covers(b: Rect, doc: Rect, row: int, col: int) -> bool {
    &&& cell_of(b.min.y - doc.min.y) <= row <= cell_of(b.max.y - doc.min.y)
    &&& cell_of(b.min.x - doc.min.x) <= col <= cell_of(b.max.x - doc.min.x)
}

/// Indices among the first `k` of `rs` registered in cell `(row, col)`, in
/// increasing order.
pub open spec fn cell_members(rs: Seq<ElementRange>, doc: Rect, k: int, row: int, col: int) -> Seq<
    usize,
>
    decreases k,
{
    if k <= 0 {
        Seq::empty()
    } else {
        let prev = cell_members(rs, doc, k - 1, row, col);
        if covers(rs[k - 1].visual_bounds, doc, row, col) {
            prev.push((k - 1) as usize)
        } else {
            prev
        }
    }
}

pub open spec fn grid_view(g: Seq<Vec<Vec<usize>>>) -> Seq<Seq<Seq<usize>>> {
    g.map_values(|row: Vec<Vec<usize>>| row@.map_values(|cell: Vec<usize>| cell@))
}

/// Number of cells covering `extent`.
fn cells_for_extent(extent: i64) -> (r: usize)
    requires
        -4_000_000_000 <= extent <= 4_000_000_000,
    ensures
        r == grid_dim(extent as int),
        r >= 1,
{
    if extent <= 0 {
        1
    } else {
        ((extent + CELL_SIZE - 1) / CELL_SIZE) as usize
    }
}

fn cell_index(d: i64) -> (r: usize)
    requires
        -4_000_000_000 <= d <= 4_000_000_000,
    ensures
        r == cell_of(d as int),
{
    if d < 0 {
        0
    } else {
        (d / CELL_SIZE) as usize
    }
}

/// The bounding rectangle of all visual bounds in `rs`.
fn bounds_for(rs: &[ElementRange]) -> (r: Rect)
    requires
        forall|i: int| 0 <= i < rs@.len() ==> (#[trigger] rs@[i]).visual_bounds.wf(),
    ensures
        r == bounds_of(rs@),
        r.wf(),
{
    if rs.len() == 0 {
        return Rect { min: Point { x: 0, y: 0 }, max: Point { x: 0, y: 0 } };
    }
    let mut acc = rs[0].visual_bounds;
    let mut i: usize = 1;
    assert(rs@.subrange(0, 1).drop_last() =~= Seq::<ElementRange>::empty());
    while i < rs.len()
        invariant
            1 <= i <= rs@.len(),
            forall|k: int| 0 <= k < rs@.len() ==> (#[trigger] rs@[k]).visual_bounds.wf(),
            acc == bounds_of(rs@.subrange(0, i as int)),
            acc.wf(),
        decreases rs@.len() - i,
    {
        let v = rs[i].visual_bounds;
        acc = Rect {
            min: Point {
                x: if v.min.x < acc.min.x { v.min.x } else { acc.min.x },
                y: if v.min.y < acc.min.y { v.min.y } else { acc.min.y },
            },
            max: Point {
                x: if v.max.x > acc.max.x { v.max.x } else { acc.max.x },
                y: if v.max.y > acc.max.y { v.max.y } else { acc.max.y },
            },
        };
        assert(rs@.subrange(0, i as int + 1).drop_last() =~= rs@.subrange(0, i as int));
        i = i + 1;
    }
    assert(rs@.subrange(0, rs@.len() as int) =~= rs@);
    acc
}

/// `a` and `b` hold elements with the same visual bounds, in the same order.
pub open spec fn same_visuals(a: Seq<ElementRange>, b: Seq<ElementRange>) -> bool {
    &&& a.len() == b.len()
    &&& forall|i: int| 0 <= i < a.len() ==> #[trigger] a[i].visual_bounds == b[i].visual_bounds
}

proof fn lemma_same_visuals_bounds(a: Seq<ElementRange>, b: Seq<ElementRange>)
    requires
        same_visuals(a, b),
    ensures
        bounds_of(a) == bounds_of(b),
    decreases a.len(),
{
    if a.len() > 1 {
        assert(a.drop_last()[a.len() - 2].visual_bounds == b.drop_last()[a.len() - 2].visual_bounds);
        assert(same_visuals(a.drop_last(), b.drop_last()));
        lemma_same_visuals_bounds(a.drop_last(), b.drop_last());
        assert(a.last().visual_bounds == b.last().visual_bounds);
    } else if a.len() == 1 {
        assert(a[0].visual_bounds == b[0].visual_bounds);
    }
}

proof fn lemma_same_visuals_members(
    a: Seq<ElementRange>,
    b: Seq<ElementRange>,
    doc: Rect,
    k: int,
    row: int,
    col: int,
)
    requires
        same_visuals(a, b),
        k <= a.len(),
    ensures
        cell_members(a, doc, k, row, col) == cell_members(b, doc, k, row, col),
    decreases k,
{
    if k > 0 {
        lemma_same_visuals_members(a, b, doc, k - 1, row, col);
        assert(a[k - 1].visual_bounds == b[k - 1].visual_bounds);
    }
}

/// Facts about the elements listed in one cell: all are among the first
/// `k`, and the first listed is the lowest index registered there.
pub proof fn lemma_cell_members_first(
    rs: Seq<ElementRange>,
    doc: Rect,
    k: int,
    row: int,
    col: int,
)
    requires
        0 <= k <= rs.len(),
        k <= usize::MAX,
    ensures
        forall|t: int|
            0 <= t < cell_members(rs, doc, k, row, col).len() ==> #[trigger] cell_members(
                rs,
                doc,
                k,
                row,
                col,
            )[t] < k,
        cell_members(rs, doc, k, row, col).len() == 0 <==> forall|j: int|
            0 <= j < k ==> !covers(#[trigger] rs[j].visual_bounds, doc, row, col),
        cell_members(rs, doc, k, row, col).len() > 0 ==> {
            let first = cell_members(rs, doc, k, row, col)[0] as int;
            &&& covers(rs[first].visual_bounds, doc, row, col)
            &&& forall|j: int| 0 <= j < first ==> !covers(#[trigger] rs[j].visual_bounds, doc, row, col)
        },
    decreases k,
{
    if k > 0 {
        lemma_cell_members_first(rs, doc, k - 1, row, col);
        let prev = cell_members(rs, doc, k - 1, row, col);
        if covers(rs[k - 1].visual_bounds, doc, row, col) {
            assert(cell_members(rs, doc, k, row, col) == prev.push((k - 1) as usize));
            if prev.len() > 0 {
                assert(prev.push((k - 1) as usize)[0] == prev[0]);
            }
        }
    }
}

/// Grid-based spatial index: each cell lists the elements whose bounds
/// overlap it.
#[derive(Debug)]
pub struct SpatialIndex {
    grid: Vec<Vec<Vec<usize>>>,
    doc_bounds: Rect,
    dirty_regions: Vec<Rect>,
}

impl SpatialIndex {
    /// The grid, `cells()[row][col]`.
    pub closed spec fn cells(&self) -> Seq<Seq<Seq<usize>>> {
        grid_view(self.grid@)
    }

    /// Document area that the grid covers.
    pub closed spec fn bounds(&self) -> Rect {
        self.doc_bounds
    }

    /// Regions marked as needing a redraw.
    pub closed spec fn dirty(&self) -> Seq<Rect> {
        self.dirty_regions@
    }

    pub open spec fn wf(&self) -> bool {
        self.bounds().wf()
    }

    /// The index was built from `rs`.
    pub open spec fn indexes(&self, rs: Seq<ElementRange>) -> bool {
        let doc = bounds_of(rs);
        &&& self.bounds() == doc
        &&& self.cells().len() == grid_dim(doc.spec_height())
        &&& forall|r: int|
            0 <= r < self.cells().len() ==> #[trigger] self.cells()[r].len() == grid_dim(
                doc.spec_width(),
            )
        &&& forall|r: int, c: int|
            0 <= r < self.cells().len() && 0 <= c < self.cells()[r].len() ==> #[trigger] self.cells()[r][c]
                == cell_members(rs, doc, rs.len() as int, r, c)
    }

    /// An index built from `a` serves equally for `b` when both hold the
    /// same visual bounds.
    pub proof fn lemma_indexes_same_visuals(&self, a: Seq<ElementRange>, b: Seq<ElementRange>)
        requires
            self.indexes(a),
            same_visuals(a, b),
        ensures
            self.indexes(b),
    {
        lemma_same_visuals_bounds(a, b);
        let doc = bounds_of(a);
        assert forall|r: int, c: int|
            0 <= r < self.cells().len() && 0 <= c < self.cells()[r].len() implies #[trigger] self.cells()[r][c]
            == cell_members(b, doc, b.len() as int, r, c) by {
            lemma_same_visuals_members(a, b, doc, a.len() as int, r, c);
        }
    }

    /// A lookup in an index built from `rs` finds the lowest-numbered
    /// element registered in the cell holding `p`.
    pub proof fn lemma_lookup_first_registered(&self, rs: Seq<ElementRange>, p: Point)
        requires
            self.indexes(rs),
            self.lookup(p) is Some,
            rs.len() <= usize::MAX,
        ensures
            ({
                let doc = bounds_of(rs);
                let row = (p.y - doc.min.y) / CELL_SIZE as int;
                let col = (p.x - doc.min.x) / CELL_SIZE as int;
                let i = self.lookup(p)->0 as int;
                &&& 0 <= i < rs.len()
                &&& covers(rs[i].visual_bounds, doc, row, col)
                &&& forall|j: int| 0 <= j < i ==> !covers(#[trigger] rs[j].visual_bounds, doc, row, col)
            }),
    {
        let doc = bounds_of(rs);
        let row = (p.y - doc.min.y) / CELL_SIZE as int;
        let col = (p.x - doc.min.x) / CELL_SIZE as int;
        lemma_cell_members_first(rs, doc, rs.len() as int, row, col);
    }

    /// What a lookup of `p` finds: the first element listed in the cell
    /// holding `p`, if `p` lies within the indexed bounds.
    pub open spec fn lookup(&self, p: Point) -> Option<usize> {
        let doc = self.bounds();
        let cells = self.cells();
        if !doc.spec_contains(p) {
            None
        } else {
            let row = (p.y - doc.min.y) / CELL_SIZE as int;
            let col = (p.x - doc.min.x) / CELL_SIZE as int;
            if row >= cells.len() || col >= cells[row].len() || cells[row][col].len() == 0 {
                None
            } else {
                Some(cells[row][col][0])
            }
        }
    }

    /// An empty index over a 1000 by 1000 point area.
    pub fn new() -> (r: SpatialIndex)
        ensures
            r.wf(),
            r.cells().len() == 0,
            r.dirty().len() == 0,
            r.bounds().min == (Point { x: 0, y: 0 }),
            r.bounds().max.x == 1000 * POINT,
            r.bounds().max.y == 1000 * POINT,
    {
        SpatialIndex {
            grid: Vec::new(),
            doc_bounds: Rect {
                min: Point { x: 0, y: 0 },
                max: Point { x: 1000 * POINT, y: 1000 * POINT },
            },
            dirty_regions: Vec::new(),
        }
    }

    /// Rebuilds the grid from the visual bounds of `element_ranges`; each
    /// element is listed in every cell its bounds overlap.
    pub fn rebuild(&mut self, element_ranges: &[ElementRange])
        requires
            forall|i: int|
                0 <= i < element_ranges@.len() ==> (#[trigger] element_ranges@[i]).visual_bounds.wf(),
        ensures
            final(self).wf(),
            final(self).indexes(element_ranges@),
            final(self).dirty() == old(self).dirty(),
    {
        let ghost rs = element_ranges@;
        let doc = bounds_for(element_ranges);
        let rows = cells_for_extent(doc.max.y - doc.min.y);
        let cols = cells_for_extent(doc.max.x - doc.min.x);
        let mut grid: Vec<Vec<Vec<usize>>> = Vec::new();
        let mut r: usize = 0;
        while r < rows
            invariant
                r <= rows,
                grid@.len() == r,
                forall|k: int| 0 <= k < r ==> (#[trigger] grid@[k])@.len() == cols,
                forall|k: int, c: int|
                    0 <= k < r && 0 <= c < cols ==> (#[trigger] grid@[k]@[c])@.len() == 0,
            decreases rows - r,
        {
            let mut row: Vec<Vec<usize>> = Vec::new();
            let mut c: usize = 0;
            while c < cols
                invariant
                    c <= cols,
                    row@.len() == c,
                    forall|k: int| 0 <= k < c ==> (#[trigger] row@[k])@.len() == 0,
                decreases cols - c,
            {
                row.push(Vec::new());
                c = c + 1;
            }
            grid.push(row);
            r = r + 1;
        }
        let n = element_ranges.len();
        let mut i: usize = 0;
        while i < n
            invariant
                n == rs.len(),
                rs == element_ranges@,
                i <= n,
                forall|k: int| 0 <= k < n ==> (#[trigger] rs[k]).visual_bounds.wf(),
                doc == bounds_of(rs),
                doc.wf(),
                rows >= 1,
                cols >= 1,
                grid@.len() == rows,
                forall|k: int| 0 <= k < rows ==> (#[trigger] grid@[k])@.len() == cols,
                forall|k: int, c: int|
                    0 <= k < rows && 0 <= c < cols ==> (#[trigger] grid@[k]@[c])@ == cell_members(
                        rs,
                        doc,
                        i as int,
                        k,
                        c,
                    ),
            decreases n - i,
        {
            let b = element_ranges[i].visual_bounds;
            let start_row = cell_index(b.min.y - doc.min.y);
            let end_row = cell_index(b.max.y - doc.min.y);
            let start_col = cell_index(b.min.x - doc.min.x);
            let end_col = cell_index(b.max.x - doc.min.x);
            let last_row = if end_row < rows - 1 { end_row } else { rows - 1 };
            let last_col = if end_col < cols - 1 { end_col } else { cols - 1 };
            let mut row = start_row;
            while row <= last_row
                invariant
                    n == rs.len(),
                    i < n,
                    b == rs[i as int].visual_bounds,
                    start_row == cell_of(b.min.y - doc.min.y),
                    end_row == cell_of(b.max.y - doc.min.y),
                    start_col == cell_of(b.min.x - doc.min.x),
                    end_col == cell_of(b.max.x - doc.min.x),
                    last_row < rows,
                    last_col < cols,
                    last_row <= end_row,
                    last_col <= end_col,
                    last_row == end_row || last_row == rows - 1,
                    last_col == end_col || last_col == cols - 1,
                    start_row <= row <= last_row + 1 || row == start_row,
                    grid@.len() == rows,
                    forall|k: int| 0 <= k < rows ==> (#[trigger] grid@[k])@.len() == cols,
                    forall|k: int, c: int|
                        0 <= k < rows && 0 <= c < cols ==> (#[trigger] grid@[k]@[c])@ == (if k
                            < row {
                            cell_members(rs, doc, i + 1, k, c)
                        } else {
                            cell_members(rs, doc, i as int, k, c)
                        }),
                decreases last_row + 1 - row,
            {
                let mut col = start_col;
                while col <= last_col
                    invariant
                        n == rs.len(),
                        i < n,
                        b == rs[i as int].visual_bounds,
                        start_row == cell_of(b.min.y - doc.min.y),
                        end_row == cell_of(b.max.y - doc.min.y),
                        start_col == cell_of(b.min.x - doc.min.x),
                        end_col == cell_of(b.max.x - doc.min.x),
                        start_row <= row <= last_row,
                        last_row < rows,
                        last_col < cols,
                        last_row <= end_row,
                        last_col <= end_col,
                        last_row == end_row || last_row == rows - 1,
                        last_col == end_col || last_col == cols - 1,
                        start_col <= col <= last_col + 1 || col == start_col,
                        grid@.len() == rows,
                        forall|k: int| 0 <= k < rows ==> (#[trigger] grid@[k])@.len() == cols,
                        forall|k: int, c: int|
                            0 <= k < rows && 0 <= c < cols ==> (#[trigger] grid@[k]@[c])@ == (if k
                                < row || (k == row && c < col) {
                                cell_members(rs, doc, i + 1, k, c)
                            } else {
                                cell_members(rs, doc, i as int, k, c)
                            }),
                    decreases last_col + 1 - col,
                {
                    let ghost before = grid@;
                    grid[row][col].push(i);
                    proof {
                        assert(covers(b, doc, row as int, col as int));
                        assert(grid@[row as int]@[col as int]@ == cell_members(
                            rs,
                            doc,
                            i + 1,
                            row as int,
                            col as int,
                        ));
                        assert forall|k: int, c: int|
                            0 <= k < rows && 0 <= c < cols && (k != row || c != col) implies (
                            #[trigger] grid@[k]@[c])@ == before[k]@[c]@ by {
                            if k != row {
                                assert(grid@[k] == before[k]);
                            }
                        }
                    }
                    col = col + 1;
                }
                proof {
                    assert forall|c: int| 0 <= c < cols && c >= col implies !covers(
                        b,
                        doc,
                        row as int,
                        c,
                    ) by {}
                }
                row = row + 1;
            }
            proof {
                assert forall|k: int, c: int| 0 <= k < rows && 0 <= c < cols && k >= row implies !covers(
                    b,
                    doc,
                    k,
                    c,
                ) by {}
            }
            i = i + 1;
        }
        self.grid = grid;
        self.doc_bounds = doc;
        proof {
            let cells = self.cells();
            assert(cells.len() == rows);
            assert forall|k: int| 0 <= k < cells.len() implies #[trigger] cells[k].len() == cols by {
                assert(cells[k] == grid@[k]@.map_values(|cell: Vec<usize>| cell@));
            }
            assert forall|k: int, c: int|
                0 <= k < cells.len() && 0 <= c < cells[k].len() implies #[trigger] cells[k][c]
                == cell_members(rs, doc, rs.len() as int, k, c) by {
                assert(cells[k] == grid@[k]@.map_values(|cell: Vec<usize>| cell@));
                assert(cells[k][c] == grid@[k]@[c]@);
            }
        }
    }

    /// The first element listed in the grid cell holding `pos`, or none
    /// when `pos` lies outside the indexed bounds or its cell is empty.
    pub fn find_element_at_position(&self, pos: Point) -> (r: Option<usize>)
        requires
            self.wf(),
        ensures
            r == self.lookup(pos),
    {
        if !self.doc_bounds.contains(pos) {
            return None;
        }
        let col = ((pos.x - self.doc_bounds.min.x) / CELL_SIZE) as usize;
        let row = ((pos.y - self.doc_bounds.min.y) / CELL_SIZE) as usize;
        proof {
            let ghost cells = self.cells();
            assert(cells.len() == self.grid@.len());
            if row < self.grid@.len() {
                assert(cells[row as int] == self.grid@[row as int]@.map_values(
                    |cell: Vec<usize>| cell@,
                ));
                if col < self.grid@[row as int]@.len() {
                    assert(cells[row as int][col as int] == self.grid@[row as int]@[col as int]@);
                }
            }
        }
        if row >= self.grid.len() || col >= self.grid[row].len() {
            return None;
        }
        if self.grid[row][col].len() == 0 {
            None
        } else {
            Some(self.grid[row][col][0])
        }
    }

    pub fn mark_dirty_region(&mut self, bounds: Rect)
        ensures
            final(self).dirty() == old(self).dirty().push(bounds),
            final(self).cells() == old(self).cells(),
            final(self).bounds() == old(self).bounds(),
    {
        self.dirty_regions.push(bounds);
    }

    pub fn clear_dirty_regions(&mut self)
        ensures
            final(self).dirty().len() == 0,
            final(self).cells() == old(self).cells(),
            final(self).bounds() == old(self).bounds(),
    {
        self.dirty_regions.clear();
    }
}

} // verus!
