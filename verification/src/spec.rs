use vstd::prelude::*;

use std::ops::RangeInclusive;

use crate::rowcol::{diagonal_steps, straight_steps, RowCol};

verus! {

/// Specification describing how large the grid is, in cells.
#[derive(Copy, Clone, Debug, PartialEq, Eq, Structural)]
pub struct SpatialGridSpec {
    pub rows: u32,
    pub cols: u32,
}

impl Default for SpatialGridSpec {
    fn default() -> (r: Self)
        ensures
            r.rows == 64,
            r.cols == 64,
    {
        SpatialGridSpec { rows: 64, cols: 64 }
    }
}

/// The cell lies in the box spanned by two corner cells (inclusive).
pub open spec fn in_box(rowcol: RowCol, min: RowCol, max: RowCol) -> bool {
    min.0 <= rowcol.0 <= max.0 && min.1 <= rowcol.1 <= max.1
}

/// The 4 cells sharing an edge with a cell: up, right, down, left.
pub open spec fn neighbors4_cells(rowcol: RowCol) -> Seq<RowCol> {
    seq![
        ((rowcol.0 + 1) as u32, rowcol.1),
        (rowcol.0, (rowcol.1 + 1) as u32),
        ((rowcol.0 - 1) as u32, rowcol.1),
        (rowcol.0, (rowcol.1 - 1) as u32),
    ]
}

/// The 8 cells around a cell, clockwise from up-left, each paired with
/// whether it is a diagonal neighbor.
pub open spec fn neighbors8_cells(rowcol: RowCol) -> Seq<(RowCol, bool)> {
    seq![
        (((rowcol.0 + 1) as u32, (rowcol.1 - 1) as u32), true),
        (((rowcol.0 + 1) as u32, rowcol.1), false),
        (((rowcol.0 + 1) as u32, (rowcol.1 + 1) as u32), true),
        ((rowcol.0, (rowcol.1 + 1) as u32), false),
        (((rowcol.0 - 1) as u32, (rowcol.1 + 1) as u32), true),
        (((rowcol.0 - 1) as u32, rowcol.1), false),
        (((rowcol.0 - 1) as u32, (rowcol.1 - 1) as u32), true),
        ((rowcol.0, (rowcol.1 - 1) as u32), false),
    ]
}

/// Strict row-major (lexicographic) order on cells.
pub open spec fn rowcol_lt(a: RowCol, b: RowCol) -> bool {
    a.0 < b.0 || (a.0 == b.0 && a.1 < b.1)
}

impl SpatialGridSpec {
    /// Number of cells in a grid of this size.
    pub open spec fn num_cells(self) -> int {
        self.rows * self.cols
    }

    /// Row-major position of a cell.
    pub open spec fn flat_index_of(self, rowcol: RowCol) -> int {
        rowcol.0 * self.cols + rowcol.1
    }

    pub open spec fn contains_cell(self, rowcol: RowCol) -> bool {
        rowcol.0 < self.rows && rowcol.1 < self.cols
    }

    pub open spec fn contains_bilinear_cell(self, rowcol: RowCol) -> bool {
        rowcol.0 + 1 < self.rows && rowcol.1 + 1 < self.cols
    }

    /// The cell lies within `n` cells of the grid's edge.
    pub open spec fn within_n_of_edge(self, rowcol: RowCol, n: u32) -> bool {
        ||| rowcol.0 < n
        ||| rowcol.0 + n >= self.rows
        ||| rowcol.1 < n
        ||| rowcol.1 + n >= self.cols
    }

    /// Convert row, col to a single index.
    pub fn flat_index(&self, rowcol: RowCol) -> (r: usize)
        requires
            self.flat_index_of(rowcol) <= usize::MAX,
        ensures
            r == self.flat_index_of(rowcol),
    {
        let (row, col) = rowcol;
        assert(row as usize * self.cols as usize <= self.flat_index_of(rowcol));
        row as usize * self.cols as usize + col as usize
    }

    /// Returns true iff the rowcol is in bounds.
    pub fn in_bounds(&self, rowcol: RowCol) -> (r: bool)
        ensures
            r == self.contains_cell(rowcol),
    {
        let (row, col) = rowcol;
        row < self.rows && col < self.cols
    }

    /// Returns true iff the rowcol can be the lower-left corner of a bilinear
    /// interpolation square, i.e. its upper and right neighbours are in bounds.
    pub fn in_bounds_bilinear(&self, rowcol: RowCol) -> (r: bool)
        requires
            self.rows >= 1,
            rowcol.0 + 1 < self.rows ==> self.cols >= 1,
        ensures
            r == self.contains_bilinear_cell(rowcol),
    {
        let (row, col) = rowcol;
        row < self.rows - 1 && col < self.cols - 1
    }

    /// Returns true if within n from the boundary.
    pub fn is_boundary_n(&self, rowcol: RowCol, n: u32) -> (r: bool)
        requires
            rowcol.0 >= n ==> n <= self.rows,
            rowcol.0 >= n && rowcol.0 + n < self.rows && rowcol.1 >= n ==> n <= self.cols,
        ensures
            r == self.within_n_of_edge(rowcol, n),
    {
        let (row, col) = rowcol;
        if row < n || row >= self.rows - n {
            return true;
        }
        if col < n || col >= self.cols - n {
            return true;
        }
        false
    }

    /// Returns true iff the rowcol is within two cells of the boundary of the grid.
    pub fn is_near_boundary(&self, rowcol: RowCol) -> (r: bool)
        requires
            rowcol.0 >= 2 ==> 2 <= self.rows,
            rowcol.0 >= 2 && rowcol.0 + 2 < self.rows && rowcol.1 >= 2 ==> 2 <= self.cols,
        ensures
            r == self.within_n_of_edge(rowcol, 2),
    {
        self.is_boundary_n(rowcol, 2)
    }

    /// Returns true iff the rowcol is on the boundary of the grid.
    pub fn is_boundary(&self, rowcol: RowCol) -> (r: bool)
        requires
            rowcol.0 >= 1 ==> 1 <= self.rows,
            rowcol.0 >= 1 && rowcol.0 + 1 < self.rows && rowcol.1 >= 1 ==> 1 <= self.cols,
        ensures
            r == self.within_n_of_edge(rowcol, 1),
    {
        self.is_boundary_n(rowcol, 1)
    }

    /// Returns the 4 neighboring cells to the given cell rowcol:
    /// up, right, down, left.
    pub fn neighbors4(&self, rowcol: RowCol) -> (r: [RowCol; 4])
        requires
            1 <= rowcol.0 < u32::MAX,
            1 <= rowcol.1 < u32::MAX,
        ensures
            r@ == neighbors4_cells(rowcol),
    {
        let (row, col) = rowcol;
        [
            (row + 1, col),  // Up
            (row, col + 1),  // Right
            (row - 1, col),  // Down
            (row, col - 1),  // Left
        ]
    }

    /// Returns the 8 neighboring cells to the given cell rowcol, starting up-left
    /// and going clockwise. Each cell is paired with whether it is a diagonal
    /// neighbor (at distance sqrt(2)) rather than a straight one (distance 1).
    pub fn neighbors8(&self, rowcol: RowCol) -> (r: [(RowCol, bool); 8])
        requires
            1 <= rowcol.0 < u32::MAX,
            1 <= rowcol.1 < u32::MAX,
        ensures
            r@ == neighbors8_cells(rowcol),
    {
        let (row, col) = rowcol;
        [
            ((row + 1, col - 1), true),  // Up left
            ((row + 1, col), false),  // Up
            ((row + 1, col + 1), true),  // Up right
            ((row, col + 1), false),  // Right
            ((row - 1, col + 1), true),  // Down right
            ((row - 1, col), false),  // Down
            ((row - 1, col - 1), true),  // Down left
            ((row, col - 1), false),  // Left
        ]
    }

    /// The four cells whose centers surround a point for bilinear interpolation,
    /// given the lower-left one: itself, up, right and up-right.
    pub fn bilinear_cells(&self, rowcol: RowCol) -> (r: [RowCol; 4])
        requires
            rowcol.0 < u32::MAX,
            rowcol.1 < u32::MAX,
        ensures
            r@ == seq![
                rowcol,
                ((rowcol.0 + 1) as u32, rowcol.1),
                (rowcol.0, (rowcol.1 + 1) as u32),
                ((rowcol.0 + 1) as u32, (rowcol.1 + 1) as u32),
            ],
    {
        let (row, col) = rowcol;
        [(row, col), (row + 1, col), (row, col + 1), (row + 1, col + 1)]
    }

    /// Returns a range starting at `center - radius` (saturating at zero) and
    /// ending at `center + radius`, capped at the number of rows.
    #[allow(dead_code)]
    fn cell_range(&self, center: u32, radius: u32) -> (r: RangeInclusive<u32>)
        requires
            center + radius <= u32::MAX,
        ensures
            r@.start == (if radius <= center { (center - radius) as u32 } else { 0u32 }),
            r@.end == (if center + radius <= self.rows { (center + radius) as u32 } else { self.rows }),
            !r@.exhausted,
    {
        let min = center.saturating_sub(radius);
        let max = if center + radius <= self.rows { center + radius } else { self.rows };
        min..=max
    }

    /// Get all cells of the grid in the box spanned by two corner cells (the
    /// box clipped to the grid), in row-major order.
    pub fn get_in_rowcol_box(&self, min_rowcol: RowCol, max_rowcol: RowCol) -> (r: Vec<RowCol>)
        ensures
            forall|i: int|
                0 <= i < r.len() ==> self.contains_cell(#[trigger] r@[i]) && in_box(
                    r@[i],
                    min_rowcol,
                    max_rowcol,
                ),
            forall|rc: RowCol|
                #![trigger self.contains_cell(rc)]
                self.contains_cell(rc) && in_box(rc, min_rowcol, max_rowcol) ==> r@.contains(rc),
            forall|i: int, j: int| 0 <= i < j < r.len() ==> rowcol_lt(r@[i], r@[j]),
    {
        let mut results: Vec<RowCol> = Vec::new();
        let (min_row, min_col) = min_rowcol;
        let (max_row, max_col) = max_rowcol;
        let lo = min_rowcol;
        let hi = max_rowcol;
        let mut row: u64 = min_row as u64;
        while row < self.rows as u64 && row <= max_row as u64
            invariant
                lo == (min_row, min_col),
                hi == (max_row, max_col),
                min_row <= row,
                forall|i: int|
                    0 <= i < results.len() ==> {
                        &&& self.contains_cell(#[trigger] results@[i])
                        &&& in_box(results@[i], lo, hi)
                        &&& results@[i].0 < row
                    },
                forall|rc: RowCol|
                    #![trigger self.contains_cell(rc)]
                    self.contains_cell(rc) && in_box(rc, lo, hi) && rc.0 < row ==> results@.contains(rc),
                forall|i: int, j: int|
                    0 <= i < j < results.len() ==> rowcol_lt(results@[i], results@[j]),
            decreases max_row as int + 1 - row,
        {
            let mut col: u64 = min_col as u64;
            let ghost start_len = results.len();
            while col < self.cols as u64 && col <= max_col as u64
                invariant
                    lo == (min_row, min_col),
                    hi == (max_row, max_col),
                    min_row <= row <= max_row,
                    row < self.rows,
                    min_col <= col,
                    start_len <= results.len(),
                    forall|i: int|
                        0 <= i < results.len() ==> {
                            &&& self.contains_cell(#[trigger] results@[i])
                            &&& in_box(results@[i], lo, hi)
                        },
                    forall|i: int|
                        start_len <= i < results.len() ==> (#[trigger] results@[i]).0 == row
                            && results@[i].1 < col,
                    forall|i: int| 0 <= i < start_len ==> (#[trigger] results@[i]).0 < row,
                    forall|rc: RowCol|
                        #![trigger self.contains_cell(rc)]
                        self.contains_cell(rc) && in_box(rc, lo, hi) && (rc.0 < row || (rc.0 == row
                            && rc.1 < col)) ==> results@.contains(rc),
                    forall|i: int, j: int|
                        0 <= i < j < results.len() ==> rowcol_lt(results@[i], results@[j]),
                decreases max_col as int + 1 - col,
            {
                let cell: RowCol = (row as u32, col as u32);
                let ghost prev = results@;
                results.push(cell);
                proof {
                    assert forall|rc: RowCol|
                        #![trigger self.contains_cell(rc)]
                        self.contains_cell(rc) && in_box(rc, lo, hi) && (rc.0 < row || (rc.0 == row
                            && rc.1 < col + 1)) implies results@.contains(rc) by {
                        if rc.0 == row && rc.1 == col {
                            assert(results@[results.len() - 1] == rc);
                        } else {
                            assert(prev.contains(rc));
                            let k = choose|k: int| 0 <= k < prev.len() && prev[k] == rc;
                            assert(results@[k] == rc);
                        }
                    }
                }
                col = col + 1;
            }
            row = row + 1;
        }
        results
    }
}

} // verus!

verus! {

/// The cells a row-major scan yields when resumed at (`row`, `col`): the rest of
/// the current row up to column `last.1`, then every later row up to `last.0`,
/// each from column `first_col` to `last.1`.
pub open spec fn row_major_from(row: int, col: int, first_col: int, last: RowCol) -> Seq<RowCol>
    decreases last.0 - row, last.1 + 1 - col,
{
    if col <= last.1 {
        seq![(row as u32, col as u32)] + row_major_from(row, col + 1, first_col, last)
    } else if row + 1 <= last.0 {
        row_major_from(row + 1, first_col, first_col, last)
    } else {
        Seq::empty()
    }
}

/// Lexicographic maximum of two cells.
pub open spec fn rowcol_max(a: RowCol, b: RowCol) -> RowCol {
    if rowcol_lt(a, b) { b } else { a }
}

/// Lexicographic minimum of two cells.
pub open spec fn rowcol_min(a: RowCol, b: RowCol) -> RowCol {
    if rowcol_lt(b, a) { b } else { a }
}

fn lex_max(a: RowCol, b: RowCol) -> (r: RowCol)
    ensures
        r == rowcol_max(a, b),
{
    if a.0 < b.0 || (a.0 == b.0 && a.1 < b.1) { b } else { a }
}

fn lex_min(a: RowCol, b: RowCol) -> (r: RowCol)
    ensures
        r == rowcol_min(a, b),
{
    if b.0 < a.0 || (b.0 == a.0 && b.1 < a.1) { b } else { a }
}

/// Row-major scan over the cells between two corner cells. The corners are
/// clamped lexicographically (as tuples compare) to the grid.
#[derive(Clone, Copy, Debug)]
pub struct RowColIterator {
    min: RowCol,
    max: RowCol,
    row: u64,
    col: u64,
}

impl RowColIterator {
    /// First corner of the scan.
    pub closed spec fn min_cell(self) -> RowCol {
        self.min
    }

    /// Last corner of the scan.
    pub closed spec fn max_cell(self) -> RowCol {
        self.max
    }

    /// The cells this scan has yet to yield, in order.
    pub closed spec fn pending(self) -> Seq<RowCol> {
        row_major_from(self.row as int, self.col as int, self.min.1 as int, self.max)
    }

    pub closed spec fn wf(self) -> bool {
        &&& self.row <= u32::MAX
        &&& self.col <= u32::MAX as int + 1
    }

    /// Starts a scan between the cells that hold the two corners of a query
    /// region.
    pub fn new(spec: SpatialGridSpec, min_rowcol: RowCol, max_rowcol: RowCol) -> (r: Self)
        requires
            spec.rows >= 1,
            spec.cols >= 1,
        ensures
            r.wf(),
            r.min_cell() == rowcol_max(min_rowcol, (0u32, 0u32)),
            r.max_cell() == rowcol_min(max_rowcol, ((spec.rows - 1) as u32, (spec.cols - 1) as u32)),
            r.pending() == row_major_from(
                r.min_cell().0 as int,
                r.min_cell().1 as int,
                r.min_cell().1 as int,
                r.max_cell(),
            ),
    {
        let min = lex_max(min_rowcol, (0, 0));
        let max = lex_min(max_rowcol, (spec.rows - 1, spec.cols - 1));
        RowColIterator { min, max, row: min.0 as u64, col: min.1 as u64 }
    }

    /// Yields the next cell of the scan, or `None` once it is exhausted.
    pub fn next_cell(&mut self) -> (r: Option<RowCol>)
        requires
            old(self).wf(),
        ensures
            final(self).wf(),
            final(self).min_cell() == old(self).min_cell(),
            final(self).max_cell() == old(self).max_cell(),
            old(self).pending().len() == 0 ==> r is None && final(self).pending().len() == 0,
            old(self).pending().len() > 0 ==> r == Some(old(self).pending()[0])
                && final(self).pending() == old(self).pending().drop_first(),
    {
        let ghost start = self.pending();
        loop
            invariant
                self.wf(),
                self.min == old(self).min,
                self.max == old(self).max,
                self.pending() == start,
                start == old(self).pending(),
            decreases self.max.0 - self.row,
        {
            if self.col <= self.max.1 as u64 {
                let result: RowCol = (self.row as u32, self.col as u32);
                self.col = self.col + 1;
                proof {
                    assert(start == seq![result] + self.pending());
                    assert(start.drop_first() =~= self.pending());
                }
                return Some(result);
            }
            if self.row + 1 <= self.max.0 as u64 {
                self.row = self.row + 1;
                self.col = self.min.1 as u64;
            } else {
                return None;
            }
        }
    }
}

} // verus!

verus! {

/// A row-major scan resumed at (`row`, `col`) yields the rest of that row and
/// then every cell of the later rows up to `last`, each exactly once and in
/// strictly increasing row-major order.
pub proof fn lemma_row_major_from(row: int, col: int, first_col: int, last: RowCol)
    requires
        0 <= row <= u32::MAX,
        0 <= col,
        0 <= first_col <= u32::MAX,
    ensures
        forall|i: int|
            0 <= i < row_major_from(row, col, first_col, last).len() ==> {
                let c = #[trigger] row_major_from(row, col, first_col, last)[i];
                ||| (c.0 == row && col <= c.1 <= last.1)
                ||| (row < c.0 <= last.0 && first_col <= c.1 <= last.1)
            },
        forall|i: int, j: int|
            0 <= i < j < row_major_from(row, col, first_col, last).len() ==> rowcol_lt(
                row_major_from(row, col, first_col, last)[i],
                row_major_from(row, col, first_col, last)[j],
            ),
        forall|rc: RowCol|
            (rc.0 == row && col <= rc.1 <= last.1) || (row < rc.0 <= last.0 && first_col <= rc.1
                <= last.1) ==> #[trigger] row_major_from(row, col, first_col, last).contains(rc),
    decreases last.0 - row, last.1 + 1 - col,
{
    let s = row_major_from(row, col, first_col, last);
    if col <= last.1 {
        lemma_row_major_from(row, col + 1, first_col, last);
        let t = row_major_from(row, col + 1, first_col, last);
        let x: RowCol = (row as u32, col as u32);
        assert(s == seq![x] + t);
        assert forall|i: int| 0 <= i < s.len() implies {
            let c = #[trigger] s[i];
            ||| (c.0 == row && col <= c.1 <= last.1)
            ||| (row < c.0 <= last.0 && first_col <= c.1 <= last.1)
        } by {
            if i > 0 {
                assert(s[i] == t[i - 1]);
            }
        }
        assert forall|i: int, j: int| 0 <= i < j < s.len() implies rowcol_lt(s[i], s[j]) by {
            assert(s[j] == t[j - 1]);
            if i > 0 {
                assert(s[i] == t[i - 1]);
            }
        }
        assert forall|rc: RowCol|
            (rc.0 == row && col <= rc.1 <= last.1) || (row < rc.0 <= last.0 && first_col <= rc.1
                <= last.1) implies #[trigger] s.contains(rc) by {
            if rc == x {
                assert(s[0] == rc);
            } else {
                assert(t.contains(rc));
                let k = choose|k: int| 0 <= k < t.len() && t[k] == rc;
                assert(s[k + 1] == rc);
            }
        }
    } else if row + 1 <= last.0 {
        lemma_row_major_from(row + 1, first_col, first_col, last);
        assert(s == row_major_from(row + 1, first_col, first_col, last));
    } else {
        assert(s.len() == 0);
    }
}

} // verus!

verus! {

/// Row-major indexing maps the in-bounds cells one-to-one onto
/// `0..rows * cols`: every in-bounds cell has its own slot.
pub proof fn lemma_flat_index_in_range_and_unique(spec: SpatialGridSpec, a: RowCol, b: RowCol)
    requires
        spec.contains_cell(a),
        spec.contains_cell(b),
    ensures
        0 <= spec.flat_index_of(a) < spec.num_cells(),
        spec.flat_index_of(a) == spec.flat_index_of(b) <==> a == b,
{
    let (r1, c1, r2, c2, cols, rows) = (a.0 as int, a.1 as int, b.0 as int, b.1 as int, spec.cols as int, spec.rows as int);
    assert(0 <= r1 * cols + c1 < rows * cols) by (nonlinear_arith)
        requires
            0 <= r1 < rows,
            0 <= c1 < cols,
    ;
    assert(r1 * cols + c1 == r2 * cols + c2 ==> r1 == r2 && c1 == c2) by (nonlinear_arith)
        requires
            0 <= r1,
            0 <= r2,
            0 <= c1 < cols,
            0 <= c2 < cols,
    {
        if r1 * cols + c1 == r2 * cols + c2 {
            if r1 < r2 {
                assert(r1 * cols + cols <= r2 * cols);
            } else if r2 < r1 {
                assert(r2 * cols + cols <= r1 * cols);
            }
        }
    }
}

/// The boundary test is symmetric under flipping the grid left to right and
/// top to bottom: a cell is within `n` of the edge exactly when its mirror
/// image in the last column (row) is; so the last `n` columns and rows count
/// as boundary just as the first `n` do.
pub proof fn lemma_boundary_mirror(spec: SpatialGridSpec, rowcol: RowCol, n: u32)
    requires
        spec.contains_cell(rowcol),
    ensures
        spec.within_n_of_edge(rowcol, n) == spec.within_n_of_edge(
            (rowcol.0, (spec.cols - 1 - rowcol.1) as u32),
            n,
        ),
        spec.within_n_of_edge(rowcol, n) == spec.within_n_of_edge(
            ((spec.rows - 1 - rowcol.0) as u32, rowcol.1),
            n,
        ),
{
}

/// A cell within `n` of the edge is also within any larger distance of it:
/// boundary cells are near-boundary cells.
pub proof fn lemma_boundary_monotone(spec: SpatialGridSpec, rowcol: RowCol, n: u32, m: u32)
    requires
        n <= m,
        spec.within_n_of_edge(rowcol, n),
    ensures
        spec.within_n_of_edge(rowcol, m),
{
}

/// Edge adjacency is symmetric: a cell is among the 4 neighbors of each of
/// its own 4 neighbors.
pub proof fn lemma_neighbors4_symmetric(p: RowCol, q: RowCol)
    requires
        1 <= p.0 < u32::MAX,
        1 <= p.1 < u32::MAX,
        neighbors4_cells(p).contains(q),
    ensures
        neighbors4_cells(q).contains(p),
{
    let k = choose|k: int| 0 <= k < 4 && neighbors4_cells(p)[k] == q;
    let back = if k < 2 { k + 2 } else { k - 2 };
    assert(neighbors4_cells(q)[back] == p);
}

/// The weights of the 8 neighbors agree with the 8-connectivity distance:
/// diagonal neighbors are one diagonal step away, straight ones one straight
/// step.
pub proof fn lemma_neighbors8_steps(p: RowCol, i: int)
    requires
        1 <= p.0 < u32::MAX,
        1 <= p.1 < u32::MAX,
        0 <= i < 8,
    ensures
        ({
            let (q, diagonal) = neighbors8_cells(p)[i];
            &&& diagonal_steps(p, q) == (if diagonal { 1nat } else { 0nat })
            &&& straight_steps(p, q) == (if diagonal { 0nat } else { 1nat })
        }),
{
}

} // verus!
