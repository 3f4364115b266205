//! The raw switch grid: one boolean per physical switch position.

use vstd::prelude::*;

verus! {

/// Largest number of rows or columns a grid may have: coordinates travel as
/// single bytes in link frames and events.
pub const MAX_DIM: usize = 255;

/// An instantaneous sample of every switch position, row-major: `true` means
/// electrically active. Rebuilt every scan cycle; carries no history.
pub struct RawGrid {
    pub rows: usize,
    pub cols: usize,
    pub cells: Vec<bool>,
}

impl RawGrid {
    /// Dimensions are byte-sized and the cell vector covers the grid exactly.
    pub open spec fn wf(self) -> bool {
        &&& 1 <= self.rows <= MAX_DIM
        &&& 1 <= self.cols <= MAX_DIM
        &&& self.cells@.len() == self.rows * self.cols
    }

    /// The sample at `(r, c)`.
    pub open spec fn spec_at(self, r: int, c: int) -> bool {
        self.cells@[r * self.cols + c]
    }

    /// A grid of the given dimensions with every cell inactive.
    pub fn new(rows: usize, cols: usize) -> (g: RawGrid)
        requires
            1 <= rows <= MAX_DIM,
            1 <= cols <= MAX_DIM,
        ensures
            g.wf(),
            g.rows == rows,
            g.cols == cols,
            forall|i: int| 0 <= i < g.cells@.len() ==> g.cells@[i] == false,
    {
        proof {
            lemma_grid_size_bound(rows as int, cols as int);
        }
        let n = rows * cols;
        let mut cells: Vec<bool> = Vec::new();
        let mut i: usize = 0;
        while i < n
            invariant
                i <= n,
                cells@.len() == i,
                forall|j: int| 0 <= j < i ==> cells@[j] == false,
            decreases n - i,
        {
            cells.push(false);
            i = i + 1;
        }
        RawGrid { rows, cols, cells }
    }

    /// Marks one coordinate active or inactive.
    pub fn set(&mut self, r: usize, c: usize, v: bool)
        requires
            old(self).wf(),
            r < old(self).rows,
            c < old(self).cols,
        ensures
            final(self).wf(),
            final(self).rows == old(self).rows,
            final(self).cols == old(self).cols,
            final(self).cells@ == old(self).cells@.update(r * old(self).cols + c, v),
    {
        proof {
            lemma_grid_size_bound(self.rows as int, self.cols as int);
            lemma_row_major_index_bound(r as int, c as int, self.rows as int, self.cols as int);
        }
        let i = r * self.cols + c;
        self.cells.set(i, v);
    }

    /// Reads one coordinate.
    pub fn at(&self, r: usize, c: usize) -> (v: bool)
        requires
            self.wf(),
            r < self.rows,
            c < self.cols,
        ensures
            v == self.spec_at(r as int, c as int),
    {
        proof {
            lemma_grid_size_bound(self.rows as int, self.cols as int);
            lemma_row_major_index_bound(r as int, c as int, self.rows as int, self.cols as int);
        }
        self.cells[r * self.cols + c]
    }
}

/// A byte-dimensioned grid has fewer cells than any machine word holds.
pub proof fn lemma_grid_size_bound(rows: int, cols: int)
    requires
        0 <= rows <= 255,
        0 <= cols <= 255,
    ensures
        rows * cols <= 65025,
{
    assert(rows * cols <= 65025) by (nonlinear_arith)
        requires
            0 <= rows <= 255,
            0 <= cols <= 255,
    ;
}

/// A row-major index lies inside the grid's cell vector.
pub proof fn lemma_row_major_index_bound(r: int, c: int, rows: int, cols: int)
    requires
        0 <= r < rows,
        0 <= c < cols,
    ensures
        0 <= r * cols + c < rows * cols,
{
    assert(r * cols + c < rows * cols) by (nonlinear_arith)
        requires
            0 <= r < rows,
            0 <= c < cols,
    ;
    assert(0 <= r * cols) by (nonlinear_arith)
        requires
            0 <= r,
            0 <= c < cols,
    ;
}

} // verus!
