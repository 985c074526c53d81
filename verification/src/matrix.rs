//! The layout of an embedding matrix: one row for each word of the
//! vocabulary, row after row in one run of cells.
//!
//! The cells themselves hold floating-point numbers and are kept by the
//! caller; this file decides where the cells of a row lie.

use vstd::prelude::*;

verus! {

/// The shape of a matrix of `rows` rows of `dim` cells each.
#[derive(Clone, Copy, Debug, PartialEq, Eq, Structural)]
pub struct Shape {
    rows: usize,
    dim: usize,
}

/// The cell at which row `i` of a matrix of rows of `dim` cells starts.
pub open spec fn row_start(dim: int, i: int) -> int {
    i * dim
}

/// The rows of a matrix lie one after the other: a row ends where the next
/// one starts, and before every later one.
pub proof fn lemma_rows_apart(dim: int, i: int, j: int)
    requires
        0 <= dim,
        0 <= i < j,
    ensures
        row_start(dim, i) + dim <= row_start(dim, j),
        row_start(dim, i) + dim == row_start(dim, i + 1),
{
    assert(i * dim + dim == (i + 1) * dim) by (nonlinear_arith);
    assert((i + 1) * dim <= j * dim) by (nonlinear_arith)
        requires
            i + 1 <= j,
            0 <= dim,
    ;
}

impl Shape {
    /// The number of rows.
    pub closed spec fn rows(&self) -> int {
        self.rows as int
    }

    /// The number of cells of a row.
    pub closed spec fn dim(&self) -> int {
        self.dim as int
    }

    /// The cells of all rows can be counted in one machine word.
    pub closed spec fn wf(&self) -> bool {
        self.rows * self.dim <= usize::MAX
    }

    /// The shape of a matrix of `rows` rows of `dim` cells, or `None` where
    /// the matrix would have more cells than a machine word counts.
    pub fn new(rows: usize, dim: usize) -> (shape: Option<Shape>)
        ensures
            match shape {
                Some(s) => s.wf() && s.rows() == rows && s.dim() == dim && rows * dim <= usize::MAX,
                None => rows * dim > usize::MAX,
            },
    {
        match rows.checked_mul(dim) {
            Some(_) => Some(Shape { rows, dim }),
            None => None,
        }
    }

    /// The number of rows.
    pub fn nrows(&self) -> (rows: usize)
        ensures
            rows == self.rows(),
    {
        self.rows
    }

    /// The number of cells of a row.
    pub fn ncols(&self) -> (dim: usize)
        ensures
            dim == self.dim(),
    {
        self.dim
    }

    /// The number of cells of the matrix.
    pub fn cells(&self) -> (cells: usize)
        requires
            self.wf(),
        ensures
            cells == self.rows() * self.dim(),
    {
        self.rows * self.dim
    }

    /// Where row `i` lies: its first cell, and the cell after its last.
    pub fn row_span(&self, i: usize) -> (span: (usize, usize))
        requires
            self.wf(),
            i < self.rows(),
        ensures
            span.0 == row_start(self.dim(), i as int),
            span.1 == span.0 + self.dim(),
            span.1 <= self.rows() * self.dim(),
    {
        proof {
            lemma_rows_apart(self.dim as int, i as int, self.rows as int);
            assert(0 <= i * self.dim) by (nonlinear_arith)
                requires
                    0 <= i,
                    0 <= self.dim,
            ;
        }
        let start: usize = i * self.dim;
        (start, start + self.dim)
    }
}

} // verus!
