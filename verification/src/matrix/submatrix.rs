//! A rectangular window into a grid: it owns no cell, and reads the grid's
//! cells through coordinates of its own.

use vstd::prelude::*;
use std::ops::RangeInclusive;
use crate::matrix::{range_end, range_start, range_within, GridView, Matrix};
use crate::value::{eq_is_exact, same};

verus! {

/// A window of a grid, given by the rows and the columns that it spans.
pub struct Submatrix<'a, T> {
    matrix: &'a Matrix<T>,
    row_start: usize,
    row_end: usize,
    col_start: usize,
    col_end: usize,
}

impl<'a, T> Submatrix<'a, T> {
    /// The grid that the window looks into.
    pub closed spec fn matrix(&self) -> Matrix<T> {
        *self.matrix
    }

    /// The grid's row in which the window starts.
    pub closed spec fn row_start(&self) -> nat {
        self.row_start as nat
    }

    /// The grid's column in which the window starts.
    pub closed spec fn col_start(&self) -> nat {
        self.col_start as nat
    }

    /// The number of rows that the window spans.
    pub closed spec fn spec_rows(&self) -> nat {
        (self.row_end - self.row_start + 1) as nat
    }

    /// The number of columns that the window spans.
    pub closed spec fn spec_cols(&self) -> nat {
        (self.col_end - self.col_start + 1) as nat
    }

    /// The window is not empty and lies inside the grid's virtual extent.
    pub closed spec fn wf(&self) -> bool {
        &&& self.matrix.wf()
        &&& self.row_start <= self.row_end < self.matrix.spec_virtual_rows()
        &&& self.col_start <= self.col_end < self.matrix.spec_virtual_cols()
    }

    /// The grid as a mathematical value.
    pub open spec fn grid(&self) -> GridView<T> {
        self.matrix()@
    }

    /// Whether `(i, j)`, in the window's coordinates, lies in the window.
    pub open spec fn holds(&self, i: int, j: int) -> bool {
        0 <= i < self.spec_rows() && 0 <= j < self.spec_cols()
    }

    /// The value at `(i, j)` in the window's coordinates.
    pub open spec fn at(&self, i: int, j: int) -> T {
        self.grid().at(self.row_start() + i, self.col_start() + j)
    }

    /// Whether every cell of the window holds the value of its first cell.
    pub open spec fn is_uniform(&self) -> bool {
        forall|i: int, j: int| self.holds(i, j) ==> #[trigger] self.at(i, j) == self.at(0, 0)
    }

    /// Whether the window spans the rows `r0..=r1` and the columns `c0..=c1` of `m`.
    pub open spec fn spans(&self, m: Matrix<T>, r0: int, r1: int, c0: int, c1: int) -> bool {
        &&& self.wf()
        &&& self.matrix() == m
        &&& self.row_start() == r0
        &&& self.col_start() == c0
        &&& self.spec_rows() == r1 - r0 + 1
        &&& self.spec_cols() == c1 - c0 + 1
    }

    /// The window of `matrix` that spans the rows `r0..=r1` and the columns `c0..=c1`.
    pub(crate) fn window(matrix: &'a Matrix<T>, r0: usize, r1: usize, c0: usize, c1: usize) -> (s:
        Self)
        requires
            matrix.wf(),
            r0 <= r1 < matrix.spec_virtual_rows(),
            c0 <= c1 < matrix.spec_virtual_cols(),
        ensures
            s.spans(*matrix, r0 as int, r1 as int, c0 as int, c1 as int),
    {
        Submatrix { matrix, row_start: r0, row_end: r1, col_start: c0, col_end: c1 }
    }

    /// The window of `matrix` that spans the rows `y` and the columns `x`.
    pub fn new(matrix: &'a Matrix<T>, y: RangeInclusive<usize>, x: RangeInclusive<usize>) -> (s:
        Self)
        requires
            matrix.wf(),
            range_within(y, matrix.spec_virtual_rows() as int),
            range_within(x, matrix.spec_virtual_cols() as int),
        ensures
            s.spans(*matrix, y@.start as int, y@.end as int, x@.start as int, x@.end as int),
    {
        Self::window(matrix, range_start(&y), range_end(&y), range_start(&x), range_end(&x))
    }

    /// The value at `(i, j)` in the window's coordinates; `None` outside the window.
    pub fn get(&self, i: usize, j: usize) -> (r: Option<&T>)
        requires
            self.wf(),
        ensures
            r == (if self.holds(i as int, j as int) {
                Some(&self.at(i as int, j as int))
            } else {
                None
            }),
    {
        if i > self.row_end - self.row_start || j > self.col_end - self.col_start {
            return None;
        }
        self.matrix.get(self.row_start + i, self.col_start + j)
    }

    /// The number of rows that the window spans.
    pub fn get_rows(&self) -> (n: usize)
        requires
            self.wf(),
        ensures
            n == self.spec_rows(),
    {
        self.row_end - self.row_start + 1
    }

    /// The number of columns that the window spans.
    pub fn get_cols(&self) -> (n: usize)
        requires
            self.wf(),
        ensures
            n == self.spec_cols(),
    {
        self.col_end - self.col_start + 1
    }

    /// The window that spans the rows `r0..=r1` and the columns `c0..=c1` of this
    /// window, both in this window's coordinates.
    pub(crate) fn sub_window(&self, r0: usize, r1: usize, c0: usize, c1: usize) -> (s: Submatrix<
        'a,
        T,
    >)
        requires
            self.wf(),
            r0 <= r1 < self.spec_rows(),
            c0 <= c1 < self.spec_cols(),
        ensures
            s.spans(
                self.matrix(),
                self.row_start() + r0,
                self.row_start() + r1,
                self.col_start() + c0,
                self.col_start() + c1,
            ),
    {
        Self::window(
            self.matrix,
            self.row_start + r0,
            self.row_start + r1,
            self.col_start + c0,
            self.col_start + c1,
        )
    }

    /// The window that spans the rows `y` and the columns `x` of this window,
    /// both in this window's coordinates.
    pub fn submatrix(&self, y: RangeInclusive<usize>, x: RangeInclusive<usize>) -> (s: Submatrix<
        'a,
        T,
    >)
        requires
            self.wf(),
            range_within(y, self.spec_rows() as int),
            range_within(x, self.spec_cols() as int),
        ensures
            s.spans(
                self.matrix(),
                self.row_start() + y@.start,
                self.row_start() + y@.end,
                self.col_start() + x@.start,
                self.col_start() + x@.end,
            ),
    {
        self.sub_window(range_start(&y), range_end(&y), range_start(&x), range_end(&x))
    }

    /// The number of cells in the window.
    pub fn elems(&self) -> (n: usize)
        requires
            self.wf(),
            self.spec_rows() * self.spec_cols() <= usize::MAX,
        ensures
            n == self.spec_rows() * self.spec_cols(),
    {
        let x_elems: usize = self.col_end - self.col_start + 1;
        let y_elems: usize = self.row_end - self.row_start + 1;
        assert(y_elems * x_elems == x_elems * y_elems) by (nonlinear_arith);
        x_elems * y_elems
    }

    /// Whether every cell of the window holds the value of its first cell.
    pub fn all_equal(&self) -> (r: bool) where T: PartialEq
        requires
            self.wf(),
            eq_is_exact::<T>(),
        ensures
            r == self.is_uniform(),
    {
        let rows: usize = self.get_rows();
        let cols: usize = self.get_cols();
        let first: &T = self.get(0, 0).unwrap();
        let mut i: usize = 0;
        while i < rows
            invariant
                self.wf(),
                eq_is_exact::<T>(),
                rows == self.spec_rows(),
                cols == self.spec_cols(),
                *first == self.at(0, 0),
                i <= rows,
                forall|a: int, b: int|
                    0 <= a < i && 0 <= b < cols ==> #[trigger] self.at(a, b) == self.at(0, 0),
            decreases rows - i,
        {
            let mut j: usize = 0;
            while j < cols
                invariant
                    self.wf(),
                    eq_is_exact::<T>(),
                    rows == self.spec_rows(),
                    cols == self.spec_cols(),
                    *first == self.at(0, 0),
                    i < rows,
                    j <= cols,
                    forall|a: int, b: int|
                        0 <= a < i && 0 <= b < cols ==> #[trigger] self.at(a, b) == self.at(0, 0),
                    forall|b: int| 0 <= b < j ==> #[trigger] self.at(i as int, b) == self.at(0, 0),
                decreases cols - j,
            {
                let value: &T = self.get(i, j).unwrap();
                if !same(value, first) {
                    assert(self.holds(i as int, j as int));
                    assert(self.at(i as int, j as int) != self.at(0, 0));
                    return false;
                }
                j += 1;
            }
            i += 1;
        }
        true
    }

    /// An iterator over the cells of the window, row after row.
    pub fn iter(&'a self) -> (it: SubmatrixIterator<'a, T>)
        requires
            self.wf(),
        ensures
            it.wf(),
            it.submatrix() == *self,
            it.position() == (0nat, 0nat),
    {
        SubmatrixIterator { submatrix: self, current_i: 0, current_j: 0 }
    }
}

/// A walk over the cells of a window, row after row.
pub struct SubmatrixIterator<'a, T> {
    submatrix: &'a Submatrix<'a, T>,
    current_i: usize,
    current_j: usize,
}

impl<'a, T> SubmatrixIterator<'a, T> {
    /// The window that is walked over.
    pub closed spec fn submatrix(&self) -> Submatrix<'a, T> {
        *self.submatrix
    }

    /// The coordinates, in the window, of the cell that comes next.
    pub closed spec fn position(&self) -> (nat, nat) {
        (self.current_i as nat, self.current_j as nat)
    }

    /// The window is well formed and the next cell's column lies in it.
    pub open spec fn wf(&self) -> bool {
        &&& self.submatrix().wf()
        &&& self.position().0 <= self.submatrix().spec_rows()
        &&& self.position().1 < self.submatrix().spec_cols()
    }

    /// Whether every cell has been handed out.
    pub open spec fn done(&self) -> bool {
        self.position().0 >= self.submatrix().spec_rows()
    }

    /// The coordinates that follow `(i, j)` in a walk over rows of `cols` cells.
    pub open spec fn successor(i: nat, j: nat, cols: nat) -> (nat, nat) {
        if j + 1 == cols {
            (i + 1, 0nat)
        } else {
            (i, j + 1)
        }
    }

    /// The next cell of the walk; `None` when every cell has been handed out.
    pub fn next(&mut self) -> (r: Option<&'a T>)
        requires
            old(self).wf(),
        ensures
            final(self).wf(),
            final(self).submatrix() == old(self).submatrix(),
            old(self).done() ==> r.is_none() && final(self).position() == old(self).position(),
            !old(self).done() ==> r == Some(
                &old(self).submatrix().at(old(self).position().0 as int, old(self).position().1 as int),
            ) && final(self).position() == Self::successor(
                old(self).position().0,
                old(self).position().1,
                old(self).submatrix().spec_cols(),
            ),
    {
        if self.current_i >= self.submatrix.get_rows() || self.current_j
            >= self.submatrix.get_cols() {
            return None;
        }
        match self.submatrix.get(self.current_i, self.current_j) {
            None => None,
            Some(n) => {
                if self.current_j + 1 == self.submatrix.get_cols() {
                    self.current_j = 0;
                    self.current_i += 1;
                } else {
                    self.current_j += 1;
                }
                Some(n)
            },
        }
    }
}

} // verus!
