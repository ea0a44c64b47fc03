//! A walk over the stored cells of a grid, row after row.

use vstd::prelude::*;
use crate::matrix::Matrix;

verus! {

/// A walk over the stored cells of a grid, row after row.
pub struct MatrixIterator<'a, T> {
    matrix: &'a Matrix<T>,
    current_i: usize,
    current_j: usize,
}

impl<'a, T> MatrixIterator<'a, T> {
    /// The grid that is walked over.
    pub closed spec fn matrix(&self) -> Matrix<T> {
        *self.matrix
    }

    /// The coordinates of the cell that comes next.
    pub closed spec fn position(&self) -> (nat, nat) {
        (self.current_i as nat, self.current_j as nat)
    }

    /// The grid is well formed and the next cell's column lies in it.
    pub open spec fn wf(&self) -> bool {
        &&& self.matrix().wf()
        &&& self.position().0 <= self.matrix()@.rows
        &&& self.position().1 < self.matrix()@.cols
    }

    /// Whether every stored cell has been handed out.
    pub open spec fn done(&self) -> bool {
        self.position().0 >= self.matrix()@.rows
    }

    /// The coordinates that follow `(i, j)` in a walk over rows of `cols` cells.
    pub open spec fn successor(i: nat, j: nat, cols: nat) -> (nat, nat) {
        if j + 1 == cols {
            (i + 1, 0nat)
        } else {
            (i, j + 1)
        }
    }

    /// A walk over `matrix` that starts at its first cell.
    pub(crate) fn start(matrix: &'a Matrix<T>) -> (it: Self)
        requires
            matrix.wf(),
        ensures
            it.wf(),
            it.matrix() == *matrix,
            it.position() == (0nat, 0nat),
    {
        MatrixIterator { matrix, current_i: 0, current_j: 0 }
    }

    /// The next stored cell of the walk; `None` when every cell has been handed out.
    pub fn next(&mut self) -> (r: Option<&'a T>)
        requires
            old(self).wf(),
        ensures
            final(self).wf(),
            final(self).matrix() == old(self).matrix(),
            old(self).done() ==> r.is_none() && final(self).position() == old(self).position(),
            !old(self).done() ==> r == Some(
                &old(self).matrix()@.at(old(self).position().0 as int, old(self).position().1 as int),
            ) && final(self).position() == Self::successor(
                old(self).position().0,
                old(self).position().1,
                old(self).matrix()@.cols,
            ),
    {
        if self.current_i >= self.matrix.get_rows() || self.current_j
            >= self.matrix.get_columns() {
            return None;
        }
        match self.matrix.get(self.current_i, self.current_j) {
            None => None,
            Some(n) => {
                if self.current_j + 1 == self.matrix.get_columns() {
                    self.current_j = 0;
                    self.current_i += 1;
                } else {
                    self.current_j += 1;
                }
                Some(n)
            },
        }
    }
}

} // verus!
