//! A dense, row-major grid of values with a logical extent, which is stored,
//! and a virtual extent around it, whose cells read as a default value.

pub mod iter;
pub mod submatrix;

use vstd::prelude::*;
use std::ops::RangeInclusive;
use crate::value::{clone_is_exact, duplicate};
pub use crate::matrix::iter::MatrixIterator;
pub use crate::matrix::submatrix::{Submatrix, SubmatrixIterator};

verus! {

/// A grid as a mathematical value: its stored cells in row-major order, and
/// the value that every cell outside them holds.
pub struct GridView<T> {
    pub rows: nat,
    pub cols: nat,
    pub cells: Seq<T>,
    pub default: T,
}

impl<T> GridView<T> {
    /// The extent is not empty and every stored cell is there.
    pub open spec fn wf(self) -> bool {
        &&& self.rows > 0
        &&& self.cols > 0
        &&& self.cells.len() == self.rows * self.cols
    }

    /// Whether `(i, j)` is a stored cell.
    pub open spec fn stored(self, i: int, j: int) -> bool {
        0 <= i < self.rows && 0 <= j < self.cols
    }

    /// The value at `(i, j)`: the stored one, or the default outside the stored cells.
    pub open spec fn at(self, i: int, j: int) -> T {
        if self.stored(i, j) {
            self.cells[i * self.cols + j]
        } else {
            self.default
        }
    }
}

/// The row-major index of a stored cell lies inside the store.
pub proof fn lemma_cell_index(rows: int, cols: int, i: int, j: int)
    requires
        0 <= i < rows,
        0 <= j < cols,
    ensures
        0 <= i * cols <= i * cols + j < rows * cols,
        (i * cols + j) / cols == i,
        (i * cols + j) % cols == j,
{
    assert(i * cols + j < rows * cols) by (nonlinear_arith)
        requires
            0 <= i < rows,
            0 <= j < cols,
    ;
    assert(0 <= i * cols) by (nonlinear_arith)
        requires
            0 <= i,
            0 < cols,
    ;
    vstd::arithmetic::div_mod::lemma_fundamental_div_mod_converse(i * cols + j, cols, i, j);
}

/// Whether `v` is a value that `T::default()` may return.
pub open spec fn is_default<T: Default>(v: T) -> bool {
    call_ensures(T::default, (), v)
}

/// A value of `T::default()`.
pub fn default_value<T: Default>() -> (v: T)
    ensures
        is_default(v),
{
    T::default()
}

/// The lower bound of an inclusive range.
///
/// Rests on `RangeInclusive::start`: of a range that has not been iterated to
/// its end, it returns the lower bound that the range was made with.
#[verifier::external_body]
pub(crate) fn range_start(r: &RangeInclusive<usize>) -> (start: usize)
    ensures
        !r@.exhausted ==> start == r@.start,
{
    *r.start()
}

/// The upper bound of an inclusive range.
///
/// Rests on `RangeInclusive::end`: of a range that has not been iterated to
/// its end, it returns the upper bound that the range was made with.
#[verifier::external_body]
pub(crate) fn range_end(r: &RangeInclusive<usize>) -> (end: usize)
    ensures
        !r@.exhausted ==> end == r@.end,
{
    *r.end()
}

/// Whether `r` is a range, not iterated yet, that is not empty and ends below `bound`.
pub open spec fn range_within(r: RangeInclusive<usize>, bound: int) -> bool {
    &&& !r@.exhausted
    &&& r@.start <= r@.end
    &&& r@.end < bound
}

/// A grid of `rows * columns` stored cells inside a virtual extent.
pub struct Matrix<T> {
    inner: Vec<T>,
    rows: usize,
    columns: usize,
    virtual_rows: usize,
    virtual_cols: usize,
    default: T,
}

impl<T> View for Matrix<T> {
    type V = GridView<T>;

    closed spec fn view(&self) -> GridView<T> {
        GridView {
            rows: self.rows as nat,
            cols: self.columns as nat,
            cells: self.inner@,
            default: self.default,
        }
    }
}

impl<T: Clone> Clone for Matrix<T> {
    /// A grid of the same extents whose cells and default are clones of this grid's.
    fn clone(&self) -> (m: Self)
        ensures
            m@.rows == self@.rows,
            m@.cols == self@.cols,
            m.spec_virtual_rows() == self.spec_virtual_rows(),
            m.spec_virtual_cols() == self.spec_virtual_cols(),
            m@.cells.len() == self@.cells.len(),
            forall|n: int|
                0 <= n < self@.cells.len() ==> cloned(self@.cells[n], #[trigger] m@.cells[n]),
            cloned(self@.default, m@.default),
            self.wf() ==> m.wf(),
    {
        Matrix {
            inner: self.inner.clone(),
            rows: self.rows,
            columns: self.columns,
            virtual_rows: self.virtual_rows,
            virtual_cols: self.virtual_cols,
            default: self.default.clone(),
        }
    }
}

impl<T> Matrix<T> {
    /// The number of rows of the virtual extent.
    pub closed spec fn spec_virtual_rows(&self) -> nat {
        self.virtual_rows as nat
    }

    /// The number of columns of the virtual extent.
    pub closed spec fn spec_virtual_cols(&self) -> nat {
        self.virtual_cols as nat
    }

    /// The stored cells fill the logical extent, which the virtual extent covers.
    pub open spec fn wf(&self) -> bool {
        &&& self@.wf()
        &&& self@.rows * self@.cols <= usize::MAX
        &&& self@.rows <= self.spec_virtual_rows() <= usize::MAX
        &&& self@.cols <= self.spec_virtual_cols() <= usize::MAX
    }

    /// Whether `(i, j)` lies inside the virtual extent.
    pub open spec fn covers(&self, i: int, j: int) -> bool {
        0 <= i < self.spec_virtual_rows() && 0 <= j < self.spec_virtual_cols()
    }

    /// What `get` returns at `(i, j)`.
    pub open spec fn spec_get(&self, i: int, j: int) -> Option<T> {
        if self.covers(i, j) {
            Some(self@.at(i, j))
        } else {
            None
        }
    }

    /// A grid whose cells and default are values of `T::default()`.
    pub fn new(rows: usize, columns: usize) -> (m: Matrix<T>) where T: Default
        requires
            rows > 0,
            columns > 0,
            rows * columns <= usize::MAX,
        ensures
            m.wf(),
            m@.rows == rows,
            m@.cols == columns,
            m.spec_virtual_rows() == rows,
            m.spec_virtual_cols() == columns,
            is_default(m@.default),
            forall|n: int| 0 <= n < rows * columns ==> is_default(#[trigger] m@.cells[n]),
    {
        let count: usize = rows * columns;
        let mut inner: Vec<T> = Vec::new();
        while inner.len() < count
            invariant
                inner@.len() <= count,
                forall|n: int| 0 <= n < inner@.len() ==> is_default(#[trigger] inner@[n]),
            decreases count - inner@.len(),
        {
            inner.push(default_value());
        }
        Matrix {
            inner,
            rows,
            columns,
            virtual_rows: rows,
            virtual_cols: columns,
            default: default_value(),
        }
    }

    /// A grid whose cells all hold `default`, which is also its default value.
    pub fn with_default(rows: usize, columns: usize, default: T) -> (m: Matrix<T>) where T: Clone
        requires
            clone_is_exact::<T>(),
            rows > 0,
            columns > 0,
            rows * columns <= usize::MAX,
        ensures
            m.wf(),
            m@.rows == rows,
            m@.cols == columns,
            m.spec_virtual_rows() == rows,
            m.spec_virtual_cols() == columns,
            m@.default == default,
            forall|n: int| 0 <= n < rows * columns ==> #[trigger] m@.cells[n] == default,
    {
        let count: usize = rows * columns;
        let mut inner: Vec<T> = Vec::new();
        while inner.len() < count
            invariant
                clone_is_exact::<T>(),
                inner@.len() <= count,
                forall|n: int| 0 <= n < inner@.len() ==> #[trigger] inner@[n] == default,
            decreases count - inner@.len(),
        {
            inner.push(duplicate(&default));
        }
        Matrix { inner, rows, columns, virtual_rows: rows, virtual_cols: columns, default }
    }

    /// The grid whose stored cells are the elements of `input`, row after row.
    pub fn from_iter(rows: usize, columns: usize, input: Vec<T>) -> (m: Matrix<T>) where
        T: Default,

        requires
            rows > 0,
            columns > 0,
            input@.len() == rows * columns,
        ensures
            m.wf(),
            m@.rows == rows,
            m@.cols == columns,
            m@.cells == input@,
            m.spec_virtual_rows() == rows,
            m.spec_virtual_cols() == columns,
            is_default(m@.default),
    {
        assert(input@.len() == input.len());
        Matrix {
            inner: input,
            rows,
            columns,
            virtual_rows: rows,
            virtual_cols: columns,
            default: default_value(),
        }
    }

    /// The grid whose stored cells are the elements of `input`, row after row.
    pub fn from_iterator(rows: usize, columns: usize, input: Vec<T>) -> (m: Matrix<T>) where
        T: Default,

        requires
            rows > 0,
            columns > 0,
            input@.len() == rows * columns,
        ensures
            m.wf(),
            m@.rows == rows,
            m@.cols == columns,
            m@.cells == input@,
            m.spec_virtual_rows() == rows,
            m.spec_virtual_cols() == columns,
            is_default(m@.default),
    {
        Self::from_iter(rows, columns, input)
    }

    /// The value at `(i, j)`: the stored one, the default where `(i, j)` lies in
    /// the virtual extent only, `None` outside the virtual extent.
    pub fn get(&self, i: usize, j: usize) -> (r: Option<&T>)
        requires
            self.wf(),
        ensures
            r == (match self.spec_get(i as int, j as int) {
                Some(v) => Some(&v),
                None => None,
            }),
    {
        if i < self.rows && j < self.columns {
            proof {
                lemma_cell_index(self.rows as int, self.columns as int, i as int, j as int);
            }
            Some(&self.inner[i * self.columns + j])
        } else if i < self.virtual_rows && j < self.virtual_cols {
            Some(&self.default)
        } else {
            None
        }
    }

    /// Stores `value` in the cell `(i, j)`.
    pub fn set(&mut self, i: usize, j: usize, value: T)
        requires
            old(self).wf(),
            old(self)@.stored(i as int, j as int),
        ensures
            final(self).wf(),
            final(self)@ == (GridView {
                cells: old(self)@.cells.update(i * old(self)@.cols + j, value),
                ..old(self)@
            }),
            final(self).spec_virtual_rows() == old(self).spec_virtual_rows(),
            final(self).spec_virtual_cols() == old(self).spec_virtual_cols(),
    {
        proof {
            lemma_cell_index(self.rows as int, self.columns as int, i as int, j as int);
        }
        let index: usize = i * self.columns + j;
        self.inner[index] = value;
    }

    /// The number of stored columns.
    pub fn get_columns(&self) -> (n: usize)
        ensures
            n == self@.cols,
    {
        self.columns
    }

    /// The number of stored rows.
    pub fn get_rows(&self) -> (n: usize)
        ensures
            n == self@.rows,
    {
        self.rows
    }

    /// The number of rows of the virtual extent.
    pub fn get_virtual_rows(&self) -> (n: usize)
        ensures
            n == self.spec_virtual_rows(),
    {
        self.virtual_rows
    }

    /// The number of columns of the virtual extent.
    pub fn get_virtual_cols(&self) -> (n: usize)
        ensures
            n == self.spec_virtual_cols(),
    {
        self.virtual_cols
    }

    /// The stored cells in row-major order.
    pub fn get_inner(&self) -> (inner: &Vec<T>)
        ensures
            inner@ == self@.cells,
    {
        &self.inner
    }

    /// The stored cells in row-major order, to be written through. The grid
    /// stays well formed as long as their number is kept.
    pub fn get_inner_mut(&mut self) -> (inner: &mut Vec<T>)
        ensures
            inner@ == old(self)@.cells,
            final(self)@ == (GridView { cells: final(inner)@, ..old(self)@ }),
            final(self).spec_virtual_rows() == old(self).spec_virtual_rows(),
            final(self).spec_virtual_cols() == old(self).spec_virtual_cols(),
    {
        &mut self.inner
    }

    /// The stored cells in row-major order, each by reference.
    pub fn to_iterator(&self) -> (cells: Vec<&T>)
        requires
            self.wf(),
        ensures
            cells@.len() == self@.cells.len(),
            forall|n: int| 0 <= n < cells@.len() ==> *#[trigger] cells@[n] == self@.cells[n],
    {
        let mut cells: Vec<&T> = Vec::new();
        let mut n: usize = 0;
        while n < self.inner.len()
            invariant
                n <= self.inner@.len(),
                cells@.len() == n,
                forall|m: int| 0 <= m < n ==> *#[trigger] cells@[m] == self.inner@[m],
            decreases self.inner@.len() - n,
        {
            cells.push(&self.inner[n]);
            n += 1;
        }
        cells
    }

    /// A walk over the stored cells, row after row.
    pub fn iter(&self) -> (it: MatrixIterator<'_, T>)
        requires
            self.wf(),
        ensures
            it.wf(),
            it.matrix() == *self,
            it.position() == (0nat, 0nat),
    {
        MatrixIterator::start(self)
    }

    /// The stored cell `(i, j)`, to be written through.
    pub fn get_mut(&mut self, i: usize, j: usize) -> (cell: &mut T)
        requires
            old(self).wf(),
            old(self)@.stored(i as int, j as int),
        ensures
            *cell == old(self)@.at(i as int, j as int),
            final(self).wf(),
            final(self)@ == (GridView {
                cells: old(self)@.cells.update(i * old(self)@.cols + j, *final(cell)),
                ..old(self)@
            }),
            final(self).spec_virtual_rows() == old(self).spec_virtual_rows(),
            final(self).spec_virtual_cols() == old(self).spec_virtual_cols(),
    {
        proof {
            lemma_cell_index(self.rows as int, self.columns as int, i as int, j as int);
        }
        let index: usize = i * self.columns + j;
        &mut self.inner[index]
    }

    /// The window that spans the rows `y` and the columns `x`.
    pub fn submatrix(&self, y: RangeInclusive<usize>, x: RangeInclusive<usize>) -> (s: Submatrix<
        '_,
        T,
    >)
        requires
            self.wf(),
            range_within(y, self.spec_virtual_rows() as int),
            range_within(x, self.spec_virtual_cols() as int),
        ensures
            s.spans(*self, y@.start as int, y@.end as int, x@.start as int, x@.end as int),
    {
        Submatrix::new(self, y, x)
    }

    /// The same grid inside a virtual extent of `rows` by `columns`.
    pub fn expand(self, rows: usize, columns: usize) -> (m: Matrix<T>)
        requires
            self.wf(),
            rows >= self@.rows,
            columns >= self@.cols,
        ensures
            m.wf(),
            m@ == self@,
            m.spec_virtual_rows() == rows,
            m.spec_virtual_cols() == columns,
    {
        let mut m = self;
        m.virtual_rows = rows;
        m.virtual_cols = columns;
        m
    }
}

} // verus!
