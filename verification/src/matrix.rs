//! Dense matrices of plain entries.

use vstd::prelude::*;

verus! {

/// A dense matrix, held row by row.
#[derive(Clone, Debug, PartialEq, Eq)]
pub struct Matrix<T> {
    rows: Vec<Vec<T>>,
    columns: usize,
}

impl<T> View for Matrix<T> {
    type V = Seq<Seq<T>>;

    /// The rows, top to bottom.
    closed spec fn view(&self) -> Seq<Seq<T>> {
        Seq::new(self.rows@.len(), |i: int| self.rows@[i]@)
    }
}

impl<T> Matrix<T> {
    /// The column count.
    pub closed spec fn width(self) -> nat {
        self.columns as nat
    }

    /// Every row has one entry per column.
    pub open spec fn wf(self) -> bool {
        forall|i: int| 0 <= i < self@.len() ==> (#[trigger] self@[i]).len() == self.width()
    }

    /// The matrix has `rows` rows and `columns` columns.
    pub open spec fn has_shape(self, rows: nat, columns: nat) -> bool {
        self@.len() == rows && self.width() == columns
    }

    /// Builds a matrix of `columns` columns from its rows, or `None` where a
    /// row has another length.
    pub fn from_rows(columns: usize, rows: Vec<Vec<T>>) -> (made: Option<Matrix<T>>)
        ensures
            made is Some <==> forall|i: int|
                0 <= i < rows@.len() ==> (#[trigger] rows@[i])@.len() == columns,
            made matches Some(matrix) ==> matrix.wf() && matrix.has_shape(
                rows@.len(),
                columns as nat,
            ) && forall|i: int|
                0 <= i < rows@.len() ==> #[trigger] matrix@[i] == rows@[i]@,
    {
        let mut i: usize = 0;
        while i < rows.len()
            invariant
                i <= rows@.len(),
                forall|k: int| 0 <= k < i ==> (#[trigger] rows@[k])@.len() == columns,
            decreases rows@.len() - i,
        {
            if rows[i].len() != columns {
                assert(rows@[i as int]@.len() != columns);
                return None;
            }
            i += 1;
        }
        Some(Matrix { rows, columns })
    }

    /// Wraps rows that are known to have `columns` entries each.
    pub(crate) fn from_equal_rows(columns: usize, rows: Vec<Vec<T>>) -> (matrix: Matrix<T>)
        requires
            forall|i: int| 0 <= i < rows@.len() ==> (#[trigger] rows@[i])@.len() == columns,
        ensures
            matrix.wf(),
            matrix.has_shape(rows@.len(), columns as nat),
            forall|i: int| 0 <= i < rows@.len() ==> #[trigger] matrix@[i] == rows@[i]@,
    {
        Matrix { rows, columns }
    }

    /// The row count.
    pub fn nrows(&self) -> (count: usize)
        ensures
            count == self@.len(),
    {
        self.rows.len()
    }

    /// The column count.
    pub fn ncols(&self) -> (count: usize)
        ensures
            count == self.width(),
    {
        self.columns
    }

    /// Row `i`.
    pub fn row(&self, i: usize) -> (row: &[T])
        requires
            i < self@.len(),
        ensures
            row@ == self@[i as int],
    {
        self.rows[i].as_slice()
    }

    /// Entry (`i`, `j`).
    pub fn at(&self, i: usize, j: usize) -> (entry: &T)
        requires
            self.wf(),
            i < self@.len(),
            j < self.width(),
        ensures
            *entry == self@[i as int][j as int],
    {
        assert(self@[i as int] == self.rows@[i as int]@);
        &self.rows[i][j]
    }
}

impl<T: Copy> Matrix<T> {
    /// A matrix with the same entries.
    pub fn copied(&self) -> (copy: Matrix<T>)
        requires
            self.wf(),
        ensures
            copy.wf(),
            copy@ == self@,
            copy.width() == self.width(),
    {
        let mut rows: Vec<Vec<T>> = Vec::new();
        let mut i: usize = 0;
        while i < self.rows.len()
            invariant
                self.wf(),
                i <= self.rows@.len(),
                rows@.len() == i,
                forall|r: int| 0 <= r < i ==> (#[trigger] rows@[r])@ == self@[r],
            decreases self.rows@.len() - i,
        {
            let mut row: Vec<T> = Vec::new();
            let mut j: usize = 0;
            assert(self@[i as int].len() == self.columns);
            while j < self.columns
                invariant
                    self.wf(),
                    i < self.rows@.len(),
                    j <= self.columns,
                    self@[i as int].len() == self.columns,
                    row@ == self@[i as int].take(j as int),
                decreases self.columns - j,
            {
                row.push(*self.at(i, j));
                assert(row@ =~= self@[i as int].take(j + 1));
                j += 1;
            }
            assert(row@ =~= self@[i as int]);
            rows.push(row);
            i += 1;
        }
        let copy = Matrix { rows, columns: self.columns };
        assert(copy@ =~= self@);
        copy
    }
}

} // verus!
