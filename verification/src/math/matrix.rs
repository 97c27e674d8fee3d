//! A row-major, heap-allocated 2-D array.
//!
//! Element `(r, c)` is stored at `data[r * cols + c]`.
use crate::error::{invalid_input, is_invalid_input, is_shape_mismatch, Error};
use crate::layout::{is_transpose, lemma_index_in_bounds, lemma_transpose_involution, transpose_data};
use vstd::prelude::*;

verus! {

/// A row-major 2-D matrix.
#[derive(Debug, Clone, PartialEq)]
pub struct Matrix<T> {
    /// Number of rows.
    pub rows: usize,
    /// Number of columns.
    pub cols: usize,
    /// Flat row-major element storage: `data[row * cols + col]`.
    pub data: Vec<T>,
}

/// The message of `Matrix::new` with a zero dimension.
pub open spec fn zero_dims_msg() -> Seq<char> {
    "Matrix dimensions must be non-zero"@
}

/// The message of `Matrix::from_2d` with no rows.
pub open spec fn no_rows_msg() -> Seq<char> {
    "Matrix data must not be empty"@
}

/// The message of `Matrix::from_2d` with rows of unequal lengths.
pub open spec fn ragged_msg() -> Seq<char> {
    "All rows must have the same number of columns"@
}

/// Every row of `rows` has as many elements as the first.
pub open spec fn rows_uniform<T>(rows: Seq<Vec<T>>) -> bool {
    forall|i: int| 0 <= i < rows.len() ==> (#[trigger] rows[i])@.len() == rows[0]@.len()
}

impl<T: Copy> Matrix<T> {
    /// The storage holds exactly `rows * cols` elements.
    pub open spec fn wf(&self) -> bool {
        self.data@.len() == self.rows * self.cols
    }

    /// The element at row `r`, column `c`.
    pub open spec fn entry(&self, r: int, c: int) -> T {
        self.data@[r * self.cols + c]
    }

    /// Creates a matrix from `rows * cols` elements in row-major order.
    ///
    /// Fails with invalid input if a dimension is zero, and with a size
    /// mismatch if `data` does not hold `rows * cols` elements.
    pub fn new(rows: usize, cols: usize, data: Vec<T>) -> (r: Result<Self, Error>)
        requires
            rows > 0 && cols > 0 ==> rows * cols <= usize::MAX,
        ensures
            (rows == 0 || cols == 0) ==> (r matches Err(e) && is_invalid_input(e, zero_dims_msg())),
            (rows > 0 && cols > 0 && data@.len() != rows * cols) ==> r == Err::<Self, Error>(
                Error::SizeMismatch { expected: (rows * cols) as usize, got: data@.len() as usize },
            ),
            (rows > 0 && cols > 0 && data@.len() == rows * cols) ==> (r matches Ok(m) && m.rows
                == rows && m.cols == cols && m.data@ == data@ && m.wf()),
    {
        if rows == 0 || cols == 0 {
            return Err(invalid_input("Matrix dimensions must be non-zero"));
        }
        if data.len() != rows * cols {
            return Err(Error::SizeMismatch { expected: rows * cols, got: data.len() });
        }
        Ok(Matrix { rows, cols, data })
    }

    /// Creates a matrix where every element equals `value`.
    pub fn fill(rows: usize, cols: usize, value: T) -> (m: Self)
        requires
            rows * cols <= usize::MAX,
        ensures
            m.wf(),
            m.rows == rows,
            m.cols == cols,
            m.data@ == Seq::new((rows * cols) as nat, |_i: int| value),
    {
        let n = rows * cols;
        let mut data: Vec<T> = Vec::new();
        let mut i: usize = 0;
        while i < n
            invariant
                0 <= i <= n,
                data@ == Seq::new(i as nat, |_i: int| value),
            decreases n - i,
        {
            data.push(value);
            i = i + 1;
            assert(data@ =~= Seq::new(i as nat, |_i: int| value));
        }
        Matrix { rows, cols, data }
    }

    /// Creates a square matrix with `one` on the diagonal and `zero`
    /// elsewhere.
    pub fn identity_with(size: usize, zero: T, one: T) -> (m: Self)
        requires
            size * size <= usize::MAX,
        ensures
            m.wf(),
            m.rows == size,
            m.cols == size,
            forall|i: int, j: int|
                0 <= i < size && 0 <= j < size ==> #[trigger] m.entry(i, j) == if i == j {
                    one
                } else {
                    zero
                },
    {
        let mut m = Matrix::fill(size, size, zero);
        proof {
            assert forall|i: int, j: int| 0 <= i < size && 0 <= j < size implies #[trigger] m.entry(
                i,
                j,
            ) == zero by {
                lemma_index_in_bounds(i, j, size as int, size as int);
            }
        }
        let mut k: usize = 0;
        while k < size
            invariant
                m.wf(),
                m.rows == size,
                m.cols == size,
                0 <= k <= size,
                forall|i: int, j: int|
                    0 <= i < size && 0 <= j < size ==> #[trigger] m.entry(i, j) == if i == j && i
                        < k {
                        one
                    } else {
                        zero
                    },
            decreases size - k,
        {
            let ghost before = m;
            m.set(k, k, one);
            proof {
                assert forall|i: int, j: int| 0 <= i < size && 0 <= j < size implies #[trigger] m.entry(
                    i,
                    j,
                ) == if i == j && i < k + 1 {
                    one
                } else {
                    zero
                } by {
                    if i != k || j != k {
                        assert(before.entry(i, j) == m.entry(i, j));
                    }
                }
            }
            k = k + 1;
        }
        m
    }

    /// Creates a matrix from a list of rows.
    ///
    /// Fails with invalid input if there are no rows or if the rows have
    /// unequal lengths.
    pub fn from_2d(data: Vec<Vec<T>>) -> (r: Result<Self, Error>)
        ensures
            data@.len() == 0 ==> (r matches Err(e) && is_invalid_input(e, no_rows_msg())),
            (data@.len() > 0 && !rows_uniform(data@)) ==> (r matches Err(e) && is_invalid_input(
                e,
                ragged_msg(),
            )),
            (data@.len() > 0 && rows_uniform(data@)) ==> (r matches Ok(m) && m.wf() && m.rows
                == data@.len() && m.cols == data@[0]@.len() && forall|i: int, j: int|
                0 <= i < m.rows && 0 <= j < m.cols ==> #[trigger] m.entry(i, j) == data@[i]@[j]),
    {
        if data.len() == 0 {
            return Err(invalid_input("Matrix data must not be empty"));
        }
        let rows = data.len();
        let cols = data[0].len();
        let mut i: usize = 0;
        while i < rows
            invariant
                rows == data@.len(),
                cols == data@[0]@.len(),
                0 <= i <= rows,
                forall|k: int| 0 <= k < i ==> (#[trigger] data@[k])@.len() == cols,
            decreases rows - i,
        {
            if data[i].len() != cols {
                return Err(invalid_input("All rows must have the same number of columns"));
            }
            i = i + 1;
        }
        let mut flat: Vec<T> = Vec::new();
        let mut r: usize = 0;
        while r < rows
            invariant
                rows == data@.len(),
                cols == data@[0]@.len(),
                rows_uniform(data@),
                0 <= r <= rows,
                flat@.len() == r * cols,
                forall|i: int, j: int|
                    0 <= i < r && 0 <= j < cols ==> #[trigger] flat@[i * cols + j] == data@[i]@[j],
            decreases rows - r,
        {
            let row = &data[r];
            let mut c: usize = 0;
            while c < cols
                invariant
                    rows == data@.len(),
                    cols == data@[0]@.len(),
                    rows_uniform(data@),
                    0 <= r < rows,
                    *row == data@[r as int],
                    0 <= c <= cols,
                    flat@.len() == r * cols + c,
                    forall|i: int, j: int|
                        0 <= i < r && 0 <= j < cols ==> #[trigger] flat@[i * cols + j]
                            == data@[i]@[j],
                    forall|j: int| 0 <= j < c ==> #[trigger] flat@[r * cols + j] == data@[r as int]@[j],
                decreases cols - c,
            {
                assert(data@[r as int]@.len() == cols);
                let ghost before = flat@;
                flat.push(row[c]);
                proof {
                    assert forall|i: int, j: int| 0 <= i < r && 0 <= j < cols implies #[trigger] flat@[i
                        * cols + j] == data@[i]@[j] by {
                        lemma_index_in_bounds(i, j, r as int, cols as int);
                        assert(flat@[i * cols + j] == before[i * cols + j]);
                    }
                    assert forall|j: int| 0 <= j < c + 1 implies #[trigger] flat@[r * cols + j]
                        == data@[r as int]@[j] by {
                        if j < c {
                            assert(flat@[r * cols + j] == before[r * cols + j]);
                        }
                    }
                }
                c = c + 1;
            }
            proof {
                assert((r + 1) * cols == r * cols + cols) by (nonlinear_arith);
            }
            r = r + 1;
        }
        let m = Matrix { rows, cols, data: flat };
        proof {
            assert forall|i: int, j: int| 0 <= i < m.rows && 0 <= j < m.cols implies #[trigger] m.entry(
                i,
                j,
            ) == data@[i]@[j] by {
                assert(flat@[i * cols + j] == data@[i]@[j]);
            }
        }
        Ok(m)
    }

    /// Returns the element at `(row, col)`.
    pub fn get(&self, row: usize, col: usize) -> (x: T)
        requires
            self.wf(),
            row < self.rows,
            col < self.cols,
        ensures
            x == self.entry(row as int, col as int),
    {
        let _len = self.data.len();
        proof {
            lemma_index_in_bounds(row as int, col as int, self.rows as int, self.cols as int);
        }
        self.data[row * self.cols + col]
    }

    /// Sets the element at `(row, col)`; every other element is kept.
    pub fn set(&mut self, row: usize, col: usize, value: T)
        requires
            old(self).wf(),
            row < old(self).rows,
            col < old(self).cols,
        ensures
            final(self).wf(),
            final(self).rows == old(self).rows,
            final(self).cols == old(self).cols,
            final(self).data@ == old(self).data@.update(row * old(self).cols + col, value),
            final(self).entry(row as int, col as int) == value,
            forall|i: int, j: int|
                0 <= i < old(self).rows && 0 <= j < old(self).cols && (i != row || j != col)
                    ==> #[trigger] final(self).entry(i, j) == old(self).entry(i, j),
    {
        let _len = self.data.len();
        proof {
            lemma_index_in_bounds(row as int, col as int, self.rows as int, self.cols as int);
        }
        let idx = row * self.cols + col;
        self.data.set(idx, value);
        proof {
            assert forall|i: int, j: int|
                0 <= i < self.rows && 0 <= j < self.cols && (i != row || j != col) implies #[trigger] self.entry(
                i,
                j,
            ) == old(self).entry(i, j) by {
                lemma_index_in_bounds(i, j, self.rows as int, self.cols as int);
                if i * self.cols + j == idx {
                    crate::layout::lemma_index_injective(
                        i,
                        j,
                        row as int,
                        col as int,
                        self.cols as int,
                    );
                }
            }
        }
    }

    /// Returns the elements of row `r`.
    pub fn row(&self, r: usize) -> (s: &[T])
        requires
            r < usize::MAX,
            (r + 1) * self.cols <= self.data@.len(),
        ensures
            s@ == self.data@.subrange(r * self.cols, (r + 1) * self.cols),
    {
        let _len = self.data.len();
        proof {
            assert(r * self.cols <= (r + 1) * self.cols) by (nonlinear_arith);
        }
        let s = self.data.as_slice();
        &s[r * self.cols..(r + 1) * self.cols]
    }

    /// Transposes the matrix: `[m, n]` becomes `[n, m]`.
    pub fn transpose(&self) -> (t: Self)
        requires
            self.wf(),
        ensures
            t.wf(),
            t.rows == self.cols,
            t.cols == self.rows,
            is_transpose(t.data@, self.data@, self.rows as nat, self.cols as nat),
            forall|i: int, j: int|
                0 <= i < self.rows && 0 <= j < self.cols ==> #[trigger] t.entry(j, i)
                    == self.entry(i, j),
    {
        let data = transpose_data(&self.data, self.rows, self.cols);
        let t = Matrix { rows: self.cols, cols: self.rows, data };
        proof {
            assert(self.cols * self.rows == self.rows * self.cols) by (nonlinear_arith);
            assert forall|i: int, j: int| 0 <= i < self.rows && 0 <= j < self.cols implies #[trigger] t.entry(
                j,
                i,
            ) == self.entry(i, j) by {
                assert(t.data@[j * self.rows + i] == self.data@[i * self.cols + j]);
            }
        }
        t
    }

    /// Checks that two matrices have the same dimensions, as element-wise
    /// operations require; otherwise a shape mismatch reporting
    /// `[rows, cols]` of both.
    pub fn check_same_shape(&self, other: &Matrix<T>) -> (r: Result<(), Error>)
        ensures
            r is Ok <==> (self.rows == other.rows && self.cols == other.cols),
            r matches Err(e) ==> is_shape_mismatch(
                e,
                seq![self.rows, self.cols],
                seq![other.rows, other.cols],
            ),
    {
        if self.rows != other.rows || self.cols != other.cols {
            let mut expected: Vec<usize> = Vec::new();
            expected.push(self.rows);
            expected.push(self.cols);
            let mut got: Vec<usize> = Vec::new();
            got.push(other.rows);
            got.push(other.cols);
            assert(expected@ =~= seq![self.rows, self.cols]);
            assert(got@ =~= seq![other.rows, other.cols]);
            return Err(Error::ShapeMismatch { expected, got });
        }
        Ok(())
    }

    /// Checks the operands of the product `self × other` (`[m, k]` times
    /// `[k, n]`) and returns `(m, k, n)`.
    pub fn dot_dims(&self, other: &Matrix<T>) -> (r: Result<(usize, usize, usize), Error>)
        ensures
            self.cols != other.rows ==> r == Err::<(usize, usize, usize), Error>(
                Error::MatmulIncompatible { a_cols: self.cols, b_rows: other.rows },
            ),
            self.cols == other.rows ==> r == Ok::<(usize, usize, usize), Error>(
                (self.rows, self.cols, other.cols),
            ),
    {
        if self.cols != other.rows {
            return Err(Error::MatmulIncompatible { a_cols: self.cols, b_rows: other.rows });
        }
        Ok((self.rows, self.cols, other.cols))
    }
}

/// Transposing a matrix twice gives back the matrix.
pub proof fn lemma_matrix_transpose_involution<T: Copy>(a: Matrix<T>, b: Matrix<T>, c: Matrix<T>)
    requires
        a.wf(),
        b.rows == a.cols && b.cols == a.rows,
        is_transpose(b.data@, a.data@, a.rows as nat, a.cols as nat),
        c.rows == b.cols && c.cols == b.rows,
        is_transpose(c.data@, b.data@, b.rows as nat, b.cols as nat),
    ensures
        c.rows == a.rows,
        c.cols == a.cols,
        c.data@ == a.data@,
{
    lemma_transpose_involution(a.data@, b.data@, c.data@, a.rows as nat, a.cols as nat);
}

} // verus!
