//! The matrix container: a fixed-shape, row-major flat buffer with
//! bounds-checked element access and size-checked bulk replacement.

use vstd::prelude::*;

verus! {

/// The recoverable failures of the container.
///
/// A shape mismatch between multiplication operands is a caller error, not a
/// value of this type: `dot` excludes it by precondition.
#[derive(Clone, Copy, Debug, PartialEq, Eq, Structural)]
pub enum MatrixError {
    /// A dimension passed to `new` was negative.
    InvalidShape,
    /// A row or column index was outside `[0, rows) x [0, columns)`.
    IndexOutOfRange,
    /// A bulk replacement did not supply exactly `rows * columns` values.
    LengthMismatch,
}

/// A dense matrix with `rows * columns` elements stored in row-major order:
/// element `(r, c)` lives at flat index `r * columns + c`.
#[derive(Debug)]
pub struct Matrix {
    pub rows: i32,
    pub columns: i32,
    pub values: Vec<i64>,
}

impl Matrix {
    /// The container invariant: nonnegative extents, and a backing buffer of
    /// exactly `rows * columns` elements.
    pub open spec fn wf(self) -> bool {
        &&& 0 <= self.rows
        &&& 0 <= self.columns
        &&& self.values@.len() == self.rows * self.columns
    }

    pub open spec fn in_bounds(self, r: int, c: int) -> bool {
        0 <= r < self.rows && 0 <= c < self.columns
    }

    /// The element at `(r, c)` under row-major indexing.
    pub open spec fn entry(self, r: int, c: int) -> i64 {
        self.values@[r * self.columns + c]
    }

    /// What a bounds-checked read returns.
    pub open spec fn spec_get(self, r: int, c: int) -> Option<i64> {
        if self.in_bounds(r, c) {
            Some(self.entry(r, c))
        } else {
            None
        }
    }
}

/// `m1` is `m0` with the single element `(r, c)` replaced by `v`.
pub open spec fn updated(m0: Matrix, m1: Matrix, r: int, c: int, v: i64) -> bool {
    &&& m1.rows == m0.rows
    &&& m1.columns == m0.columns
    &&& m1.values@.len() == m0.values@.len()
    &&& m1.entry(r, c) == v
    &&& forall|r2: int, c2: int|
        m0.in_bounds(r2, c2) && !(r2 == r && c2 == c) ==> m1.entry(r2, c2) == m0.entry(r2, c2)
}

/// A row-major flat index stays inside a `rows * cols` buffer.
pub(crate) proof fn lemma_flat_range(rows: int, cols: int, r: int, c: int)
    requires
        0 <= r < rows,
        0 <= c < cols,
    ensures
        0 <= r * cols + c < rows * cols,
{
    assert(0 <= r * cols + c < rows * cols) by (nonlinear_arith)
        requires
            0 <= r < rows,
            0 <= c < cols,
    ;
}

/// Distinct coordinates map to distinct flat indices.
pub(crate) proof fn lemma_flat_inj(cols: int, r1: int, c1: int, r2: int, c2: int)
    requires
        0 <= c1 < cols,
        0 <= c2 < cols,
        !(r1 == r2 && c1 == c2),
    ensures
        r1 * cols + c1 != r2 * cols + c2,
{
    assert(r1 * cols + c1 != r2 * cols + c2) by (nonlinear_arith)
        requires
            0 <= c1 < cols,
            0 <= c2 < cols,
            !(r1 == r2 && c1 == c2),
    ;
}

/// A zero-filled buffer of `rows * columns` elements.
pub(crate) fn zeros(rows: i32, columns: i32) -> (v: Vec<i64>)
    requires
        0 <= rows,
        0 <= columns,
    ensures
        v@.len() == rows * columns,
        forall|k: int| 0 <= k < v@.len() ==> v@[k] == 0i64,
{
    let mut v: Vec<i64> = Vec::new();
    let mut r: i32 = 0;
    while r < rows
        invariant
            0 <= r <= rows,
            0 <= columns,
            v@.len() == r * columns,
            forall|k: int| 0 <= k < v@.len() ==> v@[k] == 0i64,
        decreases rows - r,
    {
        let mut c: i32 = 0;
        while c < columns
            invariant
                0 <= c <= columns,
                v@.len() == r * columns + c,
                forall|k: int| 0 <= k < v@.len() ==> v@[k] == 0i64,
            decreases columns - c,
        {
            v.push(0);
            c = c + 1;
        }
        proof {
            assert((r + 1) * columns == r * columns + columns) by (nonlinear_arith);
        }
        r = r + 1;
    }
    v
}

impl Matrix {
    /// Allocates a `rows x columns` matrix with every element zero.
    /// Negative dimensions are rejected, and nothing else is.
    pub fn new(rows: i32, columns: i32) -> (result: Result<Matrix, MatrixError>)
        ensures
            match result {
                Ok(m) => {
                    &&& 0 <= rows
                    &&& 0 <= columns
                    &&& m.wf()
                    &&& m.rows == rows
                    &&& m.columns == columns
                    &&& forall|i: int, j: int| m.in_bounds(i, j) ==> m.entry(i, j) == 0i64
                },
                Err(e) => e == MatrixError::InvalidShape && (rows < 0 || columns < 0),
            },
    {
        if rows < 0 || columns < 0 {
            return Err(MatrixError::InvalidShape);
        }
        let values = zeros(rows, columns);
        let m = Matrix { rows, columns, values };
        proof {
            assert forall|i: int, j: int| m.in_bounds(i, j) implies m.entry(i, j) == 0i64 by {
                lemma_flat_range(rows as int, columns as int, i, j);
            }
        }
        Ok(m)
    }

    /// Bounds-checked read of element `(row_ind, col_ind)`; `None` exactly
    /// when the coordinates are outside the matrix. Never mutates.
    pub fn get_val(&self, row_ind: i32, col_ind: i32) -> (result: Option<i64>)
        requires
            self.wf(),
        ensures
            result == self.spec_get(row_ind as int, col_ind as int),
    {
        if row_ind < 0 || col_ind < 0 || row_ind >= self.rows || col_ind >= self.columns {
            None
        } else {
            proof {
                lemma_flat_range(
                    self.rows as int,
                    self.columns as int,
                    row_ind as int,
                    col_ind as int,
                );
            }
            // the call to len() tells the verifier the buffer length fits in
            // usize, which bounds the index arithmetic below
            let n: usize = self.values.len();
            let idx: usize = (row_ind as usize) * (self.columns as usize) + (col_ind as usize);
            Some(self.values[idx])
        }
    }

    /// Bounds-checked write of element `(row_ind, col_ind)`; on success
    /// exactly that element changes, and out of bounds nothing changes.
    pub fn set_val(&mut self, row_ind: i32, col_ind: i32, value: i64) -> (result: Result<
        (),
        MatrixError,
    >)
        requires
            old(self).wf(),
        ensures
            final(self).wf(),
            if old(self).in_bounds(row_ind as int, col_ind as int) {
                &&& result == Ok::<(), MatrixError>(())
                &&& updated(*old(self), *final(self), row_ind as int, col_ind as int, value)
            } else {
                &&& result == Err::<(), MatrixError>(MatrixError::IndexOutOfRange)
                &&& *final(self) == *old(self)
            },
    {
        if row_ind < 0 || col_ind < 0 || row_ind >= self.rows || col_ind >= self.columns {
            Err(MatrixError::IndexOutOfRange)
        } else {
            proof {
                lemma_flat_range(
                    self.rows as int,
                    self.columns as int,
                    row_ind as int,
                    col_ind as int,
                );
            }
            // as in get_val, len() bounds the index arithmetic below
            let n: usize = self.values.len();
            let idx: usize = (row_ind as usize) * (self.columns as usize) + (col_ind as usize);
            self.values.set(idx, value);
            proof {
                assert forall|r2: int, c2: int|
                    old(self).in_bounds(r2, c2) && !(r2 == row_ind as int && c2 == col_ind as int)
                        implies self.entry(r2, c2) == old(self).entry(r2, c2) by {
                    lemma_flat_range(self.rows as int, self.columns as int, r2, c2);
                    lemma_flat_inj(
                        self.columns as int,
                        row_ind as int,
                        col_ind as int,
                        r2,
                        c2,
                    );
                }
            }
            Ok(())
        }
    }

    /// Replaces the whole backing buffer at once; rejected without any
    /// mutation unless exactly `rows * columns` values are supplied.
    pub fn set_all(&mut self, values: &Vec<i64>) -> (result: Result<(), MatrixError>)
        requires
            old(self).wf(),
        ensures
            final(self).wf(),
            final(self).rows == old(self).rows,
            final(self).columns == old(self).columns,
            if values@.len() == old(self).rows * old(self).columns {
                &&& result == Ok::<(), MatrixError>(())
                &&& final(self).values@ == values@
            } else {
                &&& result == Err::<(), MatrixError>(MatrixError::LengthMismatch)
                &&& *final(self) == *old(self)
            },
    {
        if values.len() != self.values.len() {
            Err(MatrixError::LengthMismatch)
        } else {
            let mut copy: Vec<i64> = Vec::new();
            let mut i: usize = 0;
            while i < values.len()
                invariant
                    0 <= i <= values@.len(),
                    copy@.len() == i,
                    forall|k: int| 0 <= k < i ==> copy@[k] == values@[k],
                decreases values@.len() - i,
            {
                copy.push(values[i]);
                i = i + 1;
            }
            proof {
                assert(copy@ =~= values@);
            }
            self.values = copy;
            Ok(())
        }
    }
}

} // verus!
