//! Laws relating the container and multiplier operations.

use vstd::prelude::*;

use crate::matrix::Matrix;
use crate::matrix::updated;
use crate::multiply::is_product;
use crate::multiply::sum_range;

verus! {

/// A zero-filled matrix — what `Matrix::new` returns — reads back the
/// additive identity at every coordinate inside its shape.
pub proof fn lemma_zero_matrix_get(m: Matrix, r: int, c: int)
    requires
        m.wf(),
        forall|i: int, j: int| m.in_bounds(i, j) ==> m.entry(i, j) == 0i64,
        m.in_bounds(r, c),
    ensures
        m.spec_get(r, c) == Some(0i64),
{
}

/// Writing an element in bounds and reading the same coordinates back
/// yields exactly the written value.
pub proof fn lemma_set_then_get(m0: Matrix, m1: Matrix, r: int, c: int, v: i64)
    requires
        m0.wf(),
        m0.in_bounds(r, c),
        updated(m0, m1, r, c, v),
    ensures
        m1.spec_get(r, c) == Some(v),
{
}

/// Reading outside the matrix never yields a value.
pub proof fn lemma_get_out_of_range(m: Matrix, r: int, c: int)
    requires
        !m.in_bounds(r, c),
    ensures
        m.spec_get(r, c) == None::<i64>,
{
}

/// An identity matrix: square, ones on the diagonal, zeros elsewhere.
pub open spec fn is_identity(m: Matrix) -> bool {
    &&& m.wf()
    &&& m.rows == m.columns
    &&& forall|i: int, j: int|
        m.in_bounds(i, j) ==> m.entry(i, j) == if i == j {
            1i64
        } else {
            0i64
        }
}

proof fn lemma_identity_sum(m: Matrix, id: Matrix, i: int, j: int, k: int)
    requires
        m.wf(),
        id.wf(),
        is_identity(id),
        m.columns == id.rows,
        0 <= i < m.rows,
        0 <= j < id.columns,
        0 <= k <= m.columns,
    ensures
        sum_range(m, id, i, j, 0, k) == if j < k {
            m.entry(i, j) as int
        } else {
            0
        },
    decreases k,
{
    if k > 0 {
        lemma_identity_sum(m, id, i, j, k - 1);
        assert(id.entry(k - 1, j) == if k - 1 == j {
            1i64
        } else {
            0i64
        });
    }
}

/// Multiplying any matrix by the identity of its column count yields a
/// matrix with the same shape and exactly the same entries.
pub proof fn lemma_identity_product(m: Matrix, id: Matrix, p: Matrix)
    requires
        m.wf(),
        is_identity(id),
        m.columns == id.rows,
        is_product(m, id, p),
    ensures
        p.rows == m.rows,
        p.columns == m.columns,
        forall|i: int, j: int| m.in_bounds(i, j) ==> p.entry(i, j) == m.entry(i, j),
{
    assert forall|i: int, j: int| m.in_bounds(i, j) implies p.entry(i, j) == m.entry(i, j) by {
        lemma_identity_sum(m, id, i, j, m.columns as int);
    }
}

/// The product is determined by the operands alone: any two results of the
/// multiplier — whatever tile edge or execution mode produced each — have
/// the same shape and agree on every entry.
pub proof fn lemma_product_unique(a: Matrix, b: Matrix, p: Matrix, q: Matrix)
    requires
        is_product(a, b, p),
        is_product(a, b, q),
    ensures
        p.rows == q.rows,
        p.columns == q.columns,
        forall|i: int, j: int| p.in_bounds(i, j) ==> p.entry(i, j) == q.entry(i, j),
{
}

} // verus!
