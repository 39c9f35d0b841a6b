//! The tiled, parallel matrix multiplier.
//!
//! The multiplication partitions the rows of the left operand into bands of
//! one tile edge each; every band is one unit of parallel work. A band's work
//! unit fills a private full-size buffer by three-level tiled loops (column
//! tile of the right operand outermost, then inner tile, then row, inner
//! index, column), and the private buffers are then merged into the output by
//! element-wise addition. Entries are proved equal to the exact mathematical
//! sum, so the tile edge and the execution mode cannot change the result.

use vstd::prelude::*;

use crate::matrix::Matrix;
use crate::matrix::lemma_flat_inj;
use crate::matrix::lemma_flat_range;
use crate::matrix::zeros;
use rayon::iter::IntoParallelRefIterator;
use rayon::iter::ParallelIterator;

verus! {

/// Largest element magnitude the multiplier accepts. With the inner
/// dimension capped by `INNER_BOUND`, every partial sum stays within `i64`.
pub const ELEM_BOUND: i64 = 1048576;

/// Largest inner (shared) dimension the multiplier accepts.
pub const INNER_BOUND: i32 = 1048576;

/// The tile edge used by `dot`.
pub const DEFAULT_TILE: i32 = 256;

/// The element of a flat row-major buffer at `(r, c)`.
pub open spec fn cell(s: Seq<i64>, cols: int, r: int, c: int) -> i64 {
    s[r * cols + c]
}

/// Every element of `m` lies in `[-ELEM_BOUND, ELEM_BOUND]`.
pub open spec fn elems_bounded(m: Matrix) -> bool {
    forall|r: int, c: int|
        m.in_bounds(r, c) ==> -ELEM_BOUND <= #[trigger] m.entry(r, c) <= ELEM_BOUND
}

/// The multiplier's precondition: well-formed operands, matching inner
/// dimensions, and sizes under which no intermediate sum can overflow.
pub open spec fn mul_pre(a: Matrix, b: Matrix) -> bool {
    &&& a.wf()
    &&& b.wf()
    &&& a.columns == b.rows
    &&& a.columns <= INNER_BOUND
    &&& elems_bounded(a)
    &&& elems_bounded(b)
}

/// What one product entry sums to over the inner indices `[k0, k1)`:
/// `sum of a[i, k] * b[k, j]` for `k` in that range.
pub open spec fn sum_range(a: Matrix, b: Matrix, i: int, j: int, k0: int, k1: int) -> int
    decreases k1 - k0,
{
    if k1 <= k0 {
        0
    } else {
        sum_range(a, b, i, j, k0, k1 - 1) + (a.entry(i, k1 - 1) as int) * (b.entry(
            k1 - 1,
            j,
        ) as int)
    }
}

/// The exact mathematical entry `(i, j)` of the product `a * b`.
pub open spec fn product_entry(a: Matrix, b: Matrix, i: int, j: int) -> int {
    sum_range(a, b, i, j, 0, a.columns as int)
}

/// `p` has the shape and every entry of the mathematical product `a * b`.
pub open spec fn is_product(a: Matrix, b: Matrix, p: Matrix) -> bool {
    &&& p.wf()
    &&& p.rows == a.rows
    &&& p.columns == b.columns
    &&& forall|i: int, j: int|
        p.in_bounds(i, j) ==> p.entry(i, j) as int == product_entry(a, b, i, j)
}

/// Where the row band starting at `start` ends: one tile edge further,
/// clamped to the row count.
pub open spec fn band_hi(start: int, tile: int, rows: int) -> int {
    if start + tile <= rows {
        start + tile
    } else {
        rows
    }
}

proof fn lemma_entry_bounded(m: Matrix, r: int, c: int)
    requires
        m.wf(),
        elems_bounded(m),
        m.in_bounds(r, c),
    ensures
        -ELEM_BOUND <= m.entry(r, c) <= ELEM_BOUND,
{
}

/// A sum of `k1 - k0` products of elements bounded by `ELEM_BOUND` is
/// bounded by `(k1 - k0) * ELEM_BOUND^2`.
proof fn lemma_sum_range_bound(a: Matrix, b: Matrix, i: int, j: int, k0: int, k1: int)
    requires
        mul_pre(a, b),
        0 <= i < a.rows,
        0 <= j < b.columns,
        0 <= k0 <= k1 <= a.columns,
    ensures
        -(k1 - k0) * 1099511627776 <= sum_range(a, b, i, j, k0, k1) <= (k1 - k0) * 1099511627776,
    decreases k1 - k0,
{
    if k0 < k1 {
        lemma_sum_range_bound(a, b, i, j, k0, k1 - 1);
        lemma_entry_bounded(a, i, k1 - 1);
        lemma_entry_bounded(b, k1 - 1, j);
        let x = a.entry(i, k1 - 1) as int;
        let y = b.entry(k1 - 1, j) as int;
        assert(-1099511627776 <= x * y <= 1099511627776) by (nonlinear_arith)
            requires
                -1048576 <= x <= 1048576,
                -1048576 <= y <= 1048576,
        ;
    }
}

/// Every partial sum the multiplier ever holds fits comfortably in `i64`.
proof fn lemma_sum_fits(a: Matrix, b: Matrix, i: int, j: int, k0: int, k1: int)
    requires
        mul_pre(a, b),
        0 <= i < a.rows,
        0 <= j < b.columns,
        0 <= k0 <= k1 <= a.columns,
    ensures
        -1152921504606846976 <= sum_range(a, b, i, j, k0, k1) <= 1152921504606846976,
{
    lemma_sum_range_bound(a, b, i, j, k0, k1);
    let n = k1 - k0;
    assert(n * 1099511627776 <= 1152921504606846976) by (nonlinear_arith)
        requires
            0 <= n <= 1048576,
    ;
}

/// Reads the element at `(r, c)` of a flat row-major buffer.
fn flat_at(vals: &Vec<i64>, cols: i32, r: i32, c: i32) -> (x: i64)
    requires
        0 <= c < cols,
        0 <= r,
        r * cols + c < vals@.len(),
    ensures
        x == vals@[r * cols + c],
{
    // the call to len() tells the verifier the buffer length fits in usize,
    // which bounds the index arithmetic below
    let n: usize = vals.len();
    let idx: usize = (r as usize) * (cols as usize) + (c as usize);
    vals[idx]
}

/// Writes the element at `(r, c)` of a flat row-major buffer.
fn set_flat(vals: &mut Vec<i64>, cols: i32, r: i32, c: i32, v: i64)
    requires
        0 <= c < cols,
        0 <= r,
        r * cols + c < old(vals)@.len(),
    ensures
        final(vals)@ == old(vals)@.update(r * cols + c, v),
{
    // as in flat_at, len() bounds the index arithmetic below
    let n: usize = vals.len();
    let idx: usize = (r as usize) * (cols as usize) + (c as usize);
    vals.set(idx, v);
}

/// The innermost tiled loop: for the fixed row `r` and inner index `k`,
/// sweeps the columns `[c0, c1)` and adds `a[r, k] * b[k, c]` into each cell.
fn accum_line(buf: &mut Vec<i64>, a: &Matrix, b: &Matrix, r: i32, k: i32, c0: i32, c1: i32)
    requires
        mul_pre(*a, *b),
        0 <= r < a.rows,
        0 <= k < a.columns,
        0 <= c0 <= c1 <= b.columns,
        old(buf)@.len() == a.rows * b.columns,
        forall|c: int|
            c0 <= c < c1 ==> cell(old(buf)@, b.columns as int, r as int, c) as int == sum_range(
                *a,
                *b,
                r as int,
                c,
                0,
                k as int,
            ),
    ensures
        final(buf)@.len() == old(buf)@.len(),
        forall|c: int|
            c0 <= c < c1 ==> cell(final(buf)@, b.columns as int, r as int, c) as int == sum_range(
                *a,
                *b,
                r as int,
                c,
                0,
                k as int + 1,
            ),
        forall|r2: int, c2: int|
            0 <= r2 < a.rows && 0 <= c2 < b.columns && !(r2 == r as int && c0 <= c2 < c1)
                ==> cell(final(buf)@, b.columns as int, r2, c2) == cell(
                old(buf)@,
                b.columns as int,
                r2,
                c2,
            ),
{
    proof {
        lemma_flat_range(a.rows as int, a.columns as int, r as int, k as int);
    }
    let a_val: i64 = flat_at(&a.values, a.columns, r, k);
    proof {
        lemma_entry_bounded(*a, r as int, k as int);
    }
    let mut c: i32 = c0;
    while c < c1
        invariant
            mul_pre(*a, *b),
            0 <= r < a.rows,
            0 <= k < a.columns,
            0 <= c0 <= c <= c1 <= b.columns,
            buf@.len() == a.rows * b.columns,
            a_val == a.entry(r as int, k as int),
            -ELEM_BOUND <= a_val <= ELEM_BOUND,
            forall|cc: int|
                c0 <= cc < c ==> cell(buf@, b.columns as int, r as int, cc) as int == sum_range(
                    *a,
                    *b,
                    r as int,
                    cc,
                    0,
                    k as int + 1,
                ),
            forall|cc: int|
                c <= cc < c1 ==> cell(buf@, b.columns as int, r as int, cc) as int == sum_range(
                    *a,
                    *b,
                    r as int,
                    cc,
                    0,
                    k as int,
                ),
            forall|r2: int, c2: int|
                0 <= r2 < a.rows && 0 <= c2 < b.columns && !(r2 == r as int && c0 <= c2 < c1)
                    ==> cell(buf@, b.columns as int, r2, c2) == cell(
                    old(buf)@,
                    b.columns as int,
                    r2,
                    c2,
                ),
        decreases c1 - c,
    {
        proof {
            lemma_flat_range(b.rows as int, b.columns as int, k as int, c as int);
            lemma_flat_range(a.rows as int, b.columns as int, r as int, c as int);
            lemma_entry_bounded(*b, k as int, c as int);
            lemma_sum_fits(*a, *b, r as int, c as int, 0, k as int);
        }
        let b_val: i64 = flat_at(&b.values, b.columns, k, c);
        let cur: i64 = flat_at(buf, b.columns, r, c);
        proof {
            assert(-1099511627776 <= (a_val as int) * (b_val as int) <= 1099511627776)
                by (nonlinear_arith)
                requires
                    -1048576 <= a_val as int <= 1048576,
                    -1048576 <= b_val as int <= 1048576,
            ;
        }
        let prod: i64 = a_val * b_val;
        let next: i64 = cur + prod;
        let ghost pre = buf@;
        set_flat(buf, b.columns, r, c, next);
        proof {
            assert forall|r2: int, c2: int|
                0 <= r2 < a.rows && 0 <= c2 < b.columns && !(r2 == r as int && c2 == c as int)
                    implies cell(buf@, b.columns as int, r2, c2) == cell(
                    pre,
                    b.columns as int,
                    r2,
                    c2,
                ) by {
                lemma_flat_range(a.rows as int, b.columns as int, r2, c2);
                lemma_flat_inj(b.columns as int, r as int, c as int, r2, c2);
            }
            assert(cur == cell(pre, b.columns as int, r as int, c as int));
            assert(cur as int == sum_range(*a, *b, r as int, c as int, 0, k as int));
            assert(cell(buf@, b.columns as int, r as int, c as int) == next);
            assert(sum_range(*a, *b, r as int, c as int, 0, k as int + 1) == sum_range(
                *a,
                *b,
                r as int,
                c as int,
                0,
                k as int,
            ) + (a.entry(r as int, k as int) as int) * (b.entry(k as int, c as int) as int));
            assert forall|cc: int| c0 <= cc < c + 1 implies cell(
                buf@,
                b.columns as int,
                r as int,
                cc,
            ) as int == sum_range(*a, *b, r as int, cc, 0, k as int + 1) by {
                if cc < c {
                    assert(cell(buf@, b.columns as int, r as int, cc) == cell(
                        pre,
                        b.columns as int,
                        r as int,
                        cc,
                    ));
                    assert(cell(pre, b.columns as int, r as int, cc) as int == sum_range(
                        *a,
                        *b,
                        r as int,
                        cc,
                        0,
                        k as int + 1,
                    ));
                }
            }
        }
        c = c + 1;
    }
}

/// For the fixed row `r`, adds the contributions of every inner index in
/// `[k0, k1)` over the columns `[c0, c1)`.
fn accum_row_block(
    buf: &mut Vec<i64>,
    a: &Matrix,
    b: &Matrix,
    r: i32,
    k0: i32,
    k1: i32,
    c0: i32,
    c1: i32,
)
    requires
        mul_pre(*a, *b),
        0 <= r < a.rows,
        0 <= k0 <= k1 <= a.columns,
        0 <= c0 <= c1 <= b.columns,
        old(buf)@.len() == a.rows * b.columns,
        forall|c: int|
            c0 <= c < c1 ==> cell(old(buf)@, b.columns as int, r as int, c) as int == sum_range(
                *a,
                *b,
                r as int,
                c,
                0,
                k0 as int,
            ),
    ensures
        final(buf)@.len() == old(buf)@.len(),
        forall|c: int|
            c0 <= c < c1 ==> cell(final(buf)@, b.columns as int, r as int, c) as int == sum_range(
                *a,
                *b,
                r as int,
                c,
                0,
                k1 as int,
            ),
        forall|r2: int, c2: int|
            0 <= r2 < a.rows && 0 <= c2 < b.columns && !(r2 == r as int && c0 <= c2 < c1)
                ==> cell(final(buf)@, b.columns as int, r2, c2) == cell(
                old(buf)@,
                b.columns as int,
                r2,
                c2,
            ),
{
    let mut k: i32 = k0;
    while k < k1
        invariant
            mul_pre(*a, *b),
            0 <= r < a.rows,
            0 <= k0 <= k <= k1 <= a.columns,
            0 <= c0 <= c1 <= b.columns,
            buf@.len() == a.rows * b.columns,
            forall|c: int|
                c0 <= c < c1 ==> cell(buf@, b.columns as int, r as int, c) as int == sum_range(
                    *a,
                    *b,
                    r as int,
                    c,
                    0,
                    k as int,
                ),
            forall|r2: int, c2: int|
                0 <= r2 < a.rows && 0 <= c2 < b.columns && !(r2 == r as int && c0 <= c2 < c1)
                    ==> cell(buf@, b.columns as int, r2, c2) == cell(
                    old(buf)@,
                    b.columns as int,
                    r2,
                    c2,
                ),
        decreases k1 - k,
    {
        let ghost prev = buf@;
        accum_line(buf, a, b, r, k, c0, c1);
        proof {
            assert forall|r2: int, c2: int|
                0 <= r2 < a.rows && 0 <= c2 < b.columns && !(r2 == r as int && c0 <= c2 < c1)
                    implies cell(buf@, b.columns as int, r2, c2) == cell(
                    old(buf)@,
                    b.columns as int,
                    r2,
                    c2,
                ) by {
                assert(cell(buf@, b.columns as int, r2, c2) == cell(prev, b.columns as int, r2, c2));
                assert(cell(prev, b.columns as int, r2, c2) == cell(
                    old(buf)@,
                    b.columns as int,
                    r2,
                    c2,
                ));
            }
        }
        k = k + 1;
    }
}

/// Adds the contributions of the inner indices `[k0, k1)` over the whole
/// block of rows `[r0, r1)` and columns `[c0, c1)`.
fn accum_block(
    buf: &mut Vec<i64>,
    a: &Matrix,
    b: &Matrix,
    r0: i32,
    r1: i32,
    k0: i32,
    k1: i32,
    c0: i32,
    c1: i32,
)
    requires
        mul_pre(*a, *b),
        0 <= r0 <= r1 <= a.rows,
        0 <= k0 <= k1 <= a.columns,
        0 <= c0 <= c1 <= b.columns,
        old(buf)@.len() == a.rows * b.columns,
        forall|r: int, c: int|
            r0 <= r < r1 && c0 <= c < c1 ==> cell(old(buf)@, b.columns as int, r, c) as int
                == sum_range(*a, *b, r, c, 0, k0 as int),
    ensures
        final(buf)@.len() == old(buf)@.len(),
        forall|r: int, c: int|
            r0 <= r < r1 && c0 <= c < c1 ==> cell(final(buf)@, b.columns as int, r, c) as int
                == sum_range(*a, *b, r, c, 0, k1 as int),
        forall|r2: int, c2: int|
            0 <= r2 < a.rows && 0 <= c2 < b.columns && !(r0 <= r2 < r1 && c0 <= c2 < c1)
                ==> cell(final(buf)@, b.columns as int, r2, c2) == cell(
                old(buf)@,
                b.columns as int,
                r2,
                c2,
            ),
{
    let mut r: i32 = r0;
    while r < r1
        invariant
            mul_pre(*a, *b),
            0 <= r0 <= r <= r1 <= a.rows,
            0 <= k0 <= k1 <= a.columns,
            0 <= c0 <= c1 <= b.columns,
            buf@.len() == a.rows * b.columns,
            forall|rr: int, c: int|
                r0 <= rr < r && c0 <= c < c1 ==> cell(buf@, b.columns as int, rr, c) as int
                    == sum_range(*a, *b, rr, c, 0, k1 as int),
            forall|rr: int, c: int|
                r <= rr < r1 && c0 <= c < c1 ==> cell(buf@, b.columns as int, rr, c) as int
                    == sum_range(*a, *b, rr, c, 0, k0 as int),
            forall|r2: int, c2: int|
                0 <= r2 < a.rows && 0 <= c2 < b.columns && !(r0 <= r2 < r1 && c0 <= c2 < c1)
                    ==> cell(buf@, b.columns as int, r2, c2) == cell(
                    old(buf)@,
                    b.columns as int,
                    r2,
                    c2,
                ),
        decreases r1 - r,
    {
        let ghost prev = buf@;
        accum_row_block(buf, a, b, r, k0, k1, c0, c1);
        proof {
            assert forall|rr: int, c: int|
                r0 <= rr < r && c0 <= c < c1 implies cell(buf@, b.columns as int, rr, c) as int
                    == sum_range(*a, *b, rr, c, 0, k1 as int) by {
                assert(cell(buf@, b.columns as int, rr, c) == cell(prev, b.columns as int, rr, c));
                assert(cell(prev, b.columns as int, rr, c) as int == sum_range(
                    *a,
                    *b,
                    rr,
                    c,
                    0,
                    k1 as int,
                ));
            }
            assert forall|rr: int, c: int|
                r as int + 1 <= rr < r1 && c0 <= c < c1 implies cell(
                    buf@,
                    b.columns as int,
                    rr,
                    c,
                ) as int == sum_range(*a, *b, rr, c, 0, k0 as int) by {
                assert(cell(buf@, b.columns as int, rr, c) == cell(prev, b.columns as int, rr, c));
                assert(cell(prev, b.columns as int, rr, c) as int == sum_range(
                    *a,
                    *b,
                    rr,
                    c,
                    0,
                    k0 as int,
                ));
            }
            assert forall|r2: int, c2: int|
                0 <= r2 < a.rows && 0 <= c2 < b.columns && !(r0 <= r2 < r1 && c0 <= c2 < c1)
                    implies cell(buf@, b.columns as int, r2, c2) == cell(
                    old(buf)@,
                    b.columns as int,
                    r2,
                    c2,
                ) by {
                assert(cell(buf@, b.columns as int, r2, c2) == cell(prev, b.columns as int, r2, c2));
                assert(cell(prev, b.columns as int, r2, c2) == cell(
                    old(buf)@,
                    b.columns as int,
                    r2,
                    c2,
                ));
            }
        }
        r = r + 1;
    }
}

/// One column tile of one row band: sweeps the inner tiles in ascending
/// order, taking each cell of the block from zero to the full inner sum.
fn accum_band_block(
    buf: &mut Vec<i64>,
    a: &Matrix,
    b: &Matrix,
    r0: i32,
    r1: i32,
    c0: i32,
    c1: i32,
    tile: i32,
)
    requires
        mul_pre(*a, *b),
        tile >= 1,
        0 <= r0 <= r1 <= a.rows,
        0 <= c0 <= c1 <= b.columns,
        old(buf)@.len() == a.rows * b.columns,
        forall|r: int, c: int|
            r0 <= r < r1 && c0 <= c < c1 ==> cell(old(buf)@, b.columns as int, r, c) == 0i64,
    ensures
        final(buf)@.len() == old(buf)@.len(),
        forall|r: int, c: int|
            r0 <= r < r1 && c0 <= c < c1 ==> cell(final(buf)@, b.columns as int, r, c) as int
                == product_entry(*a, *b, r, c),
        forall|r2: int, c2: int|
            0 <= r2 < a.rows && 0 <= c2 < b.columns && !(r0 <= r2 < r1 && c0 <= c2 < c1)
                ==> cell(final(buf)@, b.columns as int, r2, c2) == cell(
                old(buf)@,
                b.columns as int,
                r2,
                c2,
            ),
{
    proof {
        assert forall|r: int, c: int| r0 <= r < r1 && c0 <= c < c1 implies cell(
            buf@,
            b.columns as int,
            r,
            c,
        ) as int == sum_range(*a, *b, r, c, 0, 0) by {
            assert(sum_range(*a, *b, r, c, 0, 0) == 0);
        }
    }
    let mut k0: i32 = 0;
    while k0 < a.columns
        invariant
            mul_pre(*a, *b),
            tile >= 1,
            0 <= r0 <= r1 <= a.rows,
            0 <= c0 <= c1 <= b.columns,
            0 <= k0 <= a.columns,
            buf@.len() == a.rows * b.columns,
            forall|r: int, c: int|
                r0 <= r < r1 && c0 <= c < c1 ==> cell(buf@, b.columns as int, r, c) as int
                    == sum_range(*a, *b, r, c, 0, k0 as int),
            forall|r2: int, c2: int|
                0 <= r2 < a.rows && 0 <= c2 < b.columns && !(r0 <= r2 < r1 && c0 <= c2 < c1)
                    ==> cell(buf@, b.columns as int, r2, c2) == cell(
                    old(buf)@,
                    b.columns as int,
                    r2,
                    c2,
                ),
        decreases a.columns - k0,
    {
        let k1: i32 = if a.columns - tile >= k0 {
            k0 + tile
        } else {
            a.columns
        };
        let ghost prev = buf@;
        accum_block(buf, a, b, r0, r1, k0, k1, c0, c1);
        proof {
            assert forall|r2: int, c2: int|
                0 <= r2 < a.rows && 0 <= c2 < b.columns && !(r0 <= r2 < r1 && c0 <= c2 < c1)
                    implies cell(buf@, b.columns as int, r2, c2) == cell(
                    old(buf)@,
                    b.columns as int,
                    r2,
                    c2,
                ) by {
                assert(cell(buf@, b.columns as int, r2, c2) == cell(prev, b.columns as int, r2, c2));
                assert(cell(prev, b.columns as int, r2, c2) == cell(
                    old(buf)@,
                    b.columns as int,
                    r2,
                    c2,
                ));
            }
        }
        k0 = k1;
    }
}

/// One unit of parallel work: computes, into a private full-size buffer, the
/// product entries of the row band starting at `start`, sweeping the column
/// tiles of the right operand in ascending order. Rows outside the band are
/// left at zero.
fn band_partial(a: &Matrix, b: &Matrix, start: i32, tile: i32) -> (out: Vec<i64>)
    requires
        mul_pre(*a, *b),
        tile >= 1,
        0 <= start < a.rows,
    ensures
        out@.len() == a.rows * b.columns,
        forall|r: int, c: int|
            0 <= r < a.rows && 0 <= c < b.columns ==> cell(out@, b.columns as int, r, c) as int
                == if start <= r < band_hi(start as int, tile as int, a.rows as int) {
                product_entry(*a, *b, r, c)
            } else {
                0
            },
{
    let mut out = zeros(a.rows, b.columns);
    proof {
        assert forall|r: int, c: int| 0 <= r < a.rows && 0 <= c < b.columns implies cell(
            out@,
            b.columns as int,
            r,
            c,
        ) == 0i64 by {
            lemma_flat_range(a.rows as int, b.columns as int, r, c);
        }
    }
    let hi: i32 = if a.rows - tile >= start {
        start + tile
    } else {
        a.rows
    };
    let mut c0: i32 = 0;
    while c0 < b.columns
        invariant
            mul_pre(*a, *b),
            tile >= 1,
            0 <= start < a.rows,
            start < hi <= a.rows,
            hi == band_hi(start as int, tile as int, a.rows as int),
            0 <= c0 <= b.columns,
            out@.len() == a.rows * b.columns,
            forall|r: int, c: int|
                start <= r < hi && 0 <= c < c0 ==> cell(out@, b.columns as int, r, c) as int
                    == product_entry(*a, *b, r, c),
            forall|r: int, c: int|
                start <= r < hi && c0 <= c < b.columns ==> cell(out@, b.columns as int, r, c)
                    == 0i64,
            forall|r: int, c: int|
                0 <= r < a.rows && 0 <= c < b.columns && !(start <= r < hi) ==> cell(
                    out@,
                    b.columns as int,
                    r,
                    c,
                ) == 0i64,
        decreases b.columns - c0,
    {
        let c1: i32 = if b.columns - tile >= c0 {
            c0 + tile
        } else {
            b.columns
        };
        let ghost prev = out@;
        accum_band_block(&mut out, a, b, start, hi, c0, c1, tile);
        proof {
            assert forall|r: int, c: int| start <= r < hi && 0 <= c < c0 implies cell(
                out@,
                b.columns as int,
                r,
                c,
            ) as int == product_entry(*a, *b, r, c) by {
                assert(cell(out@, b.columns as int, r, c) == cell(prev, b.columns as int, r, c));
                assert(cell(prev, b.columns as int, r, c) as int == product_entry(*a, *b, r, c));
            }
            assert forall|r: int, c: int| start <= r < hi && c1 <= c < b.columns implies cell(
                out@,
                b.columns as int,
                r,
                c,
            ) == 0i64 by {
                assert(cell(out@, b.columns as int, r, c) == cell(prev, b.columns as int, r, c));
            }
            assert forall|r: int, c: int|
                0 <= r < a.rows && 0 <= c < b.columns && !(start <= r < hi) implies cell(
                    out@,
                    b.columns as int,
                    r,
                    c,
                ) == 0i64 by {
                assert(cell(out@, b.columns as int, r, c) == cell(prev, b.columns as int, r, c));
            }
        }
        c0 = c1;
    }
    out
}

/// The starting rows of the bands: `0, tile, 2 * tile, ...`, as many as it
/// takes to cover every row.
fn make_starts(rows: i32, tile: i32) -> (starts: Vec<i32>)
    requires
        0 <= rows,
        tile >= 1,
    ensures
        rows as int <= starts@.len() * (tile as int),
        forall|i: int|
            0 <= i < starts@.len() ==> 0 <= #[trigger] starts@[i] && starts@[i] as int == i * (
            tile as int) && starts@[i] < rows,
{
    let mut starts: Vec<i32> = Vec::new();
    let mut s: i32 = 0;
    proof {
        assert(starts@.len() * (tile as int) == 0);
    }
    while s < rows
        invariant
            0 <= rows,
            tile >= 1,
            0 <= s,
            s as int <= starts@.len() * (tile as int),
            s == rows || s as int == starts@.len() * (tile as int),
            forall|i: int|
                0 <= i < starts@.len() ==> 0 <= #[trigger] starts@[i] && starts@[i] as int == i * (
                tile as int) && starts@[i] < rows,
        decreases rows - s,
    {
        starts.push(s);
        proof {
            let ghost len: int = starts@.len() as int;
            assert(len * (tile as int) == (len - 1) * (tile as int) + (tile as int))
                by (nonlinear_arith);
        }
        s = if rows - tile >= s {
            s + tile
        } else {
            rows
        };
    }
    starts
}

/// The row bands computed one after the other on the calling thread.
fn compute_parts(a: &Matrix, b: &Matrix, starts: &Vec<i32>, tile: i32) -> (parts: Vec<Vec<i64>>)
    requires
        mul_pre(*a, *b),
        tile >= 1,
        forall|i: int| 0 <= i < starts@.len() ==> 0 <= #[trigger] starts@[i] < a.rows,
    ensures
        parts@.len() == starts@.len(),
        forall|i: int| 0 <= i < parts@.len() ==> #[trigger] parts@[i]@.len() == a.rows * b.columns,
        forall|i: int, r: int, c: int|
            0 <= i < parts@.len() && 0 <= r < a.rows && 0 <= c < b.columns ==> #[trigger] cell(
                parts@[i]@,
                b.columns as int,
                r,
                c,
            ) as int == if starts@[i] <= r < band_hi(starts@[i] as int, tile as int, a.rows as int) {
                product_entry(*a, *b, r, c)
            } else {
                0
            },
{
    let mut parts: Vec<Vec<i64>> = Vec::new();
    let mut i: usize = 0;
    while i < starts.len()
        invariant
            mul_pre(*a, *b),
            tile >= 1,
            forall|j: int| 0 <= j < starts@.len() ==> 0 <= #[trigger] starts@[j] < a.rows,
            0 <= i <= starts@.len(),
            parts@.len() == i,
            forall|j: int| 0 <= j < i ==> #[trigger] parts@[j]@.len() == a.rows * b.columns,
            forall|j: int, r: int, c: int|
                0 <= j < i && 0 <= r < a.rows && 0 <= c < b.columns ==> #[trigger] cell(
                    parts@[j]@,
                    b.columns as int,
                    r,
                    c,
                ) as int == if starts@[j] <= r < band_hi(
                    starts@[j] as int,
                    tile as int,
                    a.rows as int,
                ) {
                    product_entry(*a, *b, r, c)
                } else {
                    0
                },
        decreases starts@.len() - i,
    {
        let band = band_partial(a, b, starts[i], tile);
        parts.push(band);
        i = i + 1;
    }
    parts
}

/// The row bands computed concurrently, one parallel task per band.
///
/// Relies on rayon's `par_iter`, `map` and `collect` for `Vec`: the pipeline
/// over a slice is indexed, so the collected vector holds exactly one element
/// per start, at the start's own position, and each element is what the
/// mapped closure returned for it. The closure only calls the verified
/// `band_partial`, whose postcondition is restated here.
#[verifier::external_body]
fn par_map_bands(a: &Matrix, b: &Matrix, starts: &Vec<i32>, tile: i32) -> (parts: Vec<Vec<i64>>)
    requires
        mul_pre(*a, *b),
        tile >= 1,
        forall|i: int| 0 <= i < starts@.len() ==> 0 <= #[trigger] starts@[i] < a.rows,
    ensures
        parts@.len() == starts@.len(),
        forall|i: int| 0 <= i < parts@.len() ==> #[trigger] parts@[i]@.len() == a.rows * b.columns,
        forall|i: int, r: int, c: int|
            0 <= i < parts@.len() && 0 <= r < a.rows && 0 <= c < b.columns ==> #[trigger] cell(
                parts@[i]@,
                b.columns as int,
                r,
                c,
            ) as int == if starts@[i] <= r < band_hi(starts@[i] as int, tile as int, a.rows as int) {
                product_entry(*a, *b, r, c)
            } else {
                0
            },
{
    starts.par_iter().map(|s: &i32| band_partial(a, b, *s, tile)).collect()
}

/// The merge step's arithmetic: adds `part` into `out` element-wise.
fn add_part(out: &mut Vec<i64>, part: &Vec<i64>, rows: i32, cols: i32)
    requires
        0 <= rows,
        0 <= cols,
        old(out)@.len() == rows * cols,
        part@.len() == rows * cols,
        forall|r: int, c: int|
            0 <= r < rows && 0 <= c < cols ==> i64::MIN <= #[trigger] cell(
                old(out)@,
                cols as int,
                r,
                c,
            ) as int + cell(part@, cols as int, r, c) as int <= i64::MAX,
    ensures
        final(out)@.len() == old(out)@.len(),
        forall|r: int, c: int|
            0 <= r < rows && 0 <= c < cols ==> cell(final(out)@, cols as int, r, c) as int == cell(
                old(out)@,
                cols as int,
                r,
                c,
            ) as int + cell(part@, cols as int, r, c) as int,
{
    let mut r: i32 = 0;
    while r < rows
        invariant
            0 <= r <= rows,
            0 <= cols,
            out@.len() == rows * cols,
            part@.len() == rows * cols,
            forall|r2: int, c2: int|
                0 <= r2 < rows && 0 <= c2 < cols ==> i64::MIN <= #[trigger] cell(
                    old(out)@,
                    cols as int,
                    r2,
                    c2,
                ) as int + cell(part@, cols as int, r2, c2) as int <= i64::MAX,
            forall|r2: int, c2: int|
                0 <= r2 < r && 0 <= c2 < cols ==> cell(out@, cols as int, r2, c2) as int == cell(
                    old(out)@,
                    cols as int,
                    r2,
                    c2,
                ) as int + cell(part@, cols as int, r2, c2) as int,
            forall|r2: int, c2: int|
                r <= r2 < rows && 0 <= c2 < cols ==> cell(out@, cols as int, r2, c2) == cell(
                    old(out)@,
                    cols as int,
                    r2,
                    c2,
                ),
        decreases rows - r,
    {
        let mut c: i32 = 0;
        while c < cols
            invariant
                0 <= r < rows,
                0 <= c <= cols,
                out@.len() == rows * cols,
                part@.len() == rows * cols,
                forall|r2: int, c2: int|
                    0 <= r2 < rows && 0 <= c2 < cols ==> i64::MIN <= #[trigger] cell(
                        old(out)@,
                        cols as int,
                        r2,
                        c2,
                    ) as int + cell(part@, cols as int, r2, c2) as int <= i64::MAX,
                forall|r2: int, c2: int|
                    0 <= r2 < r && 0 <= c2 < cols ==> cell(out@, cols as int, r2, c2) as int
                        == cell(old(out)@, cols as int, r2, c2) as int + cell(
                        part@,
                        cols as int,
                        r2,
                        c2,
                    ) as int,
                forall|c2: int|
                    0 <= c2 < c ==> cell(out@, cols as int, r as int, c2) as int == cell(
                        old(out)@,
                        cols as int,
                        r as int,
                        c2,
                    ) as int + cell(part@, cols as int, r as int, c2) as int,
                forall|c2: int|
                    c <= c2 < cols ==> cell(out@, cols as int, r as int, c2) == cell(
                        old(out)@,
                        cols as int,
                        r as int,
                        c2,
                    ),
                forall|r2: int, c2: int|
                    r < r2 < rows && 0 <= c2 < cols ==> cell(out@, cols as int, r2, c2) == cell(
                        old(out)@,
                        cols as int,
                        r2,
                        c2,
                    ),
            decreases cols - c,
        {
            proof {
                lemma_flat_range(rows as int, cols as int, r as int, c as int);
            }
            let cur: i64 = flat_at(out, cols, r, c);
            let pv: i64 = flat_at(part, cols, r, c);
            proof {
                assert(cur == cell(out@, cols as int, r as int, c as int));
                assert(cell(out@, cols as int, r as int, c as int) == cell(
                    old(out)@,
                    cols as int,
                    r as int,
                    c as int,
                ));
                assert(pv == cell(part@, cols as int, r as int, c as int));
            }
            let next: i64 = cur + pv;
            let ghost pre = out@;
            set_flat(out, cols, r, c, next);
            proof {
                assert forall|r2: int, c2: int|
                    0 <= r2 < rows && 0 <= c2 < cols && !(r2 == r as int && c2 == c as int)
                        implies cell(out@, cols as int, r2, c2) == cell(
                        pre,
                        cols as int,
                        r2,
                        c2,
                    ) by {
                    lemma_flat_range(rows as int, cols as int, r2, c2);
                    lemma_flat_inj(cols as int, r as int, c as int, r2, c2);
                }
                assert(cell(out@, cols as int, r as int, c as int) == next);
                assert forall|r2: int, c2: int| 0 <= r2 < r && 0 <= c2 < cols implies cell(
                    out@,
                    cols as int,
                    r2,
                    c2,
                ) as int == cell(old(out)@, cols as int, r2, c2) as int + cell(
                    part@,
                    cols as int,
                    r2,
                    c2,
                ) as int by {
                    assert(cell(out@, cols as int, r2, c2) == cell(pre, cols as int, r2, c2));
                }
                assert forall|c2: int| 0 <= c2 < c implies cell(
                    out@,
                    cols as int,
                    r as int,
                    c2,
                ) as int == cell(old(out)@, cols as int, r as int, c2) as int + cell(
                    part@,
                    cols as int,
                    r as int,
                    c2,
                ) as int by {
                    assert(cell(out@, cols as int, r as int, c2) == cell(
                        pre,
                        cols as int,
                        r as int,
                        c2,
                    ));
                }
                assert forall|c2: int| c as int + 1 <= c2 < cols implies cell(
                    out@,
                    cols as int,
                    r as int,
                    c2,
                ) == cell(old(out)@, cols as int, r as int, c2) by {
                    assert(cell(out@, cols as int, r as int, c2) == cell(
                        pre,
                        cols as int,
                        r as int,
                        c2,
                    ));
                }
                assert forall|r2: int, c2: int| r < r2 < rows && 0 <= c2 < cols implies cell(
                    out@,
                    cols as int,
                    r2,
                    c2,
                ) == cell(old(out)@, cols as int, r2, c2) by {
                    assert(cell(out@, cols as int, r2, c2) == cell(pre, cols as int, r2, c2));
                }
            }
            c = c + 1;
        }
        r = r + 1;
    }
}

/// Merges the bands' private buffers into one output buffer by element-wise
/// addition. The bands cover disjoint row ranges, so every cell receives its
/// product entry from exactly one band and zero from all others.
fn merge_partials(a: &Matrix, b: &Matrix, parts: &Vec<Vec<i64>>, tile: i32) -> (out: Vec<i64>)
    requires
        mul_pre(*a, *b),
        tile >= 1,
        a.rows as int <= parts@.len() * (tile as int),
        forall|i: int| 0 <= i < parts@.len() ==> #[trigger] parts@[i]@.len() == a.rows * b.columns,
        forall|i: int, r: int, c: int|
            0 <= i < parts@.len() && 0 <= r < a.rows && 0 <= c < b.columns ==> #[trigger] cell(
                parts@[i]@,
                b.columns as int,
                r,
                c,
            ) as int == if i * (tile as int) <= r < band_hi(
                i * (tile as int),
                tile as int,
                a.rows as int,
            ) {
                product_entry(*a, *b, r, c)
            } else {
                0
            },
    ensures
        out@.len() == a.rows * b.columns,
        forall|r: int, c: int|
            0 <= r < a.rows && 0 <= c < b.columns ==> cell(out@, b.columns as int, r, c) as int
                == product_entry(*a, *b, r, c),
{
    let mut out = zeros(a.rows, b.columns);
    proof {
        assert(0 * (tile as int) == 0);
        assert forall|r: int, c: int| 0 <= r < a.rows && 0 <= c < b.columns implies cell(
            out@,
            b.columns as int,
            r,
            c,
        ) == 0i64 by {
            lemma_flat_range(a.rows as int, b.columns as int, r, c);
        }
    }
    let mut m: usize = 0;
    while m < parts.len()
        invariant
            mul_pre(*a, *b),
            tile >= 1,
            a.rows as int <= parts@.len() * (tile as int),
            forall|i: int|
                0 <= i < parts@.len() ==> #[trigger] parts@[i]@.len() == a.rows * b.columns,
            forall|i: int, r: int, c: int|
                0 <= i < parts@.len() && 0 <= r < a.rows && 0 <= c < b.columns ==> #[trigger] cell(
                    parts@[i]@,
                    b.columns as int,
                    r,
                    c,
                ) as int == if i * (tile as int) <= r < band_hi(
                    i * (tile as int),
                    tile as int,
                    a.rows as int,
                ) {
                    product_entry(*a, *b, r, c)
                } else {
                    0
                },
            0 <= m <= parts@.len(),
            out@.len() == a.rows * b.columns,
            forall|r: int, c: int|
                0 <= r < a.rows && 0 <= c < b.columns && r < (m as int) * (tile as int) ==> cell(
                    out@,
                    b.columns as int,
                    r,
                    c,
                ) as int == product_entry(*a, *b, r, c),
            forall|r: int, c: int|
                0 <= r < a.rows && 0 <= c < b.columns && r >= (m as int) * (tile as int) ==> cell(
                    out@,
                    b.columns as int,
                    r,
                    c,
                ) == 0i64,
        decreases parts@.len() - m,
    {
        let ghost mi: int = m as int;
        let ghost t: int = tile as int;
        proof {
            assert(mi * t + t == (mi + 1) * t) by (nonlinear_arith);
            assert forall|r: int, c: int| 0 <= r < a.rows && 0 <= c < b.columns implies i64::MIN
                <= #[trigger] cell(out@, b.columns as int, r, c) as int + cell(
                parts@[mi]@,
                b.columns as int,
                r,
                c,
            ) as int <= i64::MAX by {
                lemma_sum_fits(*a, *b, r, c, 0, a.columns as int);
            }
        }
        let ghost pre = out@;
        add_part(&mut out, &parts[m], a.rows, b.columns);
        proof {
            assert forall|r: int, c: int|
                0 <= r < a.rows && 0 <= c < b.columns && r < (mi + 1) * t implies cell(
                out@,
                b.columns as int,
                r,
                c,
            ) as int == product_entry(*a, *b, r, c) by {
                assert(cell(out@, b.columns as int, r, c) as int == cell(
                    pre,
                    b.columns as int,
                    r,
                    c,
                ) as int + cell(parts@[mi]@, b.columns as int, r, c) as int);
            }
            assert forall|r: int, c: int|
                0 <= r < a.rows && 0 <= c < b.columns && r >= (mi + 1) * t implies cell(
                out@,
                b.columns as int,
                r,
                c,
            ) == 0i64 by {
                assert(cell(out@, b.columns as int, r, c) as int == cell(
                    pre,
                    b.columns as int,
                    r,
                    c,
                ) as int + cell(parts@[mi]@, b.columns as int, r, c) as int);
                assert(mi * t <= r);
            }
        }
        m = m + 1;
    }
    out
}

impl Matrix {
    /// Multiplies `self * other` with an explicit tile edge and execution
    /// mode (`parallel` dispatches one task per row band; otherwise the bands
    /// run on the calling thread). Whatever the configuration, every entry of
    /// the result is the exact inner-product sum.
    pub fn dot_configured(&self, other: &Matrix, tile: i32, parallel: bool) -> (result: Matrix)
        requires
            mul_pre(*self, *other),
            tile >= 1,
        ensures
            is_product(*self, *other, result),
    {
        let starts = make_starts(self.rows, tile);
        let parts = if parallel {
            par_map_bands(self, other, &starts, tile)
        } else {
            compute_parts(self, other, &starts, tile)
        };
        proof {
            assert forall|i: int, r: int, c: int|
                0 <= i < parts@.len() && 0 <= r < self.rows && 0 <= c < other.columns
                    implies #[trigger] cell(parts@[i]@, other.columns as int, r, c) as int == if i
                * (tile as int) <= r < band_hi(
                i * (tile as int),
                tile as int,
                self.rows as int,
            ) {
                product_entry(*self, *other, r, c)
            } else {
                0
            } by {
                assert(0 <= i < starts@.len());
                assert(starts@[i] as int == i * (tile as int));
            }
        }
        let values = merge_partials(self, other, &parts, tile);
        let result = Matrix { rows: self.rows, columns: other.columns, values };
        proof {
            assert forall|i: int, j: int| result.in_bounds(i, j) implies result.entry(i, j) as int
                == product_entry(*self, *other, i, j) by {
                assert(result.entry(i, j) == cell(result.values@, other.columns as int, i, j));
            }
        }
        result
    }

    /// Multiplies `self * other`: the default tile edge, one parallel task
    /// per row band. The operands are never mutated; the result is a freshly
    /// allocated matrix of shape `(self.rows, other.columns)` holding the
    /// exact mathematical product.
    pub fn dot(&self, other: &Matrix) -> (result: Matrix)
        requires
            mul_pre(*self, *other),
        ensures
            is_product(*self, *other, result),
    {
        self.dot_configured(other, DEFAULT_TILE, true)
    }
}

} // verus!
