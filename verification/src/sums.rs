//! Finite sums of an integer function over a range of integers.

use vstd::prelude::*;

verus! {

/// The sum of `f(i)` for `i` in `lo .. hi`; zero when the range is empty.
pub open spec fn sum(f: spec_fn(int) -> int, lo: int, hi: int) -> int
    decreases hi - lo,
{
    if hi <= lo {
        0
    } else {
        sum(f, lo, hi - 1) + f(hi - 1)
    }
}

/// Functions that agree on the range have the same sum.
pub proof fn lemma_sum_ext(f: spec_fn(int) -> int, g: spec_fn(int) -> int, lo: int, hi: int)
    requires
        forall|i: int| lo <= i < hi ==> #[trigger] f(i) == g(i),
    ensures
        sum(f, lo, hi) == sum(g, lo, hi),
    decreases hi - lo,
{
    if lo < hi {
        lemma_sum_ext(f, g, lo, hi - 1);
    }
}

/// A range can be cut in two.
pub proof fn lemma_sum_split(f: spec_fn(int) -> int, lo: int, mid: int, hi: int)
    requires
        lo <= mid <= hi,
    ensures
        sum(f, lo, hi) == sum(f, lo, mid) + sum(f, mid, hi),
    decreases hi - mid,
{
    if mid < hi {
        lemma_sum_split(f, lo, mid, hi - 1);
    }
}

/// A function that vanishes on the range sums to zero.
pub proof fn lemma_sum_zero(f: spec_fn(int) -> int, lo: int, hi: int)
    requires
        forall|i: int| lo <= i < hi ==> #[trigger] f(i) == 0,
    ensures
        sum(f, lo, hi) == 0,
    decreases hi - lo,
{
    if lo < hi {
        lemma_sum_zero(f, lo, hi - 1);
    }
}

/// The sum grows with the function.
pub proof fn lemma_sum_le(f: spec_fn(int) -> int, g: spec_fn(int) -> int, lo: int, hi: int)
    requires
        forall|i: int| lo <= i < hi ==> #[trigger] f(i) <= g(i),
    ensures
        sum(f, lo, hi) <= sum(g, lo, hi),
    decreases hi - lo,
{
    if lo < hi {
        lemma_sum_le(f, g, lo, hi - 1);
    }
}

/// A sum of non-negative terms is non-negative.
pub proof fn lemma_sum_nonneg(f: spec_fn(int) -> int, lo: int, hi: int)
    requires
        forall|i: int| lo <= i < hi ==> #[trigger] f(i) >= 0,
    ensures
        sum(f, lo, hi) >= 0,
    decreases hi - lo,
{
    if lo < hi {
        lemma_sum_nonneg(f, lo, hi - 1);
    }
}

/// Widening the range by places where the function vanishes keeps the sum.
pub proof fn lemma_sum_widen(f: spec_fn(int) -> int, lo: int, hi: int, wide_lo: int, wide_hi: int)
    requires
        wide_lo <= lo <= hi <= wide_hi,
        forall|i: int| wide_lo <= i < lo ==> #[trigger] f(i) == 0,
        forall|i: int| hi <= i < wide_hi ==> #[trigger] f(i) == 0,
    ensures
        sum(f, wide_lo, wide_hi) == sum(f, lo, hi),
{
    lemma_sum_split(f, wide_lo, lo, wide_hi);
    lemma_sum_split(f, lo, hi, wide_hi);
    lemma_sum_zero(f, wide_lo, lo);
    lemma_sum_zero(f, hi, wide_hi);
}

/// Where two functions differ at one place only, their sums differ by what
/// they differ by at that place.
pub proof fn lemma_sum_update(
    f: spec_fn(int) -> int,
    g: spec_fn(int) -> int,
    lo: int,
    hi: int,
    at: int,
)
    requires
        lo <= at < hi,
        forall|i: int| lo <= i < hi && i != at ==> #[trigger] f(i) == g(i),
    ensures
        sum(g, lo, hi) == sum(f, lo, hi) - f(at) + g(at),
{
    lemma_sum_split(f, lo, at, hi);
    lemma_sum_split(f, at, at + 1, hi);
    lemma_sum_split(g, lo, at, hi);
    lemma_sum_split(g, at, at + 1, hi);
    lemma_sum_ext(f, g, lo, at);
    lemma_sum_ext(f, g, at + 1, hi);
    assert(sum(f, at, at + 1) == sum(f, at, at) + f(at));
    assert(sum(g, at, at + 1) == sum(g, at, at) + g(at));
}

/// A function that vanishes everywhere but at one place sums to its value
/// there.
pub proof fn lemma_sum_single(f: spec_fn(int) -> int, lo: int, hi: int, at: int)
    requires
        lo <= at < hi,
        forall|i: int| lo <= i < hi && i != at ==> #[trigger] f(i) == 0,
    ensures
        sum(f, lo, hi) == f(at),
{
    let zero = |i: int| 0int;
    lemma_sum_zero(zero, lo, hi);
    lemma_sum_update(zero, f, lo, hi, at);
}

/// No term of a sum of non-negative terms exceeds the sum.
pub proof fn lemma_sum_term_le(f: spec_fn(int) -> int, lo: int, hi: int, at: int)
    requires
        lo <= at < hi,
        forall|i: int| lo <= i < hi ==> #[trigger] f(i) >= 0,
    ensures
        f(at) <= sum(f, lo, hi),
{
    lemma_sum_split(f, lo, at, hi);
    lemma_sum_split(f, at, at + 1, hi);
    lemma_sum_nonneg(f, lo, at);
    lemma_sum_nonneg(f, at + 1, hi);
    assert(sum(f, at, at + 1) == sum(f, at, at) + f(at));
}

/// The sum of a sum of two functions is the sum of their sums.
pub proof fn lemma_sum_add(
    f: spec_fn(int) -> int,
    g: spec_fn(int) -> int,
    h: spec_fn(int) -> int,
    lo: int,
    hi: int,
)
    requires
        forall|i: int| lo <= i < hi ==> #[trigger] h(i) == f(i) + g(i),
    ensures
        sum(h, lo, hi) == sum(f, lo, hi) + sum(g, lo, hi),
    decreases hi - lo,
{
    if lo < hi {
        lemma_sum_add(f, g, h, lo, hi - 1);
    }
}

/// A constant factor can be taken out of a sum.
pub proof fn lemma_sum_scale(
    f: spec_fn(int) -> int,
    g: spec_fn(int) -> int,
    c: int,
    lo: int,
    hi: int,
)
    requires
        forall|i: int| lo <= i < hi ==> #[trigger] g(i) == c * f(i),
    ensures
        sum(g, lo, hi) == c * sum(f, lo, hi),
    decreases hi - lo,
{
    if lo < hi {
        lemma_sum_scale(f, g, c, lo, hi - 1);
        assert(c * (sum(f, lo, hi - 1) + f(hi - 1)) == c * sum(f, lo, hi - 1) + c * f(hi - 1))
            by (nonlinear_arith);
    } else {
        assert(c * 0 == 0);
    }
}

/// Shifting the function and the range together keeps the sum.
pub proof fn lemma_sum_shift(
    f: spec_fn(int) -> int,
    g: spec_fn(int) -> int,
    by: int,
    lo: int,
    hi: int,
)
    requires
        forall|i: int| lo <= i < hi ==> #[trigger] g(i) == f(i - by),
    ensures
        sum(g, lo, hi) == sum(f, lo - by, hi - by),
    decreases hi - lo,
{
    if lo < hi {
        lemma_sum_shift(f, g, by, lo, hi - 1);
    }
}

/// Turning the function and the range around keeps the sum.
pub proof fn lemma_sum_reflect(f: spec_fn(int) -> int, g: spec_fn(int) -> int, lo: int, hi: int)
    requires
        forall|i: int| lo <= i < hi ==> #[trigger] g(i) == f(-i),
    ensures
        sum(g, lo, hi) == sum(f, -hi + 1, -lo + 1),
    decreases hi - lo,
{
    if lo < hi {
        lemma_sum_reflect(f, g, lo, hi - 1);
        lemma_sum_split(f, -hi + 1, -hi + 2, -lo + 1);
        assert(sum(f, -hi + 1, -hi + 2) == sum(f, -hi + 1, -hi + 1) + f(-hi + 1));
        assert(g(hi - 1) == f(-(hi - 1)));
    }
}

/// A table can be summed by rows or by columns: where `rows(i)` is the sum of
/// row `i` and `cols(j)` the sum of column `j`, both add up to the same.
pub proof fn lemma_sum_swap(
    table: spec_fn(int, int) -> int,
    rows: spec_fn(int) -> int,
    cols: spec_fn(int) -> int,
    row_lo: int,
    row_hi: int,
    col_lo: int,
    col_hi: int,
)
    requires
        forall|i: int|
            row_lo <= i < row_hi ==> #[trigger] rows(i) == sum(
                |j: int| table(i, j),
                col_lo,
                col_hi,
            ),
        forall|j: int|
            col_lo <= j < col_hi ==> #[trigger] cols(j) == sum(
                |i: int| table(i, j),
                row_lo,
                row_hi,
            ),
    ensures
        sum(rows, row_lo, row_hi) == sum(cols, col_lo, col_hi),
    decreases row_hi - row_lo,
{
    if row_lo < row_hi {
        let last = row_hi - 1;
        let fewer = |j: int| sum(|i: int| table(i, j), row_lo, last);
        let last_row = |j: int| table(last, j);
        lemma_sum_swap(table, rows, fewer, row_lo, last, col_lo, col_hi);
        assert forall|j: int| col_lo <= j < col_hi implies #[trigger] cols(j) == fewer(j)
            + last_row(j) by {
            assert(sum(|i: int| table(i, j), row_lo, row_hi) == sum(
                |i: int| table(i, j),
                row_lo,
                last,
            ) + table(last, j));
        }
        lemma_sum_add(fewer, last_row, cols, col_lo, col_hi);
        assert(rows(last) == sum(last_row, col_lo, col_hi));
    } else {
        assert forall|j: int| col_lo <= j < col_hi implies #[trigger] cols(j) == 0 by {}
        lemma_sum_zero(cols, col_lo, col_hi);
    }
}

} // verus!
