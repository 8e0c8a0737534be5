//! Summation over integer sequences and the few division facts the rest of
//! the crate leans on.

use vstd::prelude::*;
use vstd::arithmetic::div_mod::{
    lemma_fundamental_div_mod, lemma_fundamental_div_mod_converse_div,
    lemma_fundamental_div_mod_converse_mod,
};

verus! {

/// Sum of the first `n` elements of `s` (as a mathematical integer).
pub open spec fn sum_prefix(s: Seq<u64>, n: int) -> int
    decreases n,
{
    if n <= 0 {
        0
    } else {
        sum_prefix(s, n - 1) + s[n - 1]
    }
}

/// Sum of the whole sequence.
pub open spec fn sum_all(s: Seq<u64>) -> int {
    sum_prefix(s, s.len() as int)
}

/// Prefix sums of a sequence of unsigned values never go negative.
pub proof fn lemma_sum_prefix_nonneg(s: Seq<u64>, n: int)
    ensures
        sum_prefix(s, n) >= 0,
    decreases n,
{
    if n > 0 {
        lemma_sum_prefix_nonneg(s, n - 1);
    }
}

/// Prefix sums of a sequence of unsigned values are monotone in the prefix
/// length.
pub proof fn lemma_sum_prefix_monotone(s: Seq<u64>, n: int, m: int)
    requires
        n <= m,
    ensures
        sum_prefix(s, n) <= sum_prefix(s, m),
    decreases m - n,
{
    if n < m {
        lemma_sum_prefix_monotone(s, n, m - 1);
    }
}

/// Each element within the summed prefix is at most the prefix sum.
pub proof fn lemma_element_le_sum(s: Seq<u64>, i: int, n: int)
    requires
        0 <= i < n <= s.len(),
    ensures
        s[i] <= sum_prefix(s, n),
{
    lemma_sum_prefix_nonneg(s, i);
    lemma_sum_prefix_monotone(s, i + 1, n);
}

/// Two equal-length sequences that agree pointwise have equal prefix sums.
pub proof fn lemma_sum_prefix_pointwise(s: Seq<u64>, t: Seq<u64>, n: int)
    requires
        forall|i: int| 0 <= i < n ==> s[i] == t[i],
    ensures
        sum_prefix(s, n) == sum_prefix(t, n),
    decreases n,
{
    if n > 0 {
        lemma_sum_prefix_pointwise(s, t, n - 1);
    }
}

/// Replacing one element inside the summed prefix shifts the sum by the
/// difference of the new and old values.
pub proof fn lemma_sum_update(s: Seq<u64>, i: int, v: u64, n: int)
    requires
        0 <= i < n <= s.len(),
    ensures
        sum_prefix(s.update(i, v), n) == sum_prefix(s, n) - s[i] + v,
    decreases n,
{
    if i == n - 1 {
        lemma_sum_prefix_pointwise(s.update(i, v), s, n - 1);
    } else {
        lemma_sum_update(s, i, v, n - 1);
    }
}

/// A prefix sum of elements that are each at most `b` is at most `n * b`.
pub proof fn lemma_sum_bounded(s: Seq<u64>, n: int, b: int)
    requires
        0 <= n <= s.len(),
        forall|i: int| 0 <= i < n ==> s[i] <= b,
    ensures
        sum_prefix(s, n) <= n * b,
    decreases n,
{
    if n > 0 {
        lemma_sum_bounded(s, n - 1, b);
        assert((n - 1) * b + b == n * b) by (nonlinear_arith);
    } else {
        assert(n * b == 0) by (nonlinear_arith)
            requires n == 0;
    }
}

/// Division by a positive divisor rounds down: the floored quotients of two
/// summands never add up to more than the floored quotient of their sum.
pub proof fn lemma_div_sum_ge(a: int, b: int, d: int)
    requires
        0 <= a,
        0 <= b,
        0 < d,
    ensures
        a / d + b / d <= (a + b) / d,
{
    lemma_fundamental_div_mod(a, d);
    lemma_fundamental_div_mod(b, d);
    lemma_fundamental_div_mod(a + b, d);
    let ra = a % d;
    let rb = b % d;
    assert((a / d + b / d) * d == d * (a / d) + d * (b / d)) by (nonlinear_arith);
    assert((a / d + b / d + 1) * d == d * (a / d) + d * (b / d) + d) by (nonlinear_arith);
    if ra + rb < d {
        lemma_fundamental_div_mod_converse_div(a + b, d, a / d + b / d, ra + rb);
    } else {
        lemma_fundamental_div_mod_converse_div(a + b, d, a / d + b / d + 1, ra + rb - d);
    }
}

/// Flooring before adding loses less than one unit: the floored quotient of
/// a sum never exceeds the floored quotients of the summands by more than
/// one.
pub proof fn lemma_div_sum_le(a: int, b: int, d: int)
    requires
        0 <= a,
        0 <= b,
        0 < d,
    ensures
        (a + b) / d <= a / d + b / d + 1,
{
    lemma_fundamental_div_mod(a, d);
    lemma_fundamental_div_mod(b, d);
    lemma_fundamental_div_mod(a + b, d);
    let ra = a % d;
    let rb = b % d;
    assert((a / d + b / d) * d == d * (a / d) + d * (b / d)) by (nonlinear_arith);
    assert((a / d + b / d + 1) * d == d * (a / d) + d * (b / d) + d) by (nonlinear_arith);
    if ra + rb < d {
        lemma_fundamental_div_mod_converse_div(a + b, d, a / d + b / d, ra + rb);
    } else {
        lemma_fundamental_div_mod_converse_div(a + b, d, a / d + b / d + 1, ra + rb - d);
    }
}

/// Quotients are monotone in the dividend for a positive divisor.
pub proof fn lemma_div_le(a: int, b: int, d: int)
    requires
        0 <= a <= b,
        0 < d,
    ensures
        a / d <= b / d,
    decreases b - a,
{
    if a < b {
        lemma_div_le(a, b - 1, d);
        lemma_fundamental_div_mod(b - 1, d);
        lemma_fundamental_div_mod(b, d);
        assert(((b - 1) / d) * d == d * ((b - 1) / d)) by (nonlinear_arith);
        assert(((b - 1) / d + 1) * d == d * ((b - 1) / d) + d) by (nonlinear_arith);
        if (b - 1) % d + 1 < d {
            lemma_fundamental_div_mod_converse_div(b, d, (b - 1) / d, (b - 1) % d + 1);
        } else {
            lemma_fundamental_div_mod_converse_div(b, d, (b - 1) / d + 1, 0);
        }
    }
}

/// Splitting a row-major index back into its coordinates: for `x` within a
/// row of width `w`, the flat index `y * w + x` divides back to `y` and `x`.
pub proof fn lemma_row_major_index(w: int, x: int, y: int)
    requires
        0 <= x < w,
        0 <= y,
    ensures
        (y * w + x) / w == y,
        (y * w + x) % w == x,
{
    lemma_fundamental_div_mod_converse_div(y * w + x, w, y, x);
    lemma_fundamental_div_mod_converse_mod(y * w + x, w, y, x);
}

} // verus!
