//! Kernel builder: generates a square, isotropic Gaussian weight matrix in
//! fixed-point form and normalizes it so the weights sum to exactly [`SCALE`]
//! (the fixed-point representation of 1.0).
//!
//! A weight proportional to the Gaussian density at squared distance `d2`
//! from the center with spread `sigma` is `exp(-d2 / (2 * sigma^2))`, scaled
//! by [`SCALE`]. The exponential is evaluated in integer arithmetic: the
//! integer part of the exponent by repeated multiplication with `1/e`, the
//! fractional part by linear interpolation between one and `1/e`. The two
//! pieces meet exactly at every whole-exponent boundary, so the modeled
//! exponential is monotone and the weights keep the Gaussian's shape. The
//! constant Gaussian prefactor is dropped since normalization cancels it.

use vstd::prelude::*;
use vstd::arithmetic::div_mod::{lemma_multiply_divide_le, lemma_multiply_divide_lt};
use crate::SCALE;
use crate::PipelineError;
use crate::arith::{
    sum_prefix, sum_all, lemma_sum_prefix_nonneg, lemma_sum_prefix_monotone,
    lemma_element_le_sum, lemma_div_sum_ge, lemma_div_le,
    lemma_sum_update, lemma_sum_bounded,
};

verus! {

/// Fixed-point value of `1/e`: `floor(SCALE / e)`.
pub const INV_E: u64 = 367_879;

/// Fixed-point value of `1 - 1/e`: exactly `SCALE - INV_E`. Slope of the
/// fractional interpolation below.
pub const INV_E_GAP: u64 = 632_121;

/// Largest supported kernel side length. Keeps every weight sum comfortably
/// inside `u64` during normalization.
pub const MAX_KERNEL_SIZE: usize = 4001;

/// Largest supported spread parameter, in thousandths: a sigma of 3000.0.
/// Keeps `2 * sigma^2` small enough that fixed-point division cannot
/// overflow.
pub const MAX_SIGMA_MILLI: u64 = 3_000_000;

/// `i` applications of one decay step `a -> a * INV_E / SCALE`, stopping at
/// zero. This is the fixed-point value of `a * e^(-i)`.
pub open spec fn decay(a: int, i: int) -> int
    decreases i,
{
    if i <= 0 {
        a
    } else {
        let prev = decay(a, i - 1);
        if prev <= 0 {
            0
        } else {
            prev * INV_E as int / SCALE as int
        }
    }
}

/// Fixed-point factor for the fractional part `f / SCALE` of the exponent:
/// the straight line from one (at `f == 0`) down to `1/e` (at `f == SCALE`).
/// It meets the whole-exponent decay step exactly at each boundary, which
/// keeps the modeled exponential monotone in its exponent.
pub open spec fn exp_frac_spec(f: int) -> int {
    SCALE as int - f * INV_E_GAP as int / SCALE as int
}

/// Fixed-point value of `SCALE * e^(-num/den)`: the integer part of the
/// exponent decays by repeated `1/e` steps, the fractional part by the
/// interpolated factor.
pub open spec fn exp_fixed_spec(num: int, den: int) -> int {
    decay(SCALE as int, num / den) * exp_frac_spec(num % den * SCALE as int / den) / SCALE as int
}

/// Once the decay chain hits zero it stays there.
proof fn lemma_decay_zero(a: int, i: int, j: int)
    requires
        0 <= i <= j,
        decay(a, i) == 0,
    ensures
        decay(a, j) == 0,
    decreases j - i,
{
    if i < j {
        lemma_decay_zero(a, i, j - 1);
    }
}

/// The decay chain never leaves `[0, a]` for a nonnegative start.
proof fn lemma_decay_bounds(a: int, i: int)
    requires
        0 <= a,
    ensures
        0 <= decay(a, i) <= a,
    decreases i,
{
    if i > 0 {
        lemma_decay_bounds(a, i - 1);
        let prev = decay(a, i - 1);
        if prev > 0 {
            lemma_multiply_divide_le(prev * INV_E, SCALE as int, prev);
            assert(prev * INV_E <= SCALE * prev) by (nonlinear_arith)
                requires 0 <= prev;
        }
    }
}

/// Over the fractional range the interpolated factor stays between `1/e`
/// and one.
proof fn lemma_exp_frac_bounds(f: int)
    requires
        0 <= f < SCALE,
    ensures
        INV_E <= exp_frac_spec(f) <= SCALE,
{
    assert(f * INV_E_GAP >= 0) by (nonlinear_arith)
        requires 0 <= f;
    vstd::arithmetic::div_mod::lemma_div_pos_is_pos(f * INV_E_GAP as int, SCALE as int);
    assert(f * INV_E_GAP <= (SCALE - 1) * INV_E_GAP) by (nonlinear_arith)
        requires f <= SCALE - 1;
    vstd::arithmetic::div_mod::lemma_fundamental_div_mod_converse_div(
        (SCALE - 1) * INV_E_GAP as int, SCALE as int,
        INV_E_GAP as int - 1, SCALE as int - INV_E_GAP as int);
    crate::arith::lemma_div_le(f * INV_E_GAP as int, (SCALE - 1) * INV_E_GAP as int, SCALE as int);
}

/// The interpolated factor is non-increasing in the fractional part.
proof fn lemma_exp_frac_monotone(f1: int, f2: int)
    requires
        0 <= f1 <= f2,
    ensures
        exp_frac_spec(f2) <= exp_frac_spec(f1),
{
    assert(f1 * INV_E_GAP <= f2 * INV_E_GAP) by (nonlinear_arith)
        requires 0 <= f1 <= f2;
    assert(f1 * INV_E_GAP >= 0) by (nonlinear_arith)
        requires 0 <= f1;
    crate::arith::lemma_div_le(f1 * INV_E_GAP as int, f2 * INV_E_GAP as int, SCALE as int);
}

/// Longer decay chains never rise.
proof fn lemma_decay_monotone(a: int, i: int, j: int)
    requires
        0 <= a,
        0 <= i <= j,
    ensures
        decay(a, j) <= decay(a, i),
    decreases j - i,
{
    if i < j {
        lemma_decay_monotone(a, i, j - 1);
        lemma_decay_bounds(a, j - 1);
        let prev = decay(a, j - 1);
        if prev > 0 {
            lemma_multiply_divide_le(prev * INV_E, SCALE as int, prev);
            assert(prev * INV_E <= SCALE * prev) by (nonlinear_arith)
                requires 0 <= prev;
        }
    }
}

/// Fixed-point exponential `SCALE * e^(-num/den)`, exact against
/// [`exp_fixed_spec`]. The bound on `den` is what keeps `rem * SCALE` inside
/// `u64`.
pub fn exp_fixed(num: u64, den: u64) -> (r: u64)
    requires
        1 <= den <= u64::MAX as int / SCALE as int,
    ensures
        r == exp_fixed_spec(num as int, den as int),
        r <= SCALE,
        num == 0 ==> r == SCALE,
{
    let q: u64 = num / den;
    let rem: u64 = num % den;

    let mut acc: u64 = SCALE;
    let mut i: u64 = 0;
    while i < q && acc > 0
        invariant
            i <= q,
            acc == decay(SCALE as int, i as int),
            acc <= SCALE,
        decreases q - i,
    {
        proof {
            lemma_multiply_divide_le(acc as int * INV_E as int, SCALE as int, acc as int);
            assert(acc * INV_E <= SCALE * acc) by (nonlinear_arith)
                requires 0 <= acc;
        }
        acc = acc * INV_E / SCALE;
        i = i + 1;
    }
    proof {
        if acc == 0 {
            lemma_decay_zero(SCALE as int, i as int, q as int);
        }
        assert(acc == decay(SCALE as int, q as int));
    }

    proof {
        assert(rem * SCALE < den * SCALE) by (nonlinear_arith)
            requires rem < den, SCALE > 0;
        assert(den * SCALE == SCALE * den) by (nonlinear_arith);
        lemma_multiply_divide_lt(rem as int * SCALE as int, den as int, SCALE as int);
    }
    let f: u64 = rem * SCALE / den;
    assert(f < SCALE);
    proof {
        lemma_exp_frac_bounds(f as int);
        assert(f * INV_E_GAP <= SCALE * INV_E_GAP) by (nonlinear_arith)
            requires 0 <= f as int <= SCALE as int;
        vstd::arithmetic::div_mod::lemma_div_pos_is_pos(f as int * INV_E_GAP as int, SCALE as int);
        lemma_multiply_divide_le(f as int * INV_E_GAP as int, SCALE as int, INV_E_GAP as int);
    }
    let frac: u64 = SCALE - f * INV_E_GAP / SCALE;
    proof {
        assert(frac == exp_frac_spec(f as int));
        lemma_decay_bounds(SCALE as int, q as int);
        assert(acc * frac <= SCALE * SCALE) by (nonlinear_arith)
            requires 0 <= acc <= SCALE, 0 <= frac <= SCALE;
        lemma_multiply_divide_le(acc as int * frac as int, SCALE as int, SCALE as int);
        if num == 0 {
            vstd::arithmetic::div_mod::lemma_div_of0(den as int);
            vstd::arithmetic::div_mod::lemma_small_mod(0, den as nat);
            assert(q == 0);
            assert(acc == SCALE);
            assert(rem == 0);
            assert(f == 0);
            assert(f * INV_E_GAP == 0);
            assert(f as int * INV_E_GAP as int / SCALE as int == 0) by {
                vstd::arithmetic::div_mod::lemma_div_of0(SCALE as int);
            }
            assert(frac == SCALE);
            assert(SCALE as int * SCALE as int / SCALE as int == SCALE as int);
        }
    }
    acc * frac / SCALE
}

/// The modeled exponential always lies between zero and the fixed-point
/// one.
pub proof fn lemma_exp_spec_bounds(num: int, den: int)
    requires
        0 <= num,
        1 <= den,
    ensures
        0 <= exp_fixed_spec(num, den) <= SCALE,
{
    let s = SCALE as int;
    let q = num / den;
    let r = num % den;
    let f = r * s / den;
    vstd::arithmetic::div_mod::lemma_mod_bound(num, den);
    vstd::arithmetic::div_mod::lemma_div_pos_is_pos(num, den);
    vstd::arithmetic::div_mod::lemma_div_pos_is_pos(r * s, den);
    assert(r * s >= 0) by (nonlinear_arith)
        requires r >= 0, s > 0;
    assert(r * s < den * s) by (nonlinear_arith)
        requires r < den, s > 0;
    assert(den * s == s * den) by (nonlinear_arith);
    lemma_multiply_divide_lt(r * s, den, s);
    lemma_exp_frac_bounds(f);
    lemma_decay_bounds(s, q);
    let d = decay(s, q);
    let g = exp_frac_spec(f);
    assert(0 <= d * g <= s * s) by (nonlinear_arith)
        requires 0 <= d <= s, 0 <= g <= s;
    vstd::arithmetic::div_mod::lemma_div_pos_is_pos(d * g, s);
    lemma_multiply_divide_le(d * g, s, s);
}

/// The modeled exponential is monotone: a larger exponent never yields a
/// larger value. Within one whole unit of the exponent the interpolated
/// fractional factor falls; across a whole-unit boundary the factor has
/// fallen to `1/e`, exactly the decay step that the next unit applies.
pub proof fn lemma_exp_fixed_monotone(num1: int, num2: int, den: int)
    requires
        0 <= num1 <= num2,
        1 <= den,
    ensures
        exp_fixed_spec(num2, den) <= exp_fixed_spec(num1, den),
{
    let s = SCALE as int;
    let q1 = num1 / den;
    let q2 = num2 / den;
    let r1 = num1 % den;
    let r2 = num2 % den;
    let f1 = r1 * s / den;
    let f2 = r2 * s / den;
    let g1 = exp_frac_spec(f1);
    let g2 = exp_frac_spec(f2);
    let d1 = decay(s, q1);
    let d2 = decay(s, q2);

    vstd::arithmetic::div_mod::lemma_mod_bound(num1, den);
    vstd::arithmetic::div_mod::lemma_mod_bound(num2, den);
    vstd::arithmetic::div_mod::lemma_div_pos_is_pos(num1, den);
    vstd::arithmetic::div_mod::lemma_div_pos_is_pos(num2, den);
    crate::arith::lemma_div_le(num1, num2, den);
    vstd::arithmetic::div_mod::lemma_div_pos_is_pos(r1 * s, den);
    vstd::arithmetic::div_mod::lemma_div_pos_is_pos(r2 * s, den);
    assert(r1 * s >= 0 && r2 * s >= 0) by (nonlinear_arith)
        requires r1 >= 0, r2 >= 0, s > 0;
    assert(r1 * s < den * s && r2 * s < den * s) by (nonlinear_arith)
        requires r1 < den, r2 < den, s > 0;
    assert(den * s == s * den) by (nonlinear_arith);
    lemma_multiply_divide_lt(r1 * s, den, s);
    lemma_multiply_divide_lt(r2 * s, den, s);
    lemma_exp_frac_bounds(f1);
    lemma_exp_frac_bounds(f2);
    lemma_decay_bounds(s, q1);
    lemma_decay_bounds(s, q2);

    if q1 == q2 {
        vstd::arithmetic::div_mod::lemma_fundamental_div_mod(num1, den);
        vstd::arithmetic::div_mod::lemma_fundamental_div_mod(num2, den);
        assert(r1 <= r2);
        assert(r1 * s <= r2 * s) by (nonlinear_arith)
            requires r1 <= r2, s > 0;
        crate::arith::lemma_div_le(r1 * s, r2 * s, den);
        lemma_exp_frac_monotone(f1, f2);
        assert(d1 * g2 <= d1 * g1) by (nonlinear_arith)
            requires g2 <= g1, d1 >= 0;
        assert(d1 * g2 >= 0) by (nonlinear_arith)
            requires d1 >= 0, g2 >= 0;
        crate::arith::lemma_div_le(d1 * g2, d1 * g1, s);
    } else {
        // The larger exponent lies in a later whole unit.
        assert(q1 + 1 <= q2);
        lemma_decay_monotone(s, q1 + 1, q2);
        // Its value is at most the bare decay of that unit.
        assert(d2 * g2 <= d2 * s) by (nonlinear_arith)
            requires g2 <= s, d2 >= 0;
        assert(d2 * g2 >= 0) by (nonlinear_arith)
            requires d2 >= 0, g2 >= 0;
        crate::arith::lemma_div_le(d2 * g2, d2 * s, s);
        assert(d2 * s == s * d2) by (nonlinear_arith);
        vstd::arithmetic::div_mod::lemma_div_multiples_vanish(d2, s);
        assert(d2 * g2 / s <= d2);
        if d1 == 0 {
            lemma_decay_zero(s, q1, q1 + 1);
            assert(decay(s, q1 + 1) == 0);
            assert(d2 * g2 / s == 0);
            assert(d1 * g1 == 0) by (nonlinear_arith)
                requires d1 == 0;
            vstd::arithmetic::div_mod::lemma_div_of0(s);
        } else {
            // One decay step is at most the smaller exponent's value, since
            // its fractional factor never falls below 1/e.
            assert(decay(s, q1 + 1) == d1 * INV_E as int / s);
            assert(d1 * INV_E <= d1 * g1) by (nonlinear_arith)
                requires INV_E as int <= g1, d1 >= 0;
            assert(d1 * INV_E >= 0) by (nonlinear_arith)
                requires d1 >= 0;
            crate::arith::lemma_div_le(d1 * INV_E as int, d1 * g1, s);
        }
    }
}

/// The exponential of a zero exponent is exactly one.
proof fn lemma_exp_spec_at_zero(d: int)
    requires
        1 <= d,
    ensures
        exp_fixed_spec(0, d) == SCALE,
{
    vstd::arithmetic::div_mod::lemma_div_of0(d);
    vstd::arithmetic::div_mod::lemma_small_mod(0, d as nat);
    assert(exp_frac_spec(0) == SCALE);
}

/// Squared distance of cell `(x, y)` from the kernel center.
pub open spec fn dist2(size: int, x: int, y: int) -> int {
    let c = size / 2;
    (x - c) * (x - c) + (y - c) * (y - c)
}

/// The raw (unnormalized) fixed-point Gaussian weight of cell `(x, y)`.
pub open spec fn gaussian_raw_spec(size: int, sigma_milli: int, x: int, y: int) -> int {
    exp_fixed_spec(dist2(size, x, y) * SCALE as int, 2 * sigma_milli * sigma_milli)
}

/// The raw Gaussian weight is non-increasing in the squared distance from
/// the center: the kernel keeps the Gaussian's shape, cell for cell.
pub proof fn lemma_gaussian_monotone(
    size: int, sigma_milli: int, x1: int, y1: int, x2: int, y2: int,
)
    requires
        1 <= size,
        1 <= sigma_milli,
        sigma_milli <= MAX_SIGMA_MILLI,
        size <= MAX_KERNEL_SIZE,
        0 <= x1 < size,
        0 <= y1 < size,
        0 <= x2 < size,
        0 <= y2 < size,
        dist2(size, x1, y1) <= dist2(size, x2, y2),
    ensures
        gaussian_raw_spec(size, sigma_milli, x2, y2) <= gaussian_raw_spec(size, sigma_milli, x1, y1),
{
    let c = size / 2;
    assert(dist2(size, x1, y1) >= 0) by (nonlinear_arith)
        requires dist2(size, x1, y1) == (x1 - c) * (x1 - c) + (y1 - c) * (y1 - c);
    assert(2 * sigma_milli * sigma_milli >= 2) by (nonlinear_arith)
        requires sigma_milli >= 1;
    assert(dist2(size, x1, y1) * SCALE as int <= dist2(size, x2, y2) * SCALE as int)
        by (nonlinear_arith)
        requires dist2(size, x1, y1) <= dist2(size, x2, y2), (SCALE as int) > 0;
    lemma_exp_fixed_monotone(
        dist2(size, x1, y1) * SCALE as int,
        dist2(size, x2, y2) * SCALE as int,
        2 * sigma_milli * sigma_milli);
}

/// A flat row-major square weight matrix whose cells never grow with the
/// squared distance from the center.
pub open spec fn monotone_in_dist(w: Seq<u64>, size: int) -> bool {
    forall|x1: int, y1: int, x2: int, y2: int|
        0 <= x1 < size && 0 <= y1 < size && 0 <= x2 < size && 0 <= y2 < size
        && dist2(size, x1, y1) <= dist2(size, x2, y2)
        ==> #[trigger] w[y2 * size + x2] <= #[trigger] w[y1 * size + x1]
}

/// The raw Gaussian weight matrix as a flat row-major sequence.
pub open spec fn gaussian_seq(size: int, sigma_milli: int) -> Seq<u64> {
    Seq::new((size * size) as nat, |j: int|
        gaussian_raw_spec(size, sigma_milli, j % size, j / size) as u64)
}

/// Generates the raw Gaussian weight matrix for a `size x size` kernel with
/// spread `sigma_milli / 1000`, row-major, one fixed-point weight per cell.
pub fn generate_gaussian_weight_kernel(size: usize, sigma_milli: u64) -> (w: Vec<u64>)
    requires
        1 <= size <= MAX_KERNEL_SIZE,
        1 <= sigma_milli <= MAX_SIGMA_MILLI,
    ensures
        w@ == gaussian_seq(size as int, sigma_milli as int),
        forall|j: int| 0 <= j < w@.len() ==> w@[j] <= SCALE,
        w@[(size / 2) * size + size / 2] == SCALE,
        monotone_in_dist(w@, size as int),
{
    proof {
        assert(2 * sigma_milli as int * sigma_milli as int <= 2 * MAX_SIGMA_MILLI as int * MAX_SIGMA_MILLI as int)
            by (nonlinear_arith)
            requires 1 <= sigma_milli as int <= MAX_SIGMA_MILLI as int;
    }
    let den: u64 = 2 * sigma_milli * sigma_milli;
    let c: usize = size / 2;
    let mut w: Vec<u64> = Vec::new();
    let mut y: usize = 0;
    while y < size
        invariant
            y <= size,
            1 <= size <= MAX_KERNEL_SIZE,
            1 <= sigma_milli <= MAX_SIGMA_MILLI,
            den == 2 * sigma_milli * sigma_milli,
            c == size / 2,
            w@.len() == y * size,
            forall|j: int| 0 <= j < w@.len() ==>
                w@[j] == gaussian_seq(size as int, sigma_milli as int)[j],
            forall|j: int| 0 <= j < w@.len() ==> w@[j] <= SCALE,
        decreases size - y,
    {
        let mut x: usize = 0;
        while x < size
            invariant
                x <= size,
                y < size,
                1 <= size <= MAX_KERNEL_SIZE,
                1 <= sigma_milli <= MAX_SIGMA_MILLI,
                den == 2 * sigma_milli * sigma_milli,
                c == size / 2,
                w@.len() == y * size + x,
                forall|j: int| 0 <= j < w@.len() ==>
                    w@[j] == gaussian_seq(size as int, sigma_milli as int)[j],
                forall|j: int| 0 <= j < w@.len() ==> w@[j] <= SCALE,
            decreases size - x,
        {
            proof {
                assert(den >= 2) by (nonlinear_arith)
                    requires den == 2 * sigma_milli * sigma_milli, sigma_milli >= 1;
            }
            let dx: u64 = if x >= c { (x - c) as u64 } else { (c - x) as u64 };
            let dy: u64 = if y >= c { (y - c) as u64 } else { (c - y) as u64 };
            proof {
                assert(dx as int * dx as int == (x as int - c as int) * (x as int - c as int))
                    by (nonlinear_arith)
                    requires
                        dx as int == if x as int >= c as int { x as int - c as int } else { c as int - x as int };
                assert(dy as int * dy as int == (y as int - c as int) * (y as int - c as int))
                    by (nonlinear_arith)
                    requires
                        dy as int == if y as int >= c as int { y as int - c as int } else { c as int - y as int };
                assert(dx <= MAX_KERNEL_SIZE && dy <= MAX_KERNEL_SIZE);
                assert(dx as int * dx as int + dy as int * dy as int
                    <= 2 * MAX_KERNEL_SIZE * MAX_KERNEL_SIZE) by (nonlinear_arith)
                    requires 0 <= dx <= MAX_KERNEL_SIZE, 0 <= dy <= MAX_KERNEL_SIZE;
                assert(den <= u64::MAX as int / SCALE as int) by (nonlinear_arith)
                    requires den == 2 * sigma_milli * sigma_milli, sigma_milli <= MAX_SIGMA_MILLI;
            }
            let d2: u64 = dx * dx + dy * dy;
            let weight: u64 = exp_fixed(d2 * SCALE, den);
            proof {
                let s = size as int;
                let xi = x as int;
                let yi = y as int;
                let j = yi * s + xi;
                crate::arith::lemma_row_major_index(s, xi, yi);
                assert(weight == gaussian_raw_spec(s, sigma_milli as int, xi, yi));
                assert(j < s * s) by (nonlinear_arith)
                    requires 0 <= xi, xi < s, 0 <= yi, yi < s, j == yi * s + xi;
                assert(gaussian_seq(s, sigma_milli as int)[j] == weight);
            }
            w.push(weight);
            x = x + 1;
        }
        proof {
            assert(y as int * size as int + size as int == (y as int + 1) * size as int)
                by (nonlinear_arith);
        }
        y = y + 1;
    }
    proof {
        assert(w@.len() == size as int * size as int);
        assert(w@ =~= gaussian_seq(size as int, sigma_milli as int));
        let s = size as int;
        let c_ = s / 2;
        let cidx = c_ * s + c_;
        crate::arith::lemma_row_major_index(s, c_, c_);
        assert(0 <= cidx && cidx < s * s) by (nonlinear_arith)
            requires 0 <= c_, c_ < s, cidx == c_ * s + c_;
        assert((c_ - s / 2) * (c_ - s / 2) == 0) by (nonlinear_arith)
            requires c_ == s / 2;
        assert(dist2(s, c_, c_) == 0);
        assert(2 * sigma_milli as int * sigma_milli as int >= 2) by (nonlinear_arith)
            requires sigma_milli as int >= 1;
        lemma_exp_spec_at_zero(2 * sigma_milli as int * sigma_milli as int);
        assert(w@[cidx] == SCALE);
        assert forall|x1: int, y1: int, x2: int, y2: int|
            0 <= x1 < s && 0 <= y1 < s && 0 <= x2 < s && 0 <= y2 < s
            && dist2(s, x1, y1) <= dist2(s, x2, y2)
            implies #[trigger] w@[y2 * s + x2] <= #[trigger] w@[y1 * s + x1] by {
            crate::arith::lemma_row_major_index(s, x1, y1);
            crate::arith::lemma_row_major_index(s, x2, y2);
            assert(0 <= y1 * s + x1 && y1 * s + x1 < s * s) by (nonlinear_arith)
                requires 0 <= x1, x1 < s, 0 <= y1, y1 < s;
            assert(0 <= y2 * s + x2 && y2 * s + x2 < s * s) by (nonlinear_arith)
                requires 0 <= x2, x2 < s, 0 <= y2, y2 < s;
            lemma_gaussian_monotone(s, sigma_milli as int, x1, y1, x2, y2);
            let cc = s / 2;
            assert(dist2(s, x1, y1) >= 0 && dist2(s, x2, y2) >= 0) by (nonlinear_arith)
                requires
                    dist2(s, x1, y1) == (x1 - cc) * (x1 - cc) + (y1 - cc) * (y1 - cc),
                    dist2(s, x2, y2) == (x2 - cc) * (x2 - cc) + (y2 - cc) * (y2 - cc);
            assert(dist2(s, x1, y1) * SCALE as int >= 0 && dist2(s, x2, y2) * SCALE as int >= 0)
                by (nonlinear_arith)
                requires dist2(s, x1, y1) >= 0, dist2(s, x2, y2) >= 0;
            assert(2 * sigma_milli as int * sigma_milli as int >= 1) by (nonlinear_arith)
                requires sigma_milli as int >= 1;
            lemma_exp_spec_bounds(
                dist2(s, x1, y1) * SCALE as int, 2 * sigma_milli as int * sigma_milli as int);
            lemma_exp_spec_bounds(
                dist2(s, x2, y2) * SCALE as int, 2 * sigma_milli as int * sigma_milli as int);
            assert(w@[y1 * s + x1] == gaussian_raw_spec(s, sigma_milli as int, x1, y1));
            assert(w@[y2 * s + x2] == gaussian_raw_spec(s, sigma_milli as int, x2, y2));
        }
        assert(monotone_in_dist(w@, s));
    }
    w
}

/// The floored normalization of each raw weight: `raw[i] * SCALE / total`.
pub open spec fn norm_base(raw: Seq<u64>, total: int) -> Seq<u64> {
    Seq::new(raw.len(), |i: int| (raw[i] * SCALE as int / total) as u64)
}

/// The flat index of the kernel center cell.
pub open spec fn center_index(size: int) -> int {
    (size / 2) * size + size / 2
}

/// The normalized weight matrix: every cell is floored to
/// `raw[i] * SCALE / total`, and the rounding deficit is folded into the
/// center cell so the weights sum to exactly `SCALE`.
pub open spec fn normalized_spec(raw: Seq<u64>, size: int) -> Seq<u64> {
    let total = sum_all(raw);
    let base = norm_base(raw, total);
    let cidx = center_index(size);
    base.update(cidx, (base[cidx] + (SCALE - sum_all(base))) as u64)
}

/// Floored normalized weights never overshoot: summed over any prefix they
/// stay below the correspondingly normalized prefix of the raw weights.
proof fn lemma_norm_sum_le(raw: Seq<u64>, total: int, n: int)
    requires
        0 < total,
        0 <= n <= raw.len(),
        total == sum_all(raw),
    ensures
        sum_prefix(norm_base(raw, total), n) <= sum_prefix(raw, n) * SCALE / total,
    decreases n,
{
    let base = norm_base(raw, total);
    if n == 0 {
        vstd::arithmetic::div_mod::lemma_div_of0(total);
    } else {
        lemma_norm_sum_le(raw, total, n - 1);
        lemma_sum_prefix_nonneg(raw, n - 1);
        assert(sum_prefix(raw, n - 1) * SCALE >= 0) by (nonlinear_arith)
            requires sum_prefix(raw, n - 1) >= 0, (SCALE as int) > 0;
        assert(raw[n - 1] * SCALE as int >= 0) by (nonlinear_arith)
            requires raw[n - 1] >= 0;
        lemma_div_sum_ge(sum_prefix(raw, n - 1) * SCALE, raw[n - 1] * SCALE as int, total);
        assert(sum_prefix(raw, n - 1) * SCALE + raw[n - 1] * SCALE as int
            == sum_prefix(raw, n) * SCALE) by (nonlinear_arith)
            requires sum_prefix(raw, n) == sum_prefix(raw, n - 1) + raw[n - 1];
        lemma_element_le_sum(raw, n - 1, raw.len() as int);
        vstd::arithmetic::div_mod::lemma_div_pos_is_pos(raw[n - 1] * SCALE as int, total);
        assert(raw[n - 1] * SCALE as int <= total * SCALE as int) by (nonlinear_arith)
            requires raw[n - 1] <= total, (SCALE as int) > 0;
        assert(total * SCALE as int == SCALE as int * total) by (nonlinear_arith);
        lemma_multiply_divide_le(raw[n - 1] * SCALE as int, total, SCALE as int);
        assert(base[n - 1] == raw[n - 1] * SCALE as int / total);
    }
}

/// Floored normalized weights lose less than one fixed-point unit per cell:
/// summed over any prefix they fall short of the correspondingly normalized
/// raw prefix by less than the number of cells.
proof fn lemma_norm_sum_ge(raw: Seq<u64>, total: int, n: int)
    requires
        0 < total,
        0 <= n <= raw.len(),
        total == sum_all(raw),
    ensures
        sum_prefix(norm_base(raw, total), n) >= sum_prefix(raw, n) * SCALE / total - n,
    decreases n,
{
    let base = norm_base(raw, total);
    if n == 0 {
        vstd::arithmetic::div_mod::lemma_div_of0(total);
    } else {
        lemma_norm_sum_ge(raw, total, n - 1);
        lemma_sum_prefix_nonneg(raw, n - 1);
        assert(sum_prefix(raw, n - 1) * SCALE >= 0) by (nonlinear_arith)
            requires sum_prefix(raw, n - 1) >= 0, (SCALE as int) > 0;
        assert(raw[n - 1] * SCALE as int >= 0) by (nonlinear_arith)
            requires raw[n - 1] >= 0;
        crate::arith::lemma_div_sum_le(
            sum_prefix(raw, n - 1) * SCALE, raw[n - 1] * SCALE as int, total);
        assert(sum_prefix(raw, n - 1) * SCALE + raw[n - 1] * SCALE as int
            == sum_prefix(raw, n) * SCALE) by (nonlinear_arith)
            requires sum_prefix(raw, n) == sum_prefix(raw, n - 1) + raw[n - 1];
        lemma_element_le_sum(raw, n - 1, raw.len() as int);
        vstd::arithmetic::div_mod::lemma_div_pos_is_pos(raw[n - 1] * SCALE as int, total);
        assert(raw[n - 1] * SCALE as int <= total * SCALE as int) by (nonlinear_arith)
            requires raw[n - 1] <= total, (SCALE as int) > 0;
        assert(total * SCALE as int == SCALE as int * total) by (nonlinear_arith);
        lemma_multiply_divide_le(raw[n - 1] * SCALE as int, total, SCALE as int);
        assert(base[n - 1] == raw[n - 1] * SCALE as int / total);
    }
}

/// Normalizes a flat square weight matrix so its weights sum to exactly
/// `SCALE`: each weight is scaled proportionally (rounding down) and the
/// rounding deficit goes to the center cell, which keeps a symmetric matrix
/// symmetric. A zero raw sum admits no normalization and is reported as a
/// degenerate-kernel configuration error.
pub fn normalize_kernel(raw: &Vec<u64>, size: usize) -> (r: Result<Vec<u64>, PipelineError>)
    requires
        1 <= size <= MAX_KERNEL_SIZE,
        size % 2 == 1,
        raw@.len() == size * size,
        sum_all(raw@) <= u64::MAX as int / SCALE as int,
    ensures
        r is Ok <==> sum_all(raw@) > 0,
        r matches Err(e) ==> e == PipelineError::DegenerateKernel,
        r matches Ok(w) ==> w@ == normalized_spec(raw@, size as int),
        r matches Ok(w) ==> w@.len() == size * size,
        r matches Ok(w) ==> sum_all(w@) == SCALE,
        r matches Ok(w) ==> forall|j: int| 0 <= j < w@.len() ==> w@[j] <= SCALE,
        // Every cell off the center is the exactly proportional floored
        // weight; the center absorbs the rounding deficit, which is less
        // than one fixed-point unit per cell.
        r matches Ok(w) ==> forall|j: int|
            0 <= j < w@.len() && j != center_index(size as int)
            ==> w@[j] == raw@[j] * SCALE as int / sum_all(raw@),
        r matches Ok(w) ==> {
            let base = raw@[center_index(size as int)] * SCALE as int / sum_all(raw@);
            base <= w@[center_index(size as int)] <= base + size * size
        },
{
    let n = raw.len();
    proof {
        lemma_sum_prefix_nonneg(raw@, n as int);
    }

    let mut total: u64 = 0;
    let mut i: usize = 0;
    while i < n
        invariant
            i <= n,
            n == raw@.len(),
            total == sum_prefix(raw@, i as int),
            sum_all(raw@) <= u64::MAX as int / SCALE as int,
        decreases n - i,
    {
        proof {
            lemma_sum_prefix_monotone(raw@, i as int + 1, n as int);
            lemma_sum_prefix_nonneg(raw@, i as int);
            assert(u64::MAX as int / SCALE as int <= u64::MAX);
        }
        total = total + raw[i];
        i = i + 1;
    }
    assert(total == sum_all(raw@));

    if total == 0 {
        return Err(PipelineError::DegenerateKernel);
    }

    proof {
        vstd::arithmetic::div_mod::lemma_fundamental_div_mod(u64::MAX as int, SCALE as int);
    }
    let mut out: Vec<u64> = Vec::new();
    let mut i: usize = 0;
    while i < n
        invariant
            i <= n,
            n == raw@.len(),
            0 < total,
            total == sum_all(raw@),
            total <= u64::MAX as int / SCALE as int,
            out@.len() == i,
            forall|j: int| 0 <= j < i ==> out@[j] == norm_base(raw@, total as int)[j],
        decreases n - i,
    {
        proof {
            lemma_element_le_sum(raw@, i as int, n as int);
            vstd::arithmetic::div_mod::lemma_fundamental_div_mod(u64::MAX as int, SCALE as int);
            assert(raw@[i as int] * SCALE as int <= u64::MAX) by (nonlinear_arith)
                requires
                    raw@[i as int] <= total,
                    total as int * SCALE as int <= u64::MAX,
                    (SCALE as int) > 0;
            assert(total as int * SCALE as int <= u64::MAX) by (nonlinear_arith)
                requires
                    total as int <= u64::MAX as int / SCALE as int,
                    SCALE as int * (u64::MAX as int / SCALE as int) + u64::MAX as int % SCALE as int == u64::MAX as int,
                    (u64::MAX as int % SCALE as int) >= 0;
        }
        out.push(raw[i] * SCALE / total);
        i = i + 1;
    }
    proof {
        assert(out@ =~= norm_base(raw@, total as int));
    }

    let mut s2: u64 = 0;
    let mut i: usize = 0;
    while i < n
        invariant
            i <= n,
            n == raw@.len(),
            0 < total,
            total == sum_all(raw@),
            out@ == norm_base(raw@, total as int),
            out@.len() == n,
            s2 == sum_prefix(out@, i as int),
            s2 <= SCALE,
        decreases n - i,
    {
        proof {
            lemma_norm_sum_le(raw@, total as int, i as int + 1);
            lemma_sum_prefix_monotone(raw@, i as int + 1, n as int);
            lemma_sum_prefix_nonneg(raw@, i as int + 1);
            assert(sum_prefix(raw@, i as int + 1) * SCALE <= sum_prefix(raw@, n as int) * SCALE)
                by (nonlinear_arith)
                requires sum_prefix(raw@, i as int + 1) <= sum_prefix(raw@, n as int), (SCALE as int) > 0;
            assert(sum_prefix(raw@, i as int + 1) * SCALE >= 0) by (nonlinear_arith)
                requires sum_prefix(raw@, i as int + 1) >= 0, (SCALE as int) > 0;
            lemma_div_le(sum_prefix(raw@, i as int + 1) * SCALE, sum_prefix(raw@, n as int) * SCALE, total as int);
            vstd::arithmetic::div_mod::lemma_div_multiples_vanish(SCALE as int, total as int);
            assert(total as int * SCALE as int == sum_prefix(raw@, n as int) * SCALE);
            lemma_sum_prefix_nonneg(out@, i as int);
        }
        s2 = s2 + out[i];
        i = i + 1;
    }
    assert(s2 == sum_all(norm_base(raw@, total as int)));

    let rem: u64 = SCALE - s2;
    let c: usize = size / 2;
    proof {
        assert(c as int * size as int + c < size as int * size as int) by (nonlinear_arith)
            requires 0 <= c, (c as int) < size as int;
    }
    let cidx: usize = c * size + c;
    proof {
        lemma_element_le_sum(out@, cidx as int, n as int);
    }
    let cur: u64 = out[cidx];
    out[cidx] = cur + rem;
    proof {
        lemma_sum_update(norm_base(raw@, total as int), cidx as int, (cur + rem) as u64, n as int);
        assert(out@ =~= normalized_spec(raw@, size as int));
        assert(sum_all(out@) == SCALE);
        assert forall|j: int| 0 <= j < out@.len() implies out@[j] <= SCALE
            && (j != cidx ==> out@[j] == raw@[j] * SCALE as int / total as int) by {
            lemma_element_le_sum(raw@, j, n as int);
            assert(raw@[j] * SCALE as int <= total as int * SCALE as int) by (nonlinear_arith)
                requires raw@[j] <= total, (SCALE as int) > 0;
            assert(total as int * SCALE as int == SCALE as int * total as int)
                by (nonlinear_arith);
            lemma_multiply_divide_le(raw@[j] * SCALE as int, total as int, SCALE as int);
            assert(raw@[j] * SCALE as int >= 0) by (nonlinear_arith)
                requires raw@[j] >= 0;
            vstd::arithmetic::div_mod::lemma_div_pos_is_pos(raw@[j] * SCALE as int, total as int);
        }
        // The rounding deficit folded into the center is at most one
        // fixed-point unit per cell.
        lemma_norm_sum_ge(raw@, total as int, n as int);
        vstd::arithmetic::div_mod::lemma_div_multiples_vanish(SCALE as int, total as int);
        assert(total as int * SCALE as int == sum_prefix(raw@, n as int) * SCALE);
        assert(rem <= n);
        assert(out@[cidx as int] == cur + rem);
        lemma_element_le_sum(raw@, cidx as int, n as int);
        assert(raw@[cidx as int] * SCALE as int <= total as int * SCALE as int) by (nonlinear_arith)
            requires raw@[cidx as int] <= total, (SCALE as int) > 0;
        assert(total as int * SCALE as int == SCALE as int * total as int) by (nonlinear_arith);
        lemma_multiply_divide_le(raw@[cidx as int] * SCALE as int, total as int, SCALE as int);
        assert(raw@[cidx as int] * SCALE as int >= 0) by (nonlinear_arith)
            requires raw@[cidx as int] >= 0;
        vstd::arithmetic::div_mod::lemma_div_pos_is_pos(
            raw@[cidx as int] * SCALE as int, total as int);
        assert(cur == raw@[cidx as int] * SCALE as int / total as int);
    }
    Ok(out)
}

/// A normalized square convolution kernel: odd side length, flat row-major
/// fixed-point weights that sum to exactly `SCALE`.
pub struct Kernel {
    pub size: usize,
    pub weights: Vec<u64>,
}

impl Kernel {
    /// Well-formedness: the invariant every constructed kernel satisfies and
    /// every convolution call relies on.
    pub open spec fn wf(&self) -> bool {
        &&& 1 <= self.size <= MAX_KERNEL_SIZE
        &&& self.size % 2 == 1
        &&& self.weights@.len() == self.size * self.size
        &&& sum_all(self.weights@) == SCALE
        &&& forall|j: int| 0 <= j < self.weights@.len() ==> self.weights@[j] <= SCALE
    }

    /// The weight of cell `(kx, ky)`.
    pub open spec fn weight(&self, kx: int, ky: int) -> int {
        self.weights@[ky * self.size + kx] as int
    }

    /// Builds the normalized Gaussian kernel for an odd `size` and a spread
    /// of `sigma_milli / 1000`. The raw center weight is always the full
    /// fixed-point one, so the raw sum is never degenerate and construction
    /// always succeeds within the stated parameter bounds.
    pub fn build(size: usize, sigma_milli: u64) -> (k: Kernel)
        requires
            1 <= size <= MAX_KERNEL_SIZE,
            size % 2 == 1,
            1 <= sigma_milli <= MAX_SIGMA_MILLI,
        ensures
            k.wf(),
            k.size == size,
            k.weights@ == normalized_spec(gaussian_seq(size as int, sigma_milli as int), size as int),
    {
        let raw = generate_gaussian_weight_kernel(size, sigma_milli);
        proof {
            let n = raw@.len() as int;
            lemma_sum_bounded(raw@, n, SCALE as int);
            assert(size as int * size as int <= MAX_KERNEL_SIZE as int * MAX_KERNEL_SIZE as int)
                by (nonlinear_arith)
                requires 0 <= size as int, size as int <= MAX_KERNEL_SIZE as int;
            assert(n * SCALE as int <= MAX_KERNEL_SIZE as int * MAX_KERNEL_SIZE as int * SCALE as int)
                by (nonlinear_arith)
                requires 0 <= n, n <= MAX_KERNEL_SIZE as int * MAX_KERNEL_SIZE as int;
            let cidx = center_index(size as int);
            assert(0 <= cidx && cidx < n) by (nonlinear_arith)
                requires
                    cidx == (size as int / 2) * size as int + size as int / 2,
                    0 <= size as int / 2,
                    (size as int / 2) < size as int,
                    n == size as int * size as int;
            lemma_element_le_sum(raw@, cidx, n);
        }
        match normalize_kernel(&raw, size) {
            Ok(w) => Kernel { size, weights: w },
            Err(_) => {
                proof {
                    assert(false);
                }
                Kernel { size, weights: Vec::new() }
            },
        }
    }
}

/// The kernel is symmetric under a half-turn: a Gaussian weight depends only
/// on the squared distance from the center, floored normalization is applied
/// cell by cell, and the rounding deficit lands on the center cell, which the
/// half-turn fixes. So the weight at `(x, y)` equals the weight at
/// `(size-1-x, size-1-y)`.
pub proof fn lemma_kernel_symmetry(size: int, sigma_milli: int, x: int, y: int)
    requires
        1 <= size,
        size % 2 == 1,
        0 <= x < size,
        0 <= y < size,
    ensures
        normalized_spec(gaussian_seq(size, sigma_milli), size)[y * size + x]
            == normalized_spec(gaussian_seq(size, sigma_milli), size)
                [(size - 1 - y) * size + (size - 1 - x)],
{
    let g = gaussian_seq(size, sigma_milli);
    let total = sum_all(g);
    let base = norm_base(g, total);
    let c = size / 2;
    let cidx = center_index(size);
    let i = y * size + x;
    let xr = size - 1 - x;
    let yr = size - 1 - y;
    let r = yr * size + xr;

    assert(size == 2 * c + 1);
    crate::arith::lemma_row_major_index(size, x, y);
    crate::arith::lemma_row_major_index(size, xr, yr);
    crate::arith::lemma_row_major_index(size, c, c);
    assert(0 <= i && i < size * size) by (nonlinear_arith)
        requires 0 <= x, x < size, 0 <= y, y < size, i == y * size + x;
    assert(0 <= r && r < size * size) by (nonlinear_arith)
        requires 0 <= xr, xr < size, 0 <= yr, yr < size, r == yr * size + xr;
    assert(0 <= cidx && cidx < size * size) by (nonlinear_arith)
        requires 0 <= c, c < size, cidx == c * size + c;

    assert(dist2(size, xr, yr) == dist2(size, x, y)) by (nonlinear_arith)
        requires
            xr == size - 1 - x,
            yr == size - 1 - y,
            size == 2 * (size / 2) + 1,
            dist2(size, x, y) == (x - size / 2) * (x - size / 2) + (y - size / 2) * (y - size / 2),
            dist2(size, xr, yr) == (xr - size / 2) * (xr - size / 2) + (yr - size / 2) * (yr - size / 2);
    assert(g[i] == g[r]);
    assert(base[i] == base[r]);

    if i == cidx {
        assert(x == c && y == c) by {
            crate::arith::lemma_row_major_index(size, x, y);
            crate::arith::lemma_row_major_index(size, c, c);
        }
        assert(r == cidx);
    } else {
        assert(r != cidx) by {
            if r == cidx {
                crate::arith::lemma_row_major_index(size, xr, yr);
                crate::arith::lemma_row_major_index(size, c, c);
                assert(xr == c && yr == c);
                assert(x == c && y == c);
                assert(i == cidx);
            }
        }
        assert(normalized_spec(g, size)[i] == base[i]);
        assert(normalized_spec(g, size)[r] == base[r]);
    }
}

} // verus!
