//! Convolution engine: boundary-aware 2D convolution of an intensity frame
//! with a normalized kernel.
//!
//! For each output pixel, the engine sums `weight * sample` over all kernel
//! cells whose source coordinate lies strictly inside the frame; cells that
//! fall outside are skipped entirely, so border pixels see a truncated
//! kernel whose applied weights sum to less than one. This is the documented
//! edge policy, not a silent renormalization.

use vstd::prelude::*;
use crate::SCALE;
use crate::arith::{
    sum_prefix, sum_all, lemma_sum_prefix_monotone, lemma_row_major_index,
};
use crate::frame::{IntensityFrame, quantize_spec, lemma_quantize_exact, rewrite_frame};
use crate::kernel::Kernel;

verus! {

/// One summand of the convolution at pixel `(x, y)`: the contribution of
/// kernel cell `(kx, ky)`, or zero when its source coordinate falls outside
/// the frame.
pub open spec fn conv_term(
    f: Seq<u8>, w: int, h: int, kw: Seq<u64>, k: int, x: int, y: int, ky: int, kx: int,
) -> int {
    let c = k / 2;
    let px = x - c + kx;
    let py = y - c + ky;
    if 0 <= px && px < w && 0 <= py && py < h {
        kw[ky * k + kx] * f[py * w + px]
    } else {
        0
    }
}

/// Partial sum of row `ky` of the convolution at `(x, y)`: the first `kx`
/// terms of that kernel row.
pub open spec fn conv_row_upto(
    f: Seq<u8>, w: int, h: int, kw: Seq<u64>, k: int, x: int, y: int, ky: int, kx: int,
) -> int
    decreases kx,
{
    if kx <= 0 {
        0
    } else {
        conv_row_upto(f, w, h, kw, k, x, y, ky, kx - 1)
            + conv_term(f, w, h, kw, k, x, y, ky, kx - 1)
    }
}

/// Sum of the first `ky` complete kernel rows of the convolution at `(x, y)`.
pub open spec fn conv_rows_upto(
    f: Seq<u8>, w: int, h: int, kw: Seq<u64>, k: int, x: int, y: int, ky: int,
) -> int
    decreases ky,
{
    if ky <= 0 {
        0
    } else {
        conv_rows_upto(f, w, h, kw, k, x, y, ky - 1)
            + conv_row_upto(f, w, h, kw, k, x, y, ky - 1, k)
    }
}

/// The filtered (fixed-point) value of pixel `(x, y)`: the full convolution
/// sum over all in-bounds kernel cells.
pub open spec fn conv_at(
    f: Seq<u8>, w: int, h: int, kw: Seq<u64>, k: int, x: int, y: int,
) -> int {
    conv_rows_upto(f, w, h, kw, k, x, y, k)
}

/// One summand of the applied-weight sum at `(x, y)`: the weight of kernel
/// cell `(kx, ky)` when its source coordinate is in bounds, else zero.
pub open spec fn applied_term(
    w: int, h: int, kw: Seq<u64>, k: int, x: int, y: int, ky: int, kx: int,
) -> int {
    let c = k / 2;
    let px = x - c + kx;
    let py = y - c + ky;
    if 0 <= px && px < w && 0 <= py && py < h {
        kw[ky * k + kx] as int
    } else {
        0
    }
}

/// Partial applied-weight sum of row `ky` at `(x, y)`.
pub open spec fn applied_row_upto(
    w: int, h: int, kw: Seq<u64>, k: int, x: int, y: int, ky: int, kx: int,
) -> int
    decreases kx,
{
    if kx <= 0 {
        0
    } else {
        applied_row_upto(w, h, kw, k, x, y, ky, kx - 1)
            + applied_term(w, h, kw, k, x, y, ky, kx - 1)
    }
}

/// Applied-weight sum of the first `ky` complete kernel rows at `(x, y)`.
pub open spec fn applied_rows_upto(
    w: int, h: int, kw: Seq<u64>, k: int, x: int, y: int, ky: int,
) -> int
    decreases ky,
{
    if ky <= 0 {
        0
    } else {
        applied_rows_upto(w, h, kw, k, x, y, ky - 1)
            + applied_row_upto(w, h, kw, k, x, y, ky - 1, k)
    }
}

/// The sum of the kernel weights actually applied at pixel `(x, y)` of a
/// `w x h` frame: exactly the weights whose source coordinate is in bounds.
pub open spec fn applied_weight_sum(w: int, h: int, kw: Seq<u64>, k: int, x: int, y: int) -> int {
    applied_rows_upto(w, h, kw, k, x, y, k)
}

/// Every partial convolution sum is bounded by 255 times the corresponding
/// prefix of the kernel weights: each sample is at most 255 and each term
/// either contributes `weight * sample` or is dropped.
proof fn lemma_conv_partial_bounds(
    f: Seq<u8>, w: int, h: int, kw: Seq<u64>, k: int, x: int, y: int, ky: int, kx: int,
)
    requires
        1 <= k,
        0 <= ky,
        0 <= kx <= k,
    ensures
        0 <= conv_rows_upto(f, w, h, kw, k, x, y, ky) + conv_row_upto(f, w, h, kw, k, x, y, ky, kx),
        conv_rows_upto(f, w, h, kw, k, x, y, ky) + conv_row_upto(f, w, h, kw, k, x, y, ky, kx)
            <= 255 * sum_prefix(kw, ky * k + kx),
    decreases ky, kx,
{
    if kx > 0 {
        lemma_conv_partial_bounds(f, w, h, kw, k, x, y, ky, kx - 1);
        let j = ky * k + kx - 1;
        assert(0 <= conv_term(f, w, h, kw, k, x, y, ky, kx - 1)
            && conv_term(f, w, h, kw, k, x, y, ky, kx - 1) <= 255 * kw[j]) by (nonlinear_arith)
            requires
                conv_term(f, w, h, kw, k, x, y, ky, kx - 1) == 0
                    || conv_term(f, w, h, kw, k, x, y, ky, kx - 1)
                        == kw[j] * f[(y - k / 2 + ky) * w + (x - k / 2 + kx - 1)],
                kw[j] >= 0,
                0 <= f[(y - k / 2 + ky) * w + (x - k / 2 + kx - 1)] <= 255;
    } else if ky > 0 {
        lemma_conv_partial_bounds(f, w, h, kw, k, x, y, ky - 1, k);
        assert((ky - 1) * k + k == ky * k) by (nonlinear_arith);
    } else {
        assert(ky * k + kx == 0) by (nonlinear_arith)
            requires ky == 0, kx == 0;
    }
}

/// At the top-left corner pixel the kernel's first cell is always dropped,
/// so every partial applied-weight sum past that cell falls short of the
/// weight prefix by at least the first weight.
proof fn lemma_corner_missing(w: int, h: int, kw: Seq<u64>, k: int, ky: int, kx: int)
    requires
        2 <= k,
        0 <= ky,
        0 <= kx <= k,
        ky >= 1 || kx >= 1,
    ensures
        applied_rows_upto(w, h, kw, k, 0, 0, ky) + applied_row_upto(w, h, kw, k, 0, 0, ky, kx)
            <= sum_prefix(kw, ky * k + kx) - kw[0],
    decreases ky, kx,
{
    if ky == 0 && kx == 1 {
        assert(applied_term(w, h, kw, k, 0, 0, 0, 0) == 0);
    } else if kx > 0 {
        lemma_corner_missing(w, h, kw, k, ky, kx - 1);
    } else {
        // kx == 0, so ky >= 1: fold the previous complete row in.
        if ky == 1 {
            lemma_corner_missing(w, h, kw, k, 0, k);
        } else {
            lemma_corner_missing(w, h, kw, k, ky - 1, k);
        }
        assert((ky - 1) * k + k == ky * k) by (nonlinear_arith);
    }
}

/// Boundary truncation: at a corner pixel of any frame, the weights a kernel
/// with side length greater than one actually applies sum to strictly less
/// than the full normalized weight, provided the kernel's corner weight did
/// not round to zero. This makes the documented edge policy (skipped
/// out-of-bounds cells, no renormalization) observable.
pub proof fn lemma_corner_truncation(w: int, h: int, kw: Seq<u64>, k: int)
    requires
        2 <= k,
        kw.len() == k * k,
        sum_all(kw) == SCALE,
        kw[0] >= 1,
    ensures
        applied_weight_sum(w, h, kw, k, 0, 0) < SCALE,
{
    lemma_corner_missing(w, h, kw, k, k, 0);
    assert(k * k + 0 == k * k) by (nonlinear_arith);
    assert(applied_weight_sum(w, h, kw, k, 0, 0)
        == applied_rows_upto(w, h, kw, k, 0, 0, k) + applied_row_upto(w, h, kw, k, 0, 0, k, 0));
}

/// For a constant frame and a pixel whose full kernel support is in bounds,
/// every partial convolution sum is the constant times the corresponding
/// weight prefix.
proof fn lemma_conv_partial_const(
    f: Seq<u8>, w: int, h: int, kw: Seq<u64>, k: int, x: int, y: int, ky: int, kx: int, v: u8,
)
    requires
        1 <= k,
        f.len() == w * h,
        forall|i: int| 0 <= i < f.len() ==> f[i] == v,
        k / 2 <= x,
        x + k / 2 < w,
        k / 2 <= y,
        y + k / 2 < h,
        0 <= ky <= k,
        0 <= kx <= k,
        kx == 0 || ky < k,
    ensures
        conv_rows_upto(f, w, h, kw, k, x, y, ky) + conv_row_upto(f, w, h, kw, k, x, y, ky, kx)
            == v * sum_prefix(kw, ky * k + kx),
    decreases ky, kx,
{
    let c = k / 2;
    if kx > 0 {
        lemma_conv_partial_const(f, w, h, kw, k, x, y, ky, kx - 1, v);
        let px = x - c + kx - 1;
        let py = y - c + ky;
        assert(0 <= px && px < w && 0 <= py && py < h);
        assert(0 <= py * w + px && py * w + px < w * h) by (nonlinear_arith)
            requires 0 <= px, px < w, 0 <= py, py < h;
        assert(f[py * w + px] == v);
        let j = ky * k + kx - 1;
        assert(conv_term(f, w, h, kw, k, x, y, ky, kx - 1) == kw[j] * v as int);
        assert(v as int * sum_prefix(kw, j) + kw[j] * v as int == v as int * sum_prefix(kw, j + 1))
            by (nonlinear_arith)
            requires sum_prefix(kw, j + 1) == sum_prefix(kw, j) + kw[j];
    } else if ky > 0 {
        lemma_conv_partial_const(f, w, h, kw, k, x, y, ky - 1, k, v);
        assert((ky - 1) * k + k == ky * k) by (nonlinear_arith);
    } else {
        assert(ky * k + kx == 0) by (nonlinear_arith)
            requires ky == 0, kx == 0;
        assert(v * 0 == 0) by (nonlinear_arith);
    }
}

/// Interior averaging: convolving a constant frame of intensity `v` with any
/// kernel whose weights sum to the full normalized weight returns exactly
/// `v` at every pixel whose kernel support lies entirely inside the frame.
pub proof fn lemma_interior_average(
    f: Seq<u8>, w: int, h: int, kw: Seq<u64>, k: int, x: int, y: int, v: u8,
)
    requires
        1 <= k,
        kw.len() == k * k,
        sum_all(kw) == SCALE,
        f.len() == w * h,
        forall|i: int| 0 <= i < f.len() ==> f[i] == v,
        k / 2 <= x,
        x + k / 2 < w,
        k / 2 <= y,
        y + k / 2 < h,
    ensures
        conv_at(f, w, h, kw, k, x, y) == v * SCALE,
        quantize_spec(conv_at(f, w, h, kw, k, x, y)) == v,
{
    lemma_conv_partial_const(f, w, h, kw, k, x, y, k, 0, v);
    assert(k * k + 0 == k * k) by (nonlinear_arith);
    lemma_quantize_exact(v as int);
}

/// Convolution identity: a one-cell kernel holding the full normalized
/// weight maps every pixel of every frame to exactly its own intensity.
pub proof fn lemma_convolve_identity(f: Seq<u8>, w: int, h: int, x: int, y: int)
    requires
        0 <= x < w,
        0 <= y < h,
        f.len() == w * h,
    ensures
        conv_at(f, w, h, seq![SCALE], 1, x, y) == SCALE * f[y * w + x],
        quantize_spec(conv_at(f, w, h, seq![SCALE], 1, x, y)) == f[y * w + x],
{
    let kw = seq![SCALE];
    assert(0 <= y * w + x && y * w + x < w * h) by (nonlinear_arith)
        requires 0 <= x, x < w, 0 <= y, y < h;
    assert(conv_term(f, w, h, kw, 1, x, y, 0, 0) == kw[0] * f[y * w + x]);
    assert(conv_rows_upto(f, w, h, kw, 1, x, y, 0) == 0);
    assert(conv_row_upto(f, w, h, kw, 1, x, y, 0, 0) == 0);
    assert(conv_row_upto(f, w, h, kw, 1, x, y, 0, 1)
        == conv_row_upto(f, w, h, kw, 1, x, y, 0, 0) + conv_term(f, w, h, kw, 1, x, y, 0, 0));
    assert(conv_rows_upto(f, w, h, kw, 1, x, y, 1)
        == conv_rows_upto(f, w, h, kw, 1, x, y, 0) + conv_row_upto(f, w, h, kw, 1, x, y, 0, 1));
    assert(kw[0] == SCALE);
    assert(conv_at(f, w, h, kw, 1, x, y) == SCALE * f[y * w + x]);
    assert(SCALE as int * f[y * w + x] == f[y * w + x] as int * SCALE as int)
        by (nonlinear_arith);
    lemma_quantize_exact(f[y * w + x] as int);
}

/// Convolves one pixel: sums `weight * sample` over every kernel cell whose
/// source coordinate lies inside the frame, skipping the rest.
pub fn convolve_pixel(frame: &IntensityFrame, x: usize, y: usize, kernel: &Kernel) -> (acc: u64)
    requires
        frame.wf(),
        kernel.wf(),
        x < frame.width,
        y < frame.height,
    ensures
        acc == conv_at(
            frame.data@, frame.width as int, frame.height as int,
            kernel.weights@, kernel.size as int, x as int, y as int),
        acc <= 255 * SCALE,
{
    let w = frame.width;
    let h = frame.height;
    let k = kernel.size;
    let c = k / 2;
    let n: usize = frame.data.len();
    let nk: usize = kernel.weights.len();
    let f = Ghost(frame.data@);
    let kw = Ghost(kernel.weights@);

    let mut acc: u64 = 0;
    let mut ky: usize = 0;
    while ky < k
        invariant
            ky <= k,
            1 <= k <= crate::kernel::MAX_KERNEL_SIZE,
            c == k / 2,
            w == frame.width,
            h == frame.height,
            x < w,
            y < h,
            frame.wf(),
            kernel.wf(),
            k == kernel.size,
            n == frame.data@.len(),
            nk == kernel.weights@.len(),
            f@ == frame.data@,
            kw@ == kernel.weights@,
            acc == conv_rows_upto(f@, w as int, h as int, kw@, k as int, x as int, y as int, ky as int),
            acc <= 255 * SCALE,
        decreases k - ky,
    {
        let mut kx: usize = 0;
        while kx < k
            invariant
                kx <= k,
                ky < k,
                1 <= k <= crate::kernel::MAX_KERNEL_SIZE,
                c == k / 2,
                w == frame.width,
                h == frame.height,
                x < w,
                y < h,
                frame.wf(),
                kernel.wf(),
                k == kernel.size,
                n == frame.data@.len(),
                nk == kernel.weights@.len(),
                f@ == frame.data@,
                kw@ == kernel.weights@,
                acc == conv_rows_upto(f@, w as int, h as int, kw@, k as int, x as int, y as int, ky as int)
                    + conv_row_upto(f@, w as int, h as int, kw@, k as int, x as int, y as int, ky as int, kx as int),
                acc <= 255 * SCALE,
            decreases k - kx,
        {
            proof {
                lemma_conv_partial_bounds(
                    f@, w as int, h as int, kw@, k as int, x as int, y as int,
                    ky as int, kx as int + 1);
                assert(ky as int * k as int + kx + 1 <= k as int * k as int) by (nonlinear_arith)
                    requires 0 <= ky as int, (ky as int) < k as int, 0 <= kx as int, (kx as int) < k as int;
                lemma_sum_prefix_monotone(kw@, ky as int * k as int + kx + 1, k as int * k as int);
                assert(ky as int * k as int + kx < k as int * k as int) by (nonlinear_arith)
                    requires 0 <= ky as int, (ky as int) < k as int, 0 <= kx as int, (kx as int) < k as int;
            }
            let sx: u128 = x as u128 + kx as u128;
            let sy: u128 = y as u128 + ky as u128;
            if sx >= c as u128 && sy >= c as u128 {
                let pxw = sx - c as u128;
                let pyw = sy - c as u128;
                if pxw < w as u128 && pyw < h as u128 {
                    let px = pxw as usize;
                    let py = pyw as usize;
                    proof {
                        assert(0 <= py as int * w as int + px as int
                            && (py as int * w as int + px as int) < w as int * h as int)
                            by (nonlinear_arith)
                            requires
                                0 <= px as int, (px as int) < w as int,
                                0 <= py as int, (py as int) < h as int;
                        assert(py as int * w as int + px as int == (py as int) * (w as int) + px as int);
                    }
                    let idx: usize = py * w + px;
                    let wi: usize = ky * k + kx;
                    let wgt: u64 = kernel.weights[wi];
                    let pix: u64 = frame.data[idx] as u64;
                    proof {
                        assert(wgt * pix <= 255 * SCALE) by (nonlinear_arith)
                            requires 0 <= wgt as int, wgt as int <= SCALE as int, 0 <= pix as int, pix as int <= 255;
                        assert(conv_term(
                            f@, w as int, h as int, kw@, k as int, x as int, y as int,
                            ky as int, kx as int) == wgt * pix);
                    }
                    acc = acc + wgt * pix;
                } else {
                    proof {
                        assert(conv_term(
                            f@, w as int, h as int, kw@, k as int, x as int, y as int,
                            ky as int, kx as int) == 0);
                    }
                }
            } else {
                proof {
                    assert(conv_term(
                        f@, w as int, h as int, kw@, k as int, x as int, y as int,
                        ky as int, kx as int) == 0);
                }
            }
            kx = kx + 1;
        }
        proof {
            assert(conv_rows_upto(
                f@, w as int, h as int, kw@, k as int, x as int, y as int, ky as int + 1)
                == conv_rows_upto(f@, w as int, h as int, kw@, k as int, x as int, y as int, ky as int)
                    + conv_row_upto(f@, w as int, h as int, kw@, k as int, x as int, y as int, ky as int, k as int));
        }
        ky = ky + 1;
    }
    acc
}

/// Convolves a whole frame: one filtered fixed-point value per pixel,
/// row-major.
pub fn convolve(frame: &IntensityFrame, kernel: &Kernel) -> (out: Vec<u64>)
    requires
        frame.wf(),
        kernel.wf(),
    ensures
        out@.len() == frame.width * frame.height,
        forall|j: int| 0 <= j < out@.len() ==> out@[j] == conv_at(
            frame.data@, frame.width as int, frame.height as int,
            kernel.weights@, kernel.size as int,
            j % frame.width as int, j / frame.width as int),
        forall|j: int| 0 <= j < out@.len() ==> out@[j] <= 255 * SCALE,
{
    let w = frame.width;
    let h = frame.height;
    let mut out: Vec<u64> = Vec::new();
    let mut y: usize = 0;
    while y < h
        invariant
            y <= h,
            w == frame.width,
            h == frame.height,
            frame.wf(),
            kernel.wf(),
            out@.len() == y * w,
            forall|j: int| 0 <= j < out@.len() ==> out@[j] == conv_at(
                frame.data@, w as int, h as int, kernel.weights@, kernel.size as int,
                j % w as int, j / w as int),
            forall|j: int| 0 <= j < out@.len() ==> out@[j] <= 255 * SCALE,
        decreases h - y,
    {
        let mut x: usize = 0;
        while x < w
            invariant
                x <= w,
                y < h,
                w == frame.width,
                h == frame.height,
                frame.wf(),
                kernel.wf(),
                out@.len() == y * w + x,
                forall|j: int| 0 <= j < out@.len() ==> out@[j] == conv_at(
                    frame.data@, w as int, h as int, kernel.weights@, kernel.size as int,
                    j % w as int, j / w as int),
                forall|j: int| 0 <= j < out@.len() ==> out@[j] <= 255 * SCALE,
            decreases w - x,
        {
            proof {
                assert(y as int * w as int + x < w as int * h as int) by (nonlinear_arith)
                    requires 0 <= x as int, (x as int) < w as int, 0 <= y as int, (y as int) < h as int;
                lemma_row_major_index(w as int, x as int, y as int);
            }
            let v = convolve_pixel(frame, x, y, kernel);
            out.push(v);
            x = x + 1;
        }
        proof {
            assert(y as int * w as int + w as int == (y as int + 1) * w as int)
                by (nonlinear_arith);
        }
        y = y + 1;
    }
    proof {
        assert(h as int * w as int == w as int * h as int) by (nonlinear_arith);
    }
    out
}

/// The filtered image of a frame under a kernel: each pixel quantized from
/// its full convolution sum.
pub open spec fn filtered_data(f: Seq<u8>, w: int, h: int, kw: Seq<u64>, k: int) -> Seq<u8> {
    Seq::new((w * h) as nat, |j: int|
        quantize_spec(conv_at(f, w, h, kw, k, j % w, j / w)) as u8)
}

/// Applies the convolution engine to a frame in place: convolve, then
/// quantize every filtered value back into the frame's transport buffer.
pub fn filter_frame(frame: &mut IntensityFrame, kernel: &Kernel)
    requires
        old(frame).wf(),
        kernel.wf(),
    ensures
        final(frame).wf(),
        final(frame).width == old(frame).width,
        final(frame).height == old(frame).height,
        final(frame).data@ == filtered_data(
            old(frame).data@, old(frame).width as int, old(frame).height as int,
            kernel.weights@, kernel.size as int),
{
    let values = convolve(frame, kernel);
    rewrite_frame(frame, &values);
    proof {
        let w = old(frame).width as int;
        let h = old(frame).height as int;
        let fd = filtered_data(
            old(frame).data@, w, h, kernel.weights@, kernel.size as int);
        assert forall|j: int| 0 <= j < frame.data@.len() implies frame.data@[j] == fd[j] by {
            crate::frame::lemma_quantize_range(values@[j] as int);
        }
        assert(frame.data@ =~= fd);
    }
}

} // verus!
