//! Pixel format bridge: conversion between the capture device's native
//! three-channel frames and the single-channel intensity frames the
//! convolution engine works on, and quantization of fixed-point filtered
//! values back to the 8-bit transport range.

use vstd::prelude::*;
use vstd::arithmetic::div_mod::{
    lemma_multiply_divide_lt, lemma_fundamental_div_mod_converse_div,
};
use crate::SCALE;
use crate::PipelineError;

verus! {

/// A frame in the capture device's native layout: `channels` interleaved
/// 8-bit samples per pixel, row-major. The device delivers three channels in
/// blue-green-red order; the display path accepts a single-channel buffer.
pub struct RawFrame {
    pub width: usize,
    pub height: usize,
    pub channels: usize,
    pub data: Vec<u8>,
}

impl RawFrame {
    /// The buffer holds exactly one sample per pixel and channel.
    pub open spec fn wf(&self) -> bool {
        self.data@.len() == self.width * self.height * self.channels
    }
}

/// A single-channel frame: one 8-bit intensity sample per pixel, row-major.
pub struct IntensityFrame {
    pub width: usize,
    pub height: usize,
    pub data: Vec<u8>,
}

impl IntensityFrame {
    /// The buffer holds exactly one sample per pixel.
    pub open spec fn wf(&self) -> bool {
        self.data@.len() == self.width * self.height
    }
}

/// The fixed, documented channel weighting (standard luma, blue-green-red
/// sample order): `0.299 R + 0.587 G + 0.114 B`, rounded to the nearest
/// integer.
pub open spec fn luma_spec(b: int, g: int, r: int) -> int {
    (299 * r + 587 * g + 114 * b + 500) / 1000
}

/// Quantization of one fixed-point filtered value back to the 8-bit
/// transport range: round to the nearest integer intensity and clamp
/// overshoots to 255 rather than wrapping.
pub open spec fn quantize_spec(v: int) -> int {
    if v >= 255 * SCALE {
        255
    } else {
        (v + SCALE as int / 2) / SCALE as int
    }
}

/// Quantizing an exact intensity gives that intensity back: the fixed-point
/// value `v * SCALE` maps to `v` for every 8-bit `v`.
pub proof fn lemma_quantize_exact(v: int)
    requires
        0 <= v <= 255,
    ensures
        quantize_spec(v * SCALE) == v,
{
    if v < 255 {
        assert(v * SCALE as int + SCALE as int / 2 == SCALE as int * v + SCALE as int / 2)
            by (nonlinear_arith);
        lemma_fundamental_div_mod_converse_div(
            v * SCALE as int + SCALE as int / 2, SCALE as int, v, SCALE as int / 2);
        assert(v * (SCALE as int) < 255 * (SCALE as int)) by (nonlinear_arith)
            requires v < 255;
    } else {
        assert(v * SCALE as int == 255 * SCALE as int);
    }
}

/// Quantization always lands in the 8-bit transport range.
pub proof fn lemma_quantize_range(v: int)
    requires
        0 <= v,
    ensures
        0 <= quantize_spec(v) <= 255,
{
    if v < 255 * SCALE {
        vstd::arithmetic::div_mod::lemma_div_pos_is_pos(v + SCALE as int / 2, SCALE as int);
        lemma_multiply_divide_lt(v + SCALE as int / 2, SCALE as int, 256);
    }
}

/// Executable quantization, exact against [`quantize_spec`].
pub fn quantize(v: u64) -> (q: u8)
    ensures
        q == quantize_spec(v as int),
{
    if v >= 255 * SCALE {
        255
    } else {
        proof {
            lemma_multiply_divide_lt(v as int + SCALE as int / 2, SCALE as int, 256);
        }
        ((v + SCALE / 2) / SCALE) as u8
    }
}

/// What it means for `f` to be the intensity image of the three-channel
/// frame `raw`: same dimensions, one luma sample per pixel.
pub open spec fn intensity_of(raw: RawFrame, f: IntensityFrame) -> bool {
    &&& f.wf()
    &&& f.width == raw.width
    &&& f.height == raw.height
    &&& forall|p: int| 0 <= p < f.data@.len() ==>
        f.data@[p] == luma_spec(
            raw.data@[3 * p] as int,
            raw.data@[3 * p + 1] as int,
            raw.data@[3 * p + 2] as int)
}

/// Converts a native three-channel frame to a single-channel intensity
/// frame with the fixed luma weighting. A frame that does not carry exactly
/// three channels is a configuration error, reported as a format failure.
pub fn to_intensity(raw: &RawFrame) -> (r: Result<IntensityFrame, PipelineError>)
    requires
        raw.wf(),
    ensures
        r is Ok <==> raw.channels == 3,
        r matches Err(e) ==> e == PipelineError::FrameFormat,
        r matches Ok(f) ==> intensity_of(*raw, f),
{
    if raw.channels != 3 {
        return Err(PipelineError::FrameFormat);
    }
    let len: usize = raw.data.len();
    proof {
        assert(raw.width as int * raw.height as int >= 0) by (nonlinear_arith);
        assert(raw.width as int * raw.height as int * 3 >= raw.width as int * raw.height as int)
            by (nonlinear_arith)
            requires 0 <= raw.width as int * raw.height as int;
    }
    let n: usize = raw.width * raw.height;
    let mut data: Vec<u8> = Vec::new();
    let mut p: usize = 0;
    while p < n
        invariant
            p <= n,
            n == raw.width * raw.height,
            raw.channels == 3,
            raw.wf(),
            len == raw.data@.len(),
            data@.len() == p,
            forall|q: int| 0 <= q < p ==>
                data@[q] == luma_spec(
                    raw.data@[3 * q] as int,
                    raw.data@[3 * q + 1] as int,
                    raw.data@[3 * q + 2] as int),
        decreases n - p,
    {
        proof {
            assert(3 * p + 2 < raw.data@.len()) by (nonlinear_arith)
                requires
                    p < raw.width as int * raw.height as int,
                    raw.data@.len() == raw.width as int * raw.height as int * 3;
        }
        let b: u32 = raw.data[3 * p] as u32;
        let g: u32 = raw.data[3 * p + 1] as u32;
        let r: u32 = raw.data[3 * p + 2] as u32;
        let y: u32 = (299 * r + 587 * g + 114 * b + 500) / 1000;
        proof {
            lemma_multiply_divide_lt(
                299 * r as int + 587 * g as int + 114 * b as int + 500, 1000, 256);
        }
        data.push(y as u8);
        p = p + 1;
    }
    Ok(IntensityFrame { width: raw.width, height: raw.height, data })
}

/// Quantizes a fixed-point filtered value sequence into a single-channel
/// displayable frame of the given output dimensions. A sequence whose length
/// does not match the dimensions is a programming-contract violation,
/// reported as a dimension mismatch.
pub fn to_displayable(values: &Vec<u64>, width: usize, height: usize) -> (r: Result<
    RawFrame,
    PipelineError,
>)
    requires
        width * height <= usize::MAX,
    ensures
        r is Ok <==> values@.len() == width * height,
        r matches Err(e) ==> e == PipelineError::DimensionMismatch,
        r matches Ok(f) ==> {
            &&& f.wf()
            &&& f.width == width
            &&& f.height == height
            &&& f.channels == 1
            &&& forall|p: int| 0 <= p < f.data@.len() ==>
                f.data@[p] == quantize_spec(values@[p] as int)
        },
{
    let n: usize = width * height;
    if values.len() != n {
        return Err(PipelineError::DimensionMismatch);
    }
    let mut data: Vec<u8> = Vec::new();
    let mut p: usize = 0;
    while p < n
        invariant
            p <= n,
            n == values@.len(),
            data@.len() == p,
            forall|q: int| 0 <= q < p ==> data@[q] == quantize_spec(values@[q] as int),
        decreases n - p,
    {
        data.push(quantize(values[p]));
        p = p + 1;
    }
    proof {
        assert(data@.len() == width * height * 1) by (nonlinear_arith)
            requires data@.len() == width as int * height as int;
    }
    Ok(RawFrame { width, height, channels: 1, data })
}

/// Rewrites an intensity frame in place from a filtered value sequence of
/// the same dimensions, quantizing each value back to the transport range.
pub fn rewrite_frame(frame: &mut IntensityFrame, values: &Vec<u64>)
    requires
        old(frame).wf(),
        values@.len() == old(frame).data@.len(),
    ensures
        final(frame).wf(),
        final(frame).width == old(frame).width,
        final(frame).height == old(frame).height,
        final(frame).data@.len() == old(frame).data@.len(),
        forall|p: int| 0 <= p < final(frame).data@.len() ==>
            final(frame).data@[p] == quantize_spec(values@[p] as int),
{
    let n: usize = frame.data.len();
    let mut p: usize = 0;
    while p < n
        invariant
            p <= n,
            n == frame.data@.len(),
            values@.len() == n,
            frame.wf(),
            frame.width == old(frame).width,
            frame.height == old(frame).height,
            forall|q: int| 0 <= q < p ==> frame.data@[q] == quantize_spec(values@[q] as int),
        decreases n - p,
    {
        frame.data[p] = quantize(values[p]);
        p = p + 1;
    }
}

} // verus!
