//! Auto-levels: find a frame's black and white points and stretch that
//! range to `[0, 255]`.
//!
//! 1. A 256-bin histogram of the frame's tone (the sample itself for
//!    Gray8 and the YUV luma plane, the mean `(R + G + B) / 3` for RGB/RGBA).
//! 2. The cut points: walking up from black, the first bin at which the
//!    running count exceeds the low clip budget; walking down from
//!    white, the first bin at which it exceeds the high clip budget. A
//!    flat result (`hi <= lo`) is widened to one step.
//! 3. A linear stretch of `[lo, hi]` onto `[0, 255]`, applied to every
//!    colour channel of the first plane (RGBA alpha is kept; YUV
//!    stretches the Y plane only).
//!
//! The clip budgets (a fraction of the sample count) are computed by the
//! caller.

use vstd::prelude::*;
use crate::frame::{
    colour_channels, first_plane_bpp, first_plane_fits, lemma_row_in_bounds, supported_format,
    with_first_plane, FrameView, PixelFormat, PlaneView, VideoFrame, VideoPlane, VideoStreamParams,
};
use crate::histogram::{
    hist_of, hist_total, histogram, lemma_hist_total, lemma_weight_monotone, lemma_weight_zero_bins,
    weight,
};
use crate::luma::{collapse_to_luma, luma_plane, plane_byte, LumaRule};
use crate::lut::{lemma_map_rows_fixed, lut_rows, table_fn};
use crate::rowmap::{lemma_map_rows_pointwise, map_rows};

verus! {

/// Bin `i` is where the running count from black first exceeds `b`.
pub open spec fn is_low_cut(h: Seq<u64>, b: int, i: int) -> bool {
    0 <= i < 256 && weight(h, i) <= b < weight(h, i + 1)
}

/// Bin `i` is where the running count from white first exceeds `b`.
pub open spec fn is_high_cut(h: Seq<u64>, b: int, i: int) -> bool {
    0 <= i < 256 && hist_total(h) - weight(h, i + 1) <= b < hist_total(h) - weight(h, i)
}

/// The black point for a low budget `b`; 0 when the whole histogram
/// fits in the budget.
pub open spec fn low_cut(h: Seq<u64>, b: int) -> int {
    if hist_total(h) > b {
        choose|i: int| is_low_cut(h, b, i)
    } else {
        0
    }
}

/// The white point for a high budget `b`; 255 when the whole histogram
/// fits in the budget.
pub open spec fn high_cut(h: Seq<u64>, b: int) -> int {
    if hist_total(h) > b {
        choose|i: int| is_high_cut(h, b, i)
    } else {
        255
    }
}

/// Widens an empty range `hi <= lo` to one step.
pub open spec fn separated(lo: int, hi: int) -> (int, int) {
    if hi <= lo {
        if lo < 255 {
            (lo, lo + 1)
        } else {
            (254, 255)
        }
    } else {
        (lo, hi)
    }
}

/// The stretch range of a histogram for the two clip budgets: `(0, 255)`
/// for an empty histogram.
pub open spec fn clip_range_value(h: Seq<u64>, lo_budget: int, hi_budget: int) -> (int, int) {
    if hist_total(h) == 0 {
        (0, 255)
    } else {
        separated(low_cut(h, lo_budget), high_cut(h, hi_budget))
    }
}

proof fn lemma_low_cut_unique(h: Seq<u64>, b: int, i: int, j: int)
    requires
        is_low_cut(h, b, i),
        is_low_cut(h, b, j),
    ensures
        i == j,
{
    if i < j {
        lemma_weight_monotone(h, i + 1, j);
    } else if j < i {
        lemma_weight_monotone(h, j + 1, i);
    }
}

proof fn lemma_high_cut_unique(h: Seq<u64>, b: int, i: int, j: int)
    requires
        is_high_cut(h, b, i),
        is_high_cut(h, b, j),
    ensures
        i == j,
{
    if i < j {
        lemma_weight_monotone(h, i + 1, j);
    } else if j < i {
        lemma_weight_monotone(h, j + 1, i);
    }
}

/// The stretch range of a histogram holding `total` samples, for the
/// given low and high clip budgets (in samples).
pub fn clip_range(hist: &[u64; 256], total: u64, lo_budget: u64, hi_budget: u64) -> (r: (u8, u8))
    requires
        total == hist_total(hist@),
    ensures
        (r.0 as int, r.1 as int) == clip_range_value(hist@, lo_budget as int, hi_budget as int),
        r.0 < r.1,
{
    let ghost h = hist@;
    if total == 0 {
        return (0, 255);
    }
    assert forall|k: int| 0 <= k <= 256 implies 0 <= #[trigger] weight(h, k) <= total by {
        lemma_weight_monotone(h, 0, k);
        lemma_weight_monotone(h, k, 256);
    }
    let mut i: usize = 0;
    let mut acc: u64 = 0;
    while i < 256 && acc + hist[i] <= lo_budget
        invariant
            0 <= i <= 256,
            h == hist@,
            total == hist_total(h),
            forall|k: int| 0 <= k <= 256 ==> 0 <= #[trigger] weight(h, k) <= total,
            i < 256 ==> weight(h, i + 1) <= total,
            acc == weight(h, i as int),
            acc <= lo_budget,
        decreases 256 - i,
    {
        acc = acc + hist[i];
        i = i + 1;
    }
    let lo: u8 = if i < 256 {
        proof {
            lemma_weight_monotone(h, i + 1, 256);
            assert(is_low_cut(h, lo_budget as int, i as int));
            lemma_low_cut_unique(h, lo_budget as int, i as int, low_cut(h, lo_budget as int));
        }
        i as u8
    } else {
        0
    };
    let mut j: usize = 256;
    let mut acc2: u64 = 0;
    while j > 0 && acc2 + hist[j - 1] <= hi_budget
        invariant
            0 <= j <= 256,
            h == hist@,
            total == hist_total(h),
            forall|k: int| 0 <= k <= 256 ==> 0 <= #[trigger] weight(h, k) <= total,
            j > 0 ==> 0 <= weight(h, j - 1),
            acc2 == total - weight(h, j as int),
            acc2 <= hi_budget,
        decreases j,
    {
        acc2 = acc2 + hist[j - 1];
        j = j - 1;
    }
    let hi: u8 = if j > 0 {
        proof {
            assert(is_high_cut(h, hi_budget as int, j - 1));
            lemma_high_cut_unique(h, hi_budget as int, j - 1, high_cut(h, hi_budget as int));
        }
        (j - 1) as u8
    } else {
        255
    };
    if hi <= lo {
        if lo < 255 {
            (lo, lo + 1)
        } else {
            (254, 255)
        }
    } else {
        (lo, hi)
    }
}

/// Sample `v` stretched from `[lo, hi]` onto `[0, 255]`, rounding
/// halves up; samples outside the range clamp to the ends.
pub open spec fn stretch_value(v: int, lo: int, hi: int) -> int {
    if v <= lo {
        0
    } else if v >= hi {
        255
    } else {
        (2 * (v - lo) * 255 + (hi - lo)) / (2 * (hi - lo))
    }
}

/// The stretch table of `[lo, hi]`.
pub open spec fn stretch_table(lo: int, hi: int) -> Seq<u8> {
    Seq::new(256, |i: int| stretch_value(i, lo, hi) as u8)
}

/// Builds the stretch table of `[lo, hi]`.
pub fn build_stretch_table(lo: u8, hi: u8) -> (t: Vec<u8>)
    requires
        lo < hi,
    ensures
        t@ == stretch_table(lo as int, hi as int),
{
    let mut t: Vec<u8> = Vec::new();
    let mut i: usize = 0;
    while i < 256
        invariant
            0 <= i <= 256,
            lo < hi,
            t@.len() == i,
            forall|j: int| 0 <= j < i ==> #[trigger] t@[j] == stretch_value(j, lo as int, hi as int) as u8,
        decreases 256 - i,
    {
        let v = i as u8;
        let s: u8 = if v <= lo {
            0
        } else if v >= hi {
            255
        } else {
            let d = (hi - lo) as u32;
            let n = (v - lo) as u32;
            assert(2 * n * 255 + d < 256 * (2 * d)) by (nonlinear_arith)
                requires
                    0 < n < d,
            ;
            assert((2 * n * 255 + d) / (2 * d) < 256) by (nonlinear_arith)
                requires
                    2 * n * 255 + d < 256 * (2 * d),
                    d > 0,
            ;
            ((2 * n * 255 + d) / (2 * d)) as u8
        };
        t.push(s);
        i = i + 1;
    }
    assert(t@ =~= stretch_table(lo as int, hi as int));
    t
}

/// The tone histogram of the first plane: `width × height` samples.
pub open spec fn tone_hist(v: FrameView, params: VideoStreamParams) -> Seq<u64> {
    hist_of(
        luma_plane(LumaRule::Tone, params.format, v.planes[0], params.width as int, params.height as int),
    )
}

/// The frames the histogram scan and the stretch read without running
/// past a plane.
pub open spec fn normalize_fits(v: FrameView, params: VideoStreamParams) -> bool {
    &&& supported_format(params.format)
    &&& first_plane_fits(v, params)
    &&& params.width * params.height <= usize::MAX
}

/// Histogram of the frame's tone, with its sample count.
pub fn tone_histogram(input: &VideoFrame, params: VideoStreamParams) -> (r: ([u64; 256], u64))
    requires
        normalize_fits(input@, params),
    ensures
        r.0@ == tone_hist(input@, params),
        r.1 == params.width * params.height,
        r.1 == hist_total(r.0@),
{
    let w = params.width as usize;
    let h = params.height as usize;
    let tones = collapse_to_luma(LumaRule::Tone, params.format, &input.planes[0], w, h);
    let hist = histogram(tones.as_slice());
    proof {
        lemma_hist_total(tones@);
    }
    (hist, (w * h) as u64)
}

/// The first plane with the colour bytes of its visible rows stretched
/// from `[lo, hi]`.
pub open spec fn stretched_plane(p: PlaneView, params: VideoStreamParams, lo: int, hi: int) -> PlaneView {
    PlaneView {
        stride: p.stride,
        data: map_rows(
            p.data,
            p.stride as int,
            params.height as int,
            params.width * first_plane_bpp(params.format),
            first_plane_bpp(params.format),
            colour_channels(params.format),
            table_fn(stretch_table(lo, hi)),
        ),
    }
}

/// The frame with its first plane stretched; other planes kept.
pub open spec fn stretched_frame(v: FrameView, params: VideoStreamParams, lo: int, hi: int) -> FrameView {
    FrameView { pts: v.pts, planes: v.planes.update(0, stretched_plane(v.planes[0], params, lo, hi)) }
}

/// Stretches `[lo, hi]` onto `[0, 255]` on the colour bytes of the
/// first plane.
pub fn stretch_frame(input: &VideoFrame, params: VideoStreamParams, lo: u8, hi: u8) -> (r: VideoFrame)
    requires
        normalize_fits(input@, params),
        lo < hi,
    ensures
        r@ == stretched_frame(input@, params, lo as int, hi as int),
        params.width * first_plane_bpp(params.format) <= input@.planes[0].stride ==> forall|y: int, j: int|
            0 <= y < params.height && 0 <= j < params.width * first_plane_bpp(params.format)
                ==> #[trigger] r@.planes[0].data[y * input@.planes[0].stride + j] == if j
                % first_plane_bpp(params.format) < colour_channels(params.format) {
                stretch_value(input@.planes[0].data[y * input@.planes[0].stride + j] as int, lo as int, hi as int) as u8
            } else {
                input@.planes[0].data[y * input@.planes[0].stride + j]
            },
{
    let (bpp, nch): (usize, usize) = match params.format {
        PixelFormat::Rgb24 => (3, 3),
        PixelFormat::Rgba => (4, 3),
        _ => (1, 1),
    };
    let lut = build_stretch_table(lo, hi);
    let w = params.width as usize;
    let h = params.height as usize;
    let p0 = &input.planes[0];
    let mut data = p0.data.clone();
    if h > 0 {
        proof {
            lemma_row_in_bounds(p0.data@.len() as int, p0.stride as int, h as int, w * bpp, 0);
        }
        lut_rows(&mut data, p0.stride, h, w * bpp, bpp, nch, &lut);
    }
    let out = with_first_plane(input, VideoPlane { stride: p0.stride, data });
    proof {
        let row_bytes = params.width * first_plane_bpp(params.format);
        if row_bytes <= p0.stride {
            assert forall|y: int, j: int|
                0 <= y < params.height && 0 <= j < row_bytes implies #[trigger] out@.planes[0].data[y
                * p0.stride + j] == if j % first_plane_bpp(params.format) < colour_channels(
                params.format,
            ) {
                stretch_value(p0.data@[y * p0.stride + j] as int, lo as int, hi as int) as u8
            } else {
                p0.data@[y * p0.stride + j]
            } by {
                lemma_row_in_bounds(
                    p0.data@.len() as int,
                    p0.stride as int,
                    params.height as int,
                    row_bytes,
                    y,
                );
                lemma_map_rows_pointwise(
                    p0.data@,
                    p0.stride as int,
                    params.height as int,
                    row_bytes,
                    first_plane_bpp(params.format),
                    colour_channels(params.format),
                    table_fn(stretch_table(lo as int, hi as int)),
                    y,
                    j,
                );
            }
        }
    }
    out
}

/// With no clipping, the black point is the darkest tone present and
/// the white point the brightest.
pub proof fn zero_clip_finds_extremes(h: Seq<u64>)
    requires
        h.len() == 256,
        hist_total(h) > 0,
    ensures
        0 <= low_cut(h, 0) < 256,
        h[low_cut(h, 0)] > 0,
        forall|v: int| 0 <= v < low_cut(h, 0) ==> h[v] == 0,
        0 <= high_cut(h, 0) < 256,
        h[high_cut(h, 0)] > 0,
        forall|v: int| high_cut(h, 0) < v < 256 ==> h[v] == 0,
{
    // The first non-empty bin.
    let i = choose|i: int| 0 <= i < 256 && #[trigger] weight(h, i) == 0 && weight(h, i + 1) > 0;
    assert(exists|i: int| 0 <= i < 256 && #[trigger] weight(h, i) == 0 && weight(h, i + 1) > 0) by {
        lemma_first_rise(h, 256);
    }
    assert(is_low_cut(h, 0, i));
    lemma_low_cut_unique(h, 0, i, low_cut(h, 0));
    assert forall|v: int| 0 <= v < low_cut(h, 0) implies h[v] == 0 by {
        lemma_weight_zero_bins(h, i, v);
    }
    // The last non-empty bin.
    let j = choose|j: int| 0 <= j < 256 && weight(h, j + 1) == hist_total(h) && #[trigger] weight(h, j) < hist_total(h);
    assert(exists|j: int| 0 <= j < 256 && weight(h, j + 1) == hist_total(h) && #[trigger] weight(h, j) < hist_total(h)) by {
        lemma_last_rise(h, 0);
    }
    assert(is_high_cut(h, 0, j));
    lemma_high_cut_unique(h, 0, j, high_cut(h, 0));
    assert forall|v: int| high_cut(h, 0) < v < 256 implies h[v] == 0 by {
        lemma_weight_monotone(h, j + 1, v);
        lemma_weight_monotone(h, v + 1, 256);
    }
}

/// Somewhere below `n` the running count first leaves zero, if it is
/// positive at `n`.
proof fn lemma_first_rise(h: Seq<u64>, n: int)
    requires
        0 <= n <= 256,
        weight(h, n) > 0,
    ensures
        exists|i: int| 0 <= i < n && #[trigger] weight(h, i) == 0 && weight(h, i + 1) > 0,
    decreases n,
{
    lemma_weight_monotone(h, 0, n - 1);
    if weight(h, n - 1) == 0 {
        assert(0 <= n - 1 < n && weight(h, n - 1) == 0 && weight(h, n) > 0);
    } else {
        lemma_first_rise(h, n - 1);
        let i = choose|i: int| 0 <= i < n - 1 && #[trigger] weight(h, i) == 0 && weight(h, i + 1) > 0;
        assert(0 <= i < n && weight(h, i) == 0 && weight(h, i + 1) > 0);
    }
}

/// Somewhere at or above `m` the running count last reaches the total,
/// if it is below the total at `m`.
proof fn lemma_last_rise(h: Seq<u64>, m: int)
    requires
        0 <= m < 256,
        weight(h, m) < hist_total(h),
    ensures
        exists|j: int| m <= j < 256 && weight(h, j + 1) == hist_total(h) && #[trigger] weight(h, j) < hist_total(h),
    decreases 256 - m,
{
    lemma_weight_monotone(h, m + 1, 256);
    if weight(h, m + 1) == hist_total(h) {
        assert(m <= m < 256 && weight(h, m + 1) == hist_total(h) && weight(h, m) < hist_total(h));
    } else {
        lemma_last_rise(h, m + 1);
        let j = choose|j: int| m + 1 <= j < 256 && weight(h, j + 1) == hist_total(h) && #[trigger] weight(h, j) < hist_total(h);
        assert(m <= j < 256 && weight(h, j + 1) == hist_total(h) && weight(h, j) < hist_total(h));
    }
}

/// Stretching the full range `[0, 255]` changes no sample.
pub proof fn stretch_full_range_is_identity(v: int)
    requires
        0 <= v <= 255,
    ensures
        stretch_value(v, 0, 255) == v,
{
    if 0 < v < 255 {
        assert((2 * v * 255 + 255) / 510 == v) by (nonlinear_arith)
            requires
                0 < v < 255,
        ;
    }
}

/// The black point goes to 0, the white point to 255, and samples in
/// between stay in order.
pub proof fn stretch_is_monotone_onto_full_range(lo: int, hi: int, v1: int, v2: int)
    requires
        0 <= lo < hi <= 255,
        v1 <= v2,
    ensures
        stretch_value(lo, lo, hi) == 0,
        stretch_value(hi, lo, hi) == 255,
        stretch_value(v1, lo, hi) <= stretch_value(v2, lo, hi),
        0 <= stretch_value(v1, lo, hi) <= 255,
{
    let d = hi - lo;
    if lo < v1 < hi {
        assert(0 <= (2 * (v1 - lo) * 255 + d) / (2 * d) <= 255) by (nonlinear_arith)
            requires
                0 < v1 - lo < d,
        ;
    }
    if lo < v1 < hi && lo < v2 < hi {
        assert((2 * (v1 - lo) * 255 + d) / (2 * d) <= (2 * (v2 - lo) * 255 + d) / (2 * d)) by (nonlinear_arith)
            requires
                0 < v1 - lo <= v2 - lo,
                d > 0,
        ;
    }
}

/// A histogram that already reaches black and white, with no clipping,
/// stretches `[0, 255]` onto itself, and the stretch leaves the frame
/// unchanged: auto-levels is a no-op on a full-range picture.
pub proof fn full_range_is_a_fixed_point(v: FrameView, params: VideoStreamParams, h: Seq<u64>)
    requires
        v.planes.len() >= 1,
        h.len() == 256,
        h[0] > 0,
        h[255] > 0,
    ensures
        clip_range_value(h, 0, 0) == (0int, 255int),
        stretched_frame(v, params, 0, 255) == v,
{
    lemma_weight_monotone(h, 0, 1);
    lemma_weight_monotone(h, 1, 256);
    assert(weight(h, 1) == h[0] as int);
    zero_clip_finds_extremes(h);
    let f = table_fn(stretch_table(0, 255));
    assert forall|x: u8| #[trigger] f(x) == x by {
        stretch_full_range_is_identity(x as int);
    }
    let p = v.planes[0];
    lemma_map_rows_fixed(
        p.data,
        p.stride as int,
        params.height as int,
        params.width * first_plane_bpp(params.format),
        first_plane_bpp(params.format),
        colour_channels(params.format),
        f,
    );
    assert(stretched_plane(p, params, 0, 255) == p);
    assert(v.planes.update(0, p) =~= v.planes);
}

/// On packed RGB, auto-levels scans the channel mean `(R + G + B) / 3`:
/// the tone histogram is the histogram of that mean, written out from
/// the channels.
pub proof fn normalize_scans_channel_mean(v: FrameView, params: VideoStreamParams)
    requires
        params.format == PixelFormat::Rgb24 || params.format == PixelFormat::Rgba,
    ensures
        ({
            let w = params.width as int;
            let h = params.height as int;
            let bpp = first_plane_bpp(params.format);
            let p = v.planes[0];
            tone_hist(v, params) == hist_of(
                Seq::new(
                    (w * h) as nat,
                    |i: int|
                        ((plane_byte(p, i / w, bpp * (i % w)) + plane_byte(p, i / w, bpp * (i % w) + 1)
                            + plane_byte(p, i / w, bpp * (i % w) + 2)) / 3) as u8,
                ),
            )
        }),
{
    let w = params.width as int;
    let h = params.height as int;
    let bpp = first_plane_bpp(params.format);
    let p = v.planes[0];
    let mean = Seq::new(
        (w * h) as nat,
        |i: int|
            ((plane_byte(p, i / w, bpp * (i % w)) + plane_byte(p, i / w, bpp * (i % w) + 1)
                + plane_byte(p, i / w, bpp * (i % w) + 2)) / 3) as u8,
    );
    assert(luma_plane(LumaRule::Tone, params.format, p, w, h) =~= mean);
}

} // verus!
