//! Otsu's automatic threshold — binarise a frame by maximising the
//! between-class variance of two intensity classes.
//!
//! For every cut `t` the background class is the samples `< t` and the
//! foreground the samples `≥ t`:
//!
//! ```text
//! σ²_b(t) = w0(t) · w1(t) · (μ0(t) - μ1(t))²
//! ```
//!
//! The chosen threshold is the midpoint of the first and last cuts that
//! reach the largest variance; samples `< t` map to `0` and samples
//! `≥ t` to `255`. The cuts are walked as splits: splitting after bin
//! `k` puts bins `0 ..= k` in the background, which is the cut
//! `t = k + 1`. Variances are compared exactly, as fractions
//! `(S0·T − S·w0)² / (w0·w1)` (`S0`, `S` the background and total
//! intensity sums, `T` the sample count); the cross products run to a
//! few hundred bits and are held as limbs ([`crate::bignum`]), so any
//! sample count a `u64` holds is thresholded exactly.

use vstd::prelude::*;
use crate::frame::{
    copy_frame, error_text, first_plane_bpp, PixelFormat, is_supported_format, rows_fit, single_plane_frame,
    supported_format, unsupported, unsupported_text, FilterError, FrameView, PlaneView, VideoFrame,
    VideoStreamParams,
};
use crate::bignum::{compare_limbs, limbs_of_u128, limbs_value, mul_limbs, sub_limbs};
use crate::histogram::{
    count, hist_of, hist_total, histogram, lemma_count_flat, lemma_hist_total, weight,
};
use crate::luma::{collapse_to_luma, luma_plane, luma_plane_weighs_channels, plane_byte, LumaRule};

verus! {

/// Sum of the sample values in bins `0 .. n`.
pub open spec fn moment(h: Seq<u64>, n: int) -> int
    decreases n,
{
    if n <= 0 {
        0
    } else {
        moment(h, n - 1) + (n - 1) * h[n - 1] as int
    }
}

/// Splitting after bin `t` (the cut `t + 1`: background bins `0 ..= t`)
/// leaves two non-empty classes.
pub open spec fn valid_split(h: Seq<u64>, t: int) -> bool {
    0 <= t < 256 && weight(h, t + 1) > 0 && weight(h, t + 1) < hist_total(h)
}

/// `S0·T − S·w0` for the split after bin `t`; the between-class
/// variance is its square over `w0·w1`.
pub open spec fn spread(h: Seq<u64>, t: int) -> int {
    moment(h, t + 1) * hist_total(h) - moment(h, 256) * weight(h, t + 1)
}

/// Numerator of the between-class variance of the split after bin `t`.
pub open spec fn var_num(h: Seq<u64>, t: int) -> int {
    spread(h, t) * spread(h, t)
}

/// Denominator of the between-class variance of the split after bin `t`.
pub open spec fn var_den(h: Seq<u64>, t: int) -> int {
    weight(h, t + 1) * (hist_total(h) - weight(h, t + 1))
}

/// Split `a` has a strictly larger between-class variance than split `b`.
pub open spec fn beats(h: Seq<u64>, a: int, b: int) -> bool {
    var_num(h, a) * var_den(h, b) > var_num(h, b) * var_den(h, a)
}

/// Splits `a` and `b` have equal between-class variance.
pub open spec fn ties(h: Seq<u64>, a: int, b: int) -> bool {
    var_num(h, a) * var_den(h, b) == var_num(h, b) * var_den(h, a)
}

/// `lo` and `hi` are the first and the last valid splits of largest
/// variance.
pub open spec fn is_plateau(h: Seq<u64>, lo: int, hi: int) -> bool {
    &&& valid_split(h, lo)
    &&& valid_split(h, hi)
    &&& lo <= hi
    &&& ties(h, hi, lo)
    &&& forall|t: int| valid_split(h, t) ==> !#[trigger] beats(h, t, lo)
    &&& forall|t: int| valid_split(h, t) && t < lo ==> #[trigger] beats(h, lo, t)
    &&& forall|t: int| valid_split(h, t) && t > hi ==> #[trigger] beats(h, lo, t)
}

/// Some cut leaves two non-empty classes.
pub open spec fn has_valid_split(h: Seq<u64>) -> bool {
    exists|t: int| valid_split(h, t)
}

/// The Otsu threshold of a 256-bin histogram: `128` for an empty
/// histogram, `0` when every sample sits in one bin, otherwise the
/// midpoint of the first and last cuts of largest variance. Those cuts
/// are `lo + 1` and `hi + 1` for the plateau of splits `lo ..= hi`.
pub open spec fn otsu_value(h: Seq<u64>) -> int {
    if hist_total(h) == 0 {
        128
    } else if !has_valid_split(h) {
        0
    } else {
        let (lo, hi) = choose|lo: int, hi: int| is_plateau(h, lo, hi);
        ((lo + 1) + (hi + 1)) / 2
    }
}

/// Variances compare as fractions with positive denominators: a larger
/// one beats anything the smaller one does not lose to.
proof fn lemma_ratio_chain(na: int, da: int, nb: int, db: int, nc: int, dc: int)
    requires
        da > 0,
        db > 0,
        dc > 0,
        na * db > nb * da,
        nc * db <= nb * dc,
    ensures
        na * dc > nc * da,
{
    assert(na * db * dc > nb * da * dc) by (nonlinear_arith)
        requires
            na * db > nb * da,
            dc > 0,
    ;
    assert(nb * dc * da >= nc * db * da) by (nonlinear_arith)
        requires
            nc * db <= nb * dc,
            da > 0,
    ;
    assert(na * dc * db > nc * da * db) by (nonlinear_arith)
        requires
            na * db * dc > nb * da * dc,
            nb * dc * da >= nc * db * da,
    ;
    assert(na * dc > nc * da) by (nonlinear_arith)
        requires
            na * dc * db > nc * da * db,
            db > 0,
    ;
}

/// The between-class variance denominator is positive at a valid split.
proof fn lemma_den_pos(h: Seq<u64>, t: int)
    requires
        valid_split(h, t),
    ensures
        var_den(h, t) > 0,
{
    let a = weight(h, t + 1);
    let b = hist_total(h) - a;
    assert(a * b > 0) by (nonlinear_arith)
        requires
            a > 0,
            b > 0,
    ;
}

/// The plateau of largest variance is unique, so [`otsu_value`] names
/// exactly one threshold.
pub proof fn lemma_plateau_unique(h: Seq<u64>, lo1: int, hi1: int, lo2: int, hi2: int)
    requires
        is_plateau(h, lo1, hi1),
        is_plateau(h, lo2, hi2),
    ensures
        lo1 == lo2,
        hi1 == hi2,
{
    lemma_den_pos(h, lo1);
    lemma_den_pos(h, lo2);
    lemma_den_pos(h, hi1);
    lemma_den_pos(h, hi2);
    if lo1 < lo2 {
        assert(beats(h, lo2, lo1));
        assert(!beats(h, lo2, lo1));
    }
    if lo2 < lo1 {
        assert(beats(h, lo1, lo2));
        assert(!beats(h, lo1, lo2));
    }
    if hi1 < hi2 {
        assert(beats(h, lo1, hi2));
        assert(ties(h, hi2, lo2));
    }
    if hi2 < hi1 {
        assert(beats(h, lo2, hi1));
        assert(ties(h, hi1, lo1));
    }
}

/// Prefix sums grow with the prefix and stay within bounds.
proof fn lemma_prefix_bounds(h: Seq<u64>, n: int)
    requires
        0 <= n <= h.len(),
    ensures
        0 <= weight(h, n),
        0 <= moment(h, n) <= (if n > 0 {
            n - 1
        } else {
            0
        }) * weight(h, n),
        forall|m: int| 0 <= m <= n ==> #[trigger] weight(h, m) <= weight(h, n),
    decreases n,
{
    if n > 0 {
        lemma_prefix_bounds(h, n - 1);
        let k = if n - 1 > 0 {
            n - 2
        } else {
            0
        };
        assert(moment(h, n - 1) <= (n - 1) * weight(h, n - 1)) by (nonlinear_arith)
            requires
                moment(h, n - 1) <= k * weight(h, n - 1),
                0 <= k <= n - 1,
                weight(h, n - 1) >= 0,
        ;
        assert((n - 1) * weight(h, n - 1) + (n - 1) * h[n - 1] as int == (n - 1) * weight(h, n))
            by (nonlinear_arith)
            requires
                weight(h, n) == weight(h, n - 1) + h[n - 1] as int,
        ;
        assert(0 <= (n - 1) * h[n - 1] as int) by (nonlinear_arith)
            requires
                n >= 1,
        ;
    }
}

} // verus!

verus! {

/// Compares `n1 / d1` with `n2 / d2` exactly: `1` when the first is
/// larger, `-1` when smaller, `0` when equal.
fn compare_ratios(n1: &Vec<u32>, d1: u128, n2: &Vec<u32>, d2: u128) -> (c: i8)
    requires
        n1.len() == n2.len(),
        n1.len() <= 64,
    ensures
        c == 1 <==> limbs_value(n1@) * d2 > limbs_value(n2@) * d1,
        c == 0 <==> limbs_value(n1@) * d2 == limbs_value(n2@) * d1,
        c == -1 <==> limbs_value(n1@) * d2 < limbs_value(n2@) * d1,
{
    let l = mul_limbs(n1, &limbs_of_u128(d2));
    let r = mul_limbs(n2, &limbs_of_u128(d1));
    compare_limbs(&l, &r)
}

/// `(s0·T − S·w0)²`, the numerator of the between-class variance, as
/// limbs.
fn spread_square(s0: u128, w0: u64, s: u128, total: u64) -> (num: Vec<u32>)
    ensures
        num.len() == 16,
        limbs_value(num@) == (s0 * total - s * w0) * (s0 * total - s * w0),
{
    let a = mul_limbs(&limbs_of_u128(s0), &limbs_of_u128(total as u128));
    let b = mul_limbs(&limbs_of_u128(s), &limbs_of_u128(w0 as u128));
    let c = compare_limbs(&a, &b);
    let d = if c >= 0 {
        sub_limbs(&a, &b)
    } else {
        sub_limbs(&b, &a)
    };
    let num = mul_limbs(&d, &d);
    proof {
        let x = s0 * total - s * w0;
        let v = limbs_value(d@) as int;
        assert(v == x || v == -x);
        assert(v * v == x * x) by (nonlinear_arith)
            requires
                v == x || v == -x,
        ;
    }
    num
}

/// Otsu threshold of a 256-bin histogram holding `total` samples.
pub fn otsu_from_histogram(hist: &[u64; 256], total: u64) -> (t: u8)
    requires
        total == hist_total(hist@),
    ensures
        t == otsu_value(hist@),
{
    let ghost h = hist@;
    if total == 0 {
        return 128;
    }
    proof {
        lemma_prefix_bounds(h, 256);
    }
    let mut sum_total: u128 = 0;
    let mut i: usize = 0;
    while i < 256
        invariant
            0 <= i <= 256,
            h == hist@,
            total == hist_total(h),
            sum_total == moment(h, i as int),
        decreases 256 - i,
    {
        proof {
            lemma_prefix_bounds(h, i + 1);
            lemma_prefix_bounds(h, 256);
            assert(moment(h, i + 1) <= 255 * weight(h, i + 1)) by (nonlinear_arith)
                requires
                    moment(h, i + 1) <= i * weight(h, i + 1),
                    i <= 255,
                    weight(h, i + 1) >= 0,
            ;
            assert(weight(h, i + 1) <= weight(h, 256));
            assert(0 <= i * hist@[i as int] <= moment(h, i + 1)) by (nonlinear_arith)
                requires
                    moment(h, i + 1) == moment(h, i as int) + i * hist@[i as int],
                    moment(h, i as int) >= 0,
                    i >= 0,
            ;
        }
        sum_total = sum_total + (i as u128) * (hist[i] as u128);
        i = i + 1;
    }
    let mut w_back: u64 = 0;
    let mut sum_back: u128 = 0;
    let mut found = false;
    let mut stop = false;
    let mut best_num: Vec<u32> = Vec::new();
    let mut best_den: u128 = 1;
    let mut lo: usize = 0;
    let mut hi: usize = 0;
    let mut t: usize = 0;
    while t < 256 && !stop
        invariant
            0 <= t <= 256,
            h == hist@,
            total == hist_total(h),
            0 < total,
            sum_total == moment(h, 256),
            w_back == weight(h, t as int),
            !stop ==> sum_back == moment(h, t as int),
            stop ==> w_back == total && t > 0,
            !found ==> forall|u: int| 0 <= u < t ==> !valid_split(h, u),
            found ==> {
                &&& valid_split(h, lo as int)
                &&& valid_split(h, hi as int)
                &&& lo <= hi < t
                &&& best_num.len() == 16
                &&& limbs_value(best_num@) == var_num(h, lo as int)
                &&& best_den == var_den(h, lo as int)
                &&& ties(h, hi as int, lo as int)
                &&& forall|u: int| 0 <= u < t && valid_split(h, u) ==> !#[trigger] beats(h, u, lo as int)
                &&& forall|u: int| 0 <= u < lo && valid_split(h, u) ==> #[trigger] beats(h, lo as int, u)
                &&& forall|u: int|
                    hi < u < t && valid_split(h, u) ==> #[trigger] beats(h, lo as int, u)
            },
        decreases 256 - t + if stop {
            0int
        } else {
            1int
        },
    {
        proof {
            lemma_prefix_bounds(h, t + 1);
            lemma_prefix_bounds(h, 256);
            assert(weight(h, t + 1) <= weight(h, 256));
            assert(moment(h, t + 1) <= 255 * weight(h, t + 1)) by (nonlinear_arith)
                requires
                    moment(h, t + 1) <= t * weight(h, t + 1),
                    t <= 255,
                    weight(h, t + 1) >= 0,
            ;
            assert(0 <= t * hist@[t as int]) by (nonlinear_arith)
                requires
                    t >= 0,
            ;
        }
        w_back = w_back + hist[t];
        if w_back == 0 {
            proof {
                assert(hist@[t as int] == 0);
                assert(t * hist@[t as int] == 0) by (nonlinear_arith)
                    requires
                        hist@[t as int] == 0,
                ;
                assert(!valid_split(h, t as int));
            }
            t = t + 1;
        } else {
            let w_fore = total - w_back;
            if w_fore == 0 {
                stop = true;
                t = t + 1;
            } else {
                sum_back = sum_back + (t as u128) * (hist[t] as u128);
                let ghost tt = t as int;
                assert(valid_split(h, tt));
                let num = spread_square(sum_back, w_back, sum_total, total);
                proof {
                    assert(limbs_value(num@) == spread(h, tt) * spread(h, tt));
                    let wb = w_back as int;
                    let wf = w_fore as int;
                    assert(0 < wb * wf < 0x1_0000_0000_0000_0000_0000_0000_0000_0000) by (nonlinear_arith)
                        requires
                            0 < wb < 0x1_0000_0000_0000_0000,
                            0 < wf < 0x1_0000_0000_0000_0000,
                    ;
                }
                let den: u128 = (w_back as u128) * (w_fore as u128);
                proof {
                    lemma_den_pos(h, tt);
                }
                let c: i8 = if found {
                    compare_ratios(&num, den, &best_num, best_den)
                } else {
                    1
                };
                if c == 1 {
                    proof {
                        if found {
                            assert forall|u: int| 0 <= u < t + 1 && valid_split(h, u) implies !#[trigger] beats(
                                h,
                                u,
                                tt,
                            ) by {
                                if u < t {
                                    lemma_den_pos(h, u);
                                    lemma_den_pos(h, lo as int);
                                    assert(!beats(h, u, lo as int));
                                    if beats(h, u, tt) {
                                        lemma_ratio_chain(
                                            var_num(h, u),
                                            var_den(h, u),
                                            var_num(h, tt),
                                            var_den(h, tt),
                                            var_num(h, lo as int),
                                            var_den(h, lo as int),
                                        );
                                    }
                                }
                            }
                            assert forall|u: int| 0 <= u < tt && valid_split(h, u) implies #[trigger] beats(
                                h,
                                tt,
                                u,
                            ) by {
                                lemma_den_pos(h, u);
                                lemma_den_pos(h, lo as int);
                                assert(!beats(h, u, lo as int));
                                lemma_ratio_chain(
                                    var_num(h, tt),
                                    var_den(h, tt),
                                    var_num(h, lo as int),
                                    var_den(h, lo as int),
                                    var_num(h, u),
                                    var_den(h, u),
                                );
                            }
                        }
                    }
                    best_num = num;
                    best_den = den;
                    lo = t;
                    hi = t;
                    found = true;
                } else if c == 0 {
                    proof {
                        assert forall|u: int| 0 <= u < t + 1 && valid_split(h, u) implies !#[trigger] beats(
                            h,
                            u,
                            lo as int,
                        ) by {
                            if u == tt {
                                assert(ties(h, tt, lo as int));
                            }
                        }
                    }
                    hi = t;
                } else {
                    proof {
                        assert forall|u: int| 0 <= u < t + 1 && valid_split(h, u) implies !#[trigger] beats(
                            h,
                            u,
                            lo as int,
                        ) by {
                            if u == tt {
                                assert(beats(h, lo as int, tt));
                            }
                        }
                        assert forall|u: int| hi < u < t + 1 && valid_split(h, u) implies #[trigger] beats(
                            h,
                            lo as int,
                            u,
                        ) by {
                            if u == tt {
                                assert(var_num(h, tt) * var_den(h, lo as int) < var_num(h, lo as int)
                                    * var_den(h, tt));
                            }
                        }
                    }
                }
                t = t + 1;
            }
        }
    }
    proof {
        // Every split from `t` on is invalid: either all 256 were seen or
        // the background already holds every sample.
        assert forall|u: int| t <= u < 256 implies !valid_split(h, u) by {
            lemma_prefix_bounds(h, u + 1);
            lemma_prefix_bounds(h, 256);
            assert(weight(h, t as int) <= weight(h, u + 1));
        }
    }
    if !found {
        proof {
            assert(!has_valid_split(h));
        }
        return 0;
    }
    proof {
        assert(is_plateau(h, lo as int, hi as int));
        let (l2, h2) = choose|l: int, hh: int| is_plateau(h, l, hh);
        lemma_plateau_unique(h, lo as int, hi as int, l2, h2);
        // The last split leaves a non-empty foreground, so `hi < 255`.
        assert(!valid_split(h, 255));
    }
    ((lo + hi) / 2 + 1) as u8
}

} // verus!

verus! {

/// The Otsu threshold of a sample sequence.
pub open spec fn otsu_of_samples(s: Seq<u8>) -> int {
    otsu_value(hist_of(s))
}

/// Otsu auto-thresholder.
#[derive(Clone, Copy, Debug)]
pub struct OtsuThreshold {
    /// Invert the binarisation. Default `false`: `< t` → 0, `≥ t` → 255.
    /// `true` swaps the two.
    pub invert: bool,
}

impl Default for OtsuThreshold {
    fn default() -> (r: Self)
        ensures
            r.invert == false,
    {
        OtsuThreshold { invert: false }
    }
}

impl OtsuThreshold {
    /// A thresholder that maps samples below the cut to 0.
    pub fn new() -> (r: Self)
        ensures
            r.invert == false,
    {
        OtsuThreshold { invert: false }
    }

    /// Set the polarity.
    pub fn with_invert(self, invert: bool) -> (r: Self)
        ensures
            r.invert == invert,
    {
        OtsuThreshold { invert }
    }

    /// Compute the Otsu threshold value for a `u8` sample stream.
    pub fn threshold_of(samples: &[u8]) -> (t: u8)
        ensures
            t == otsu_of_samples(samples@),
    {
        let hist = histogram(samples);
        let n = samples.len();
        proof {
            lemma_hist_total(samples@);
        }
        otsu_from_histogram(&hist, n as u64)
    }
}


/// The frames `OtsuThreshold::apply` accepts without failing.
pub open spec fn otsu_accepts(v: FrameView, params: VideoStreamParams) -> bool {
    params.width > 0 && params.height > 0 ==> {
        &&& v.planes.len() >= 1
        &&& supported_format(params.format) ==> {
            &&& rows_fit(
                v.planes[0].data.len() as int,
                v.planes[0].stride as int,
                params.height as int,
                params.width * first_plane_bpp(params.format),
            )
            &&& params.width * params.height <= usize::MAX
        }
    }
}

/// The binarised intensity plane: samples below the Otsu threshold of
/// the Rec. 601 intensity plane map to the low level, the rest to the
/// high level (`0` / `255`, swapped when `invert`).
pub open spec fn otsu_binarised(v: FrameView, params: VideoStreamParams, invert: bool) -> Seq<u8> {
    let g = luma_plane(
        LumaRule::Rec601,
        params.format,
        v.planes[0],
        params.width as int,
        params.height as int,
    );
    let t = otsu_of_samples(g);
    Seq::new(
        g.len(),
        |i: int|
            if (g[i] as int) < t {
                if invert {
                    255u8
                } else {
                    0u8
                }
            } else {
                if invert {
                    0u8
                } else {
                    255u8
                }
            },
    )
}

/// The text of the error for an unsupported format.
pub open spec fn otsu_error_prefix() -> Seq<char> {
    "oxideav-image-filter: OtsuThreshold does not yet handle "@
}

impl OtsuThreshold {
    /// Binarise a frame around its Otsu threshold. An empty frame is
    /// returned unchanged; otherwise the output is one `Gray8` plane of
    /// `width` bytes per row.
    pub fn apply(&self, input: &VideoFrame, params: VideoStreamParams) -> (r: Result<
        VideoFrame,
        FilterError,
    >)
        requires
            otsu_accepts(input@, params),
        ensures
            params.width == 0 || params.height == 0 ==> r is Ok && r->Ok_0@ == input@,
            params.width > 0 && params.height > 0 && !supported_format(params.format) ==> r is Err
                && r->Err_0 is Unsupported && error_text(r->Err_0) == unsupported_text(
                otsu_error_prefix(),
                params.format,
            ),
            params.width > 0 && params.height > 0 && supported_format(params.format) ==> r is Ok
                && r->Ok_0@ == (FrameView {
                pts: input.pts,
                planes: seq![
                    PlaneView {
                        stride: params.width as usize,
                        data: otsu_binarised(input@, params, self.invert),
                    },
                ],
            }),
    {
        let w = params.width as usize;
        let h = params.height as usize;
        if w == 0 || h == 0 {
            return Ok(copy_frame(input));
        }
        let src = &input.planes[0];
        if !is_supported_format(params.format) {
            return Err(
                unsupported("oxideav-image-filter: OtsuThreshold does not yet handle ", params.format),
            );
        }
        let grey = collapse_to_luma(LumaRule::Rec601, params.format, src, w, h);
        let t = Self::threshold_of(grey.as_slice());
        let (low, high): (u8, u8) = if self.invert {
            (255, 0)
        } else {
            (0, 255)
        };
        let ghost g = grey@;
        let n = grey.len();
        let mut data: Vec<u8> = Vec::new();
        let mut i: usize = 0;
        while i < n
            invariant
                0 <= i <= n,
                n == g.len(),
                g == grey@,
                t == otsu_of_samples(g),
                low == (if self.invert {
                    255u8
                } else {
                    0u8
                }),
                high == (if self.invert {
                    0u8
                } else {
                    255u8
                }),
                data@.len() == i,
                forall|k: int|
                    0 <= k < i ==> #[trigger] data@[k] == if (g[k] as int) < t {
                        low
                    } else {
                        high
                    },
            decreases n - i,
        {
            let v = if grey[i] < t {
                low
            } else {
                high
            };
            data.push(v);
            i = i + 1;
        }
        assert(data@ =~= otsu_binarised(input@, params, self.invert));
        Ok(single_plane_frame(input.pts, w, data))
    }
}

/// Otsu's output is binary: every sample is 0 or 255.
pub proof fn otsu_output_is_binary(v: FrameView, params: VideoStreamParams, invert: bool, i: int)
    requires
        0 <= i < otsu_binarised(v, params, invert).len(),
    ensures
        otsu_binarised(v, params, invert)[i] == 0 || otsu_binarised(v, params, invert)[i] == 255,
{
}

/// Inverting swaps the two levels of every output sample.
pub proof fn otsu_invert_flips(v: FrameView, params: VideoStreamParams, i: int)
    requires
        0 <= i < otsu_binarised(v, params, false).len(),
    ensures
        otsu_binarised(v, params, true).len() == otsu_binarised(v, params, false).len(),
        otsu_binarised(v, params, true)[i] == 255 - otsu_binarised(v, params, false)[i],
{
}

/// Running counts and sums of a histogram whose only samples sit in
/// bins `a < b`.
proof fn lemma_two_bin_prefix(h: Seq<u64>, a: int, b: int, n: int)
    requires
        h.len() == 256,
        0 <= a < b < 256,
        forall|v: int| 0 <= v < 256 && v != a && v != b ==> h[v] == 0,
        0 <= n <= 256,
    ensures
        weight(h, n) == (if n > a {
            h[a] as int
        } else {
            0
        }) + (if n > b {
            h[b] as int
        } else {
            0
        }),
        moment(h, n) == (if n > a {
            a * h[a]
        } else {
            0
        }) + (if n > b {
            b * h[b]
        } else {
            0
        }),
    decreases n,
{
    if n > 0 {
        lemma_two_bin_prefix(h, a, b, n - 1);
    }
}

/// With every sample in one of two bins `a < b`, every cut in
/// `a + 1 ..= b` separates the same two classes, so the threshold is the
/// midpoint of that range: `a` lies below it and `b` at or above it, and
/// the two modes binarise to different levels.
pub proof fn otsu_splits_two_modes(h: Seq<u64>, a: int, b: int)
    requires
        h.len() == 256,
        0 <= a < b < 256,
        h[a] > 0,
        h[b] > 0,
        forall|v: int| 0 <= v < 256 && v != a && v != b ==> h[v] == 0,
    ensures
        otsu_value(h) == (a + b + 1) / 2,
        a < otsu_value(h) <= b,
{
    let na = h[a] as int;
    let nb = h[b] as int;
    assert forall|n: int| 0 <= n <= 256 implies #[trigger] weight(h, n) == (if n > a {
        na
    } else {
        0
    }) + (if n > b {
        nb
    } else {
        0
    }) && moment(h, n) == (if n > a {
        a * na
    } else {
        0
    }) + (if n > b {
        b * nb
    } else {
        0
    }) by {
        lemma_two_bin_prefix(h, a, b, n);
    }
    assert(hist_total(h) == na + nb);
    assert(moment(h, 256) == a * na + b * nb);
    // Every valid split lies in [a, b - 1] and has the same variance.
    assert forall|t: int| #[trigger] valid_split(h, t) <==> a <= t < b by {
        if 0 <= t < 256 {
            assert(weight(h, t + 1) == (if t + 1 > a {
                na
            } else {
                0
            }) + (if t + 1 > b {
                nb
            } else {
                0
            }));
        }
    }
    let sp = a * na * (na + nb) - (a * na + b * nb) * na;
    assert forall|t: int| a <= t < b implies #[trigger] spread(h, t) == sp && var_den(h, t) == na * nb by {
        assert(weight(h, t + 1) == na);
        assert(moment(h, t + 1) == a * na);
        assert(na * (na + nb - na) == na * nb) by (nonlinear_arith);
    }
    assert forall|t1: int, t2: int| a <= t1 < b && a <= t2 < b implies #[trigger] ties(h, t1, t2) && !#[trigger] beats(
        h,
        t1,
        t2,
    ) by {
        assert(spread(h, t1) == sp && var_den(h, t1) == na * nb);
        assert(spread(h, t2) == sp && var_den(h, t2) == na * nb);
    }
    assert(valid_split(h, a));
    assert(valid_split(h, b - 1));
    assert(ties(h, b - 1, a));
    assert forall|t: int| valid_split(h, t) implies !#[trigger] beats(h, t, a) by {
        assert(a <= t < b);
        assert(ties(h, t, a) && !beats(h, t, a));
    }
    assert(is_plateau(h, a, b - 1));
    assert(has_valid_split(h));
    let (lo, hi) = choose|lo: int, hi: int| is_plateau(h, lo, hi);
    lemma_plateau_unique(h, a, b - 1, lo, hi);
}

/// Running counts of a histogram whose only samples sit in bin `a`.
proof fn lemma_one_bin_prefix(h: Seq<u64>, a: int, n: int)
    requires
        h.len() == 256,
        0 <= a < 256,
        forall|v: int| 0 <= v < 256 && v != a ==> h[v] == 0,
        0 <= n <= 256,
    ensures
        weight(h, n) == if n > a {
            h[a] as int
        } else {
            0
        },
    decreases n,
{
    if n > 0 {
        lemma_one_bin_prefix(h, a, n - 1);
    }
}

/// With every sample in one bin no cut leaves two non-empty classes,
/// and the threshold is 0.
pub proof fn otsu_single_bin_is_zero(h: Seq<u64>, a: int)
    requires
        h.len() == 256,
        0 <= a < 256,
        h[a] > 0,
        forall|v: int| 0 <= v < 256 && v != a ==> h[v] == 0,
    ensures
        otsu_value(h) == 0,
{
    assert forall|n: int| 0 <= n <= 256 implies #[trigger] weight(h, n) == if n > a {
        h[a] as int
    } else {
        0
    } by {
        lemma_one_bin_prefix(h, a, n);
    }
    assert(hist_total(h) == h[a]);
    assert forall|t: int| !#[trigger] valid_split(h, t) by {
        if 0 <= t < 256 {
            assert(weight(h, t + 1) == if t + 1 > a {
                h[a] as int
            } else {
                0
            });
        }
    }
}

/// A flat frame binarises to one level: every sample is the high level
/// (255, or 0 when inverted).
pub proof fn otsu_flat_frame_is_uniform(v: FrameView, params: VideoStreamParams, invert: bool, i: int)
    requires
        luma_plane(LumaRule::Rec601, params.format, v.planes[0], params.width as int, params.height as int).len() > 0,
        forall|j: int|
            0 <= j < luma_plane(
                LumaRule::Rec601,
                params.format,
                v.planes[0],
                params.width as int,
                params.height as int,
            ).len() ==> #[trigger] luma_plane(
                LumaRule::Rec601,
                params.format,
                v.planes[0],
                params.width as int,
                params.height as int,
            )[j] == luma_plane(
                LumaRule::Rec601,
                params.format,
                v.planes[0],
                params.width as int,
                params.height as int,
            )[0],
        0 <= i < otsu_binarised(v, params, invert).len(),
    ensures
        otsu_binarised(v, params, invert)[i] == if invert {
            0u8
        } else {
            255u8
        },
{
    let g = luma_plane(LumaRule::Rec601, params.format, v.planes[0], params.width as int, params.height as int);
    let c = g[0];
    let h = hist_of(g);
    assert forall|u: int| 0 <= u < 256 implies #[trigger] h[u] == if u == c as int {
        g.len() as u64
    } else {
        0u64
    } by {
        lemma_count_flat(g, c, u);
    }
    assert(params.width * params.height <= 0xffff_ffff * 0xffff_ffff) by (nonlinear_arith)
        requires
            params.width <= 0xffff_ffff,
            params.height <= 0xffff_ffff,
    ;
    assert(g.len() == params.width * params.height);
    assert(h[c as int] == g.len() as u64);
    assert(h[c as int] > 0);
    otsu_single_bin_is_zero(h, c as int);
}

/// Otsu binarises the Rec. 601 intensity `(299 R + 587 G + 114 B) / 1000`
/// of an RGB pixel against the cut of the frame's intensities: below the
/// cut is the low level, the rest the high one (`0` / `255`, swapped
/// when inverted). So a brighter pixel never lands below a darker one:
/// pure green (149) binarises at or above pure blue (29).
pub proof fn otsu_binarises_rec601_intensity(
    v: FrameView,
    params: VideoStreamParams,
    invert: bool,
    y1: int,
    x1: int,
    y2: int,
    x2: int,
)
    requires
        params.format == PixelFormat::Rgb24 || params.format == PixelFormat::Rgba,
        0 <= y1 < params.height,
        0 <= x1 < params.width,
        0 <= y2 < params.height,
        0 <= x2 < params.width,
    ensures
        ({
            let w = params.width as int;
            let bpp = first_plane_bpp(params.format);
            let p = v.planes[0];
            let t = otsu_of_samples(luma_plane(LumaRule::Rec601, params.format, p, w, params.height as int));
            let l1 = (299 * plane_byte(p, y1, bpp * x1) + 587 * plane_byte(p, y1, bpp * x1 + 1) + 114
                * plane_byte(p, y1, bpp * x1 + 2)) / 1000;
            let l2 = (299 * plane_byte(p, y2, bpp * x2) + 587 * plane_byte(p, y2, bpp * x2 + 1) + 114
                * plane_byte(p, y2, bpp * x2 + 2)) / 1000;
            let o = otsu_binarised(v, params, invert);
            &&& o[y1 * w + x1] == (if (l1 < t) != invert {
                0u8
            } else {
                255u8
            })
            &&& l1 <= l2 ==> (if invert {
                o[y2 * w + x2] <= o[y1 * w + x1]
            } else {
                o[y1 * w + x1] <= o[y2 * w + x2]
            })
        }),
{
    let w = params.width as int;
    let h = params.height as int;
    luma_plane_weighs_channels(LumaRule::Rec601, params.format, v.planes[0], w, h, y1, x1);
    luma_plane_weighs_channels(LumaRule::Rec601, params.format, v.planes[0], w, h, y2, x2);
}

} // verus!
