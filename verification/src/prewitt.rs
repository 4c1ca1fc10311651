//! Prewitt first-derivative edge operator.
//!
//! Two flat 3×3 kernels estimate the horizontal and vertical gradient:
//!
//! ```text
//!        [ -1  0  +1 ]              [ -1  -1  -1 ]
//! Gx  =  [ -1  0  +1 ]      Gy  =   [  0   0   0 ]
//!        [ -1  0  +1 ]              [ +1  +1  +1 ]
//! ```
//!
//! and the edge strength is `sqrt(Gx² + Gy²)` rounded to the nearest
//! integer (`L2`, the default) or `|Gx| + |Gy|` (`L1`), clamped to
//! `[0, 255]`. Samples outside the picture are clamped to the border so
//! the output keeps the input size. The input is first collapsed to its
//! quick luma; the output is one `Gray8` plane.

use vstd::prelude::*;
use crate::boxsum::clampi;
use crate::frame::{
    error_text, first_plane_bpp, is_supported_format, single_plane_frame, PixelFormat, supported_format, unsupported,
    unsupported_text, FilterError, FrameView, PlaneView, VideoFrame, VideoStreamParams,
};
use crate::luma::{
    build_luma_plane, lemma_div_mod_index, luma_plane, luma_source_fits, no_plane_text, plane_byte, LumaRule,
};

verus! {

/// How the two gradient responses combine into one edge strength.
#[derive(Clone, Copy, Debug, PartialEq, Eq, Structural)]
pub enum PrewittMagnitude {
    /// `sqrt(Gx² + Gy²)`, rounded to the nearest integer.
    L2,
    /// `|Gx| + |Gy|`.
    L1,
}

impl Default for PrewittMagnitude {
    fn default() -> (m: Self)
        ensures
            m == PrewittMagnitude::L2,
    {
        PrewittMagnitude::L2
    }
}

/// Prewitt edge-detection filter.
#[derive(Clone, Copy, Debug)]
pub struct Prewitt {
    /// Magnitude combination, [`PrewittMagnitude::L2`] by default.
    pub magnitude: PrewittMagnitude,
}

impl Default for Prewitt {
    fn default() -> (p: Self)
        ensures
            p.magnitude == PrewittMagnitude::L2,
    {
        Prewitt { magnitude: PrewittMagnitude::L2 }
    }
}

impl Prewitt {
    /// The default operator (L2 magnitude).
    pub fn new() -> (p: Self)
        ensures
            p.magnitude == PrewittMagnitude::L2,
    {
        Prewitt { magnitude: PrewittMagnitude::L2 }
    }

    /// The operator with the `|Gx| + |Gy|` magnitude.
    pub fn l1() -> (p: Self)
        ensures
            p.magnitude == PrewittMagnitude::L1,
    {
        Prewitt { magnitude: PrewittMagnitude::L1 }
    }

    /// Overrides the magnitude combination.
    pub fn with_magnitude(self, magnitude: PrewittMagnitude) -> (p: Self)
        ensures
            p.magnitude == magnitude,
    {
        Prewitt { magnitude }
    }
}

/// `r` is the integer nearest to `√n`: `|√n − r| < 1/2`, written
/// without roots as `(2r − 1)² < 4n < (2r + 1)²` (the left bound only
/// when `r > 0`).
pub open spec fn is_nearest_root(n: int, r: int) -> bool {
    &&& 0 <= r
    &&& r == 0 || (2 * r - 1) * (2 * r - 1) < 4 * n
    &&& 4 * n < (2 * r + 1) * (2 * r + 1)
}

/// The integer nearest to `√n`.
pub open spec fn nearest_root(n: int) -> int {
    choose|r: int| is_nearest_root(n, r)
}

/// At most one integer is nearest to `√n`.
pub proof fn lemma_nearest_root_unique(n: int, r1: int, r2: int)
    requires
        is_nearest_root(n, r1),
        is_nearest_root(n, r2),
    ensures
        r1 == r2,
{
    if r1 < r2 {
        assert((2 * r1 + 1) * (2 * r1 + 1) <= (2 * r2 - 1) * (2 * r2 - 1)) by (nonlinear_arith)
            requires
                0 <= r1,
                r1 + 1 <= r2,
        ;
    } else if r2 < r1 {
        assert((2 * r2 + 1) * (2 * r2 + 1) <= (2 * r1 - 1) * (2 * r1 - 1)) by (nonlinear_arith)
            requires
                0 <= r2,
                r2 + 1 <= r1,
        ;
    }
}

/// The integer nearest to `√n`, for `n < 2²²`.
pub fn round_sqrt(n: u32) -> (r: u32)
    requires
        n < 0x40_0000,
    ensures
        is_nearest_root(n as int, r as int),
        r == nearest_root(n as int),
        r <= 2048,
{
    // Floor root by bisection: lo² <= n < hi².
    let mut lo: u32 = 0;
    let mut hi: u32 = 2048;
    while hi - lo > 1
        invariant
            lo < hi <= 2048,
            n < 0x40_0000,
            lo * lo <= n,
            n < hi * hi,
        decreases hi - lo,
    {
        let mid = lo + (hi - lo) / 2;
        assert(mid * mid <= 2048 * 2048) by (nonlinear_arith)
            requires
                mid <= 2048,
        ;
        if mid * mid <= n {
            lo = mid;
        } else {
            hi = mid;
        }
    }
    let s = lo;
    assert(hi == s + 1);
    let r = if n - s * s > s {
        s + 1
    } else {
        s
    };
    assert(is_nearest_root(n as int, r as int)) by (nonlinear_arith)
        requires
            s * s <= n,
            n < (s + 1) * (s + 1),
            (n - s * s > s) ==> r == s + 1,
            !(n - s * s > s) ==> r == s,
    ;
    proof {
        lemma_nearest_root_unique(n as int, r as int, nearest_root(n as int));
    }
    r
}

/// Luma sample at `(y, x)`, clamped into the `w × h` picture.
pub open spec fn clamped_luma(lum: Seq<u8>, w: int, h: int, y: int, x: int) -> int {
    lum[clampi(y, h - 1) * w + clampi(x, w - 1)] as int
}

/// Horizontal response: right column minus left column.
pub open spec fn prewitt_gx(lum: Seq<u8>, w: int, h: int, y: int, x: int) -> int {
    (clamped_luma(lum, w, h, y - 1, x + 1) + clamped_luma(lum, w, h, y, x + 1) + clamped_luma(
        lum,
        w,
        h,
        y + 1,
        x + 1,
    )) - (clamped_luma(lum, w, h, y - 1, x - 1) + clamped_luma(lum, w, h, y, x - 1)
        + clamped_luma(lum, w, h, y + 1, x - 1))
}

/// Vertical response: bottom row minus top row.
pub open spec fn prewitt_gy(lum: Seq<u8>, w: int, h: int, y: int, x: int) -> int {
    (clamped_luma(lum, w, h, y + 1, x - 1) + clamped_luma(lum, w, h, y + 1, x) + clamped_luma(
        lum,
        w,
        h,
        y + 1,
        x + 1,
    )) - (clamped_luma(lum, w, h, y - 1, x - 1) + clamped_luma(lum, w, h, y - 1, x)
        + clamped_luma(lum, w, h, y - 1, x + 1))
}

/// Absolute value.
pub open spec fn abs_int(v: int) -> int {
    if v < 0 {
        -v
    } else {
        v
    }
}

/// Edge strength before clamping.
pub open spec fn prewitt_strength(mag: PrewittMagnitude, gx: int, gy: int) -> int {
    match mag {
        PrewittMagnitude::L2 => nearest_root(gx * gx + gy * gy),
        PrewittMagnitude::L1 => abs_int(gx) + abs_int(gy),
    }
}

/// Output sample at `(y, x)`.
pub open spec fn prewitt_at(lum: Seq<u8>, w: int, h: int, mag: PrewittMagnitude, y: int, x: int) -> u8 {
    let g = prewitt_strength(mag, prewitt_gx(lum, w, h, y, x), prewitt_gy(lum, w, h, y, x));
    if g > 255 {
        255
    } else {
        g as u8
    }
}

/// The edge plane of a `w × h` luma plane, row-major.
pub open spec fn prewitt_plane(lum: Seq<u8>, w: int, h: int, mag: PrewittMagnitude) -> Seq<u8> {
    Seq::new((w * h) as nat, |i: int| prewitt_at(lum, w, h, mag, i / w, i % w))
}

/// Position of the sample at `(y, x)` clamped into the picture.
fn clamped_index(w: usize, h: usize, y: usize, dy: i8, x: usize, dx: i8) -> (i: usize)
    requires
        w > 0,
        h > 0,
        y < h,
        x < w,
        -1 <= dy <= 1,
        -1 <= dx <= 1,
        w * h <= usize::MAX,
    ensures
        i == clampi(y + dy, h - 1) * w + clampi(x + dx, w - 1),
        i < w * h,
{
    let cy: usize = if dy < 0 {
        if y == 0 {
            0
        } else {
            y - 1
        }
    } else if dy > 0 {
        if y + 1 >= h {
            h - 1
        } else {
            y + 1
        }
    } else {
        y
    };
    let cx: usize = if dx < 0 {
        if x == 0 {
            0
        } else {
            x - 1
        }
    } else if dx > 0 {
        if x + 1 >= w {
            w - 1
        } else {
            x + 1
        }
    } else {
        x
    };
    assert(cy * w + cx < w * h) by (nonlinear_arith)
        requires
            cy < h,
            cx < w,
    ;
    cy * w + cx
}

/// Applies the Prewitt kernels to a `w × h` luma plane.
pub fn prewitt(luma: &Vec<u8>, w: usize, h: usize, mag: PrewittMagnitude) -> (out: Vec<u8>)
    requires
        luma.len() == w * h,
        w * h <= usize::MAX,
    ensures
        out@ == prewitt_plane(luma@, w as int, h as int, mag),
{
    let mut out: Vec<u8> = Vec::new();
    if w == 0 || h == 0 {
        assert(w * h == 0) by (nonlinear_arith)
            requires
                w == 0 || h == 0,
        ;
        assert(out@ =~= prewitt_plane(luma@, w as int, h as int, mag));
        return out;
    }
    let ghost lum = luma@;
    let mut y: usize = 0;
    while y < h
        invariant
            0 <= y <= h,
            w > 0,
            h > 0,
            lum == luma@,
            luma.len() == w * h,
            w * h <= usize::MAX,
            out@.len() == y * w,
            forall|i: int|
                0 <= i < y * w ==> #[trigger] out@[i] == prewitt_at(lum, w as int, h as int, mag, i / w as int, i % w as int),
        decreases h - y,
    {
        proof {
            assert(y * w + w <= w * h) by (nonlinear_arith)
                requires
                    y < h,
            ;
        }
        let mut x: usize = 0;
        while x < w
            invariant
                0 <= x <= w,
                0 <= y < h,
                w > 0,
                h > 0,
                lum == luma@,
                luma.len() == w * h,
                w * h <= usize::MAX,
                y * w + w <= w * h,
                out@.len() == y * w + x,
                forall|i: int|
                    0 <= i < y * w + x ==> #[trigger] out@[i] == prewitt_at(lum, w as int, h as int, mag, i / w as int, i % w as int),
            decreases w - x,
        {
            let p00 = luma[clamped_index(w, h, y, -1, x, -1)] as i32;
            let p10 = luma[clamped_index(w, h, y, -1, x, 0)] as i32;
            let p20 = luma[clamped_index(w, h, y, -1, x, 1)] as i32;
            let p01 = luma[clamped_index(w, h, y, 0, x, -1)] as i32;
            let p21 = luma[clamped_index(w, h, y, 0, x, 1)] as i32;
            let p02 = luma[clamped_index(w, h, y, 1, x, -1)] as i32;
            let p12 = luma[clamped_index(w, h, y, 1, x, 0)] as i32;
            let p22 = luma[clamped_index(w, h, y, 1, x, 1)] as i32;
            let gx = (p20 + p21 + p22) - (p00 + p01 + p02);
            let gy = (p02 + p12 + p22) - (p00 + p10 + p20);
            proof {
                assert(gx == prewitt_gx(lum, w as int, h as int, y as int, x as int));
                assert(gy == prewitt_gy(lum, w as int, h as int, y as int, x as int));
            }
            let g: i32 = match mag {
                PrewittMagnitude::L2 => {
                    assert(0 <= gx * gx <= 765 * 765) by (nonlinear_arith)
                        requires
                            -765 <= gx <= 765,
                    ;
                    assert(0 <= gy * gy <= 765 * 765) by (nonlinear_arith)
                        requires
                            -765 <= gy <= 765,
                    ;
                    let n = (gx * gx + gy * gy) as u32;
                    round_sqrt(n) as i32
                },
                PrewittMagnitude::L1 => {
                    let ax = if gx < 0 {
                        -gx
                    } else {
                        gx
                    };
                    let ay = if gy < 0 {
                        -gy
                    } else {
                        gy
                    };
                    ax + ay
                },
            };
            let v: u8 = if g > 255 {
                255
            } else {
                g as u8
            };
            proof {
                lemma_div_mod_index(w as int, y as int, x as int);
            }
            out.push(v);
            x = x + 1;
        }
        y = y + 1;
        proof {
            assert((y - 1) * w + w == y * w) by (nonlinear_arith);
        }
    }
    assert(h * w == w * h) by (nonlinear_arith);
    assert(out@ =~= prewitt_plane(luma@, w as int, h as int, mag));
    out
}

/// The prefix of the error for a layout `Prewitt` does not handle.
pub open spec fn prewitt_error_prefix() -> Seq<char> {
    "oxideav-image-filter: Prewitt does not yet handle "@
}

impl Prewitt {
    /// Edge-detects a frame into one `Gray8` plane of `width` bytes per
    /// row.
    pub fn apply(&self, input: &VideoFrame, params: VideoStreamParams) -> (r: Result<
        VideoFrame,
        FilterError,
    >)
        requires
            supported_format(params.format) ==> luma_source_fits(input@, params),
        ensures
            !supported_format(params.format) ==> r is Err && r->Err_0 is Unsupported && error_text(
                r->Err_0,
            ) == unsupported_text(prewitt_error_prefix(), params.format),
            supported_format(params.format) && input@.planes.len() == 0 ==> r is Err && r->Err_0 is Invalid
                && error_text(r->Err_0) == no_plane_text(),
            supported_format(params.format) && input@.planes.len() >= 1 ==> r is Ok && r->Ok_0@ == (
            FrameView {
                pts: input.pts,
                planes: seq![
                    PlaneView {
                        stride: params.width as usize,
                        data: prewitt_plane(
                            luma_plane(
                                LumaRule::Quick,
                                params.format,
                                input@.planes[0],
                                params.width as int,
                                params.height as int,
                            ),
                            params.width as int,
                            params.height as int,
                            self.magnitude,
                        ),
                    },
                ],
            }),
    {
        if !is_supported_format(params.format) {
            return Err(unsupported("oxideav-image-filter: Prewitt does not yet handle ", params.format));
        }
        let w = params.width as usize;
        let h = params.height as usize;
        let luma = match build_luma_plane(input, params) {
            Ok(l) => l,
            Err(e) => {
                return Err(e);
            },
        };
        let out = prewitt(&luma, w, h, self.magnitude);
        Ok(single_plane_frame(input.pts, w, out))
    }
}

/// A flat picture has no edges: every output sample is 0.
pub proof fn prewitt_flat_is_zero(lum: Seq<u8>, w: int, h: int, mag: PrewittMagnitude, v: u8, y: int, x: int)
    requires
        0 <= y < h,
        0 <= x < w,
        lum.len() == w * h,
        forall|i: int| 0 <= i < w * h ==> #[trigger] lum[i] == v,
    ensures
        prewitt_at(lum, w, h, mag, y, x) == 0,
{
    assert forall|yy: int, xx: int| #[trigger] clamped_luma(lum, w, h, yy, xx) == v by {
        let cy = clampi(yy, h - 1);
        let cx = clampi(xx, w - 1);
        assert(0 <= cy * w + cx < w * h) by (nonlinear_arith)
            requires
                0 <= cy < h,
                0 <= cx < w,
        ;
    }
    assert(prewitt_gx(lum, w, h, y, x) == 0);
    assert(prewitt_gy(lum, w, h, y, x) == 0);
    assert((2 * 0 + 1) * (2 * 0 + 1) == 1) by (nonlinear_arith);
    assert(is_nearest_root(0, 0));
    lemma_nearest_root_unique(0, 0, nearest_root(0));
}

/// The responses see only differences between neighbours: adding `c`
/// to every sample keeps them, and mapping every sample `v` to `c - v`
/// negates them.
proof fn lemma_responses_under_affine(
    lum: Seq<u8>,
    lum2: Seq<u8>,
    w: int,
    h: int,
    c: int,
    flip: bool,
    y: int,
    x: int,
)
    requires
        w > 0,
        h > 0,
        lum.len() == w * h,
        lum2.len() == w * h,
        forall|i: int|
            0 <= i < w * h ==> #[trigger] lum2[i] as int == if flip {
                c - lum[i] as int
            } else {
                lum[i] as int + c
            },
    ensures
        prewitt_gx(lum2, w, h, y, x) == if flip {
            -prewitt_gx(lum, w, h, y, x)
        } else {
            prewitt_gx(lum, w, h, y, x)
        },
        prewitt_gy(lum2, w, h, y, x) == if flip {
            -prewitt_gy(lum, w, h, y, x)
        } else {
            prewitt_gy(lum, w, h, y, x)
        },
{
    assert forall|yy: int, xx: int| #[trigger]
        clamped_luma(lum2, w, h, yy, xx) == if flip {
            c - clamped_luma(lum, w, h, yy, xx)
        } else {
            clamped_luma(lum, w, h, yy, xx) + c
        } by {
        let cy = clampi(yy, h - 1);
        let cx = clampi(xx, w - 1);
        assert(0 <= cy * w + cx < w * h) by (nonlinear_arith)
            requires
                0 <= cy < h,
                0 <= cx < w,
        ;
        assert(lum2[cy * w + cx] as int == if flip {
            c - lum[cy * w + cx] as int
        } else {
            lum[cy * w + cx] as int + c
        });
    }
}

/// Equal sample for sample when every sample is shifted by `c`, or
/// mapped to `c - v` when `flip`.
proof fn lemma_plane_under_affine(
    lum: Seq<u8>,
    lum2: Seq<u8>,
    w: int,
    h: int,
    mag: PrewittMagnitude,
    c: int,
    flip: bool,
)
    requires
        w >= 0,
        h >= 0,
        lum.len() == w * h,
        lum2.len() == w * h,
        forall|i: int|
            0 <= i < w * h ==> #[trigger] lum2[i] as int == if flip {
                c - lum[i] as int
            } else {
                lum[i] as int + c
            },
    ensures
        prewitt_plane(lum2, w, h, mag) == prewitt_plane(lum, w, h, mag),
{
    assert forall|i: int| 0 <= i < w * h implies #[trigger] prewitt_plane(lum2, w, h, mag)[i]
        == prewitt_plane(lum, w, h, mag)[i] by {
        assert(w > 0 && h > 0) by (nonlinear_arith)
            requires
                w >= 0,
                h >= 0,
                0 <= i < w * h,
        ;
        let y = i / w;
        let x = i % w;
        lemma_responses_under_affine(lum, lum2, w, h, c, flip, y, x);
        let gx = prewitt_gx(lum, w, h, y, x);
        let gy = prewitt_gy(lum, w, h, y, x);
        assert((-gx) * (-gx) + (-gy) * (-gy) == gx * gx + gy * gy) by (nonlinear_arith);
    }
    assert(prewitt_plane(lum2, w, h, mag) =~= prewitt_plane(lum, w, h, mag));
}

/// Inverting the picture (every sample `v` becomes `255 - v`) leaves the
/// edge plane unchanged: both responses only change sign.
pub proof fn prewitt_ignores_inversion(lum: Seq<u8>, inv: Seq<u8>, w: int, h: int, mag: PrewittMagnitude)
    requires
        w >= 0,
        h >= 0,
        lum.len() == w * h,
        inv.len() == w * h,
        forall|i: int| 0 <= i < w * h ==> #[trigger] inv[i] as int == 255 - lum[i] as int,
    ensures
        prewitt_plane(inv, w, h, mag) == prewitt_plane(lum, w, h, mag),
{
    lemma_plane_under_affine(lum, inv, w, h, mag, 255, true);
}

/// Brightening or darkening the picture by a constant `c` (every sample
/// `v` becomes `v + c`, still a byte) leaves the edge plane unchanged.
pub proof fn prewitt_ignores_shift(lum: Seq<u8>, shifted: Seq<u8>, w: int, h: int, mag: PrewittMagnitude, c: int)
    requires
        w >= 0,
        h >= 0,
        lum.len() == w * h,
        shifted.len() == w * h,
        forall|i: int| 0 <= i < w * h ==> #[trigger] shifted[i] as int == lum[i] as int + c,
    ensures
        prewitt_plane(shifted, w, h, mag) == prewitt_plane(lum, w, h, mag),
{
    lemma_plane_under_affine(lum, shifted, w, h, mag, c, false);
}

/// On packed RGB, Prewitt finds the edges of the quick luma
/// `(R + 2 G + B) / 4`: its edge plane is the edge plane of that luma,
/// written out from the channels. So green counts twice as much as red
/// or blue, and a step in green alone is an edge.
pub proof fn prewitt_edges_of_quick_luma(v: FrameView, params: VideoStreamParams, mag: PrewittMagnitude)
    requires
        params.format == PixelFormat::Rgb24 || params.format == PixelFormat::Rgba,
    ensures
        ({
            let w = params.width as int;
            let h = params.height as int;
            let bpp = first_plane_bpp(params.format);
            let p = v.planes[0];
            let quick = Seq::new(
                (w * h) as nat,
                |i: int|
                    ((plane_byte(p, i / w, bpp * (i % w)) + 2 * plane_byte(p, i / w, bpp * (i % w) + 1)
                        + plane_byte(p, i / w, bpp * (i % w) + 2)) / 4) as u8,
            );
            prewitt_plane(luma_plane(LumaRule::Quick, params.format, p, w, h), w, h, mag)
                == prewitt_plane(quick, w, h, mag)
        }),
{
    let w = params.width as int;
    let h = params.height as int;
    let bpp = first_plane_bpp(params.format);
    let p = v.planes[0];
    let quick = Seq::new(
        (w * h) as nat,
        |i: int|
            ((plane_byte(p, i / w, bpp * (i % w)) + 2 * plane_byte(p, i / w, bpp * (i % w) + 1)
                + plane_byte(p, i / w, bpp * (i % w) + 2)) / 4) as u8,
    );
    assert(luma_plane(LumaRule::Quick, params.format, p, w, h) =~= quick);
}

/// Sample `(yy, xx)` of a `w × h` plane, clamped, sits at column
/// `clampi(xx, w - 1)` and row `clampi(yy, h - 1)`.
proof fn lemma_clamped_position(w: int, h: int, yy: int, xx: int)
    requires
        w > 0,
        h > 0,
    ensures
        0 <= clampi(yy, h - 1) * w + clampi(xx, w - 1) < w * h,
        (clampi(yy, h - 1) * w + clampi(xx, w - 1)) % w == clampi(xx, w - 1),
        (clampi(yy, h - 1) * w + clampi(xx, w - 1)) / w == clampi(yy, h - 1),
{
    let cy = clampi(yy, h - 1);
    let cx = clampi(xx, w - 1);
    lemma_div_mod_index(w, cy, cx);
    assert(0 <= cy * w + cx < w * h) by (nonlinear_arith)
        requires
            0 <= cy < h,
            0 <= cx < w,
    ;
}

/// A vertical step edge (every row `a` left of column `x0`, `b` from it
/// on) answers on both sides of the step with `Gx = 3 (b - a)` and
/// `Gy = 0`, so the L1 strength is `3 |b - a|`, capped at 255.
pub proof fn prewitt_vertical_step(lum: Seq<u8>, w: int, h: int, a: u8, b: u8, x0: int, y: int, x: int)
    requires
        h > 0,
        lum.len() == w * h,
        1 <= x0 < w,
        x0 - 1 <= x <= x0,
        0 <= y < h,
        forall|i: int| 0 <= i < w * h ==> #[trigger] lum[i] == if i % w < x0 {
            a
        } else {
            b
        },
    ensures
        prewitt_gx(lum, w, h, y, x) == 3 * (b - a),
        prewitt_gy(lum, w, h, y, x) == 0,
        prewitt_at(lum, w, h, PrewittMagnitude::L1, y, x) as int == if 3 * abs_int(b - a) > 255 {
            255
        } else {
            3 * abs_int(b - a)
        },
{
    assert forall|yy: int, xx: int| #[trigger] clamped_luma(lum, w, h, yy, xx) == if clampi(xx, w - 1) < x0 {
        a
    } else {
        b
    } by {
        lemma_clamped_position(w, h, yy, xx);
    }
}

/// A horizontal step edge (every column `a` above row `y0`, `b` from it
/// down) answers on both sides of the step with `Gy = 3 (b - a)` and
/// `Gx = 0`, so the L1 strength is `3 |b - a|`, capped at 255.
pub proof fn prewitt_horizontal_step(lum: Seq<u8>, w: int, h: int, a: u8, b: u8, y0: int, y: int, x: int)
    requires
        w > 0,
        lum.len() == w * h,
        1 <= y0 < h,
        y0 - 1 <= y <= y0,
        0 <= x < w,
        forall|i: int| 0 <= i < w * h ==> #[trigger] lum[i] == if i / w < y0 {
            a
        } else {
            b
        },
    ensures
        prewitt_gy(lum, w, h, y, x) == 3 * (b - a),
        prewitt_gx(lum, w, h, y, x) == 0,
        prewitt_at(lum, w, h, PrewittMagnitude::L1, y, x) as int == if 3 * abs_int(b - a) > 255 {
            255
        } else {
            3 * abs_int(b - a)
        },
{
    assert forall|yy: int, xx: int| #[trigger] clamped_luma(lum, w, h, yy, xx) == if clampi(yy, h - 1) < y0 {
        a
    } else {
        b
    } by {
        lemma_clamped_position(w, h, yy, xx);
    }
}

/// Some integer is nearest to `√n`, searching up from `r0`.
proof fn lemma_nearest_root_exists(n: int, r0: int) -> (r: int)
    requires
        0 <= n <= 2_000_000,
        0 <= r0,
        r0 == 0 || (2 * r0 - 1) * (2 * r0 - 1) < 4 * n,
    ensures
        is_nearest_root(n, r),
    decreases 2000 - r0,
{
    if 4 * n < (2 * r0 + 1) * (2 * r0 + 1) {
        r0
    } else {
        let k = r0 * r0 + r0;
        assert((2 * r0 + 1) * (2 * r0 + 1) == 4 * k + 1) by (nonlinear_arith)
            requires
                k == r0 * r0 + r0,
        ;
        assert((2 * r0 + 1) * (2 * r0 + 1) != 4 * n);
        assert(r0 < 2000) by (nonlinear_arith)
            requires
                (2 * r0 + 1) * (2 * r0 + 1) <= 4 * n,
                n <= 2_000_000,
                r0 >= 0,
        ;
        assert(2 * (r0 + 1) - 1 == 2 * r0 + 1);
        lemma_nearest_root_exists(n, r0 + 1)
    }
}

/// The two strengths, written out in the responses `Gx`, `Gy`: L1 is
/// `|Gx| + |Gy|` and L2 the integer nearest `√(Gx² + Gy²)`, each capped
/// at 255.
pub proof fn prewitt_strengths(lum: Seq<u8>, w: int, h: int, y: int, x: int)
    ensures
        ({
            let gx = prewitt_gx(lum, w, h, y, x);
            let gy = prewitt_gy(lum, w, h, y, x);
            let l1 = (if gx < 0 { -gx } else { gx }) + (if gy < 0 { -gy } else { gy });
            let n = gx * gx + gy * gy;
            let o2 = prewitt_at(lum, w, h, PrewittMagnitude::L2, y, x) as int;
            &&& prewitt_at(lum, w, h, PrewittMagnitude::L1, y, x) as int == if l1 > 255 {
                255
            } else {
                l1
            }
            &&& o2 < 255 ==> (o2 == 0 || (2 * o2 - 1) * (2 * o2 - 1) < 4 * n) && 4 * n < (2 * o2 + 1) * (2
                * o2 + 1)
            &&& o2 == 255 ==> 509 * 509 < 4 * n
        }),
{
    let gx = prewitt_gx(lum, w, h, y, x);
    let gy = prewitt_gy(lum, w, h, y, x);
    assert(-765 <= gx <= 765 && -765 <= gy <= 765);
    let n = gx * gx + gy * gy;
    assert(0 <= n <= 2 * 765 * 765) by (nonlinear_arith)
        requires
            -765 <= gx <= 765,
            -765 <= gy <= 765,
            n == gx * gx + gy * gy,
    ;
    let r = lemma_nearest_root_exists(n, 0);
    lemma_nearest_root_unique(n, r, nearest_root(n));
    if r >= 255 {
        assert(509 * 509 <= (2 * r - 1) * (2 * r - 1)) by (nonlinear_arith)
            requires
                r >= 255,
        ;
    }
}

} // verus!
