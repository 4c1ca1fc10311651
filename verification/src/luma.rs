//! Collapse a frame's first plane to one 8-bit intensity per pixel.
//!
//! Gray8 and planar YUV use the sample (the Y plane) directly; packed
//! RGB / RGBA use the Rec. 601 luma `(299 R + 587 G + 114 B) / 1000`,
//! the quick luma `(R + 2 G + B) / 4` or the tone, the mean `(R + G + B) / 3`.

use vstd::prelude::*;
use crate::frame::{
    error_text, first_plane_bpp, invalid, lemma_row_in_bounds, rows_fit, FilterError, FrameView,
    PixelFormat, PlaneView, VideoFrame, VideoPlane, VideoStreamParams,
};

verus! {

/// Which RGB weighting a filter uses.
#[derive(Clone, Copy, Debug, PartialEq, Eq, Structural)]
pub enum LumaRule {
    /// `(299 R + 587 G + 114 B) / 1000`.
    Rec601,
    /// `(R + 2 G + B) / 4`.
    Quick,
    /// The mean `(R + G + B) / 3`.
    Tone,
}

/// Rec. 601 luma of an RGB triple.
pub open spec fn rec601_value(r: u8, g: u8, b: u8) -> u8 {
    ((r * 299 + g * 587 + b * 114) / 1000) as u8
}

/// Quick luma `(R + 2G + B) / 4` of an RGB triple.
pub open spec fn quick_luma_value(r: u8, g: u8, b: u8) -> u8 {
    ((r + 2 * g + b) / 4) as u8
}

/// Tone of an RGB triple: the mean `(R + G + B) / 3`.
pub open spec fn tone_value(r: u8, g: u8, b: u8) -> u8 {
    ((r + g + b) / 3) as u8
}

/// Tone of an RGB triple: the mean `(R + G + B) / 3`.
pub fn tone(r: u8, g: u8, b: u8) -> (v: u8)
    ensures
        v == tone_value(r, g, b),
{
    ((r as u32 + g as u32 + b as u32) / 3) as u8
}

/// Rec. 601 luma proxy `(299 R + 587 G + 114 B) / 1000`, capped at 255.
pub fn rec601(r: u8, g: u8, b: u8) -> (v: u8)
    ensures
        v == rec601_value(r, g, b),
{
    let s = (r as u32 * 299 + g as u32 * 587 + b as u32 * 114) / 1000;
    if s > 255 {
        255
    } else {
        s as u8
    }
}

/// Quick luma `(R + 2G + B) / 4`.
pub fn quick_luma(r: u8, g: u8, b: u8) -> (v: u8)
    ensures
        v == quick_luma_value(r, g, b),
{
    ((r as u32 + 2 * g as u32 + b as u32) / 4) as u8
}

/// Byte `j` of row `y`.
pub open spec fn plane_byte(p: PlaneView, y: int, j: int) -> u8 {
    p.data[y * p.stride + j]
}

/// Intensity of pixel `(y, x)` of the first plane.
pub open spec fn luma_at(rule: LumaRule, f: PixelFormat, p: PlaneView, y: int, x: int) -> u8 {
    if f == PixelFormat::Rgb24 || f == PixelFormat::Rgba {
        let bpp = first_plane_bpp(f);
        let r = plane_byte(p, y, bpp * x);
        let g = plane_byte(p, y, bpp * x + 1);
        let b = plane_byte(p, y, bpp * x + 2);
        match rule {
            LumaRule::Rec601 => rec601_value(r, g, b),
            LumaRule::Quick => quick_luma_value(r, g, b),
            LumaRule::Tone => tone_value(r, g, b),
        }
    } else {
        plane_byte(p, y, x)
    }
}

/// The intensity plane, row-major, `w` samples per row.
pub open spec fn luma_plane(rule: LumaRule, f: PixelFormat, p: PlaneView, w: int, h: int) -> Seq<
    u8,
> {
    Seq::new((w * h) as nat, |i: int| luma_at(rule, f, p, i / w, i % w))
}

/// Entry `y * w + x` of a `w`-wide row-major plane is row `y`, column `x`.
pub proof fn lemma_div_mod_index(w: int, y: int, x: int)
    requires
        0 <= x < w,
        0 <= y,
    ensures
        (y * w + x) / w == y,
        (y * w + x) % w == x,
{
    vstd::arithmetic::div_mod::lemma_fundamental_div_mod_converse(y * w + x, w, y, x);
}

/// Collapses the first `h` rows of `w` pixels of `p` to one intensity
/// per pixel.
pub fn collapse_to_luma(rule: LumaRule, f: PixelFormat, p: &VideoPlane, w: usize, h: usize) -> (out:
    Vec<u8>)
    requires
        rows_fit(p.data@.len() as int, p.stride as int, h as int, w * first_plane_bpp(f)),
        w * h <= usize::MAX,
    ensures
        out@ == luma_plane(rule, f, p@, w as int, h as int),
{
    let bpp: usize = match f {
        PixelFormat::Rgb24 => 3,
        PixelFormat::Rgba => 4,
        _ => 1,
    };
    let len = p.data.len();
    let mut out: Vec<u8> = Vec::new();
    let mut y: usize = 0;
    while y < h
        invariant
            0 <= y <= h,
            bpp == first_plane_bpp(f),
            len == p.data@.len(),
            w * h <= usize::MAX,
            rows_fit(p.data@.len() as int, p.stride as int, h as int, w * first_plane_bpp(f)),
            out@.len() == y * w,
            forall|i: int|
                0 <= i < y * w ==> #[trigger] out@[i] == luma_at(rule, f, p@, i / w as int, i % w as int),
        decreases h - y,
    {
        proof {
            lemma_row_in_bounds(p.data@.len() as int, p.stride as int, h as int, w * bpp, y as int);
            assert(y * w + w <= w * h) by (nonlinear_arith)
                requires
                    y < h,
            ;
        }
        let base = y * p.stride;
        let mut x: usize = 0;
        while x < w
            invariant
                0 <= x <= w,
                0 <= y < h,
                bpp == first_plane_bpp(f),
                base == y * p.stride,
                base + w * bpp <= p.data@.len(),
                len == p.data@.len(),
                y * w + w <= w * h,
                w * h <= usize::MAX,
                out@.len() == y * w + x,
                forall|i: int|
                    0 <= i < y * w + x ==> #[trigger] out@[i] == luma_at(
                        rule,
                        f,
                        p@,
                        i / w as int,
                        i % w as int,
                    ),
            decreases w - x,
        {
            proof {
                lemma_div_mod_index(w as int, y as int, x as int);
                assert(x * bpp + bpp <= w * bpp) by (nonlinear_arith)
                    requires
                        x < w,
                        bpp >= 1,
                ;
                assert(bpp * x == x * bpp) by (nonlinear_arith);
            }
            let v = if bpp == 1 {
                p.data[base + x]
            } else {
                let o = base + x * bpp;
                let r = p.data[o];
                let g = p.data[o + 1];
                let b = p.data[o + 2];
                match rule {
                    LumaRule::Rec601 => rec601(r, g, b),
                    LumaRule::Quick => quick_luma(r, g, b),
                    LumaRule::Tone => tone(r, g, b),
                }
            };
            out.push(v);
            x = x + 1;
        }
        y = y + 1;
        proof {
            assert((y - 1) * w + w == y * w) by (nonlinear_arith);
        }
    }
    assert(h * w == w * h) by (nonlinear_arith);
    assert(out@ =~= luma_plane(rule, f, p@, w as int, h as int));
    out
}

/// The frames [`build_luma_plane`] reads without running past a plane:
/// a first plane, if there is one, that holds the picture.
pub open spec fn luma_source_fits(v: FrameView, params: VideoStreamParams) -> bool {
    let w = params.width as int;
    let h = params.height as int;
    &&& w * h <= usize::MAX
    &&& v.planes.len() >= 1 ==> rows_fit(
        v.planes[0].data.len() as int,
        v.planes[0].stride as int,
        h,
        w * first_plane_bpp(params.format),
    )
}

/// The error text for a frame without planes.
pub open spec fn no_plane_text() -> Seq<char> {
    "oxideav-image-filter: luma input requires a non-empty first plane"@
}

/// The quick-luma plane `(R + 2G + B) / 4` of a frame (Gray8 and YUV
/// read the first plane directly), `width × height` samples.
pub fn build_luma_plane(input: &VideoFrame, params: VideoStreamParams) -> (r: Result<
    Vec<u8>,
    FilterError,
>)
    requires
        luma_source_fits(input@, params),
    ensures
        input@.planes.len() == 0 ==> r is Err && r->Err_0 is Invalid && error_text(r->Err_0)
            == no_plane_text(),
        input@.planes.len() >= 1 ==> r is Ok && r->Ok_0@ == luma_plane(
            LumaRule::Quick,
            params.format,
            input@.planes[0],
            params.width as int,
            params.height as int,
        ),
{
    if input.planes.len() == 0 {
        return Err(invalid("oxideav-image-filter: luma input requires a non-empty first plane"));
    }
    Ok(
        collapse_to_luma(
            LumaRule::Quick,
            params.format,
            &input.planes[0],
            params.width as usize,
            params.height as usize,
        ),
    )
}

/// What each rule makes of pixel `(y, x)` of the intensity plane,
/// written out in the channels: for packed RGB, Rec. 601 weighs
/// `(299 R + 587 G + 114 B) / 1000`, the quick luma `(R + 2 G + B) / 4`
/// and the tone is the mean `(R + G + B) / 3`; a Gray8 or YUV sample is
/// its own intensity.
pub proof fn luma_plane_weighs_channels(rule: LumaRule, f: PixelFormat, p: PlaneView, w: int, h: int, y: int, x: int)
    requires
        0 <= y < h,
        0 <= x < w,
    ensures
        y * w + x < luma_plane(rule, f, p, w, h).len(),
        ({
            let bpp = first_plane_bpp(f);
            let r = plane_byte(p, y, bpp * x) as int;
            let g = plane_byte(p, y, bpp * x + 1) as int;
            let b = plane_byte(p, y, bpp * x + 2) as int;
            let v = luma_plane(rule, f, p, w, h)[y * w + x] as int;
            if f == PixelFormat::Rgb24 || f == PixelFormat::Rgba {
                match rule {
                    LumaRule::Rec601 => v == (299 * r + 587 * g + 114 * b) / 1000,
                    LumaRule::Quick => v == (r + 2 * g + b) / 4,
                    LumaRule::Tone => v == (r + g + b) / 3,
                }
            } else {
                v == plane_byte(p, y, x) as int
            }
        }),
{
    lemma_div_mod_index(w, y, x);
    assert(0 <= y * w + x < w * h) by (nonlinear_arith)
        requires
            0 <= y < h,
            0 <= x < w,
    ;
    let bpp = first_plane_bpp(f);
    let r = plane_byte(p, y, bpp * x);
    let g = plane_byte(p, y, bpp * x + 1);
    let b = plane_byte(p, y, bpp * x + 2);
    assert((r * 299 + g * 587 + b * 114) / 1000 <= 255);
    assert((r + 2 * g + b) / 4 <= 255);
    assert((r + g + b) / 3 <= 255);
}

} // verus!
