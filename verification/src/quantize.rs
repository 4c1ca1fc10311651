//! Uniform colour quantization to a small palette.
//!
//! Each RGB axis is cut into `k` buckets, `k` the smallest integer with
//! `k³ >= colors` (at least 2), and every sample is snapped to its
//! bucket's palette value:
//!
//! ```text
//! bucket = min((v * k + k / 2) / 256, k - 1)
//! v'     = round(bucket * 255 / (k - 1))
//! ```
//!
//! so the palette spans `[0, 255]`. Gray8 is a 1-D quantizer with
//! `k = clamp(colors, 2, 256)`; RGBA alpha is kept; other layouts are
//! refused.

use vstd::prelude::*;
use crate::frame::{
    error_text, first_plane_bpp, gray_or_packed_rgb, rows_fit, single_plane_frame, unsupported,
    unsupported_text, FilterError, FrameView, PixelFormat, PlaneView, VideoFrame,
    VideoStreamParams,
};
use crate::grid::{grid_full, px_index};
use crate::luma::plane_byte;
use crate::lut::{make_identity_table, map_through_tables, table_views, through_tables};

verus! {

/// `k` is the smallest positive integer whose cube reaches `c`.
pub open spec fn is_cube_ceiling(c: int, k: int) -> bool {
    &&& k >= 1
    &&& (k - 1) * (k - 1) * (k - 1) < c
    &&& c <= k * k * k
}

/// The smallest positive integer whose cube reaches `c`: `ceil(∛c)`.
pub open spec fn cube_ceiling(c: int) -> int {
    choose|k: int| is_cube_ceiling(c, k)
}

/// At most one integer is the cube ceiling of `c`.
proof fn lemma_cube_ceiling_unique(c: int, k1: int, k2: int)
    requires
        is_cube_ceiling(c, k1),
        is_cube_ceiling(c, k2),
    ensures
        k1 == k2,
{
    if k1 < k2 {
        assert(k1 * k1 * k1 <= (k2 - 1) * (k2 - 1) * (k2 - 1)) by (nonlinear_arith)
            requires
                1 <= k1 <= k2 - 1,
        ;
    } else if k2 < k1 {
        assert(k2 * k2 * k2 <= (k1 - 1) * (k1 - 1) * (k1 - 1)) by (nonlinear_arith)
            requires
                1 <= k2 <= k1 - 1,
        ;
    }
}

/// The colour count in effect: at least 2.
pub open spec fn effective_colors(colors: u32) -> int {
    if colors < 2 {
        2
    } else {
        colors as int
    }
}

/// Levels per RGB axis for a colour budget.
pub open spec fn axis_levels(colors: u32) -> int {
    cube_ceiling(effective_colors(colors))
}

/// The level count in effect for [`snap`](Quantize::snap): at least 2.
pub open spec fn effective_k(k: u32) -> int {
    if k < 2 {
        2
    } else {
        k as int
    }
}

/// The bucket of sample `v` on an axis of `k` levels.
pub open spec fn snap_bucket(v: int, k: int) -> int {
    let b = (v * k + k / 2) / 256;
    if b < k - 1 {
        b
    } else {
        k - 1
    }
}

/// Palette value `b` of an axis of `k` levels: `round(b * 255 / (k - 1))`.
pub open spec fn palette_value(b: int, k: int) -> int {
    (b * 255 + (k - 1) / 2) / (k - 1)
}

/// Sample `v` snapped to an axis of `k` levels.
pub open spec fn snap_value(v: int, k: int) -> int {
    palette_value(snap_bucket(v, k), k)
}

/// A palette value of `k` levels lies in `[0, 255]`.
proof fn lemma_palette_range(b: int, k: int)
    requires
        k >= 2,
        0 <= b <= k - 1,
    ensures
        0 <= palette_value(b, k) <= 255,
{
    let d = k - 1;
    assert(0 <= b * 255 + d / 2 < 256 * d) by (nonlinear_arith)
        requires
            d >= 1,
            0 <= b <= d,
    ;
    vstd::arithmetic::div_mod::lemma_div_is_ordered(0, b * 255 + d / 2, d);
    vstd::arithmetic::div_mod::lemma_div_by_multiple_is_strongly_ordered(b * 255 + d / 2, 256 * d, 256, d);
    vstd::arithmetic::div_mod::lemma_div_by_multiple(256, d);
}

/// Uniform-grid colour quantizer.
#[derive(Clone, Copy, Debug)]
pub struct Quantize {
    /// Palette budget; the RGB grid rounds it up to the next perfect
    /// cube `k³`, Gray8 uses it directly (clamped to `[2, 256]`).
    pub colors: u32,
}

impl Quantize {
    /// Builds a quantizer; budgets below 2 become 2.
    pub fn new(colors: u32) -> (q: Self)
        ensures
            q.colors == effective_colors(colors),
    {
        Quantize {
            colors: if colors < 2 {
                2
            } else {
                colors
            },
        }
    }

    /// Levels per axis for this budget: the smallest `k` with
    /// `k³ >= colors` (colors taken as at least 2).
    pub fn levels_per_axis(&self) -> (k: u32)
        ensures
            k == axis_levels(self.colors),
            is_cube_ceiling(effective_colors(self.colors), k as int),
            k >= 2,
    {
        let c: u64 = if self.colors < 2 {
            2
        } else {
            self.colors as u64
        };
        let mut k: u64 = 1;
        while k * k * k < c
            invariant
                1 <= k <= 1626,
                2 <= c <= 0xffff_ffff,
                (k - 1) * (k - 1) * (k - 1) < c,
                k * k <= 1626 * 1626,
                k * k * k <= 1626 * 1626 * 1626,
            decreases 1626 - k,
        {
            assert(k < 1626) by (nonlinear_arith)
                requires
                    k * k * k < c,
                    c <= 0xffff_ffff,
                    k >= 1,
            ;
            k = k + 1;
            assert(k * k <= 1626 * 1626 && k * k * k <= 1626 * 1626 * 1626) by (nonlinear_arith)
                requires
                    1 <= k <= 1626,
            ;
        }
        proof {
            assert(is_cube_ceiling(c as int, k as int));
            lemma_cube_ceiling_unique(c as int, k as int, cube_ceiling(c as int));
        }
        if k < 2 {
            assert(false);
        }
        k as u32
    }

    /// Snaps a sample to one of `max(k, 2)` evenly spaced palette values.
    pub fn snap(sample: u8, k: u32) -> (r: u8)
        ensures
            r == snap_value(sample as int, effective_k(k)),
    {
        let k: u64 = if k < 2 {
            2
        } else {
            k as u64
        };
        assert(0 <= sample * k <= 255 * 0xffff_ffff) by (nonlinear_arith)
            requires
                k <= 0xffff_ffff,
        ;
        let q = (sample as u64 * k + k / 2) / 256;
        let b = if q < k - 1 {
            q
        } else {
            k - 1
        };
        proof {
            lemma_palette_range(b as int, k as int);
        }
        ((b * 255 + (k - 1) / 2) / (k - 1)) as u8
    }
}

impl Default for Quantize {
    fn default() -> (q: Self)
        ensures
            q.colors == 64,
    {
        Quantize::new(64)
    }
}

/// Levels per axis used on a layout: the budget itself, clamped to
/// `[2, 256]`, for Gray8; the cube grid otherwise.
pub open spec fn quantize_levels(q: Quantize, f: PixelFormat) -> int {
    if f == PixelFormat::Gray8 {
        if q.colors < 2 {
            2
        } else if q.colors > 256 {
            256
        } else {
            q.colors as int
        }
    } else {
        axis_levels(q.colors)
    }
}

/// The quantized picture: colour channels snapped, alpha kept.
pub open spec fn quantize_pixels(src: PlaneView, bpp: int, k: int) -> spec_fn(int, int, int) -> u8 {
    |y: int, x: int, c: int|
        if c == 3 {
            plane_byte(src, y, bpp * x + c)
        } else {
            snap_value(plane_byte(src, y, bpp * x + c) as int, k) as u8
        }
}

/// The frames `Quantize::apply` reads without running past a plane.
pub open spec fn quantize_accepts(v: FrameView, params: VideoStreamParams) -> bool {
    let w = params.width as int;
    let h = params.height as int;
    let bpp = first_plane_bpp(params.format);
    gray_or_packed_rgb(params.format) ==> {
        &&& v.planes.len() >= 1
        &&& rows_fit(v.planes[0].data.len() as int, v.planes[0].stride as int, h, w * bpp)
        &&& h * (w * bpp) <= usize::MAX
        &&& w * bpp <= usize::MAX
    }
}

/// The prefix of the error for a layout `Quantize` refuses.
pub open spec fn quantize_error_prefix() -> Seq<char> {
    "oxideav-image-filter: Quantize requires Gray8/Rgb24/Rgba, got "@
}

/// The snap table for `k` levels.
fn snap_table(k: u32) -> (t: Vec<u8>)
    requires
        k >= 2,
    ensures
        t@.len() == 256,
        forall|i: int| 0 <= i < 256 ==> #[trigger] t@[i] == snap_value(i, k as int) as u8,
{
    let mut t: Vec<u8> = Vec::new();
    let mut i: usize = 0;
    while i < 256
        invariant
            0 <= i <= 256,
            k >= 2,
            t@.len() == i,
            forall|j: int| 0 <= j < i ==> #[trigger] t@[j] == snap_value(j, k as int) as u8,
        decreases 256 - i,
    {
        t.push(Quantize::snap(i as u8, k));
        i = i + 1;
    }
    t
}

impl Quantize {
    /// Quantizes a frame into one tight plane of `width * bpp` bytes per
    /// row.
    pub fn apply(&self, input: &VideoFrame, params: VideoStreamParams) -> (r: Result<
        VideoFrame,
        FilterError,
    >)
        requires
            quantize_accepts(input@, params),
        ensures
            !gray_or_packed_rgb(params.format) ==> r is Err && r->Err_0 is Unsupported && error_text(
                r->Err_0,
            ) == unsupported_text(quantize_error_prefix(), params.format),
            gray_or_packed_rgb(params.format) ==> r is Ok && r->Ok_0@.pts == input.pts
                && r->Ok_0@.planes.len() == 1 && r->Ok_0@.planes[0].stride == params.width
                * first_plane_bpp(params.format) && grid_full(
                r->Ok_0@.planes[0].data,
                params.width as int,
                params.height as int,
                first_plane_bpp(params.format),
                quantize_pixels(
                    input@.planes[0],
                    first_plane_bpp(params.format),
                    quantize_levels(*self, params.format),
                ),
            ),
    {
        let bpp: usize = match params.format {
            PixelFormat::Gray8 => 1,
            PixelFormat::Rgb24 => 3,
            PixelFormat::Rgba => 4,
            _ => {
                return Err(
                    unsupported(
                        "oxideav-image-filter: Quantize requires Gray8/Rgb24/Rgba, got ",
                        params.format,
                    ),
                );
            },
        };
        let k: u32 = if bpp == 1 {
            if self.colors < 2 {
                2
            } else if self.colors > 256 {
                256
            } else {
                self.colors
            }
        } else {
            self.levels_per_axis()
        };
        let lut = snap_table(k);
        let mut luts: Vec<Vec<u8>> = Vec::new();
        if bpp == 1 {
            luts.push(lut);
        } else {
            luts.push(lut.clone());
            luts.push(lut.clone());
            luts.push(lut);
            if bpp == 4 {
                luts.push(make_identity_table());
            }
        }
        let w = params.width as usize;
        let h = params.height as usize;
        let src = &input.planes[0];
        let data = map_through_tables(src, w, h, bpp, &luts);
        proof {
            let f = through_tables(src@, bpp as int, table_views(luts@));
            let g = quantize_pixels(src@, bpp as int, k as int);
            assert forall|y: int, x: int, c: int|
                0 <= y < h && 0 <= x < w && 0 <= c < bpp implies #[trigger] data@[px_index(
                w as int,
                bpp as int,
                y,
                x,
                c,
            )] == g(y, x, c) by {
                assert(data@[px_index(w as int, bpp as int, y, x, c)] == f(y, x, c));
            }
        }
        Ok(single_plane_frame(input.pts, w * bpp, data))
    }
}

/// The palette spans the full range: black snaps to 0 and white to 255
/// on every axis of at least 2 levels.
pub proof fn snap_keeps_extremes(k: int)
    requires
        k >= 2,
    ensures
        snap_value(0, k) == 0,
        snap_value(255, k) == 255,
{
    let d = k - 1;
    let m = d / 2;
    assert(k / 2 < 256 || k >= 512);
    // Black: the bucket of 0 is (k / 2) / 256, whose palette value is 0.
    let b0 = snap_bucket(0, k);
    assert(b0 * 256 <= k / 2);
    assert(b0 * 255 + m < d) by (nonlinear_arith)
        requires
            b0 >= 0,
            b0 * 256 <= k / 2,
            m == d / 2,
            d == k - 1,
            k >= 2,
    ;
    vstd::arithmetic::div_mod::lemma_basic_div(b0 * 255 + m, d);
    // White.
    let x = 255 * k + k / 2;
    let q = x / 256;
    let b = snap_bucket(255, k);
    assert(255 * k == k * 255);
    if q < d {
        assert(256 * q >= x - 255);
        assert(255 * (d - q) <= m) by (nonlinear_arith)
            requires
                256 * q >= x - 255,
                x == 255 * k + k / 2,
                q < d,
                d == k - 1,
                m == d / 2,
        ;
        assert(b * 255 + m >= 255 * d);
    } else {
        assert(b == d);
        assert(b * 255 + m >= 255 * d);
    }
    vstd::arithmetic::div_mod::lemma_div_by_multiple(255, d);
    assert(255 * d == d * 255);
    vstd::arithmetic::div_mod::lemma_div_is_ordered(255 * d, b * 255 + m, d);
    assert(0 <= b <= d) by {
        assert(0 <= x);
    }
    lemma_palette_range(b, k);
}

/// Snapping never reorders samples.
pub proof fn snap_is_monotone(v1: int, v2: int, k: int)
    requires
        0 <= v1 <= v2,
        k >= 2,
    ensures
        snap_value(v1, k) <= snap_value(v2, k),
{
    assert(v1 * k <= v2 * k) by (nonlinear_arith)
        requires
            v1 <= v2,
            k >= 0,
    ;
    vstd::arithmetic::div_mod::lemma_div_is_ordered(v1 * k + k / 2, v2 * k + k / 2, 256);
    let b1 = snap_bucket(v1, k);
    let b2 = snap_bucket(v2, k);
    assert(b1 <= b2);
    assert(b1 * 255 <= b2 * 255) by (nonlinear_arith)
        requires
            b1 <= b2,
    ;
    vstd::arithmetic::div_mod::lemma_div_is_ordered(b1 * 255 + (k - 1) / 2, b2 * 255 + (k - 1) / 2, k - 1);
}

/// Every snapped sample is one of the `k` palette values of its axis.
pub proof fn snap_value_is_a_palette_entry(v: int, k: int)
    requires
        0 <= v <= 255,
        k >= 2,
    ensures
        0 <= snap_bucket(v, k) < k,
        snap_value(v, k) == palette_value(snap_bucket(v, k), k),
        0 <= snap_value(v, k) <= 255,
{
    assert(0 <= v * k) by (nonlinear_arith)
        requires
            0 <= v,
            k >= 0,
    ;
    lemma_palette_range(snap_bucket(v, k), k);
}

/// Some `k <= 1626` is the cube ceiling of `c`, searching up from `k0`.
proof fn lemma_cube_ceiling_exists(c: int, k0: int) -> (k: int)
    requires
        1 <= k0 <= 1626,
        2 <= c <= 0xffff_ffff,
        (k0 - 1) * (k0 - 1) * (k0 - 1) < c,
    ensures
        is_cube_ceiling(c, k),
        k >= 2,
    decreases 1626 - k0,
{
    if c <= k0 * k0 * k0 {
        if k0 < 2 {
            assert(k0 * k0 * k0 == 1) by (nonlinear_arith)
                requires
                    k0 == 1,
            ;
        }
        k0
    } else {
        assert(k0 < 1626) by (nonlinear_arith)
            requires
                k0 * k0 * k0 < c,
                c <= 0xffff_ffff,
                k0 >= 1,
        ;
        lemma_cube_ceiling_exists(c, k0 + 1)
    }
}

/// On Rgb24 and Rgba the level count per colour axis is one cube grid:
/// the smallest `k` with `k³` at least the colour budget (a budget below
/// 2 counting as 2), so the three colour channels take at most `k³`
/// colours and `(k - 1)³` would be too few. Alpha does not change it.
pub proof fn quantize_rgb_levels_are_cube_grid(q: Quantize)
    ensures
        quantize_levels(q, PixelFormat::Rgba) == quantize_levels(q, PixelFormat::Rgb24),
        ({
            let k = quantize_levels(q, PixelFormat::Rgba);
            let c = if q.colors < 2 {
                2
            } else {
                q.colors as int
            };
            &&& k >= 2
            &&& (k - 1) * (k - 1) * (k - 1) < c
            &&& c <= k * k * k
        }),
{
    let c = effective_colors(q.colors);
    let k = lemma_cube_ceiling_exists(c, 1);
    lemma_cube_ceiling_unique(c, k, cube_ceiling(c));
}

/// Snapping `v` on an axis of `k` levels finds the bucket `b` with
/// `b · 256 <= v · k + k / 2 < (b + 1) · 256` and returns the integer
/// nearest `b · 255 / (k - 1)`, halves rounding up.
pub proof fn snap_rounds_its_bucket(v: int, k: int)
    requires
        0 <= v <= 255,
        k >= 2,
    ensures
        0 <= snap_bucket(v, k) < k,
        snap_bucket(v, k) * 256 <= v * k + k / 2 < (snap_bucket(v, k) + 1) * 256,
        (k - 1) * snap_value(v, k) <= 255 * snap_bucket(v, k) + (k - 1) / 2 < (k - 1) * (snap_value(v, k)
            + 1),
{
    let x = v * k + k / 2;
    let q = x / 256;
    assert(q * 256 <= x < (q + 1) * 256 && 0 <= q) by (nonlinear_arith)
        requires
            q == x / 256,
            x == v * k + k / 2,
            0 <= v,
            k >= 2,
    ;
    assert(q < k) by (nonlinear_arith)
        requires
            q * 256 <= x,
            x == v * k + k / 2,
            v <= 255,
            k >= 2,
    ;
    let b = snap_bucket(v, k);
    let d = k - 1;
    let o = snap_value(v, k);
    assert(o == (b * 255 + d / 2) / d);
    assert(d * o <= 255 * b + d / 2 < d * (o + 1)) by (nonlinear_arith)
        requires
            o == (b * 255 + d / 2) / d,
            d >= 1,
            b >= 0,
    ;
}

/// Quantizing snaps each colour byte of a pixel on the same axis of `k`
/// levels, and keeps RGBA alpha.
pub proof fn quantize_snaps_colours_and_keeps_alpha(src: PlaneView, bpp: int, k: int, y: int, x: int, c: int)
    requires
        0 <= c < bpp,
    ensures
        c == 3 ==> quantize_pixels(src, bpp, k)(y, x, c) == plane_byte(src, y, bpp * x + c),
        c < 3 ==> quantize_pixels(src, bpp, k)(y, x, c) == snap_value(plane_byte(src, y, bpp * x + c) as int, k)
            as u8,
{
}

} // verus!
