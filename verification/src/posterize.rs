//! Posterisation: each channel reduced to `N` evenly spaced levels.
//!
//! ```text
//! bucket = min(floor(v * N / 256), N - 1)
//! v'     = round(bucket * 255 / (N - 1))      // halves round up
//! ```
//!
//! Gray / R / G / B are posterised (RGBA alpha is kept); planar YUV
//! posterises the Y plane only.

use vstd::prelude::*;
use crate::frame::{
    colour_channels, error_text, first_plane_bpp, first_plane_fits, is_supported_format,
    lemma_row_in_bounds, supported_format, unsupported, unsupported_text, with_first_plane,
    FilterError, FrameView, PixelFormat, PlaneView, VideoFrame, VideoPlane, VideoStreamParams,
};
use crate::lut::{lemma_map_rows_fixed, lut_rows, table_fn};
use crate::rowmap::{lemma_map_rows_pointwise, map_rows};

verus! {

/// The bucket of sample `v` among `n` levels.
pub open spec fn level_bucket(v: int, n: int) -> int {
    let b = v * n / 256;
    if b < n - 1 {
        b
    } else {
        n - 1
    }
}

/// Level `b` of `n`, spread over `[0, 255]`: `round(b * 255 / (n - 1))`.
pub open spec fn level_value(b: int, n: int) -> int {
    (2 * b * 255 + (n - 1)) / (2 * (n - 1))
}

/// Sample `v` posterised to `n` levels.
pub open spec fn posterize_value(v: int, n: int) -> int {
    level_value(level_bucket(v, n), n)
}

/// The level count in effect: at least 2.
pub open spec fn effective_levels(levels: u32) -> int {
    if levels < 2 {
        2
    } else {
        levels as int
    }
}

/// The posterise table for `n` levels.
pub open spec fn posterize_table(n: int) -> Seq<u8> {
    Seq::new(256, |i: int| posterize_value(i, n) as u8)
}

/// A level of `n` lies in `[0, 255]`.
proof fn lemma_level_range(b: int, n: int)
    requires
        n >= 2,
        0 <= b <= n - 1,
    ensures
        0 <= level_value(b, n) <= 255,
{
    assert(2 * b * 255 + (n - 1) < 256 * (2 * (n - 1))) by (nonlinear_arith)
        requires
            n >= 2,
            0 <= b <= n - 1,
    ;
    vstd::arithmetic::div_mod::lemma_div_is_ordered(0, 2 * b * 255 + (n - 1), 2 * (n - 1));
    vstd::arithmetic::div_mod::lemma_div_by_multiple_is_strongly_ordered(
        2 * b * 255 + (n - 1),
        256 * (2 * (n - 1)),
        256,
        2 * (n - 1),
    );
    vstd::arithmetic::div_mod::lemma_div_by_multiple(256, 2 * (n - 1));
}

/// Sample `v` posterised to `max(levels, 2)` levels.
pub fn posterize_level(v: u8, levels: u32) -> (r: u8)
    ensures
        r == posterize_value(v as int, effective_levels(levels)),
{
    let n: u64 = if levels < 2 {
        2
    } else {
        levels as u64
    };
    assert(0 <= v * n <= 255 * 0xffff_ffff) by (nonlinear_arith)
        requires
            n <= 0xffff_ffff,
    ;
    let q = v as u64 * n / 256;
    let b = if q < n - 1 {
        q
    } else {
        n - 1
    };
    proof {
        lemma_level_range(b as int, n as int);
    }
    ((2 * b * 255 + (n - 1)) / (2 * (n - 1))) as u8
}

/// The posterise table for `max(levels, 2)` levels.
pub fn build_posterize_lut(levels: u32) -> (t: Vec<u8>)
    ensures
        t@ == posterize_table(effective_levels(levels)),
{
    let mut t: Vec<u8> = Vec::new();
    let mut i: usize = 0;
    while i < 256
        invariant
            0 <= i <= 256,
            t@.len() == i,
            forall|j: int| 0 <= j < i ==> #[trigger] t@[j] == posterize_value(j, effective_levels(levels)) as u8,
        decreases 256 - i,
    {
        t.push(posterize_level(i as u8, levels));
        i = i + 1;
    }
    assert(t@ =~= posterize_table(effective_levels(levels)));
    t
}

/// Posterise each channel to `levels` intensity buckets (at least 2).
#[derive(Clone, Copy, Debug)]
pub struct Posterize {
    levels: u32,
}

impl Posterize {
    /// The level count.
    pub closed spec fn levels(&self) -> u32 {
        self.levels
    }

    /// Build a posterise filter; `levels` below 2 become 2.
    pub fn new(levels: u32) -> (p: Self)
        ensures
            p.levels() == effective_levels(levels),
    {
        Posterize {
            levels: if levels < 2 {
                2
            } else {
                levels
            },
        }
    }
}

impl Default for Posterize {
    fn default() -> (p: Self)
        ensures
            p.levels() == 4,
    {
        Posterize::new(4)
    }
}

/// The posterised first plane: visible colour bytes of each row sent
/// through the table, rows walked top to bottom.
pub open spec fn posterized_plane(p: PlaneView, params: VideoStreamParams, n: int) -> PlaneView {
    PlaneView {
        stride: p.stride,
        data: map_rows(
            p.data,
            p.stride as int,
            params.height as int,
            params.width * first_plane_bpp(params.format),
            first_plane_bpp(params.format),
            colour_channels(params.format),
            table_fn(posterize_table(n)),
        ),
    }
}

/// The frame `Posterize` with `n` levels makes of a supported frame.
pub open spec fn posterized_frame(v: FrameView, params: VideoStreamParams, n: int) -> FrameView {
    FrameView { pts: v.pts, planes: v.planes.update(0, posterized_plane(v.planes[0], params, n)) }
}

/// The prefix of the error for a layout `Posterize` does not handle.
pub open spec fn posterize_error_prefix() -> Seq<char> {
    "oxideav-image-filter: Posterize does not yet handle "@
}

impl Posterize {
    /// Posterises a frame: the colour bytes of the visible rows of the
    /// first plane go through the table; every other byte and plane is
    /// kept.
    pub fn apply(&self, input: &VideoFrame, params: VideoStreamParams) -> (r: Result<
        VideoFrame,
        FilterError,
    >)
        requires
            supported_format(params.format) ==> first_plane_fits(input@, params),
        ensures
            !supported_format(params.format) ==> r is Err && r->Err_0 is Unsupported && error_text(
                r->Err_0,
            ) == unsupported_text(posterize_error_prefix(), params.format),
            supported_format(params.format) ==> r is Ok && r->Ok_0@ == posterized_frame(
                input@,
                params,
                effective_levels(self.levels()),
            ),
            supported_format(params.format) && params.width * first_plane_bpp(params.format)
                <= input@.planes[0].stride ==> forall|y: int, j: int|
                0 <= y < params.height && 0 <= j < params.width * first_plane_bpp(params.format)
                    ==> #[trigger] r->Ok_0@.planes[0].data[y * input@.planes[0].stride + j] == if j
                    % first_plane_bpp(params.format) < colour_channels(params.format) {
                    posterize_value(
                        input@.planes[0].data[y * input@.planes[0].stride + j] as int,
                        effective_levels(self.levels()),
                    ) as u8
                } else {
                    input@.planes[0].data[y * input@.planes[0].stride + j]
                },
    {
        if !is_supported_format(params.format) {
            return Err(unsupported("oxideav-image-filter: Posterize does not yet handle ", params.format));
        }
        let (bpp, nch): (usize, usize) = match params.format {
            PixelFormat::Rgb24 => (3, 3),
            PixelFormat::Rgba => (4, 3),
            _ => (1, 1),
        };
        let lut = build_posterize_lut(self.levels);
        let w = params.width as usize;
        let h = params.height as usize;
        let p0 = &input.planes[0];
        let mut data = p0.data.clone();
        if h > 0 {
            proof {
                lemma_row_in_bounds(p0.data@.len() as int, p0.stride as int, h as int, w * bpp, 0);
            }
            lut_rows(&mut data, p0.stride, h, w * bpp, bpp, nch, &lut);
        }
        let out = with_first_plane(input, VideoPlane { stride: p0.stride, data });
        proof {
            let row_bytes = params.width * first_plane_bpp(params.format);
            let n = effective_levels(self.levels());
            if row_bytes <= p0.stride {
                assert forall|y: int, j: int|
                    0 <= y < params.height && 0 <= j < row_bytes implies #[trigger] out@.planes[0].data[y
                    * p0.stride + j] == if j % first_plane_bpp(params.format) < colour_channels(
                    params.format,
                ) {
                    posterize_value(p0.data@[y * p0.stride + j] as int, n) as u8
                } else {
                    p0.data@[y * p0.stride + j]
                } by {
                    lemma_row_in_bounds(
                        p0.data@.len() as int,
                        p0.stride as int,
                        params.height as int,
                        row_bytes,
                        y,
                    );
                    lemma_map_rows_pointwise(
                        p0.data@,
                        p0.stride as int,
                        params.height as int,
                        row_bytes,
                        first_plane_bpp(params.format),
                        colour_channels(params.format),
                        table_fn(posterize_table(n)),
                        y,
                        j,
                    );
                }
            }
        }
        Ok(out)
    }
}

/// Posterising to 256 levels changes nothing: every sample is its own
/// level.
pub proof fn posterize_256_levels_is_identity(v: FrameView, params: VideoStreamParams)
    requires
        v.planes.len() >= 1,
    ensures
        posterized_frame(v, params, 256) == v,
{
    let f = table_fn(posterize_table(256));
    assert forall|x: u8| #[trigger] f(x) == x by {
        assert(x * 256 / 256 == x);
        assert((2 * x * 255 + 255) / 510 == x);
    }
    let p = v.planes[0];
    lemma_map_rows_fixed(
        p.data,
        p.stride as int,
        params.height as int,
        params.width * first_plane_bpp(params.format),
        first_plane_bpp(params.format),
        colour_channels(params.format),
        f,
    );
    assert(posterized_plane(p, params, 256) == p);
    assert(v.planes.update(0, p) =~= v.planes);
}

/// Two levels make every sample black or white.
pub proof fn posterize_two_levels_is_binary(v: u8)
    ensures
        posterize_value(v as int, 2) == 0 || posterize_value(v as int, 2) == 255,
{
    if v < 128 {
        assert(v * 2 / 256 == 0);
        assert(level_bucket(v as int, 2) == 0);
        assert(level_value(0, 2) == 0) by (nonlinear_arith);
    } else {
        assert(v * 2 / 256 >= 1);
        assert(level_bucket(v as int, 2) == 1);
        assert(level_value(1, 2) == 255) by (nonlinear_arith);
    }
}

/// With at most 256 levels, black stays black and white stays white.
pub proof fn posterize_keeps_extremes(n: int)
    requires
        2 <= n <= 256,
    ensures
        posterize_value(0, n) == 0,
        posterize_value(255, n) == 255,
{
    assert(255 * n / 256 >= n - 1) by (nonlinear_arith)
        requires
            2 <= n <= 256,
    ;
    assert((2 * (n - 1) * 255 + (n - 1)) / (2 * (n - 1)) == 255) by (nonlinear_arith)
        requires
            n >= 2,
    ;
    assert((n - 1) / (2 * (n - 1)) == 0) by (nonlinear_arith)
        requires
            n >= 2,
    ;
}

/// Posterising never reorders samples: a brighter input is never
/// darker on output.
pub proof fn posterize_is_monotone(v1: int, v2: int, n: int)
    requires
        0 <= v1 <= v2,
        n >= 2,
    ensures
        posterize_value(v1, n) <= posterize_value(v2, n),
{
    assert(v1 * n <= v2 * n) by (nonlinear_arith)
        requires
            v1 <= v2,
            n >= 0,
    ;
    vstd::arithmetic::div_mod::lemma_div_is_ordered(v1 * n, v2 * n, 256);
    let b1 = level_bucket(v1, n);
    let b2 = level_bucket(v2, n);
    assert(b1 <= b2);
    assert(2 * b1 * 255 + (n - 1) <= 2 * b2 * 255 + (n - 1));
    vstd::arithmetic::div_mod::lemma_div_is_ordered(
        2 * b1 * 255 + (n - 1),
        2 * b2 * 255 + (n - 1),
        2 * (n - 1),
    );
}

/// Every output sample is one of the `n` levels.
pub proof fn posterize_value_is_a_level(v: int, n: int)
    requires
        0 <= v <= 255,
        n >= 2,
    ensures
        0 <= level_bucket(v, n) < n,
        posterize_value(v, n) == level_value(level_bucket(v, n), n),
        0 <= posterize_value(v, n) <= 255,
{
    assert(0 <= v * n) by (nonlinear_arith)
        requires
            0 <= v,
            n >= 0,
    ;
    lemma_level_range(level_bucket(v, n), n);
}

/// Posterising `v` to `n` levels finds the slice `b` of width `256 / n`
/// that holds `v` (`b · 256 <= v · n < (b + 1) · 256`) and returns the
/// integer nearest `b · 255 / (n - 1)`, halves rounding up.
pub proof fn posterize_rounds_its_slice_level(v: int, n: int)
    requires
        0 <= v <= 255,
        n >= 2,
    ensures
        0 <= level_bucket(v, n) < n,
        level_bucket(v, n) * 256 <= v * n < (level_bucket(v, n) + 1) * 256,
        2 * (n - 1) * posterize_value(v, n) <= 2 * 255 * level_bucket(v, n) + (n - 1) < 2 * (n - 1) * (
        posterize_value(v, n) + 1),
{
    let q = v * n / 256;
    assert(q * 256 <= v * n < (q + 1) * 256 && 0 <= q) by (nonlinear_arith)
        requires
            q == v * n / 256,
            0 <= v,
            n >= 2,
    ;
    assert(q < n) by (nonlinear_arith)
        requires
            q * 256 <= v * n,
            v <= 255,
            n >= 2,
    ;
    let b = level_bucket(v, n);
    let d = 2 * (n - 1);
    let o = posterize_value(v, n);
    assert(o == (2 * b * 255 + (n - 1)) / d);
    assert(d * o <= 2 * b * 255 + (n - 1) < d * (o + 1)) by (nonlinear_arith)
        requires
            o == (2 * b * 255 + (n - 1)) / d,
            d >= 2,
            b >= 0,
    ;
    assert(2 * b * 255 == 2 * 255 * b && d * o == 2 * (n - 1) * o && d * (o + 1) == 2 * (n - 1) * (o
        + 1)) by (nonlinear_arith)
        requires
            d == 2 * (n - 1),
    ;
}

} // verus!
