//! Per-channel posterisation: independent level counts for `R`, `G`,
//! `B` and, optionally, `A`.
//!
//! Each channel uses the formula of [`Posterize`](crate::posterize):
//! `bucket = min(floor(v * N / 256), N - 1)`, `v' = round(bucket * 255
//! / (N - 1))`, with its own `N`. Gray8 uses the red count. Alpha is
//! posterised only when `alpha_levels` is set, and passes through
//! otherwise. YUV is refused.

use vstd::prelude::*;
use crate::frame::{
    error_text, first_plane_bpp, gray_or_packed_rgb, rows_fit, single_plane_frame, unsupported,
    unsupported_text, FilterError, FrameView, PixelFormat, PlaneView, VideoFrame,
    VideoStreamParams,
};
use crate::grid::{grid_full, px_index};
use crate::luma::plane_byte;
use crate::lut::{identity_table, make_identity_table, map_through_tables, table_views, through_tables};
use crate::posterize::{build_posterize_lut, effective_levels, posterize_table, posterize_value};

verus! {

/// Per-channel posterise.
#[derive(Clone, Copy, Debug)]
pub struct PosterizeChannels {
    /// Levels of the red channel (and of Gray8).
    pub r_levels: u32,
    /// Levels of the green channel.
    pub g_levels: u32,
    /// Levels of the blue channel.
    pub b_levels: u32,
    /// If `Some`, alpha is posterised to that many levels; otherwise it
    /// passes through (RGBA only).
    pub alpha_levels: Option<u32>,
}

impl PosterizeChannels {
    /// Builds the filter; counts below 2 become 2, alpha passes through.
    pub fn new(r_levels: u32, g_levels: u32, b_levels: u32) -> (p: Self)
        ensures
            p.r_levels == effective_levels(r_levels),
            p.g_levels == effective_levels(g_levels),
            p.b_levels == effective_levels(b_levels),
            p.alpha_levels is None,
    {
        PosterizeChannels {
            r_levels: if r_levels < 2 {
                2
            } else {
                r_levels
            },
            g_levels: if g_levels < 2 {
                2
            } else {
                g_levels
            },
            b_levels: if b_levels < 2 {
                2
            } else {
                b_levels
            },
            alpha_levels: None,
        }
    }

    /// Posterises alpha too, to `alpha_levels` levels (at least 2).
    pub fn with_alpha_levels(self, alpha_levels: u32) -> (p: Self)
        ensures
            p.r_levels == self.r_levels,
            p.g_levels == self.g_levels,
            p.b_levels == self.b_levels,
            p.alpha_levels == Some(effective_levels(alpha_levels) as u32),
    {
        PosterizeChannels {
            alpha_levels: Some(
                if alpha_levels < 2 {
                    2
                } else {
                    alpha_levels
                },
            ),
            ..self
        }
    }
}

impl Default for PosterizeChannels {
    fn default() -> (p: Self)
        ensures
            p.r_levels == 4,
            p.g_levels == 4,
            p.b_levels == 4,
            p.alpha_levels is None,
    {
        PosterizeChannels::new(4, 4, 4)
    }
}

/// The posterise table of one channel: `max(levels, 2)` levels.
pub fn build_lut(levels: u32) -> (t: Vec<u8>)
    ensures
        t@ == posterize_table(effective_levels(levels)),
{
    build_posterize_lut(levels)
}

/// Output channel `c` of a source sample `v`.
pub open spec fn channel_out(p: PosterizeChannels, c: int, v: u8) -> u8 {
    if c == 3 {
        match p.alpha_levels {
            Some(a) => posterize_value(v as int, effective_levels(a)) as u8,
            None => v,
        }
    } else {
        let n = if c == 0 {
            p.r_levels
        } else if c == 1 {
            p.g_levels
        } else {
            p.b_levels
        };
        posterize_value(v as int, effective_levels(n)) as u8
    }
}

/// The posterised picture.
pub open spec fn channels_pixels(src: PlaneView, bpp: int, p: PosterizeChannels) -> spec_fn(
    int,
    int,
    int,
) -> u8 {
    |y: int, x: int, c: int| channel_out(p, c, plane_byte(src, y, bpp * x + c))
}

/// The frames `PosterizeChannels::apply` reads without running past a
/// plane.
pub open spec fn channels_accepts(v: FrameView, params: VideoStreamParams) -> bool {
    let w = params.width as int;
    let h = params.height as int;
    let bpp = first_plane_bpp(params.format);
    gray_or_packed_rgb(params.format) ==> {
        &&& v.planes.len() >= 1
        &&& rows_fit(v.planes[0].data.len() as int, v.planes[0].stride as int, h, w * bpp)
        &&& h * (w * bpp) <= usize::MAX
        &&& w * bpp <= usize::MAX
    }
}

/// The prefix of the error for a layout `PosterizeChannels` refuses.
pub open spec fn channels_error_prefix() -> Seq<char> {
    "oxideav-image-filter: PosterizeChannels requires Gray8/Rgb24/Rgba, got "@
}

impl PosterizeChannels {
    /// Posterises a frame into one tight plane of `width * bpp` bytes
    /// per row.
    pub fn apply(&self, input: &VideoFrame, params: VideoStreamParams) -> (r: Result<
        VideoFrame,
        FilterError,
    >)
        requires
            channels_accepts(input@, params),
        ensures
            !gray_or_packed_rgb(params.format) ==> r is Err && r->Err_0 is Unsupported && error_text(
                r->Err_0,
            ) == unsupported_text(channels_error_prefix(), params.format),
            gray_or_packed_rgb(params.format) ==> r is Ok && r->Ok_0@.pts == input.pts
                && r->Ok_0@.planes.len() == 1 && r->Ok_0@.planes[0].stride == params.width
                * first_plane_bpp(params.format) && grid_full(
                r->Ok_0@.planes[0].data,
                params.width as int,
                params.height as int,
                first_plane_bpp(params.format),
                channels_pixels(input@.planes[0], first_plane_bpp(params.format), *self),
            ),
    {
        let bpp: usize = match params.format {
            PixelFormat::Gray8 => 1,
            PixelFormat::Rgb24 => 3,
            PixelFormat::Rgba => 4,
            _ => {
                return Err(
                    unsupported(
                        "oxideav-image-filter: PosterizeChannels requires Gray8/Rgb24/Rgba, got ",
                        params.format,
                    ),
                );
            },
        };
        let lut_r = build_lut(self.r_levels);
        let mut luts: Vec<Vec<u8>> = Vec::new();
        luts.push(lut_r);
        if bpp >= 3 {
            luts.push(build_lut(self.g_levels));
            luts.push(build_lut(self.b_levels));
        }
        if bpp == 4 {
            let lut_a = match self.alpha_levels {
                Some(a) => build_lut(a),
                None => make_identity_table(),
            };
            luts.push(lut_a);
        }
        let w = params.width as usize;
        let h = params.height as usize;
        let src = &input.planes[0];
        let data = map_through_tables(src, w, h, bpp, &luts);
        proof {
            let f = through_tables(src@, bpp as int, table_views(luts@));
            let g = channels_pixels(src@, bpp as int, *self);
            assert forall|y: int, x: int, c: int|
                0 <= y < h && 0 <= x < w && 0 <= c < bpp implies #[trigger] data@[px_index(
                w as int,
                bpp as int,
                y,
                x,
                c,
            )] == g(y, x, c) by {
                assert(data@[px_index(w as int, bpp as int, y, x, c)] == f(y, x, c));
            }
        }
        Ok(single_plane_frame(input.pts, w * bpp, data))
    }
}

/// Each channel is posterised with its own count: byte 0 of a pixel
/// (the red channel, and the whole of a Gray8 pixel) with `r_levels`,
/// byte 1 with `g_levels`, byte 2 with `b_levels`; byte 3 (RGBA alpha)
/// with `alpha_levels` when set, and kept otherwise.
pub proof fn posterize_channels_uses_each_channels_count(src: PlaneView, bpp: int, p: PosterizeChannels, y: int, x: int)
    ensures
        channels_pixels(src, bpp, p)(y, x, 0) == posterize_value(
            plane_byte(src, y, bpp * x) as int,
            effective_levels(p.r_levels),
        ) as u8,
        channels_pixels(src, bpp, p)(y, x, 1) == posterize_value(
            plane_byte(src, y, bpp * x + 1) as int,
            effective_levels(p.g_levels),
        ) as u8,
        channels_pixels(src, bpp, p)(y, x, 2) == posterize_value(
            plane_byte(src, y, bpp * x + 2) as int,
            effective_levels(p.b_levels),
        ) as u8,
        p.alpha_levels is None ==> channels_pixels(src, bpp, p)(y, x, 3) == plane_byte(src, y, bpp * x + 3),
        p.alpha_levels is Some ==> channels_pixels(src, bpp, p)(y, x, 3) == posterize_value(
            plane_byte(src, y, bpp * x + 3) as int,
            effective_levels(p.alpha_levels->Some_0),
        ) as u8,
{
}

/// Changing one channel's count leaves the other channels alone: two
/// filters that share the green and blue counts agree on bytes 1 and 2,
/// and two that share the red count agree on byte 0.
pub proof fn posterize_channels_counts_are_independent(
    src: PlaneView,
    bpp: int,
    p: PosterizeChannels,
    q: PosterizeChannels,
    y: int,
    x: int,
)
    ensures
        p.r_levels == q.r_levels ==> channels_pixels(src, bpp, p)(y, x, 0) == channels_pixels(src, bpp, q)(y, x, 0),
        p.g_levels == q.g_levels ==> channels_pixels(src, bpp, p)(y, x, 1) == channels_pixels(src, bpp, q)(y, x, 1),
        p.b_levels == q.b_levels ==> channels_pixels(src, bpp, p)(y, x, 2) == channels_pixels(src, bpp, q)(y, x, 2),
{
}

} // verus!
