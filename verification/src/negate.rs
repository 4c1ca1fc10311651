//! Pixel-value negation ("photo negative"). For RGB/RGBA/Gray inputs
//! each colour channel is inverted (`v' = 255 - v`, alpha untouched).
//! For YUV inputs only the luma plane is inverted; chroma is left
//! alone.

use vstd::prelude::*;
use crate::frame::{
    colour_channels, error_text, first_plane_bpp, first_plane_fits, is_supported_format,
    lemma_row_in_bounds, rows_fit, supported_format, unsupported, unsupported_text,
    with_first_plane, FilterError, FrameView, PixelFormat, PlaneView, VideoFrame, VideoPlane,
    VideoStreamParams,
};
use crate::rowmap::{lemma_map_rows_pointwise, lemma_map_rows_twice, map_row, map_rows};

verus! {

/// Invert pixel values ("photo negative").
///
/// - `Gray8`: `v' = 255 - v`.
/// - `Rgb24`: each of R/G/B is inverted independently.
/// - `Rgba`:  R/G/B inverted, alpha preserved.
/// - `Yuv*P`: only the Y plane is inverted.
#[derive(Clone, Copy, Debug, Default)]
pub struct Negate;

/// `v' = 255 - v`.
pub open spec fn negation() -> spec_fn(u8) -> u8 {
    |v: u8| (255 - v) as u8
}

/// The frames `Negate` accepts without failing: any unsupported format
/// (refused with an error), or a supported one whose first plane fits.
pub open spec fn negate_accepts(v: FrameView, params: VideoStreamParams) -> bool {
    supported_format(params.format) ==> first_plane_fits(v, params)
}

/// The negated first plane: rows walked top to bottom, colour bytes
/// inverted.
pub open spec fn negated_plane(p: PlaneView, params: VideoStreamParams) -> PlaneView {
    PlaneView {
        stride: p.stride,
        data: map_rows(
            p.data,
            p.stride as int,
            params.height as int,
            params.width * first_plane_bpp(params.format),
            first_plane_bpp(params.format),
            colour_channels(params.format),
            negation(),
        ),
    }
}

/// The frame `Negate` produces from a frame of a supported format.
pub open spec fn negated_frame(v: FrameView, params: VideoStreamParams) -> FrameView {
    FrameView { pts: v.pts, planes: v.planes.update(0, negated_plane(v.planes[0], params)) }
}

/// The text of the error for an unsupported format.
pub open spec fn negate_error_prefix() -> Seq<char> {
    "oxideav-image-filter: Negate does not yet handle "@
}

/// Inverts, in place, the selected channel bytes of the first `rows`
/// rows of `data`, walking the rows in order.
fn negate_rows(
    data: &mut Vec<u8>,
    stride: usize,
    rows: usize,
    row_bytes: usize,
    bpp: usize,
    nch: usize,
)
    requires
        bpp > 0,
        rows_fit(old(data)@.len() as int, stride as int, rows as int, row_bytes as int),
    ensures
        final(data)@ == map_rows(
            old(data)@,
            stride as int,
            rows as int,
            row_bytes as int,
            bpp as int,
            nch as int,
            negation(),
        ),
{
    let ghost d0 = data@;
    let len = data.len();
    let mut y: usize = 0;
    while y < rows
        invariant
            0 <= y <= rows,
            bpp > 0,
            data@.len() == d0.len(),
            d0.len() == len,
            rows_fit(d0.len() as int, stride as int, rows as int, row_bytes as int),
            data@ == map_rows(
                d0,
                stride as int,
                y as int,
                row_bytes as int,
                bpp as int,
                nch as int,
                negation(),
            ),
        decreases rows - y,
    {
        proof {
            lemma_row_in_bounds(d0.len() as int, stride as int, rows as int, row_bytes as int, y as int);
        }
        let start = y * stride;
        let ghost m = data@;
        let mut j: usize = 0;
        while j < row_bytes
            invariant
                0 <= j <= row_bytes,
                bpp > 0,
                start == y * stride,
                start + row_bytes <= d0.len(),
                d0.len() == len,
                m.len() == d0.len(),
                data@ == map_row(m, start as int, j as int, bpp as int, nch as int, negation()),
            decreases row_bytes - j,
        {
            let k = start + j;
            let ghost before = data@;
            if j % bpp < nch {
                let v = data[k];
                data.set(k, 255 - v);
            }
            assert(data@ =~= map_row(m, start as int, (j + 1) as int, bpp as int, nch as int, negation()));
            j = j + 1;
        }
        y = y + 1;
        assert(map_rows(d0, stride as int, y as int, row_bytes as int, bpp as int, nch as int, negation())
            == map_row(m, ((y - 1) * stride) as int, row_bytes as int, bpp as int, nch as int, negation()));
    }
}

impl Negate {
    /// Build a new `Negate` filter.
    pub fn new() -> (r: Self)
        ensures
            r == Negate,
    {
        Negate
    }

    /// Negate a frame. Unsupported formats are refused; otherwise the
    /// colour bytes of the visible rows of the first plane are
    /// inverted and every other byte and plane is kept.
    pub fn apply(&self, input: &VideoFrame, params: VideoStreamParams) -> (r: Result<
        VideoFrame,
        FilterError,
    >)
        requires
            negate_accepts(input@, params),
        ensures
            !supported_format(params.format) ==> r is Err && r->Err_0 is Unsupported
                && error_text(r->Err_0) == unsupported_text(negate_error_prefix(), params.format),
            supported_format(params.format) ==> r is Ok && r->Ok_0@ == negated_frame(
                input@,
                params,
            ),
            supported_format(params.format) && params.width * first_plane_bpp(params.format)
                <= input@.planes[0].stride ==> forall|y: int, j: int|
                0 <= y < params.height && 0 <= j < params.width * first_plane_bpp(params.format)
                    ==> #[trigger] r->Ok_0@.planes[0].data[y * input@.planes[0].stride + j] == if j
                    % first_plane_bpp(params.format) < colour_channels(params.format) {
                    (255 - input@.planes[0].data[y * input@.planes[0].stride + j]) as u8
                } else {
                    input@.planes[0].data[y * input@.planes[0].stride + j]
                },
    {
        if !is_supported_format(params.format) {
            return Err(unsupported("oxideav-image-filter: Negate does not yet handle ", params.format));
        }
        let (bpp, nch): (usize, usize) = match params.format {
            PixelFormat::Rgb24 => (3, 3),
            PixelFormat::Rgba => (4, 3),
            _ => (1, 1),
        };
        let w = params.width as usize;
        let h = params.height as usize;
        let p0 = &input.planes[0];
        let mut data = p0.data.clone();
        if h > 0 {
            proof {
                lemma_row_in_bounds(
                    p0.data@.len() as int,
                    p0.stride as int,
                    h as int,
                    w * bpp,
                    0,
                );
            }
            negate_rows(&mut data, p0.stride, h, w * bpp, bpp, nch);
        }
        let out = with_first_plane(input, VideoPlane { stride: p0.stride, data });
        proof {
            let row_bytes = params.width * first_plane_bpp(params.format);
            if row_bytes <= p0.stride {
                assert forall|y: int, j: int|
                    0 <= y < params.height && 0 <= j < row_bytes implies #[trigger] out@.planes[0].data[y
                    * p0.stride + j] == if j % first_plane_bpp(params.format) < colour_channels(
                    params.format,
                ) {
                    (255 - p0.data@[y * p0.stride + j]) as u8
                } else {
                    p0.data@[y * p0.stride + j]
                } by {
                    lemma_row_in_bounds(
                        p0.data@.len() as int,
                        p0.stride as int,
                        params.height as int,
                        row_bytes,
                        y,
                    );
                    lemma_map_rows_pointwise(
                        p0.data@,
                        p0.stride as int,
                        params.height as int,
                        row_bytes,
                        first_plane_bpp(params.format),
                        colour_channels(params.format),
                        negation(),
                        y,
                        j,
                    );
                }
            }
        }
        Ok(out)
    }
}

/// Negating twice gives back the frame: the byte map is an involution
/// and each row walk rewrites the same bytes both times.
pub proof fn negate_twice_is_identity(v: FrameView, params: VideoStreamParams)
    requires
        supported_format(params.format),
        first_plane_fits(v, params),
    ensures
        negated_frame(negated_frame(v, params), params) == v,
{
    let p = v.planes[0];
    let row_bytes = params.width * first_plane_bpp(params.format);
    assert forall|x: u8| #[trigger] negation()(negation()(x)) == x by {}
    lemma_map_rows_twice(
        p.data,
        p.stride as int,
        params.height as int,
        row_bytes,
        first_plane_bpp(params.format),
        colour_channels(params.format),
        negation(),
    );
    let once = negated_frame(v, params);
    assert(once.planes[0] == negated_plane(p, params));
    assert(negated_frame(once, params).planes =~= v.planes);
}

/// Negation mirrors each colour byte of the picture about the middle of
/// the range: the new byte and the old one add up to 255. Other bytes
/// (RGBA alpha, row padding) keep their value.
pub proof fn negate_mirrors_colour_bytes(v: FrameView, params: VideoStreamParams, y: int, j: int)
    requires
        supported_format(params.format),
        first_plane_fits(v, params),
        params.width * first_plane_bpp(params.format) <= v.planes[0].stride,
        0 <= y < params.height,
        0 <= j < params.width * first_plane_bpp(params.format),
    ensures
        ({
            let k = y * v.planes[0].stride + j;
            let old_b = v.planes[0].data[k] as int;
            let new_b = negated_frame(v, params).planes[0].data[k] as int;
            if j % first_plane_bpp(params.format) < colour_channels(params.format) {
                new_b + old_b == 255
            } else {
                new_b == old_b
            }
        }),
{
    let p = v.planes[0];
    let rb = params.width * first_plane_bpp(params.format);
    lemma_row_in_bounds(p.data.len() as int, p.stride as int, params.height as int, rb, y);
    lemma_map_rows_pointwise(
        p.data,
        p.stride as int,
        params.height as int,
        rb,
        first_plane_bpp(params.format),
        colour_channels(params.format),
        negation(),
        y,
        j,
    );
}

} // verus!
