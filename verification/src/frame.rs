//! Frame model shared by every filter: pixel formats, planes, frames,
//! stream parameters and the filter error type.

use vstd::prelude::*;

verus! {

/// Pixel layouts a frame can carry.
#[derive(Clone, Copy, Debug, PartialEq, Eq, Structural)]
pub enum PixelFormat {
    /// 8-bit YUV 4:2:0, planar (Y, U, V).
    Yuv420P,
    /// 8-bit YUV 4:2:2, planar.
    Yuv422P,
    /// 8-bit YUV 4:4:4, planar.
    Yuv444P,
    /// Packed 8-bit RGB, 3 bytes/pixel.
    Rgb24,
    /// Packed 8-bit RGBA, 4 bytes/pixel.
    Rgba,
    /// Packed 8-bit grayscale.
    Gray8,
    /// 8-bit palette indices — companion palette carried out of band.
    Pal8,
    /// Packed 8-bit BGR, 3 bytes/pixel.
    Bgr24,
    /// Packed 8-bit BGRA, 4 bytes/pixel.
    Bgra,
    /// Packed 8-bit ARGB, 4 bytes/pixel (alpha first).
    Argb,
    /// Packed 8-bit ABGR, 4 bytes/pixel.
    Abgr,
    /// Packed 16-bit-per-channel RGB, little-endian, 6 bytes/pixel.
    Rgb48Le,
    /// Packed 16-bit-per-channel RGBA, little-endian, 8 bytes/pixel.
    Rgba64Le,
    /// 16-bit little-endian grayscale.
    Gray16Le,
    /// 10-bit grayscale in a 16-bit little-endian word.
    Gray10Le,
    /// 12-bit grayscale in a 16-bit little-endian word.
    Gray12Le,
    /// 10-bit YUV 4:2:0 planar, little-endian 16-bit storage.
    Yuv420P10Le,
    /// 10-bit YUV 4:2:2 planar, little-endian 16-bit storage.
    Yuv422P10Le,
    /// 10-bit YUV 4:4:4 planar, little-endian 16-bit storage.
    Yuv444P10Le,
    /// 12-bit YUV 4:2:0 planar, little-endian 16-bit storage.
    Yuv420P12Le,
    /// 12-bit YUV 4:2:2 planar, little-endian 16-bit storage.
    Yuv422P12Le,
    /// 12-bit YUV 4:4:4 planar, little-endian 16-bit storage.
    Yuv444P12Le,
    /// JPEG/full-range YUV 4:2:0 planar.
    YuvJ420P,
    /// JPEG/full-range YUV 4:2:2 planar.
    YuvJ422P,
    /// JPEG/full-range YUV 4:4:4 planar.
    YuvJ444P,
    /// YUV 4:2:0, planar Y + interleaved UV (NV12).
    Nv12,
    /// YUV 4:2:0, planar Y + interleaved VU (NV21).
    Nv21,
    /// Packed grayscale + alpha, 2 bytes/pixel (Y, A).
    Ya8,
    /// Yuv420P with an additional full-resolution alpha plane.
    Yuva420P,
    /// 1 bit per pixel, packed MSB-first, 0 = black.
    MonoBlack,
    /// 1 bit per pixel, packed MSB-first, 0 = white.
    MonoWhite,
    /// Packed 4:2:2, byte order Y0 U0 Y1 V0.
    Yuyv422,
    /// Packed 4:2:2, byte order U0 Y0 V0 Y1.
    Uyvy422,
    /// Packed 8-bit CMYK, 4 bytes/pixel in byte order C, M, Y, K.
    Cmyk,
    /// 8-bit YUV 4:1:1, planar (Y, U, V).
    Yuv411P,
    /// 10-bit planar GBR, little-endian 16-bit storage.
    Gbrp10Le,
    /// 10-bit planar GBR + alpha, little-endian 16-bit storage.
    Gbrap10Le,
    /// 12-bit planar GBR, little-endian 16-bit storage.
    Gbrp12Le,
    /// 12-bit planar GBR + alpha, little-endian 16-bit storage.
    Gbrap12Le,
    /// 14-bit planar GBR, little-endian 16-bit storage.
    Gbrp14Le,
    /// 14-bit planar GBR + alpha, little-endian 16-bit storage.
    Gbrap14Le,
    /// 16-bit YUV 4:2:0 planar, little-endian 16-bit storage.
    Yuv420P16Le,
    /// 16-bit YUV 4:2:2 planar, little-endian 16-bit storage.
    Yuv422P16Le,
    /// 16-bit YUV 4:4:4 planar, little-endian 16-bit storage.
    Yuv444P16Le,
    /// Yuv422P with an additional full-resolution alpha plane.
    Yuva422P,
    /// Yuv444P with an additional full-resolution alpha plane.
    Yuva444P,
    /// 10-bit YUV 4:2:2 planar + full-resolution alpha, little-endian 16-bit storage.
    Yuva422P10Le,
    /// 12-bit YUV 4:2:2 planar + full-resolution alpha, little-endian 16-bit storage.
    Yuva422P12Le,
    /// 10-bit YUV 4:4:4 planar + full-resolution alpha, little-endian 16-bit storage.
    Yuva444P10Le,
    /// 12-bit YUV 4:4:4 planar + full-resolution alpha, little-endian 16-bit storage.
    Yuva444P12Le,
    /// 16-bit YUV 4:2:2 planar + full-resolution alpha, little-endian 16-bit storage.
    Yuva422P16Le,
    /// 16-bit YUV 4:4:4 planar + full-resolution alpha, little-endian 16-bit storage.
    Yuva444P16Le,
    /// 8-bit planar GBR.
    Gbrp8,
    /// 16-bit planar GBR, little-endian 16-bit storage.
    Gbrp16Le,
    /// 16-bit planar GBR + alpha, little-endian 16-bit storage.
    Gbrap16Le,
    /// 10-bit YUV 4:2:0 planar + full-resolution alpha, little-endian 16-bit storage.
    Yuva420P10Le,
    /// 12-bit YUV 4:2:0 planar + full-resolution alpha, little-endian 16-bit storage.
    Yuva420P12Le,
    /// 16-bit YUV 4:2:0 planar + full-resolution alpha, little-endian 16-bit storage.
    Yuva420P16Le,
    /// 8-bit planar GBR + alpha.
    Gbrap8,
    /// Packed 16-bit grayscale + alpha, little-endian, 4 bytes/pixel (Y, A).
    Ya16Le,
    /// Packed 8-bit inverted CMYK, 4 bytes/pixel in byte order C, M, Y, K.
    CmykInverted,
    /// 8-bit YUV 4:4:0, planar (Y, U, V).
    Yuv440P,
    /// 10-bit YUV 4:4:0 planar, little-endian 16-bit storage.
    Yuv440P10Le,
    /// 12-bit YUV 4:4:0 planar, little-endian 16-bit storage.
    Yuv440P12Le,
    /// 16-bit YUV 4:4:0 planar, little-endian 16-bit storage.
    Yuv440P16Le,
    /// Packed 32-bit float grayscale, little-endian, 4 bytes/pixel.
    GrayF32Le,
    /// Packed 32-bit float RGB, little-endian, 12 bytes/pixel in component order R, G, B.
    RgbF32Le,
    /// Packed 32-bit float RGBA, little-endian, 16 bytes/pixel in component order R, G, B, A.
    RgbaF32Le,
    /// 32-bit float planar GBR, little-endian.
    GbrpF32Le,
    /// 32-bit float planar GBR + alpha, little-endian.
    GbrapF32Le,
    /// Packed 5-5-5 RGB in one little-endian 16-bit word: R in bits 14..10, G in 9..5, B in 4..0;
    /// bit 15 unused (written as 0).
    Rgb555Le,
    /// Packed 5-5-5 RGB in one big-endian 16-bit word: R in bits 14..10, G in 9..5, B in 4..0; bit
    /// 15 unused (written as 0).
    Rgb555Be,
    /// Packed 5-5-5 BGR in one little-endian 16-bit word: B in bits 14..10, G in 9..5, R in 4..0;
    /// bit 15 unused (written as 0).
    Bgr555Le,
    /// Packed 5-5-5 BGR in one big-endian 16-bit word: B in bits 14..10, G in 9..5, R in 4..0; bit
    /// 15 unused (written as 0).
    Bgr555Be,
    /// Packed 5-6-5 RGB in one little-endian 16-bit word: R in bits 15..11, G in 10..5, B in 4..0.
    Rgb565Le,
    /// Packed 5-6-5 RGB in one big-endian 16-bit word: R in bits 15..11, G in 10..5, B in 4..0.
    Rgb565Be,
    /// Packed 5-6-5 BGR in one little-endian 16-bit word: B in bits 15..11, G in 10..5, R in 4..0.
    Bgr565Le,
    /// Packed 5-6-5 BGR in one big-endian 16-bit word: B in bits 15..11, G in 10..5, R in 4..0.
    Bgr565Be,
    /// Packed 8-bit RGB + one padding byte, 4 bytes/pixel in byte order R, G, B, X.
    Rgbx,
    /// Packed 8-bit BGR + one padding byte, 4 bytes/pixel in byte order B, G, R, X.
    Bgrx,
    /// One padding byte + packed 8-bit RGB, 4 bytes/pixel in byte order X, R, G, B.
    Xrgb,
    /// One padding byte + packed 8-bit BGR, 4 bytes/pixel in byte order X, B, G, R.
    Xbgr,
    /// A layout this library does not know by name.
    Other,
}

/// The printable name of a pixel format.
pub open spec fn format_name(f: PixelFormat) -> Seq<char> {
    match f {
        PixelFormat::Yuv420P => "Yuv420P"@,
        PixelFormat::Yuv422P => "Yuv422P"@,
        PixelFormat::Yuv444P => "Yuv444P"@,
        PixelFormat::Rgb24 => "Rgb24"@,
        PixelFormat::Rgba => "Rgba"@,
        PixelFormat::Gray8 => "Gray8"@,
        PixelFormat::Pal8 => "Pal8"@,
        PixelFormat::Bgr24 => "Bgr24"@,
        PixelFormat::Bgra => "Bgra"@,
        PixelFormat::Argb => "Argb"@,
        PixelFormat::Abgr => "Abgr"@,
        PixelFormat::Rgb48Le => "Rgb48Le"@,
        PixelFormat::Rgba64Le => "Rgba64Le"@,
        PixelFormat::Gray16Le => "Gray16Le"@,
        PixelFormat::Gray10Le => "Gray10Le"@,
        PixelFormat::Gray12Le => "Gray12Le"@,
        PixelFormat::Yuv420P10Le => "Yuv420P10Le"@,
        PixelFormat::Yuv422P10Le => "Yuv422P10Le"@,
        PixelFormat::Yuv444P10Le => "Yuv444P10Le"@,
        PixelFormat::Yuv420P12Le => "Yuv420P12Le"@,
        PixelFormat::Yuv422P12Le => "Yuv422P12Le"@,
        PixelFormat::Yuv444P12Le => "Yuv444P12Le"@,
        PixelFormat::YuvJ420P => "YuvJ420P"@,
        PixelFormat::YuvJ422P => "YuvJ422P"@,
        PixelFormat::YuvJ444P => "YuvJ444P"@,
        PixelFormat::Nv12 => "Nv12"@,
        PixelFormat::Nv21 => "Nv21"@,
        PixelFormat::Ya8 => "Ya8"@,
        PixelFormat::Yuva420P => "Yuva420P"@,
        PixelFormat::MonoBlack => "MonoBlack"@,
        PixelFormat::MonoWhite => "MonoWhite"@,
        PixelFormat::Yuyv422 => "Yuyv422"@,
        PixelFormat::Uyvy422 => "Uyvy422"@,
        PixelFormat::Cmyk => "Cmyk"@,
        PixelFormat::Yuv411P => "Yuv411P"@,
        PixelFormat::Gbrp10Le => "Gbrp10Le"@,
        PixelFormat::Gbrap10Le => "Gbrap10Le"@,
        PixelFormat::Gbrp12Le => "Gbrp12Le"@,
        PixelFormat::Gbrap12Le => "Gbrap12Le"@,
        PixelFormat::Gbrp14Le => "Gbrp14Le"@,
        PixelFormat::Gbrap14Le => "Gbrap14Le"@,
        PixelFormat::Yuv420P16Le => "Yuv420P16Le"@,
        PixelFormat::Yuv422P16Le => "Yuv422P16Le"@,
        PixelFormat::Yuv444P16Le => "Yuv444P16Le"@,
        PixelFormat::Yuva422P => "Yuva422P"@,
        PixelFormat::Yuva444P => "Yuva444P"@,
        PixelFormat::Yuva422P10Le => "Yuva422P10Le"@,
        PixelFormat::Yuva422P12Le => "Yuva422P12Le"@,
        PixelFormat::Yuva444P10Le => "Yuva444P10Le"@,
        PixelFormat::Yuva444P12Le => "Yuva444P12Le"@,
        PixelFormat::Yuva422P16Le => "Yuva422P16Le"@,
        PixelFormat::Yuva444P16Le => "Yuva444P16Le"@,
        PixelFormat::Gbrp8 => "Gbrp8"@,
        PixelFormat::Gbrp16Le => "Gbrp16Le"@,
        PixelFormat::Gbrap16Le => "Gbrap16Le"@,
        PixelFormat::Yuva420P10Le => "Yuva420P10Le"@,
        PixelFormat::Yuva420P12Le => "Yuva420P12Le"@,
        PixelFormat::Yuva420P16Le => "Yuva420P16Le"@,
        PixelFormat::Gbrap8 => "Gbrap8"@,
        PixelFormat::Ya16Le => "Ya16Le"@,
        PixelFormat::CmykInverted => "CmykInverted"@,
        PixelFormat::Yuv440P => "Yuv440P"@,
        PixelFormat::Yuv440P10Le => "Yuv440P10Le"@,
        PixelFormat::Yuv440P12Le => "Yuv440P12Le"@,
        PixelFormat::Yuv440P16Le => "Yuv440P16Le"@,
        PixelFormat::GrayF32Le => "GrayF32Le"@,
        PixelFormat::RgbF32Le => "RgbF32Le"@,
        PixelFormat::RgbaF32Le => "RgbaF32Le"@,
        PixelFormat::GbrpF32Le => "GbrpF32Le"@,
        PixelFormat::GbrapF32Le => "GbrapF32Le"@,
        PixelFormat::Rgb555Le => "Rgb555Le"@,
        PixelFormat::Rgb555Be => "Rgb555Be"@,
        PixelFormat::Bgr555Le => "Bgr555Le"@,
        PixelFormat::Bgr555Be => "Bgr555Be"@,
        PixelFormat::Rgb565Le => "Rgb565Le"@,
        PixelFormat::Rgb565Be => "Rgb565Be"@,
        PixelFormat::Bgr565Le => "Bgr565Le"@,
        PixelFormat::Bgr565Be => "Bgr565Be"@,
        PixelFormat::Rgbx => "Rgbx"@,
        PixelFormat::Bgrx => "Bgrx"@,
        PixelFormat::Xrgb => "Xrgb"@,
        PixelFormat::Xbgr => "Xbgr"@,
        PixelFormat::Other => "Other"@,
    }
}

impl PixelFormat {
    /// The format's name as printed in error messages.
    pub fn name(&self) -> (s: &'static str)
        ensures
            s@ == format_name(*self),
    {
        match self {
            PixelFormat::Yuv420P => "Yuv420P",
            PixelFormat::Yuv422P => "Yuv422P",
            PixelFormat::Yuv444P => "Yuv444P",
            PixelFormat::Rgb24 => "Rgb24",
            PixelFormat::Rgba => "Rgba",
            PixelFormat::Gray8 => "Gray8",
            PixelFormat::Pal8 => "Pal8",
            PixelFormat::Bgr24 => "Bgr24",
            PixelFormat::Bgra => "Bgra",
            PixelFormat::Argb => "Argb",
            PixelFormat::Abgr => "Abgr",
            PixelFormat::Rgb48Le => "Rgb48Le",
            PixelFormat::Rgba64Le => "Rgba64Le",
            PixelFormat::Gray16Le => "Gray16Le",
            PixelFormat::Gray10Le => "Gray10Le",
            PixelFormat::Gray12Le => "Gray12Le",
            PixelFormat::Yuv420P10Le => "Yuv420P10Le",
            PixelFormat::Yuv422P10Le => "Yuv422P10Le",
            PixelFormat::Yuv444P10Le => "Yuv444P10Le",
            PixelFormat::Yuv420P12Le => "Yuv420P12Le",
            PixelFormat::Yuv422P12Le => "Yuv422P12Le",
            PixelFormat::Yuv444P12Le => "Yuv444P12Le",
            PixelFormat::YuvJ420P => "YuvJ420P",
            PixelFormat::YuvJ422P => "YuvJ422P",
            PixelFormat::YuvJ444P => "YuvJ444P",
            PixelFormat::Nv12 => "Nv12",
            PixelFormat::Nv21 => "Nv21",
            PixelFormat::Ya8 => "Ya8",
            PixelFormat::Yuva420P => "Yuva420P",
            PixelFormat::MonoBlack => "MonoBlack",
            PixelFormat::MonoWhite => "MonoWhite",
            PixelFormat::Yuyv422 => "Yuyv422",
            PixelFormat::Uyvy422 => "Uyvy422",
            PixelFormat::Cmyk => "Cmyk",
            PixelFormat::Yuv411P => "Yuv411P",
            PixelFormat::Gbrp10Le => "Gbrp10Le",
            PixelFormat::Gbrap10Le => "Gbrap10Le",
            PixelFormat::Gbrp12Le => "Gbrp12Le",
            PixelFormat::Gbrap12Le => "Gbrap12Le",
            PixelFormat::Gbrp14Le => "Gbrp14Le",
            PixelFormat::Gbrap14Le => "Gbrap14Le",
            PixelFormat::Yuv420P16Le => "Yuv420P16Le",
            PixelFormat::Yuv422P16Le => "Yuv422P16Le",
            PixelFormat::Yuv444P16Le => "Yuv444P16Le",
            PixelFormat::Yuva422P => "Yuva422P",
            PixelFormat::Yuva444P => "Yuva444P",
            PixelFormat::Yuva422P10Le => "Yuva422P10Le",
            PixelFormat::Yuva422P12Le => "Yuva422P12Le",
            PixelFormat::Yuva444P10Le => "Yuva444P10Le",
            PixelFormat::Yuva444P12Le => "Yuva444P12Le",
            PixelFormat::Yuva422P16Le => "Yuva422P16Le",
            PixelFormat::Yuva444P16Le => "Yuva444P16Le",
            PixelFormat::Gbrp8 => "Gbrp8",
            PixelFormat::Gbrp16Le => "Gbrp16Le",
            PixelFormat::Gbrap16Le => "Gbrap16Le",
            PixelFormat::Yuva420P10Le => "Yuva420P10Le",
            PixelFormat::Yuva420P12Le => "Yuva420P12Le",
            PixelFormat::Yuva420P16Le => "Yuva420P16Le",
            PixelFormat::Gbrap8 => "Gbrap8",
            PixelFormat::Ya16Le => "Ya16Le",
            PixelFormat::CmykInverted => "CmykInverted",
            PixelFormat::Yuv440P => "Yuv440P",
            PixelFormat::Yuv440P10Le => "Yuv440P10Le",
            PixelFormat::Yuv440P12Le => "Yuv440P12Le",
            PixelFormat::Yuv440P16Le => "Yuv440P16Le",
            PixelFormat::GrayF32Le => "GrayF32Le",
            PixelFormat::RgbF32Le => "RgbF32Le",
            PixelFormat::RgbaF32Le => "RgbaF32Le",
            PixelFormat::GbrpF32Le => "GbrpF32Le",
            PixelFormat::GbrapF32Le => "GbrapF32Le",
            PixelFormat::Rgb555Le => "Rgb555Le",
            PixelFormat::Rgb555Be => "Rgb555Be",
            PixelFormat::Bgr555Le => "Bgr555Le",
            PixelFormat::Bgr555Be => "Bgr555Be",
            PixelFormat::Rgb565Le => "Rgb565Le",
            PixelFormat::Rgb565Be => "Rgb565Be",
            PixelFormat::Bgr565Le => "Bgr565Le",
            PixelFormat::Bgr565Be => "Bgr565Be",
            PixelFormat::Rgbx => "Rgbx",
            PixelFormat::Bgrx => "Bgrx",
            PixelFormat::Xrgb => "Xrgb",
            PixelFormat::Xbgr => "Xbgr",
            PixelFormat::Other => "Other",
        }
    }
}

/// True for the three 8-bit planar YUV layouts.
pub open spec fn is_planar_yuv(f: PixelFormat) -> bool {
    f == PixelFormat::Yuv420P || f == PixelFormat::Yuv422P || f == PixelFormat::Yuv444P
}

/// The formats the generic filters handle: Gray8, Rgb24, Rgba and
/// 8-bit planar YUV.
pub open spec fn supported_format(f: PixelFormat) -> bool {
    f == PixelFormat::Gray8 || f == PixelFormat::Rgb24 || f == PixelFormat::Rgba
        || is_planar_yuv(f)
}

/// Tests [`supported_format`].
pub fn is_supported_format(f: PixelFormat) -> (b: bool)
    ensures
        b == supported_format(f),
{
    match f {
        PixelFormat::Gray8 | PixelFormat::Rgb24 | PixelFormat::Rgba | PixelFormat::Yuv420P
        | PixelFormat::Yuv422P | PixelFormat::Yuv444P => true,
        _ => false,
    }
}

/// One image plane: `stride` bytes per row.
#[derive(Clone, Debug)]
pub struct VideoPlane {
    /// Bytes per row in `data`.
    pub stride: usize,
    /// Raw plane bytes.
    pub data: Vec<u8>,
}

/// A decoded picture.
#[derive(Clone, Debug)]
pub struct VideoFrame {
    /// Presentation timestamp; `None` if unknown.
    pub pts: Option<i64>,
    /// One entry per plane.
    pub planes: Vec<VideoPlane>,
}

/// The contents of a plane.
pub struct PlaneView {
    /// Bytes per row.
    pub stride: usize,
    /// The plane's bytes.
    pub data: Seq<u8>,
}

/// The contents of a frame.
pub struct FrameView {
    /// Presentation timestamp.
    pub pts: Option<i64>,
    /// The planes, in order.
    pub planes: Seq<PlaneView>,
}

impl View for VideoPlane {
    type V = PlaneView;

    open spec fn view(&self) -> PlaneView {
        PlaneView { stride: self.stride, data: self.data@ }
    }
}

impl View for VideoFrame {
    type V = FrameView;

    open spec fn view(&self) -> FrameView {
        FrameView { pts: self.pts, planes: self.planes@.map_values(|p: VideoPlane| p@) }
    }
}

/// Shape of the frames flowing through a filter.
#[derive(Clone, Copy, Debug)]
pub struct VideoStreamParams {
    /// Pixel layout.
    pub format: PixelFormat,
    /// Width in pixels.
    pub width: u32,
    /// Height in pixels.
    pub height: u32,
}

/// Why a filter refused a frame.
#[derive(Debug)]
pub enum FilterError {
    /// The frame's layout is not handled by the filter.
    Unsupported(String),
    /// The frame or the filter's parameters break the filter's rules.
    Invalid(String),
}

/// The text of an error.
pub open spec fn error_text(e: FilterError) -> Seq<char> {
    match e {
        FilterError::Unsupported(s) => s@,
        FilterError::Invalid(s) => s@,
    }
}

impl FilterError {
    /// The error's message.
    pub fn message(&self) -> (s: String)
        ensures
            s@ == error_text(*self),
    {
        match self {
            FilterError::Unsupported(s) => s.clone(),
            FilterError::Invalid(s) => s.clone(),
        }
    }
}

/// The text of an "unsupported format" error: `prefix` followed by the
/// format's name.
pub open spec fn unsupported_text(prefix: Seq<char>, f: PixelFormat) -> Seq<char> {
    prefix + format_name(f)
}

/// Builds the "unsupported format" error whose text is `prefix`
/// followed by the format's name.
pub fn unsupported(prefix: &str, f: PixelFormat) -> (e: FilterError)
    ensures
        e is Unsupported,
        error_text(e) == unsupported_text(prefix@, f),
{
    let mut s = prefix.to_owned();
    s.append(f.name());
    FilterError::Unsupported(s)
}

/// Builds an "invalid input" error with the given text.
pub fn invalid(text: &str) -> (e: FilterError)
    ensures
        e is Invalid,
        error_text(e) == text@,
{
    FilterError::Invalid(text.to_owned())
}

/// The first `rows` rows of `row_bytes` bytes each, `stride` bytes
/// apart, lie inside `len` bytes.
pub open spec fn rows_fit(len: int, stride: int, rows: int, row_bytes: int) -> bool {
    rows <= 0 || (rows - 1) * stride + row_bytes <= len
}

/// Row `y` of a fitting layout lies inside the buffer.
pub proof fn lemma_row_in_bounds(len: int, stride: int, rows: int, row_bytes: int, y: int)
    requires
        rows_fit(len, stride, rows, row_bytes),
        0 <= y < rows,
        stride >= 0,
        row_bytes >= 0,
    ensures
        y * stride + row_bytes <= len,
        0 <= y * stride,
{
    assert(y * stride <= (rows - 1) * stride) by (nonlinear_arith)
        requires
            0 <= y <= rows - 1,
            stride >= 0,
    ;
    assert(0 <= y * stride) by (nonlinear_arith)
        requires
            0 <= y,
            stride >= 0,
    ;
}

/// Bytes per pixel of the first plane.
pub open spec fn first_plane_bpp(f: PixelFormat) -> int {
    if f == PixelFormat::Rgb24 {
        3
    } else if f == PixelFormat::Rgba {
        4
    } else {
        1
    }
}

/// Gray8, Rgb24 or Rgba: one plane of 1, 3 or 4 bytes per pixel.
pub open spec fn gray_or_packed_rgb(f: PixelFormat) -> bool {
    f == PixelFormat::Gray8 || f == PixelFormat::Rgb24 || f == PixelFormat::Rgba
}

/// Colour channels per pixel of the first plane (alpha excluded).
pub open spec fn colour_channels(f: PixelFormat) -> int {
    if f == PixelFormat::Rgb24 || f == PixelFormat::Rgba {
        3
    } else {
        1
    }
}

/// The first plane exists and its `height` rows of `width` pixels lie
/// inside its bytes.
pub open spec fn first_plane_fits(v: FrameView, params: VideoStreamParams) -> bool {
    &&& v.planes.len() >= 1
    &&& rows_fit(
        v.planes[0].data.len() as int,
        v.planes[0].stride as int,
        params.height as int,
        params.width * first_plane_bpp(params.format),
    )
}

/// An exact copy of a plane.
pub fn copy_plane(p: &VideoPlane) -> (r: VideoPlane)
    ensures
        r@ == p@,
{
    VideoPlane { stride: p.stride, data: p.data.clone() }
}

/// An exact copy of a frame.
pub fn copy_frame(input: &VideoFrame) -> (r: VideoFrame)
    ensures
        r@ == input@,
{
    let mut planes: Vec<VideoPlane> = Vec::new();
    let n = input.planes.len();
    let mut i: usize = 0;
    while i < n
        invariant
            0 <= i <= n,
            n == input.planes.len(),
            planes.len() == i,
            forall|j: int| 0 <= j < i ==> #[trigger] planes[j]@ == input.planes[j]@,
        decreases n - i,
    {
        planes.push(copy_plane(&input.planes[i]));
        i = i + 1;
    }
    let r = VideoFrame { pts: input.pts, planes };
    assert(r@.planes =~= input@.planes);
    r
}

/// `input` with its first plane replaced by `first`.
pub fn with_first_plane(input: &VideoFrame, first: VideoPlane) -> (r: VideoFrame)
    requires
        input.planes.len() >= 1,
    ensures
        r@ == (FrameView { pts: input.pts, planes: input@.planes.update(0, first@) }),
{
    let mut planes: Vec<VideoPlane> = Vec::new();
    planes.push(first);
    let n = input.planes.len();
    let mut i: usize = 1;
    while i < n
        invariant
            1 <= i <= n,
            n == input.planes.len(),
            planes.len() == i,
            planes[0]@ == first@,
            forall|j: int| 1 <= j < i ==> #[trigger] planes[j]@ == input.planes[j]@,
        decreases n - i,
    {
        planes.push(copy_plane(&input.planes[i]));
        i = i + 1;
    }
    let r = VideoFrame { pts: input.pts, planes };
    assert(r@.planes =~= input@.planes.update(0, first@));
    r
}

/// A frame of one plane with the given stride and bytes.
pub fn single_plane_frame(pts: Option<i64>, stride: usize, data: Vec<u8>) -> (r: VideoFrame)
    ensures
        r@ == (FrameView { pts, planes: seq![PlaneView { stride, data: data@ }] }),
{
    let mut planes: Vec<VideoPlane> = Vec::new();
    planes.push(VideoPlane { stride, data });
    let r = VideoFrame { pts, planes };
    assert(r@.planes =~= seq![PlaneView { stride, data: data@ }]);
    r
}

} // verus!
