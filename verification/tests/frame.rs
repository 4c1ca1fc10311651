use oxideav_image_filter::frame::{copy_frame, is_supported_format};
use oxideav_image_filter::luma::{build_luma_plane, collapse_to_luma, quick_luma, rec601, tone, LumaRule};
use oxideav_image_filter::{FilterError, PixelFormat, VideoFrame, VideoPlane, VideoStreamParams};

#[test]
fn supported_formats() {
    for f in [
        PixelFormat::Gray8,
        PixelFormat::Rgb24,
        PixelFormat::Rgba,
        PixelFormat::Yuv420P,
        PixelFormat::Yuv422P,
        PixelFormat::Yuv444P,
    ] {
        assert!(is_supported_format(f));
    }
    for f in [PixelFormat::Nv12, PixelFormat::Yuyv422, PixelFormat::Yuv420P10Le, PixelFormat::Other] {
        assert!(!is_supported_format(f));
    }
    assert_eq!(PixelFormat::Yuv420P10Le.name(), "Yuv420P10Le");
}

#[test]
fn luma_formulas() {
    assert_eq!(rec601(255, 255, 255), 255);
    assert_eq!(rec601(100, 0, 0), 29);
    assert_eq!(quick_luma(10, 20, 30), 20);
    assert_eq!(quick_luma(255, 255, 255), 255);
    assert_eq!(tone(8, 8, 8), 8);
}

#[test]
fn collapse_reads_rows_with_stride() {
    // Two RGB pixels per row, one byte of padding.
    let p = VideoPlane { stride: 7, data: vec![0, 0, 0, 40, 80, 120, 9, 255, 255, 255, 4, 8, 12, 9] };
    let q = collapse_to_luma(LumaRule::Quick, PixelFormat::Rgb24, &p, 2, 2);
    assert_eq!(q, vec![0, 80, 255, 8]);
    let g = VideoPlane { stride: 3, data: vec![1, 2, 99, 3, 4, 99] };
    assert_eq!(collapse_to_luma(LumaRule::Rec601, PixelFormat::Gray8, &g, 2, 2), vec![1, 2, 3, 4]);
}

#[test]
fn build_luma_needs_a_plane() {
    let empty = VideoFrame { pts: None, planes: vec![] };
    let params = VideoStreamParams { format: PixelFormat::Gray8, width: 1, height: 1 };
    match build_luma_plane(&empty, params) {
        Err(FilterError::Invalid(s)) => {
            assert_eq!(s, "oxideav-image-filter: luma input requires a non-empty first plane")
        },
        _ => panic!("expected an invalid-input error"),
    }
}

#[test]
fn copy_frame_is_exact() {
    let f = VideoFrame {
        pts: Some(-4),
        planes: vec![VideoPlane { stride: 2, data: vec![1, 2] }, VideoPlane { stride: 1, data: vec![3] }],
    };
    let c = copy_frame(&f);
    assert_eq!(c.pts, Some(-4));
    assert_eq!(c.planes.len(), 2);
    assert_eq!(c.planes[0].data, vec![1, 2]);
    assert_eq!(c.planes[1].stride, 1);
}
