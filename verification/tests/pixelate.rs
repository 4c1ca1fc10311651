use oxideav_image_filter::pixelate::pixelate_plane;
use oxideav_image_filter::{Pixelate, PixelFormat, VideoFrame, VideoPlane, VideoStreamParams};

fn p_rgb(w: u32, h: u32) -> VideoStreamParams {
    VideoStreamParams {
        format: PixelFormat::Rgb24,
        width: w,
        height: h,
    }
}

fn rgb(w: u32, h: u32, f: impl Fn(u32, u32) -> [u8; 3]) -> VideoFrame {
    let mut data = Vec::with_capacity((w * h * 3) as usize);
    for y in 0..h {
        for x in 0..w {
            data.extend_from_slice(&f(x, y));
        }
    }
    VideoFrame {
        pts: None,
        planes: vec![VideoPlane {
            stride: (w * 3) as usize,
            data,
        }],
    }
}

#[test]
fn block_one_is_passthrough() {
    let input = rgb(4, 4, |x, y| [(x * 30) as u8, (y * 30) as u8, 100]);
    let out = Pixelate::new(1).apply(&input, p_rgb(4, 4)).unwrap();
    assert_eq!(out.planes[0].data, input.planes[0].data);
}

#[test]
fn constant_input_constant_output() {
    let input = rgb(8, 8, |_, _| [128, 64, 32]);
    let out = Pixelate::new(4).apply(&input, p_rgb(8, 8)).unwrap();
    for chunk in out.planes[0].data.chunks(3) {
        assert_eq!(chunk, &[128, 64, 32]);
    }
}

#[test]
fn block_two_yields_pairs_of_identical_pixels() {
    let input = rgb(4, 2, |x, _| [(x * 60) as u8, (x * 30) as u8, 100]);
    let out = Pixelate::new(2).apply(&input, p_rgb(4, 2)).unwrap();
    let p00 = &out.planes[0].data[0..3];
    let p10 = &out.planes[0].data[3..6];
    let p01 = &out.planes[0].data[12..15];
    let p11 = &out.planes[0].data[15..18];
    assert_eq!(p00, p10);
    assert_eq!(p00, p01);
    assert_eq!(p00, p11);
    assert_eq!(p00[0], 30);
}

#[test]
fn shape_preserved() {
    let input = rgb(5, 3, |_, _| [10, 20, 30]);
    let out = Pixelate::new(2).apply(&input, p_rgb(5, 3)).unwrap();
    assert_eq!(out.planes[0].stride, 15);
    assert_eq!(out.planes[0].data.len(), 45);
}

#[test]
fn pixelate_rejects_unsupported_format() {
    let f = VideoFrame {
        pts: None,
        planes: vec![VideoPlane {
            stride: 4,
            data: vec![0; 16],
        }],
    };
    let err = Pixelate::new(2)
        .apply(
            &f,
            VideoStreamParams {
                format: PixelFormat::Yuyv422,
                width: 4,
                height: 4,
            },
        )
        .unwrap_err();
    assert!(err.message().contains("Pixelate"));
}

#[test]
fn pixelate_edge_tiles_are_cut_short() {
    // 3×1 gray with block 2: tiles [0,1] and [2]; the mean of 10 and 21
    // rounds (31 + 1) / 2 = 16, the lone edge pixel keeps its value.
    let input = VideoFrame { pts: None, planes: vec![VideoPlane { stride: 3, data: vec![10, 21, 50] }] };
    let out = Pixelate::new(2)
        .apply(&input, VideoStreamParams { format: PixelFormat::Gray8, width: 3, height: 1 })
        .unwrap();
    assert_eq!(out.planes[0].data, vec![16, 16, 50]);
}

#[test]
fn pixelate_yuv_keeps_chroma() {
    let input = VideoFrame {
        pts: Some(3),
        planes: vec![
            VideoPlane { stride: 2, data: vec![0, 100, 200, 100] },
            VideoPlane { stride: 1, data: vec![7] },
            VideoPlane { stride: 1, data: vec![9] },
        ],
    };
    let out = Pixelate::new(2)
        .apply(&input, VideoStreamParams { format: PixelFormat::Yuv420P, width: 2, height: 2 })
        .unwrap();
    assert_eq!(out.planes.len(), 3);
    assert_eq!(out.planes[0].data, vec![100, 100, 100, 100]);
    assert_eq!(out.planes[1].data, vec![7]);
    assert_eq!(out.planes[2].data, vec![9]);
    assert_eq!(out.pts, Some(3));
}

#[test]
fn pixelate_missing_planes_are_invalid() {
    let input = VideoFrame { pts: None, planes: vec![] };
    let err = Pixelate::new(2)
        .apply(&input, VideoStreamParams { format: PixelFormat::Gray8, width: 2, height: 2 })
        .unwrap_err();
    assert_eq!(err.message(), "oxideav-image-filter: Pixelate requires a non-empty Gray8 plane");
    let err = Pixelate::new(2)
        .apply(&input, VideoStreamParams { format: PixelFormat::Yuv444P, width: 2, height: 2 })
        .unwrap_err();
    assert_eq!(err.message(), "oxideav-image-filter: Pixelate on planar YUV requires 3 planes");
}

#[test]
fn pixelate_default_block_is_eight() {
    assert_eq!(Pixelate::default().block, 8);
}

#[test]
fn pixelate_huge_block_is_one_tile() {
    // A block wider than the picture makes the whole frame one tile:
    // (10 + 21 + 50 + 1) / 3 = 27.
    let input = VideoFrame { pts: None, planes: vec![VideoPlane { stride: 3, data: vec![10, 21, 50] }] };
    let out = Pixelate::new(u32::MAX)
        .apply(&input, VideoStreamParams { format: PixelFormat::Gray8, width: 3, height: 1 })
        .unwrap();
    assert_eq!(out.planes[0].data, vec![27, 27, 27]);
}

#[test]
fn pixelate_twice_is_once() {
    let input = rgb(7, 5, |x, y| [(x * 37 + y * 11) as u8, (x * y * 9) as u8, (200 - x * y) as u8]);
    let f = Pixelate::new(3);
    let once = f.apply(&input, p_rgb(7, 5)).unwrap();
    let twice = f.apply(&once, p_rgb(7, 5)).unwrap();
    assert_eq!(twice.planes[0].data, once.planes[0].data);
    assert_eq!(twice.planes[0].stride, once.planes[0].stride);
}

#[test]
fn pixelate_tile_sums_depend_on_the_pixels() {
    // One 4200 × 4200 tile: 255 times its area passes u32::MAX.
    let n = 4200u32;
    let p = VideoStreamParams { format: PixelFormat::Gray8, width: n, height: n };
    let frame = |v: u8| VideoFrame {
        pts: None,
        planes: vec![VideoPlane { stride: n as usize, data: vec![v; (n * n) as usize] }],
    };
    let f = Pixelate::new(n);
    assert!(f.tiles_fit_in(&frame(1), p));
    assert!(!f.tiles_fit_in(&frame(255), p));
    assert!(Pixelate::new(1).tiles_fit_in(&frame(255), p));
}

#[test]
fn pixelate_plane_takes_two_byte_pixels() {
    // 2 × 2 pixels of 2 bytes, row stride 5 (one padding byte).
    let src = VideoPlane { stride: 5, data: vec![10, 20, 30, 40, 99, 50, 60, 70, 80, 99] };
    assert_eq!(pixelate_plane(&src, 2, 2, 2, 1), vec![10, 20, 30, 40, 50, 60, 70, 80]);
    assert_eq!(pixelate_plane(&src, 2, 2, 2, 2), vec![40, 50, 40, 50, 40, 50, 40, 50]);
    // Any pixel width is copied when the block is 1.
    let wide = VideoPlane { stride: 6, data: (0..12).collect() };
    assert_eq!(pixelate_plane(&wide, 1, 2, 6, 1), (0..12).collect::<Vec<u8>>());
}
