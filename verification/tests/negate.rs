use oxideav_image_filter::{Negate, PixelFormat, VideoFrame, VideoPlane, VideoStreamParams};

fn gray(w: u32, h: u32, pattern: impl Fn(u32, u32) -> u8) -> VideoFrame {
    let mut data = Vec::with_capacity((w * h) as usize);
    for y in 0..h {
        for x in 0..w {
            data.push(pattern(x, y));
        }
    }
    VideoFrame {
        pts: None,
        planes: vec![VideoPlane {
            stride: w as usize,
            data,
        }],
    }
}

#[test]
fn negate_gray_inverts_every_pixel() {
    let input = gray(4, 4, |x, y| (x * 10 + y) as u8);
    let out = Negate::new()
        .apply(&input, VideoStreamParams { format: PixelFormat::Gray8, width: 4, height: 4 })
        .unwrap();
    for (i, v) in out.planes[0].data.iter().enumerate() {
        let orig = input.planes[0].data[i];
        assert_eq!(*v, 255 - orig);
    }
}

#[test]
fn negate_twice_is_identity() {
    let p = VideoStreamParams { format: PixelFormat::Gray8, width: 4, height: 4 };
    let input = gray(4, 4, |x, y| ((x + y * 4) * 7) as u8);
    let once = Negate::new().apply(&input, p).unwrap();
    let twice = Negate::new().apply(&once, p).unwrap();
    assert_eq!(twice.planes[0].data, input.planes[0].data);
}

#[test]
fn negate_rgba_preserves_alpha() {
    let data: Vec<u8> = (0..4 * 4)
        .flat_map(|i| [i as u8, (i + 10) as u8, (i + 20) as u8, 200u8])
        .collect();
    let input = VideoFrame {
        pts: None,
        planes: vec![VideoPlane {
            stride: 4 * 4,
            data,
        }],
    };
    let out = Negate::new()
        .apply(&input, VideoStreamParams { format: PixelFormat::Rgba, width: 4, height: 4 })
        .unwrap();
    for x in 0..16 {
        let src = &input.planes[0].data[x * 4..x * 4 + 4];
        let dst = &out.planes[0].data[x * 4..x * 4 + 4];
        assert_eq!(dst[0], 255 - src[0]);
        assert_eq!(dst[1], 255 - src[1]);
        assert_eq!(dst[2], 255 - src[2]);
        assert_eq!(dst[3], 200, "alpha must be preserved");
    }
}

#[test]
fn negate_yuv_touches_only_luma() {
    let y: Vec<u8> = (0..4 * 4).map(|i| i as u8 * 10).collect();
    let u = vec![77u8; 2 * 2];
    let v = vec![128u8; 2 * 2];
    let input = VideoFrame {
        pts: None,
        planes: vec![
            VideoPlane {
                stride: 4,
                data: y.clone(),
            },
            VideoPlane {
                stride: 2,
                data: u.clone(),
            },
            VideoPlane {
                stride: 2,
                data: v.clone(),
            },
        ],
    };
    let out = Negate::new()
        .apply(&input, VideoStreamParams { format: PixelFormat::Yuv420P, width: 4, height: 4 })
        .unwrap();
    for (i, b) in out.planes[0].data.iter().enumerate() {
        assert_eq!(*b, 255 - y[i]);
    }
    assert_eq!(out.planes[1].data, u);
    assert_eq!(out.planes[2].data, v);
}

#[test]
fn negate_rejects_packed_yuv_with_format_name() {
    let input = gray(4, 4, |_, _| 0);
    let err = Negate::new()
        .apply(&input, VideoStreamParams { format: PixelFormat::Yuyv422, width: 4, height: 4 })
        .unwrap_err();
    assert_eq!(err.message(), "oxideav-image-filter: Negate does not yet handle Yuyv422");
}

#[test]
fn negate_leaves_row_padding_alone() {
    // Stride 3 for a 2-pixel-wide Gray8 plane: the padding byte of each
    // row is not a pixel and keeps its value.
    let input = VideoFrame {
        pts: Some(5),
        planes: vec![VideoPlane { stride: 3, data: vec![0, 10, 99, 20, 30, 99] }],
    };
    let out = Negate::new()
        .apply(&input, VideoStreamParams { format: PixelFormat::Gray8, width: 2, height: 2 })
        .unwrap();
    assert_eq!(out.planes[0].data, vec![255, 245, 99, 235, 225, 99]);
    assert_eq!(out.pts, Some(5));
}
