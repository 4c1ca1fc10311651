use oxideav_image_filter::posterize::{build_posterize_lut, posterize_level};
use oxideav_image_filter::{PixelFormat, Posterize, VideoFrame, VideoPlane, VideoStreamParams};

fn gray(w: u32, h: u32, pattern: impl Fn(u32, u32) -> u8) -> VideoFrame {
    let mut data = Vec::with_capacity((w * h) as usize);
    for y in 0..h {
        for x in 0..w {
            data.push(pattern(x, y));
        }
    }
    VideoFrame {
        pts: None,
        planes: vec![VideoPlane {
            stride: w as usize,
            data,
        }],
    }
}

fn p(format: PixelFormat, w: u32, h: u32) -> VideoStreamParams {
    VideoStreamParams { format, width: w, height: h }
}

#[test]
fn posterize_two_levels_is_binary() {
    let input = gray(4, 4, |x, y| (x * 32 + y * 32) as u8);
    let out = Posterize::new(2).apply(&input, p(PixelFormat::Gray8, 4, 4)).unwrap();
    for v in &out.planes[0].data {
        assert!(*v == 0 || *v == 255, "got {v}");
    }
}

#[test]
fn posterize_four_levels_matches_formula() {
    let input = gray(4, 1, |x, _| match x {
        0 => 10,
        1 => 100,
        2 => 180,
        _ => 250,
    });
    let out = Posterize::new(4).apply(&input, p(PixelFormat::Gray8, 4, 1)).unwrap();
    let vs = &out.planes[0].data;
    let allowed = [0u8, 85, 170, 255];
    for v in vs {
        assert!(allowed.contains(v), "got {v}");
    }
    assert_eq!(vs[0], 0);
    assert_eq!(vs[3], 255);
}

#[test]
fn posterize_256_levels_is_identity() {
    let input = gray(4, 4, |x, y| ((x + y * 4) * 15) as u8);
    let out = Posterize::new(256).apply(&input, p(PixelFormat::Gray8, 4, 4)).unwrap();
    assert_eq!(out.planes[0].data, input.planes[0].data);
}

#[test]
fn posterize_rgba_preserves_alpha() {
    let data: Vec<u8> = (0..16).flat_map(|_| [100u8, 100, 100, 200]).collect();
    let input = VideoFrame {
        pts: None,
        planes: vec![VideoPlane { stride: 16, data }],
    };
    let out = Posterize::new(4).apply(&input, p(PixelFormat::Rgba, 4, 4)).unwrap();
    for i in 0..16 {
        assert_eq!(out.planes[0].data[i * 4 + 3], 200);
        assert_eq!(out.planes[0].data[i * 4], 85);
    }
}

#[test]
fn posterize_levels_below_two_are_raised() {
    assert_eq!(build_posterize_lut(0), build_posterize_lut(2));
    assert_eq!(posterize_level(127, 1), 0);
    assert_eq!(posterize_level(128, 1), 255);
}

#[test]
fn posterize_lut_values() {
    // Three levels: buckets of width 256/3, palette {0, 128, 255}
    // (127.5 rounds up).
    let lut = build_posterize_lut(3);
    assert_eq!(lut[0], 0);
    assert_eq!(lut[85], 0);
    assert_eq!(lut[86], 128);
    assert_eq!(lut[170], 128);
    assert_eq!(lut[171], 255);
    assert_eq!(lut[255], 255);
}

#[test]
fn posterize_yuv_touches_only_luma() {
    let input = VideoFrame {
        pts: None,
        planes: vec![
            VideoPlane { stride: 2, data: vec![10, 250, 130, 60] },
            VideoPlane { stride: 1, data: vec![33] },
            VideoPlane { stride: 1, data: vec![44] },
        ],
    };
    let out = Posterize::new(2).apply(&input, p(PixelFormat::Yuv420P, 2, 2)).unwrap();
    assert_eq!(out.planes[0].data, vec![0, 255, 255, 0]);
    assert_eq!(out.planes[1].data, vec![33]);
    assert_eq!(out.planes[2].data, vec![44]);
}

#[test]
fn posterize_rejects_nv12() {
    let input = gray(2, 2, |_, _| 0);
    let err = Posterize::default().apply(&input, p(PixelFormat::Nv12, 2, 2)).unwrap_err();
    assert_eq!(err.message(), "oxideav-image-filter: Posterize does not yet handle Nv12");
}

#[test]
fn posterize_tables_are_monotone() {
    for n in [2u32, 3, 5, 7, 15, 16, 100, 255, 256, 257, 1000] {
        let t = build_posterize_lut(n);
        for v in 0..255 {
            assert!(t[v] <= t[v + 1], "n = {n}, v = {v}");
        }
        assert_eq!(t[0], 0);
    }
}
