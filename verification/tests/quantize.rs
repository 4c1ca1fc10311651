use std::collections::HashSet;

use oxideav_image_filter::{PixelFormat, Quantize, VideoFrame, VideoPlane, VideoStreamParams};

fn rgb(w: u32, h: u32, f: impl Fn(u32, u32) -> [u8; 3]) -> VideoFrame {
    let mut data = Vec::with_capacity((w * h * 3) as usize);
    for y in 0..h {
        for x in 0..w {
            data.extend_from_slice(&f(x, y));
        }
    }
    VideoFrame {
        pts: None,
        planes: vec![VideoPlane {
            stride: (w * 3) as usize,
            data,
        }],
    }
}

fn params_rgb(w: u32, h: u32) -> VideoStreamParams {
    VideoStreamParams {
        format: PixelFormat::Rgb24,
        width: w,
        height: h,
    }
}

#[test]
fn levels_per_axis_rounds_up() {
    assert_eq!(Quantize::new(8).levels_per_axis(), 2);
    assert_eq!(Quantize::new(27).levels_per_axis(), 3);
    assert_eq!(Quantize::new(64).levels_per_axis(), 4);
    assert_eq!(Quantize::new(65).levels_per_axis(), 5);
}

#[test]
fn snap_with_k_2_outputs_extremes() {
    assert_eq!(Quantize::snap(0, 2), 0);
    assert_eq!(Quantize::snap(127, 2), 0);
    assert_eq!(Quantize::snap(128, 2), 255);
    assert_eq!(Quantize::snap(255, 2), 255);
}

#[test]
fn output_palette_is_at_most_k_per_axis() {
    let input = rgb(16, 16, |x, y| {
        [(x * 16) as u8, (y * 16) as u8, ((x + y) * 8) as u8]
    });
    let out = Quantize::new(64).apply(&input, params_rgb(16, 16)).unwrap();
    let mut r = HashSet::new();
    let mut g = HashSet::new();
    let mut b = HashSet::new();
    for chunk in out.planes[0].data.chunks(3) {
        r.insert(chunk[0]);
        g.insert(chunk[1]);
        b.insert(chunk[2]);
    }
    assert!(r.len() <= 4, "R palette too large: {r:?}");
    assert!(g.len() <= 4, "G palette too large: {g:?}");
    assert!(b.len() <= 4, "B palette too large: {b:?}");
}

#[test]
fn quantize_alpha_preserved_on_rgba() {
    let data: Vec<u8> = (0..16).flat_map(|i| [10u8, 50, 200, i as u8]).collect();
    let input = VideoFrame {
        pts: None,
        planes: vec![VideoPlane { stride: 16, data }],
    };
    let out = Quantize::new(8)
        .apply(
            &input,
            VideoStreamParams {
                format: PixelFormat::Rgba,
                width: 4,
                height: 4,
            },
        )
        .unwrap();
    for i in 0..16 {
        assert_eq!(out.planes[0].data[i * 4 + 3], i as u8);
    }
}

#[test]
fn quantize_rejects_yuv() {
    let input = VideoFrame {
        pts: None,
        planes: vec![
            VideoPlane {
                stride: 4,
                data: vec![128; 16],
            },
            VideoPlane {
                stride: 2,
                data: vec![128; 4],
            },
            VideoPlane {
                stride: 2,
                data: vec![128; 4],
            },
        ],
    };
    let err = Quantize::default()
        .apply(
            &input,
            VideoStreamParams {
                format: PixelFormat::Yuv420P,
                width: 4,
                height: 4,
            },
        )
        .unwrap_err();
    assert!(err.message().contains("Quantize"));
}

#[test]
fn levels_per_axis_extremes() {
    assert_eq!(Quantize::new(0).levels_per_axis(), 2);
    assert_eq!(Quantize { colors: 1 }.levels_per_axis(), 2);
    assert_eq!(Quantize::new(125).levels_per_axis(), 5);
    assert_eq!(Quantize::new(126).levels_per_axis(), 6);
    assert_eq!(Quantize::new(u32::MAX).levels_per_axis(), 1626);
    for k in 2u32..=1625 {
        assert_eq!(Quantize::new(k * k * k).levels_per_axis(), k);
        assert_eq!(Quantize::new(k * k * k + 1).levels_per_axis(), k + 1);
    }
}

#[test]
fn snap_palette_of_four() {
    // k = 4: buckets of 64 samples, palette {0, 85, 170, 255}.
    assert_eq!(Quantize::snap(63, 4), 0);
    assert_eq!(Quantize::snap(64, 4), 85);
    assert_eq!(Quantize::snap(191, 4), 170);
    assert_eq!(Quantize::snap(192, 4), 255);
    // k below 2 behaves as 2.
    assert_eq!(Quantize::snap(200, 0), 255);
}

#[test]
fn snap_keeps_black_and_white_for_every_k() {
    for k in 2u32..=3000 {
        assert_eq!(Quantize::snap(0, k), 0, "k = {k}");
        assert_eq!(Quantize::snap(255, k), 255, "k = {k}");
    }
}

#[test]
fn gray_uses_budget_as_levels() {
    // Gray8 with 3 colours: buckets (3v + 1) / 256, palette {0, 128, 255}.
    let input = VideoFrame { pts: None, planes: vec![VideoPlane { stride: 4, data: vec![0, 84, 85, 255] }] };
    let out = Quantize::new(3)
        .apply(&input, VideoStreamParams { format: PixelFormat::Gray8, width: 4, height: 1 })
        .unwrap();
    assert_eq!(out.planes[0].data, vec![0, 0, 128, 255]);
}

#[test]
fn quantize_default_budget() {
    assert_eq!(Quantize::default().colors, 64);
    assert_eq!(Quantize::new(1).colors, 2);
}

#[test]
fn snap_is_monotone_in_the_sample() {
    for k in [2u32, 3, 4, 6, 27, 255, 256, 1000] {
        for v in 0u8..255 {
            assert!(Quantize::snap(v, k) <= Quantize::snap(v + 1, k), "k = {k}, v = {v}");
        }
    }
}
