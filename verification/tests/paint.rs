use oxideav_image_filter::paint::luma;
use oxideav_image_filter::{Paint, PixelFormat, VideoFrame, VideoPlane, VideoStreamParams};

fn rgb(w: u32, h: u32, f: impl Fn(u32, u32) -> [u8; 3]) -> VideoFrame {
    let mut data = Vec::with_capacity((w * h * 3) as usize);
    for y in 0..h {
        for x in 0..w {
            data.extend_from_slice(&f(x, y));
        }
    }
    VideoFrame {
        pts: None,
        planes: vec![VideoPlane {
            stride: (w * 3) as usize,
            data,
        }],
    }
}

fn params_rgb(w: u32, h: u32) -> VideoStreamParams {
    VideoStreamParams {
        format: PixelFormat::Rgb24,
        width: w,
        height: h,
    }
}

#[test]
fn radius_zero_is_identity() {
    let input = rgb(4, 4, |x, y| [(x * 30) as u8, (y * 30) as u8, 77]);
    let out = Paint::new(0).apply(&input, params_rgb(4, 4)).unwrap();
    assert_eq!(out.planes[0].data, input.planes[0].data);
}

#[test]
fn solid_image_passes_through() {
    let input = rgb(4, 4, |_, _| [100, 50, 200]);
    let out = Paint::new(1).apply(&input, params_rgb(4, 4)).unwrap();
    for chunk in out.planes[0].data.chunks(3) {
        assert_eq!(chunk, &[100, 50, 200]);
    }
}

#[test]
fn picks_modal_colour_in_window() {
    let input = rgb(3, 3, |x, y| {
        if x == 1 && y == 1 {
            [255, 0, 0]
        } else {
            [10, 10, 10]
        }
    });
    let out = Paint::new(1).apply(&input, params_rgb(3, 3)).unwrap();
    let centre = &out.planes[0].data[(3 + 1) * 3..(3 + 1) * 3 + 3];
    assert!(
        centre[0] < 30 && centre[1] < 30 && centre[2] < 30,
        "expected dark modal pixel, got {centre:?}"
    );
}

#[test]
fn rgba_alpha_is_taken_from_source() {
    let data: Vec<u8> = (0..16).flat_map(|i| [10u8, 10, 10, i as u8]).collect();
    let input = VideoFrame {
        pts: None,
        planes: vec![VideoPlane { stride: 16, data }],
    };
    let out = Paint::new(1)
        .apply(
            &input,
            VideoStreamParams {
                format: PixelFormat::Rgba,
                width: 4,
                height: 4,
            },
        )
        .unwrap();
    for i in 0..16 {
        assert_eq!(out.planes[0].data[i * 4 + 3], i as u8, "alpha at {i}");
    }
}

#[test]
fn levels_clamped_to_1_256() {
    let p = Paint::new(1).with_levels(0);
    assert_eq!(p.levels, 1);
    let p = Paint::new(1).with_levels(1000);
    assert_eq!(p.levels, 256);
}

#[test]
fn paint_rejects_yuv() {
    let input = VideoFrame {
        pts: None,
        planes: vec![
            VideoPlane {
                stride: 4,
                data: vec![128; 16],
            },
            VideoPlane {
                stride: 2,
                data: vec![128; 4],
            },
            VideoPlane {
                stride: 2,
                data: vec![128; 4],
            },
        ],
    };
    let err = Paint::default()
        .apply(
            &input,
            VideoStreamParams {
                format: PixelFormat::Yuv420P,
                width: 4,
                height: 4,
            },
        )
        .unwrap_err();
    assert!(err.message().contains("Paint"));
    assert_eq!(err.message(), "oxideav-image-filter: Paint requires Gray8/Rgb24/Rgba, got Yuv420P");
}

#[test]
fn paint_default_settings() {
    let p = Paint::default();
    assert_eq!(p.radius, 2);
    assert_eq!(p.levels, 20);
}

#[test]
fn paint_luma_weights() {
    // (77 R + 150 G + 29 B) >> 8.
    assert_eq!(luma(255, 255, 255), 255);
    assert_eq!(luma(255, 0, 0), 76);
    assert_eq!(luma(0, 255, 0), 149);
    assert_eq!(luma(0, 0, 255), 28);
}

#[test]
fn paint_gray_two_buckets_majority_wins() {
    // 3×1 gray row [0, 0, 200], radius 1, 2 levels: the window of every
    // pixel holds the clamped samples; the dark bucket wins where it has
    // the majority and the mean of its members is output.
    let input = VideoFrame {
        pts: None,
        planes: vec![VideoPlane { stride: 3, data: vec![0, 0, 200] }],
    };
    let out = Paint::new(1)
        .with_levels(2)
        .apply(&input, VideoStreamParams { format: PixelFormat::Gray8, width: 3, height: 1 })
        .unwrap();
    // Pixel 0 window (clamped x): 0,0,0,0 ... all dark rows: dark wins, mean 0.
    assert_eq!(out.planes[0].data[0], 0);
    // Pixel 2 window: columns 1,2,2 → samples 0,200,200 in each of the
    // three clamped rows → bright bucket has 6 votes vs 3: mean 200.
    assert_eq!(out.planes[0].data[2], 200);
}

#[test]
fn paint_wide_radius_on_a_tiny_frame() {
    // A radius far beyond the frame clamps every tap to the border; the
    // window of a 1×1 frame is that one pixel repeated.
    let input = VideoFrame { pts: None, planes: vec![VideoPlane { stride: 3, data: vec![200, 100, 50] }] };
    let out = Paint::new(100)
        .apply(&input, VideoStreamParams { format: PixelFormat::Rgb24, width: 1, height: 1 })
        .unwrap();
    assert_eq!(out.planes[0].data, vec![200, 100, 50]);
}

#[test]
fn paint_tallies_depend_on_the_pixels() {
    // A 4201 × 4201 window: 255 times its area passes u32::MAX, but only
    // a bright picture makes a channel sum that large.
    let p = VideoStreamParams { format: PixelFormat::Gray8, width: 1, height: 1 };
    let dark = VideoFrame { pts: None, planes: vec![VideoPlane { stride: 1, data: vec![0] }] };
    let bright = VideoFrame { pts: None, planes: vec![VideoPlane { stride: 1, data: vec![255] }] };
    let f = Paint::new(2100);
    assert!(f.tallies_fit_in(&dark, p));
    assert!(!f.tallies_fit_in(&bright, p));
    assert!(Paint::new(3).tallies_fit_in(&bright, p));
}
