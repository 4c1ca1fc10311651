use oxideav_image_filter::normalize::{build_stretch_table, clip_range, stretch_frame, tone_histogram};
use oxideav_image_filter::{PixelFormat, VideoFrame, VideoPlane, VideoStreamParams};

fn gray(w: u32, h: u32, pattern: impl Fn(u32, u32) -> u8) -> VideoFrame {
    let mut data = Vec::with_capacity((w * h) as usize);
    for y in 0..h {
        for x in 0..w {
            data.push(pattern(x, y));
        }
    }
    VideoFrame { pts: None, planes: vec![VideoPlane { stride: w as usize, data }] }
}

fn p(format: PixelFormat, w: u32, h: u32) -> VideoStreamParams {
    VideoStreamParams { format, width: w, height: h }
}

fn auto_levels(input: &VideoFrame, params: VideoStreamParams) -> VideoFrame {
    let (hist, total) = tone_histogram(input, params);
    let (lo, hi) = clip_range(&hist, total, 0, 0);
    stretch_frame(input, params, lo, hi)
}

#[test]
fn range_then_stretch_fills_full_range() {
    let input = gray(8, 8, |x, y| 64 + (x * 16 + y * 16) as u8 / 2);
    let out = auto_levels(&input, p(PixelFormat::Gray8, 8, 8));
    let min = *out.planes[0].data.iter().min().unwrap();
    let max = *out.planes[0].data.iter().max().unwrap();
    assert_eq!(min, 0);
    assert_eq!(max, 255);
}

#[test]
fn auto_levels_is_idempotent_on_already_stretched() {
    let input = gray(4, 4, |x, y| ((x + y * 4) * 17) as u8);
    let params = p(PixelFormat::Gray8, 4, 4);
    let once = auto_levels(&input, params);
    let twice = auto_levels(&once, params);
    assert_eq!(once.planes[0].data, twice.planes[0].data);
    assert_eq!(once.planes[0].data, input.planes[0].data);
}

#[test]
fn flat_image_range_is_widened() {
    let mut h = [0u64; 256];
    h[120] = 16;
    assert_eq!(clip_range(&h, 16, 0, 0), (120, 121));
    let mut h = [0u64; 256];
    h[255] = 4;
    assert_eq!(clip_range(&h, 4, 0, 0), (254, 255));
    assert_eq!(clip_range(&[0u64; 256], 0, 0, 0), (0, 255));
    let input = gray(4, 4, |_, _| 120);
    let out = auto_levels(&input, p(PixelFormat::Gray8, 4, 4));
    assert!(out.planes[0].data.iter().all(|&v| v == 0));
}

#[test]
fn clip_budgets_skip_outliers() {
    let mut h = [0u64; 256];
    h[0] = 2;
    h[50] = 20;
    h[200] = 20;
    h[255] = 2;
    assert_eq!(clip_range(&h, 44, 0, 0), (0, 255));
    assert_eq!(clip_range(&h, 44, 2, 2), (50, 200));
    // Budgets that swallow the whole histogram leave the ends alone.
    assert_eq!(clip_range(&h, 44, 44, 44), (0, 255));
    // Walks that cross leave an empty range, widened by one step.
    assert_eq!(clip_range(&h, 44, 30, 30), (200, 201));
}

#[test]
fn stretch_table_values() {
    let t = build_stretch_table(64, 192);
    assert_eq!(t[0], 0);
    assert_eq!(t[64], 0);
    assert_eq!(t[128], 128);
    assert_eq!(t[192], 255);
    assert_eq!(t[255], 255);
    let id = build_stretch_table(0, 255);
    for v in 0..256usize {
        assert_eq!(id[v] as usize, v);
    }
}

#[test]
fn rgba_stretch_keeps_alpha() {
    let data: Vec<u8> = (0..16)
        .flat_map(|i| {
            let v = 64 + (i as u8) * 2;
            [v, v, v, 77]
        })
        .collect();
    let input = VideoFrame { pts: None, planes: vec![VideoPlane { stride: 16, data }] };
    let out = auto_levels(&input, p(PixelFormat::Rgba, 4, 4));
    for i in 0..16 {
        assert_eq!(out.planes[0].data[i * 4 + 3], 77);
    }
    assert_eq!(out.planes[0].data[0], 0);
    assert_eq!(out.planes[0].data[15 * 4], 255);
}

#[test]
fn rgb_tone_is_channel_mean() {
    // Tone (R + G + B) / 3 of a pure red, green and blue pixel.
    let input = VideoFrame {
        pts: None,
        planes: vec![VideoPlane { stride: 9, data: vec![255, 0, 0, 0, 255, 0, 0, 0, 255] }],
    };
    let (hist, total) = tone_histogram(&input, p(PixelFormat::Rgb24, 3, 1));
    assert_eq!(total, 3);
    assert_eq!(hist[85], 3);
}

#[test]
fn rgb_scan_range_uses_channel_mean() {
    // Red and blue pixels both have tone 85; the flat range widens to (85, 86).
    let input = VideoFrame {
        pts: None,
        planes: vec![VideoPlane { stride: 6, data: vec![255, 0, 0, 0, 0, 255] }],
    };
    let (hist, total) = tone_histogram(&input, p(PixelFormat::Rgb24, 2, 1));
    assert_eq!(total, 2);
    assert_eq!(clip_range(&hist, total, 0, 0), (85, 86));
}
