use oxideav_image_filter::histogram::histogram;
use oxideav_image_filter::otsu_threshold::otsu_from_histogram;
use oxideav_image_filter::{OtsuThreshold, PixelFormat, VideoFrame, VideoPlane, VideoStreamParams};

fn gray(w: u32, h: u32, f: impl Fn(u32, u32) -> u8) -> VideoFrame {
    let mut data = Vec::with_capacity((w * h) as usize);
    for y in 0..h {
        for x in 0..w {
            data.push(f(x, y));
        }
    }
    VideoFrame {
        pts: None,
        planes: vec![VideoPlane {
            stride: w as usize,
            data,
        }],
    }
}

fn p_gray(w: u32, h: u32) -> VideoStreamParams {
    VideoStreamParams {
        format: PixelFormat::Gray8,
        width: w,
        height: h,
    }
}

#[test]
fn binarises_bimodal_data() {
    let input = gray(8, 8, |x, _| if x < 4 { 30 } else { 200 });
    let out = OtsuThreshold::new().apply(&input, p_gray(8, 8)).unwrap();
    assert!(out.planes[0].data.iter().all(|&v| v == 0 || v == 255));
    for y in 0..8 {
        for x in 0..4 {
            assert_eq!(out.planes[0].data[y * 8 + x], 0);
        }
        for x in 4..8 {
            assert_eq!(out.planes[0].data[y * 8 + x], 255);
        }
    }
}

#[test]
fn invert_flips_output() {
    let input = gray(8, 8, |x, _| if x < 4 { 30 } else { 200 });
    let out = OtsuThreshold::new()
        .with_invert(true)
        .apply(&input, p_gray(8, 8))
        .unwrap();
    for y in 0..8 {
        for x in 0..4 {
            assert_eq!(out.planes[0].data[y * 8 + x], 255);
        }
        for x in 4..8 {
            assert_eq!(out.planes[0].data[y * 8 + x], 0);
        }
    }
}

#[test]
fn threshold_of_returns_value_between_modes() {
    let samples: Vec<u8> = (0..32)
        .map(|_| 30u8)
        .chain((0..32).map(|_| 200u8))
        .collect();
    let t = OtsuThreshold::threshold_of(&samples);
    assert!(
        t > 30 && t < 200,
        "Otsu picked t={t}; expected between 30 and 200"
    );
}

#[test]
fn rgb_uses_luma_proxy() {
    let mut data = Vec::with_capacity(4 * 4 * 3);
    for _y in 0..4u32 {
        for x in 0..4u32 {
            let val = if x < 2 { 40 } else { 210 };
            data.extend_from_slice(&[val, val, val]);
        }
    }
    let input = VideoFrame {
        pts: None,
        planes: vec![VideoPlane { stride: 12, data }],
    };
    let out = OtsuThreshold::new()
        .apply(
            &input,
            VideoStreamParams {
                format: PixelFormat::Rgb24,
                width: 4,
                height: 4,
            },
        )
        .unwrap();
    assert_eq!(out.planes[0].data.len(), 16);
    for y in 0..4 {
        for x in 0..2 {
            assert_eq!(out.planes[0].data[y * 4 + x], 0);
        }
        for x in 2..4 {
            assert_eq!(out.planes[0].data[y * 4 + x], 255);
        }
    }
}

#[test]
fn empty_histogram_defaults_to_128() {
    let t = otsu_from_histogram(&[0u64; 256], 0);
    assert_eq!(t, 128);
}

#[test]
fn flat_histogram_picks_some_threshold() {
    let input = gray(4, 4, |_, _| 128);
    let out = OtsuThreshold::new().apply(&input, p_gray(4, 4)).unwrap();
    let v0 = out.planes[0].data[0];
    assert!(v0 == 0 || v0 == 255);
    assert!(out.planes[0].data.iter().all(|&v| v == v0));
}

#[test]
fn single_bin_histogram_gives_zero() {
    let mut h = [0u64; 256];
    h[77] = 10;
    assert_eq!(otsu_from_histogram(&h, 10), 0);
}

#[test]
fn two_bin_histogram_cut_is_midpoint_of_plateau() {
    // Every cut in [31, 200] (classes `< t` and `>= t`) separates the two
    // bins identically, so the threshold is the midpoint of that plateau.
    let mut h = [0u64; 256];
    h[30] = 32;
    h[200] = 32;
    assert_eq!(otsu_from_histogram(&h, 64), (31 + 200) / 2);
}

#[test]
fn adjacent_values_are_split() {
    // The only separating cut for samples 30 and 31 is t = 31.
    let input = gray(2, 1, |x, _| if x == 0 { 30 } else { 31 });
    let out = OtsuThreshold::new().apply(&input, p_gray(2, 1)).unwrap();
    assert_eq!(out.planes[0].data, vec![0, 255]);
    let mut h = [0u64; 256];
    h[30] = 1;
    h[31] = 1;
    assert_eq!(otsu_from_histogram(&h, 2), 31);
}

#[test]
fn top_two_values_are_split() {
    // Samples 254 and 255: the cut is 255, the largest a u8 can hold.
    let input = gray(2, 1, |x, _| if x == 0 { 254 } else { 255 });
    let out = OtsuThreshold::new().apply(&input, p_gray(2, 1)).unwrap();
    assert_eq!(out.planes[0].data, vec![0, 255]);
}

#[test]
fn histogram_counts_each_value() {
    let h = histogram(&[3, 3, 7, 255, 3]);
    assert_eq!(h[3], 3);
    assert_eq!(h[7], 1);
    assert_eq!(h[255], 1);
    assert_eq!(h.iter().sum::<u64>(), 5);
}

#[test]
fn empty_frame_is_returned_unchanged() {
    let input = VideoFrame { pts: Some(9), planes: vec![VideoPlane { stride: 0, data: vec![] }] };
    let out = OtsuThreshold::new().apply(&input, p_gray(0, 0)).unwrap();
    assert_eq!(out.pts, Some(9));
    assert_eq!(out.planes.len(), 1);
    assert!(out.planes[0].data.is_empty());
}

#[test]
fn otsu_rejects_nv12() {
    let input = gray(4, 4, |_, _| 1);
    let err = OtsuThreshold::new()
        .apply(&input, VideoStreamParams { format: PixelFormat::Nv12, width: 4, height: 4 })
        .unwrap_err();
    assert_eq!(err.message(), "oxideav-image-filter: OtsuThreshold does not yet handle Nv12");
}

#[test]
fn huge_histograms_are_thresholded_exactly() {
    let mut h = [0u64; 256];
    h[30] = 1 << 40;
    h[200] = 1 << 40;
    assert_eq!(otsu_from_histogram(&h, 1 << 41), (31 + 200) / 2);
    let mut h = [0u64; 256];
    h[0] = 1 << 62;
    h[255] = 1 << 62;
    assert_eq!(otsu_from_histogram(&h, 1 << 63), 128);
}

#[test]
fn three_modes_pick_the_wider_gap() {
    // 10 samples at 0, 10 at 100, 10 at 110: the cut between 0 and 100
    // separates the classes best.
    let mut h = [0u64; 256];
    h[0] = 10;
    h[100] = 10;
    h[110] = 10;
    let t = otsu_from_histogram(&h, 30);
    assert!(t > 0 && t <= 100);
}
