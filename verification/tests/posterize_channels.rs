use oxideav_image_filter::posterize::build_posterize_lut;
use oxideav_image_filter::posterize_channels::build_lut;
use oxideav_image_filter::{PixelFormat, PosterizeChannels, VideoFrame, VideoPlane, VideoStreamParams};

fn rgb(w: u32, h: u32, f: impl Fn(u32, u32) -> (u8, u8, u8)) -> VideoFrame {
    let mut data = Vec::with_capacity((w * h * 3) as usize);
    for y in 0..h {
        for x in 0..w {
            let (r, g, b) = f(x, y);
            data.extend_from_slice(&[r, g, b]);
        }
    }
    VideoFrame {
        pts: None,
        planes: vec![VideoPlane {
            stride: (w * 3) as usize,
            data,
        }],
    }
}

fn p_rgb(w: u32, h: u32) -> VideoStreamParams {
    VideoStreamParams {
        format: PixelFormat::Rgb24,
        width: w,
        height: h,
    }
}

#[test]
fn two_levels_collapses_each_channel_to_binary() {
    let input = rgb(4, 1, |x, _| (x as u8 * 60, x as u8 * 60, x as u8 * 60));
    let out = PosterizeChannels::new(2, 2, 2)
        .apply(&input, p_rgb(4, 1))
        .unwrap();
    for c in 0..3 {
        for x in 0..4 {
            let v = out.planes[0].data[x * 3 + c];
            assert!(v == 0 || v == 255, "channel {c} x {x} = {v}");
        }
    }
}

#[test]
fn distinct_per_channel_counts() {
    let input = rgb(8, 1, |x, _| (x as u8 * 32, x as u8 * 32, x as u8 * 32));
    let out = PosterizeChannels::new(8, 8, 2)
        .apply(&input, p_rgb(8, 1))
        .unwrap();
    for x in 0..8 {
        let b = out.planes[0].data[x * 3 + 2];
        assert!(b == 0 || b == 255, "B channel at {x} = {b}");
    }
    let mut r_set = std::collections::BTreeSet::new();
    for x in 0..8 {
        r_set.insert(out.planes[0].data[x * 3]);
    }
    assert!(
        r_set.len() > 2,
        "expected >2 distinct R values, got {r_set:?}"
    );
}

#[test]
fn rgba_alpha_passes_when_not_quantised() {
    let data: Vec<u8> = (0..4).flat_map(|i| [60u8, 60, 60, 20 + i * 30]).collect();
    let input = VideoFrame {
        pts: None,
        planes: vec![VideoPlane { stride: 16, data }],
    };
    let out = PosterizeChannels::new(4, 4, 4)
        .apply(
            &input,
            VideoStreamParams {
                format: PixelFormat::Rgba,
                width: 4,
                height: 1,
            },
        )
        .unwrap();
    for i in 0..4 {
        let a = out.planes[0].data[i * 4 + 3];
        assert_eq!(a, 20 + (i as u8) * 30, "alpha at pixel {i}");
    }
}

#[test]
fn posterize_channels_rejects_yuv420p() {
    let input = VideoFrame {
        pts: None,
        planes: vec![
            VideoPlane {
                stride: 4,
                data: vec![128; 16],
            },
            VideoPlane {
                stride: 2,
                data: vec![128; 4],
            },
            VideoPlane {
                stride: 2,
                data: vec![128; 4],
            },
        ],
    };
    let err = PosterizeChannels::default()
        .apply(
            &input,
            VideoStreamParams {
                format: PixelFormat::Yuv420P,
                width: 4,
                height: 4,
            },
        )
        .unwrap_err();
    assert!(err.message().contains("PosterizeChannels"));
}

#[test]
fn alpha_levels_quantise_alpha() {
    let data: Vec<u8> = vec![60, 60, 60, 100, 60, 60, 60, 200];
    let input = VideoFrame { pts: None, planes: vec![VideoPlane { stride: 8, data }] };
    let out = PosterizeChannels::new(4, 4, 4)
        .with_alpha_levels(2)
        .apply(&input, VideoStreamParams { format: PixelFormat::Rgba, width: 2, height: 1 })
        .unwrap();
    assert_eq!(out.planes[0].data[3], 0);
    assert_eq!(out.planes[0].data[7], 255);
    // 60 with 4 levels: bucket 0 → 0.
    assert_eq!(out.planes[0].data[0], 0);
}

#[test]
fn gray_uses_red_count_and_builders_clamp() {
    let p = PosterizeChannels::new(0, 1, 9).with_alpha_levels(1);
    assert_eq!((p.r_levels, p.g_levels, p.b_levels, p.alpha_levels), (2, 2, 9, Some(2)));
    let input = VideoFrame { pts: None, planes: vec![VideoPlane { stride: 3, data: vec![10, 130, 255] }] };
    let out = p.apply(&input, VideoStreamParams { format: PixelFormat::Gray8, width: 3, height: 1 }).unwrap();
    assert_eq!(out.planes[0].data, vec![0, 255, 255]);
}

#[test]
fn posterize_channels_default_is_four_levels() {
    let p = PosterizeChannels::default();
    assert_eq!((p.r_levels, p.g_levels, p.b_levels, p.alpha_levels), (4, 4, 4, None));
}

#[test]
fn build_lut_matches_posterize_table() {
    assert_eq!(build_lut(5), build_posterize_lut(5));
    let t = build_lut(1);
    assert_eq!(t[127], 0);
    assert_eq!(t[128], 255);
}
