use oxideav_image_filter::prewitt::{prewitt, round_sqrt};
use oxideav_image_filter::{PixelFormat, Prewitt, PrewittMagnitude, VideoFrame, VideoPlane, VideoStreamParams};

fn gray(w: u32, h: u32, pat: impl Fn(u32, u32) -> u8) -> VideoFrame {
    let mut data = Vec::with_capacity((w * h) as usize);
    for y in 0..h {
        for x in 0..w {
            data.push(pat(x, y));
        }
    }
    VideoFrame {
        pts: None,
        planes: vec![VideoPlane {
            stride: w as usize,
            data,
        }],
    }
}

fn p_gray(w: u32, h: u32) -> VideoStreamParams {
    VideoStreamParams {
        format: PixelFormat::Gray8,
        width: w,
        height: h,
    }
}

#[test]
fn flat_input_yields_zero() {
    let input = gray(8, 8, |_, _| 100);
    let out = Prewitt::new().apply(&input, p_gray(8, 8)).unwrap();
    for v in &out.planes[0].data {
        assert_eq!(*v, 0);
    }
}

#[test]
fn vertical_step_hand_derived() {
    let input = gray(3, 3, |x, _| if x == 2 { 200 } else { 0 });
    let out = Prewitt::l1().apply(&input, p_gray(3, 3)).unwrap();
    assert_eq!(out.planes[0].data[4], 255, "centre pixel saturates");
}

#[test]
fn small_vertical_edge_l1_unsaturated() {
    let input = gray(3, 3, |x, _| if x == 2 { 30 } else { 0 });
    let out = Prewitt::l1().apply(&input, p_gray(3, 3)).unwrap();
    assert_eq!(out.planes[0].data[4], 90);
}

#[test]
fn horizontal_edge_uses_gy() {
    let input = gray(3, 3, |_, y| if y == 2 { 20 } else { 0 });
    let out = Prewitt::l1().apply(&input, p_gray(3, 3)).unwrap();
    assert_eq!(out.planes[0].data[4], 60);
}

#[test]
fn l1_vs_l2_differ_on_a_corner() {
    let input = gray(3, 3, |x, y| if x >= 1 && y >= 1 { 10 } else { 0 });
    let l1 = Prewitt::l1().apply(&input, p_gray(3, 3)).unwrap();
    assert_eq!(l1.planes[0].data[4], 40);
    let l2 = Prewitt::new().apply(&input, p_gray(3, 3)).unwrap();
    assert_eq!(l2.planes[0].data[4], 28);
}

#[test]
fn rgb_input_emits_gray8() {
    let data: Vec<u8> = (0..16).flat_map(|i| [i as u8, i as u8, i as u8]).collect();
    let input = VideoFrame {
        pts: None,
        planes: vec![VideoPlane { stride: 12, data }],
    };
    let out = Prewitt::new()
        .apply(
            &input,
            VideoStreamParams {
                format: PixelFormat::Rgb24,
                width: 4,
                height: 4,
            },
        )
        .unwrap();
    assert_eq!(out.planes.len(), 1);
    assert_eq!(out.planes[0].stride, 4);
}

#[test]
fn magnitude_response_clamps_to_255() {
    let input = gray(3, 3, |x, _| if x == 2 { 255 } else { 0 });
    let out = Prewitt::new().apply(&input, p_gray(3, 3)).unwrap();
    assert_eq!(out.planes[0].data[4], 255);
}

#[test]
fn pts_pass_through() {
    let input = gray(3, 3, |x, _| if x == 2 { 50 } else { 0 });
    let mut frame = input;
    frame.pts = Some(7);
    let out = Prewitt::new().apply(&frame, p_gray(3, 3)).unwrap();
    assert_eq!(out.pts, Some(7));
}

#[test]
fn one_by_one_is_zero() {
    let input = gray(1, 1, |_, _| 123);
    let out = Prewitt::new().apply(&input, p_gray(1, 1)).unwrap();
    assert_eq!(out.planes[0].data, vec![0]);
}

#[test]
fn prewitt_rejects_unsupported_format() {
    let frame = VideoFrame {
        pts: None,
        planes: vec![VideoPlane {
            stride: 4,
            data: vec![0; 16],
        }],
    };
    let err = Prewitt::new()
        .apply(
            &frame,
            VideoStreamParams {
                format: PixelFormat::Nv12,
                width: 4,
                height: 4,
            },
        )
        .unwrap_err();
    assert!(err.message().contains("Prewitt"));
}

#[test]
fn round_sqrt_matches_float_rounding() {
    // The exact nearest-integer root agrees with f64 sqrt().round() over
    // the whole range the 3×3 kernels can produce.
    for n in 0u32..=1_170_450 {
        let f = (n as f64).sqrt().round() as u32;
        assert_eq!(round_sqrt(n), f, "n = {n}");
    }
}

#[test]
fn prewitt_kernel_on_a_ramp() {
    // Horizontal ramp 0, 10, 20, 30 on 4×2: interior Gx = 3 × 20 = 60,
    // border columns see a clamped neighbour (Gx = 3 × 10 = 30); Gy = 0.
    let luma: Vec<u8> = vec![0, 10, 20, 30, 0, 10, 20, 30];
    let out = prewitt(&luma, 4, 2, PrewittMagnitude::L1);
    assert_eq!(out, vec![30, 60, 60, 30, 30, 60, 60, 30]);
    let out2 = prewitt(&luma, 4, 2, PrewittMagnitude::L2);
    assert_eq!(out2, out);
}

#[test]
fn prewitt_builders() {
    assert_eq!(Prewitt::default().magnitude, PrewittMagnitude::L2);
    assert_eq!(PrewittMagnitude::default(), PrewittMagnitude::L2);
    assert_eq!(Prewitt::new().with_magnitude(PrewittMagnitude::L1).magnitude, PrewittMagnitude::L1);
    assert_eq!(Prewitt::l1().magnitude, PrewittMagnitude::L1);
}

#[test]
fn prewitt_empty_frame_is_invalid() {
    let frame = VideoFrame { pts: None, planes: vec![] };
    let err = Prewitt::new().apply(&frame, p_gray(2, 2)).unwrap_err();
    assert_eq!(err.message(), "oxideav-image-filter: luma input requires a non-empty first plane");
}

#[test]
fn prewitt_ignores_inversion_and_shift() {
    let (w, h) = (6usize, 5usize);
    let luma: Vec<u8> = (0..w * h).map(|i| ((i * 29 + (i / w) * 7) % 200) as u8).collect();
    let inverted: Vec<u8> = luma.iter().map(|&v| 255 - v).collect();
    let shifted: Vec<u8> = luma.iter().map(|&v| v + 40).collect();
    for mag in [PrewittMagnitude::L1, PrewittMagnitude::L2] {
        let base = prewitt(&luma, w, h, mag);
        assert!(base.iter().any(|&v| v != 0));
        assert_eq!(prewitt(&inverted, w, h, mag), base);
        assert_eq!(prewitt(&shifted, w, h, mag), base);
    }
}
