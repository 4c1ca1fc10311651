use oxideav_image_filter::boxsum::box_sum_i64;

fn brute_mean_sigma(src: &[u8], w: usize, h: usize, radius: usize) -> (Vec<f64>, Vec<f64>) {
    let mut mean = vec![0.0f64; w * h];
    let mut sigma = vec![0.0f64; w * h];
    for y in 0..h {
        for x in 0..w {
            let mut s = 0.0f64;
            let mut s2 = 0.0f64;
            let mut n = 0.0f64;
            for dy in -(radius as isize)..=radius as isize {
                for dx in -(radius as isize)..=radius as isize {
                    let xx = (x as isize + dx).max(0).min(w as isize - 1) as usize;
                    let yy = (y as isize + dy).max(0).min(h as isize - 1) as usize;
                    let v = src[yy * w + xx] as f64;
                    s += v;
                    s2 += v * v;
                    n += 1.0;
                }
            }
            let m = s / n;
            let v = (s2 / n - m * m).max(0.0);
            mean[y * w + x] = m;
            sigma[y * w + x] = v.sqrt();
        }
    }
    (mean, sigma)
}

#[test]
fn box_sum_matches_brute_force() {
    let w = 11usize;
    let h = 9usize;
    let pat: Vec<u8> = (0..w * h).map(|i| ((i * 17) % 256) as u8).collect();
    for radius in [0usize, 1, 2, 3, 5] {
        let pat_i: Vec<i64> = pat.iter().map(|&v| v as i64).collect();
        let pat_sq: Vec<i64> = pat.iter().map(|&v| (v as i64) * (v as i64)).collect();
        let sum = box_sum_i64(&pat_i, w, h, radius);
        let sq = box_sum_i64(&pat_sq, w, h, radius);
        let (m_ref, s_ref) = brute_mean_sigma(&pat, w, h, radius);
        let win = (2 * radius + 1) as f64;
        let area = win * win;
        for i in 0..w * h {
            let m = sum[i] as f64 / area;
            let v = (sq[i] as f64 / area - m * m).max(0.0);
            let sig = v.sqrt();
            assert!(
                (m - m_ref[i]).abs() < 1e-9,
                "mean mismatch at i={i} r={radius}: separable={m} brute={}",
                m_ref[i]
            );
            assert!(
                (sig - s_ref[i]).abs() < 1e-6,
                "sigma mismatch at i={i} r={radius}: separable={sig} brute={}",
                s_ref[i]
            );
        }
    }
}

#[test]
fn box_sum_exact_window_on_small_plane() {
    // 3×3 plane 1..9, radius 1: the centre window is the whole plane.
    let src: Vec<i64> = (1..=9).collect();
    let out = box_sum_i64(&src, 3, 3, 1);
    assert_eq!(out[4], 45);
    // Corner (0, 0): rows {0, 0, 1} × cols {0, 0, 1} of the clamped plane.
    assert_eq!(out[0], 4 * 1 + 2 * 2 + 2 * 4 + 5);
}

#[test]
fn box_sum_radius_zero_copies() {
    let src: Vec<i64> = vec![-3, 7, 11, 0];
    assert_eq!(box_sum_i64(&src, 2, 2, 0), src);
}

#[test]
fn box_sum_wide_radius_is_clamped_window() {
    // With the radius past the row's end, every window position beyond
    // the last sample clamps to it: at x = 0 the row window is
    // 6 × 1 + 2 + 4 × 3 = 20, and the single row is counted 11 times.
    let src: Vec<i64> = vec![1, 2, 3];
    let out = box_sum_i64(&src, 3, 1, 5);
    assert_eq!(out, vec![220, 242, 264]);
}

#[test]
fn box_sum_radius_reaching_edges() {
    // One row of three, radius 1: row windows 4, 6, 8, each counted
    // three times by the clamped vertical window.
    let src: Vec<i64> = vec![1, 2, 3];
    assert_eq!(box_sum_i64(&src, 3, 1, 1), vec![12, 18, 24]);
}

#[test]
fn box_sum_takes_any_radius_on_zero_planes() {
    let src: Vec<i64> = vec![0; 6];
    assert_eq!(box_sum_i64(&src, 3, 2, usize::MAX), vec![0; 6]);
}

#[test]
fn box_sum_window_may_reach_the_i64_limit() {
    // One sample of i64::MAX / 9 at radius 1: the 3×3 clamped window of
    // a 1×1 plane counts it nine times.
    let v = i64::MAX / 9;
    assert_eq!(box_sum_i64(&vec![v], 1, 1, 1), vec![9 * v]);
    let n = -(i64::MAX / 9);
    assert_eq!(box_sum_i64(&vec![n, n], 2, 1, 1), vec![9 * n, 9 * n]);
}
