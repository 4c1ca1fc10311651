//! Separable box sums with edge-clamped borders, as used by the Niblack
//! local-statistics threshold.

use vstd::prelude::*;

verus! {

/// `p` clamped into `[0, hi]`.
pub open spec fn clampi(p: int, hi: int) -> int {
    if p < 0 {
        0
    } else if p > hi {
        hi
    } else {
        p
    }
}

/// `max(0, v)`.
pub open spec fn pos(v: int) -> int {
    if v < 0 {
        0
    } else {
        v
    }
}

/// `sum_{i < n} g(clampi(a + i, hi))`: a run of `n` samples starting at
/// position `a`, each position clamped into `[0, hi]`.
pub open spec fn clamped_run(g: spec_fn(int) -> int, hi: int, a: int, n: nat) -> int
    decreases n,
{
    if n == 0 {
        0
    } else {
        clamped_run(g, hi, a, (n - 1) as nat) + g(clampi(a + n - 1, hi))
    }
}

/// Sample `p` of row `y` of a `w`-wide plane.
pub open spec fn row_sample(s: Seq<i64>, w: int, y: int) -> spec_fn(int) -> int {
    |p: int| s[y * w + p] as int
}

/// The horizontal pass's value at `(y, x)`: the clamped row window of
/// width `2r + 1` centred on `x`.
pub open spec fn row_box(s: Seq<i64>, w: int, r: int, y: int, x: int) -> int {
    clamped_run(row_sample(s, w, y), w - 1, x - r, (2 * r + 1) as nat)
}

/// Column `x` of the horizontal pass, as a function of the row.
pub open spec fn col_sample(s: Seq<i64>, w: int, r: int, x: int) -> spec_fn(int) -> int {
    |q: int| row_box(s, w, r, q, x)
}

/// The vertical pass's value at `(y, x)`: the clamped column window of
/// the horizontal pass.
pub open spec fn box_value(s: Seq<i64>, w: int, h: int, r: int, y: int, x: int) -> int {
    clamped_run(col_sample(s, w, r, x), h - 1, y - r, (2 * r + 1) as nat)
}

/// The true edge-clamped window sum over the `(2r + 1)²` square centred
/// on `(y, x)`.
pub open spec fn window_sum(s: Seq<i64>, w: int, h: int, r: int, y: int, x: int) -> int {
    clamped_run(
        |q: int| clamped_run(row_sample(s, w, q), w - 1, x - r, (2 * r + 1) as nat),
        h - 1,
        y - r,
        (2 * r + 1) as nat,
    )
}

/// Splitting a run.
pub proof fn lemma_run_split(g: spec_fn(int) -> int, hi: int, a: int, n: nat, m: nat)
    ensures
        clamped_run(g, hi, a, n + m) == clamped_run(g, hi, a, n) + clamped_run(
            g,
            hi,
            a + n,
            m,
        ),
    decreases m,
{
    if m > 0 {
        lemma_run_split(g, hi, a, n, (m - 1) as nat);
        assert(a + (n + m) - 1 == (a + n) + m - 1);
    }
}

/// Sliding a run one step right.
pub proof fn lemma_run_slide(g: spec_fn(int) -> int, hi: int, a: int, n: nat)
    ensures
        clamped_run(g, hi, a + 1, n) == clamped_run(g, hi, a, n) + g(clampi(a + n, hi)) - g(
            clampi(a, hi),
        ),
{
    lemma_run_split(g, hi, a, 1, n);
    lemma_run_split(g, hi, a, n, 1);
    assert(clamped_run(g, hi, a, 1) == g(clampi(a, hi))) by {
        reveal_with_fuel(clamped_run, 2);
    }
    assert(clamped_run(g, hi, a + n, 1) == g(clampi(a + n, hi))) by {
        reveal_with_fuel(clamped_run, 2);
    }
}

/// A run whose positions all clamp to the same end.
pub proof fn lemma_run_const(g: spec_fn(int) -> int, hi: int, a: int, n: nat, p: int)
    requires
        forall|i: int| 0 <= i < n ==> #[trigger] clampi(a + i, hi) == p,
    ensures
        clamped_run(g, hi, a, n) == n * g(p),
    decreases n,
{
    if n > 0 {
        lemma_run_const(g, hi, a, (n - 1) as nat, p);
        assert(clampi(a + (n - 1), hi) == p);
        assert(a + (n - 1) == a + n - 1);
        assert(((n - 1) as nat) * g(p) + g(p) == n * g(p)) by (nonlinear_arith)
            requires
                n > 0,
        ;
    } else {
        assert(n * g(p) == 0) by (nonlinear_arith)
            requires
                n == 0,
        ;
    }
}

/// A run of non-negative samples is non-negative.
pub proof fn lemma_run_nonneg(g: spec_fn(int) -> int, hi: int, a: int, n: nat)
    requires
        forall|q: int| 0 <= #[trigger] g(q),
    ensures
        0 <= clamped_run(g, hi, a, n),
    decreases n,
{
    if n > 0 {
        lemma_run_nonneg(g, hi, a, (n - 1) as nat);
        assert(0 <= g(clampi(a + n - 1, hi)));
    }
}

/// A run over samples that all equal `v` sums to `n * v`.
pub proof fn lemma_run_flat(g: spec_fn(int) -> int, hi: int, a: int, n: nat, v: int)
    requires
        hi >= 0,
        forall|q: int| 0 <= q <= hi ==> #[trigger] g(q) == v,
    ensures
        clamped_run(g, hi, a, n) == n * v,
    decreases n,
{
    if n > 0 {
        lemma_run_flat(g, hi, a, (n - 1) as nat, v);
        assert(g(clampi(a + n - 1, hi)) == v);
        assert(((n - 1) as nat) * v + v == n * v) by (nonlinear_arith)
            requires
                n > 0,
        ;
    } else {
        assert(n * v == 0) by (nonlinear_arith)
            requires
                n == 0,
        ;
    }
}

/// A run whose samples are bounded by `b` in absolute value is bounded
/// by `n * b`.
pub proof fn lemma_run_bound(g: spec_fn(int) -> int, hi: int, a: int, n: nat, b: int)
    requires
        forall|i: int| 0 <= i < n ==> -b <= #[trigger] g(clampi(a + i, hi)) <= b,
    ensures
        -(n * b) <= clamped_run(g, hi, a, n) <= n * b,
    decreases n,
{
    if n > 0 {
        assert(-b <= g(clampi(a + (n - 1), hi)) <= b);
        lemma_run_bound(g, hi, a, (n - 1) as nat, b);
        assert(((n - 1) as nat) * b + b == n * b) by (nonlinear_arith)
            requires
                n > 0,
        ;
    } else {
        assert(n * b == 0) by (nonlinear_arith)
            requires
                n == 0,
        ;
    }
}

/// A run of samples each at most `k` times another run's samples is at
/// most `k` times that run.
pub proof fn lemma_run_scaled(g1: spec_fn(int) -> int, g2: spec_fn(int) -> int, hi: int, a: int, n: nat, k: int)
    requires
        forall|p: int| #[trigger] g1(p) <= k * g2(p),
    ensures
        clamped_run(g1, hi, a, n) <= k * clamped_run(g2, hi, a, n),
    decreases n,
{
    if n > 0 {
        lemma_run_scaled(g1, g2, hi, a, (n - 1) as nat, k);
        let p = clampi(a + n - 1, hi);
        assert(g1(p) <= k * g2(p));
        let s2 = clamped_run(g2, hi, a, (n - 1) as nat);
        assert(k * s2 + k * g2(p) == k * (s2 + g2(p))) by (nonlinear_arith);
    } else {
        assert(k * 0 == 0) by (nonlinear_arith);
    }
}

/// The seed of a sliding run at position `-r`: `r` copies of the first
/// sample, the samples `0 ..= min(r, hi)`, and `max(0, r - hi)` copies
/// of the last.
pub proof fn lemma_run_seed(g: spec_fn(int) -> int, hi: int, r: int)
    requires
        r >= 0,
        hi >= 0,
    ensures
        clamped_run(g, hi, -r, (2 * r + 1) as nat) == r * g(0) + clamped_run(
            g,
            hi,
            0,
            (if r < hi {
                r
            } else {
                hi
            } + 1) as nat,
        ) + pos(r - hi) * g(hi),
{
    lemma_run_split(g, hi, -r, r as nat, (r + 1) as nat);
    assert forall|i: int| 0 <= i < r implies #[trigger] clampi(-r + i, hi) == 0 by {}
    lemma_run_const(g, hi, -r, r as nat, 0);
    assert(-r + r == 0);
    if r > hi {
        lemma_run_split(g, hi, 0, (hi + 1) as nat, (r - hi) as nat);
        assert forall|i: int| 0 <= i < r - hi implies #[trigger] clampi(hi + 1 + i, hi) == hi by {}
        lemma_run_const(g, hi, hi + 1, (r - hi) as nat, hi);
        assert((hi + 1) as nat + (r - hi) as nat == (r + 1) as nat);
        assert(0 + (hi + 1) as nat == hi + 1);
    } else {
        assert(pos(r - hi) * g(hi) == 0) by (nonlinear_arith)
            requires
                pos(r - hi) == 0,
        ;
    }
}

/// Index `y * w + x` of a `w`-wide row-major plane lies in row `y`.
pub proof fn lemma_index_rows(w: int, y1: int, x1: int, y2: int, x2: int)
    requires
        0 <= x1 < w,
        0 <= x2 < w,
        0 <= y1,
        0 <= y2,
        y1 * w + x1 == y2 * w + x2,
    ensures
        y1 == y2,
        x1 == x2,
{
    if y1 < y2 {
        assert((y1 + 1) * w <= y2 * w) by (nonlinear_arith)
            requires
                y1 + 1 <= y2,
                w >= 0,
        ;
        assert((y1 + 1) * w == y1 * w + w) by (nonlinear_arith);
    } else if y1 > y2 {
        assert((y2 + 1) * w <= y1 * w) by (nonlinear_arith)
            requires
                y2 + 1 <= y1,
                w >= 0,
        ;
        assert((y2 + 1) * w == y2 * w + w) by (nonlinear_arith);
    }
}

/// Row `y` of a `w × h` row-major plane lies inside `w * h` entries.
pub proof fn lemma_index_in_plane(w: int, h: int, y: int, x: int)
    requires
        0 <= x < w,
        0 <= y < h,
    ensures
        0 <= y * w,
        y * w + x < w * h,
        y * w + w <= w * h,
{
    assert(y * w + w <= w * h) by (nonlinear_arith)
        requires
            0 <= y < h,
            w >= 0,
    ;
    assert(0 <= y * w) by (nonlinear_arith)
        requires
            0 <= y,
            w >= 0,
    ;
}

} // verus!

verus! {

/// The largest sample magnitude `box_sum_i64` takes at radius `r`: a
/// whole `(2r + 1)²` window of such samples still fits an `i64`.
pub open spec fn box_sample_limit(r: int) -> int {
    (i64::MAX as int) / ((2 * r + 1) * (2 * r + 1))
}

/// Every sample of `s` is within the limit for radius `r`.
pub open spec fn samples_within(s: Seq<i64>, r: int) -> bool {
    forall|i: int|
        0 <= i < s.len() ==> -box_sample_limit(r) <= #[trigger] s[i] <= box_sample_limit(r)
}

proof fn lemma_limit(r: int)
    requires
        r >= 1,
    ensures
        box_sample_limit(r) >= 0,
        (2 * r + 1) * ((2 * r + 1) * box_sample_limit(r)) <= i64::MAX,
        (2 * r + 1) * box_sample_limit(r) <= (2 * r + 1) * ((2 * r + 1) * box_sample_limit(r)),
        2 * box_sample_limit(r) <= (2 * r + 1) * box_sample_limit(r),
        r > i64::MAX ==> box_sample_limit(r) == 0,
{
    let k = 2 * r + 1;
    let d = k * k;
    assert(d >= 9 && d >= k) by (nonlinear_arith)
        requires
            r >= 1,
            k == 2 * r + 1,
            d == k * k,
    ;
    let q = (i64::MAX as int) / d;
    assert(d * q <= i64::MAX && q >= 0) by (nonlinear_arith)
        requires
            d > 0,
            q == (i64::MAX as int) / d,
    ;
    assert(k * (k * q) == d * q) by (nonlinear_arith)
        requires
            d == k * k,
    ;
    assert(k * q <= k * (k * q)) by (nonlinear_arith)
        requires
            k >= 1,
            q >= 0,
    ;
    assert(2 * q <= k * q) by (nonlinear_arith)
        requires
            k >= 3,
            q >= 0,
    ;
    if r > i64::MAX {
        assert(d > i64::MAX) by (nonlinear_arith)
            requires
                d >= k,
                k == 2 * r + 1,
                r > i64::MAX,
        ;
        assert(q == 0) by (nonlinear_arith)
            requires
                d > i64::MAX,
                q == (i64::MAX as int) / d,
                i64::MAX >= 0,
        ;
    }
}

/// A sample times a repeat count: the cast of the count is exact unless
/// the count passes `i64::MAX`, and then the sample is 0.
proof fn lemma_repeat(v: i64, n: usize, b: int, kb: int)
    requires
        -b <= v <= b,
        n > i64::MAX ==> b == 0,
        n * b <= kb,
        b >= 0,
    ensures
        v * (n as i64) == v * n,
        -(n * b) <= v * n <= n * b,
        n * b <= kb,
{
    if n > i64::MAX {
        assert(v == 0);
        assert(v * (n as i64) == 0 && v * n == 0) by (nonlinear_arith)
            requires
                v == 0,
        ;
    } else {
        assert(n as i64 == n);
    }
    assert(-(n * b) <= v * n <= n * b) by (nonlinear_arith)
        requires
            -b <= v <= b,
            n >= 0,
    ;
}

/// The horizontal pass stays within `(2r + 1) * b`.
proof fn lemma_row_box_bound(s: Seq<i64>, w: int, h: int, r: int, y: int, x: int, b: int)
    requires
        s.len() == w * h,
        0 <= y < h,
        w > 0,
        r >= 0,
        b >= 0,
        forall|i: int| 0 <= i < s.len() ==> -b <= #[trigger] s[i] <= b,
    ensures
        -((2 * r + 1) * b) <= row_box(s, w, r, y, x) <= (2 * r + 1) * b,
{
    let g = row_sample(s, w, y);
    let a = x - r;
    let n = (2 * r + 1) as nat;
    assert forall|i: int| 0 <= i < n implies -b <= #[trigger] g(clampi(a + i, w - 1)) <= b by {
        let p = clampi(a + i, w - 1);
        lemma_index_in_plane(w, h, y, p);
        assert(-b <= s[y * w + p] <= b);
    }
    lemma_run_bound(g, w - 1, a, n, b);
}

/// The vertical pass stays within `(2r + 1)² * b`.
proof fn lemma_box_value_bound(s: Seq<i64>, w: int, h: int, r: int, y: int, x: int, b: int)
    requires
        s.len() == w * h,
        w > 0,
        h > 0,
        r >= 0,
        b >= 0,
        forall|i: int| 0 <= i < s.len() ==> -b <= #[trigger] s[i] <= b,
    ensures
        -((2 * r + 1) * ((2 * r + 1) * b)) <= box_value(s, w, h, r, y, x) <= (2 * r + 1) * ((2
            * r + 1) * b),
{
    let g = col_sample(s, w, r, x);
    let a = y - r;
    let n = (2 * r + 1) as nat;
    let hb = (2 * r + 1) * b;
    assert forall|i: int| 0 <= i < n implies -hb <= #[trigger] g(clampi(a + i, h - 1)) <= hb by {
        lemma_row_box_bound(s, w, h, r, clampi(a + i, h - 1), x, b);
    }
    lemma_run_bound(g, h - 1, a, n, hb);
}

/// The vertical pass over the horizontal pass is the square window sum.
proof fn lemma_box_value_is_window_sum(s: Seq<i64>, w: int, h: int, r: int, y: int, x: int)
    ensures
        box_value(s, w, h, r, y, x) == window_sum(s, w, h, r, y, x),
{
    let g1 = col_sample(s, w, r, x);
    let g2 = |q: int| clamped_run(row_sample(s, w, q), w - 1, x - r, (2 * r + 1) as nat);
    assert(g1 =~= g2);
}

/// Separable box sum of a `w × h` row-major plane over the
/// `(2·radius + 1)²` window centred on each sample, with edge-clamped
/// borders: a horizontal sliding sum over each row, then a vertical
/// sliding sum over the row sums. Cost `O(w·h)` whatever the radius.
///
/// Each pass seeds its running sum at the first position with the
/// clamped window there: `radius` copies of the first sample, the
/// samples up to index `min(radius, extent - 1)`, and, when the window
/// reaches past the far edge, `radius + 1 - extent` copies of the last
/// sample. The window then slides by the difference of the sample that
/// enters and the one that leaves, so no running sum leaves the range of
/// a window sum. Every entry is the clamped window sum
/// ([`window_sum`]); the samples only need a whole window of them to fit
/// an `i64`.
pub fn box_sum_i64(src: &Vec<i64>, w: usize, h: usize, radius: usize) -> (out: Vec<i64>)
    requires
        src.len() == w * h,
        radius > 0 ==> (w > 0 <==> h > 0),
        radius > 0 ==> samples_within(src@, radius as int),
    ensures
        out.len() == w * h,
        radius == 0 ==> out@ == src@,
        forall|y: int, x: int|
            0 <= y < h && 0 <= x < w ==> #[trigger] out@[y * w + x] == window_sum(
                src@,
                w as int,
                h as int,
                radius as int,
                y,
                x,
            ),
{
    if radius == 0 {
        let out = src.clone();
        assert(out@ =~= src@);
        proof {
            assert forall|y: int, x: int|
                0 <= y < h && 0 <= x < w implies #[trigger] out@[y * w + x] == window_sum(
                src@,
                w as int,
                h as int,
                0,
                y,
                x,
            ) by {
                lemma_index_in_plane(w as int, h as int, y, x);
                let inner = |q: int| clamped_run(row_sample(src@, w as int, q), w - 1, x, 1);
                assert(clamped_run(row_sample(src@, w as int, y), w - 1, x, 1) == src@[y * w + x])
                    by {
                    reveal_with_fuel(clamped_run, 2);
                }
                assert(clamped_run(inner, h - 1, y, 1) == inner(y)) by {
                    reveal_with_fuel(clamped_run, 2);
                }
            }
        }
        return out;
    }
    if w == 0 {
        return Vec::new();
    }
    let ghost s = src@;
    let ghost r = radius as int;
    let ghost b = box_sample_limit(r);
    let ghost k = 2 * r + 1;
    proof {
        lemma_limit(r);
        lemma_index_in_plane(w as int, h as int, h - 1, w - 1);
    }
    let n = w * h;
    let mut horiz: Vec<i64> = vec![0i64; n];
    let mut y: usize = 0;
    while y < h
        invariant
            0 <= y <= h,
            w > 0,
            h > 0,
            n == w * h,
            radius > 0,
            r == radius,
            k == 2 * r + 1,
            s == src@,
            src.len() == n,
            horiz.len() == n,
            b == box_sample_limit(r),
            b >= 0,
            k * (k * b) <= i64::MAX,
            k * b <= k * (k * b),
            2 * b <= k * b,
            r > i64::MAX ==> b == 0,
            samples_within(s, r),
            forall|yy: int, xx: int|
                0 <= yy < y && 0 <= xx < w ==> #[trigger] horiz@[yy * w + xx] == row_box(
                    s,
                    w as int,
                    r,
                    yy,
                    xx,
                ),
        decreases h - y,
    {
        proof {
            lemma_index_in_plane(w as int, h as int, y as int, w - 1);
        }
        let base = y * w;
        let ghost g = row_sample(s, w as int, y as int);
        let last: usize = if radius < w - 1 {
            radius
        } else {
            w - 1
        };
        let mut sum: i64 = 0;
        let mut i: usize = 0;
        while i <= last
            invariant
                0 <= i <= last + 1,
                last < w,
                base == y * w,
                base + w <= n,
                src.len() == n,
                s == src@,
                b >= 0,
                k == 2 * r + 1,
                k * b <= k * (k * b),
                k * (k * b) <= i64::MAX,
                r == radius,
                samples_within(s, r),
                g == row_sample(s, w as int, y as int),
                sum == clamped_run(g, w - 1, 0, i as nat),
                -(i * b) <= sum <= i * b,
                last <= r,
                b == box_sample_limit(r),
            decreases last + 1 - i,
        {
            assert(-b <= s[base + i] <= b);
            assert((i + 1) * b <= k * b) by (nonlinear_arith)
                requires
                    i <= r,
                    b >= 0,
                    k == 2 * r + 1,
            ;
            assert(i * b + b == (i + 1) * b) by (nonlinear_arith);
            sum = sum + src[base + i];
            i = i + 1;
        }
        proof {
            lemma_run_seed(g, w - 1, r);
            assert(-b <= s[base as int] <= b);
            assert((i + r) * b <= k * b) by (nonlinear_arith)
                requires
                    i <= r + 1,
                    b >= 0,
                    k == 2 * r + 1,
            ;
            assert(r * b <= k * b) by (nonlinear_arith)
                requires
                    r >= 0,
                    b >= 0,
                    k == 2 * r + 1,
            ;
            lemma_repeat(src@[base as int], radius, b, k * b);
            assert(i * b + r * b == (i + r) * b) by (nonlinear_arith);
            assert(r * g(0) == s[base as int] * r) by (nonlinear_arith)
                requires
                    g(0) == s[base as int],
            ;
        }
        sum = sum + src[base] * (radius as i64);
        proof {
            lemma_index_in_plane(w as int, h as int, y as int, w - 1);
            assert(g(w - 1) == s[base + w - 1]);
            assert(-b <= s[base + w - 1] <= b);
        }
        if radius >= w {
            let extra = radius - (w - 1);
            proof {
                let c = r + 1 - w;
                assert(extra == c);
                assert(c * b <= k * b) by (nonlinear_arith)
                    requires
                        0 <= c <= r,
                        b >= 0,
                        k == 2 * r + 1,
                ;
                assert(extra > i64::MAX ==> r > i64::MAX);
                lemma_repeat(src@[base + w - 1], extra, b, k * b);
                assert(last + 1 + r + c == 2 * r + 1);
                assert((i + r) * b + c * b == k * b) by (nonlinear_arith)
                    requires
                        i + r + c == 2 * r + 1,
                        k == 2 * r + 1,
                ;
            }
            sum = sum + src[base + w - 1] * (extra as i64);
        }
        proof {
            assert(pos(r - (w - 1)) * g(w - 1) == if r + 1 > w {
                s[base + w - 1] * (r + 1 - w)
            } else {
                0
            }) by (nonlinear_arith)
                requires
                    g(w - 1) == s[base + w - 1],
                    pos(r - (w - 1)) == if r + 1 > w {
                        r + 1 - w
                    } else {
                        0
                    },
            ;
            assert(sum == row_box(s, w as int, r, y as int, 0));
        }
        let mut x: usize = 0;
        while x < w
            invariant
                0 <= x <= w,
                0 <= y < h,
                w > 0,
                n == w * h,
                base == y * w,
                base + w <= n,
                src.len() == n,
                horiz.len() == n,
                s == src@,
                r == radius,
                radius > 0,
                k == 2 * r + 1,
                b == box_sample_limit(r),
                b >= 0,
                k * b <= k * (k * b),
                k * (k * b) <= i64::MAX,
                2 * b <= k * b,
                samples_within(s, r),
                g == row_sample(s, w as int, y as int),
                sum == row_box(s, w as int, r, y as int, x as int),
                forall|yy: int, xx: int|
                    0 <= yy < y && 0 <= xx < w ==> #[trigger] horiz@[yy * w + xx] == row_box(
                        s,
                        w as int,
                        r,
                        yy,
                        xx,
                    ),
                forall|xx: int|
                    0 <= xx < x ==> #[trigger] horiz@[base + xx] == row_box(
                        s,
                        w as int,
                        r,
                        y as int,
                        xx,
                    ),
            decreases w - x,
        {
            let ghost before = horiz@;
            horiz.set(base + x, sum);
            proof {
                assert forall|yy: int, xx: int|
                    0 <= yy < y && 0 <= xx < w implies #[trigger] horiz@[yy * w + xx] == row_box(
                    s,
                    w as int,
                    r,
                    yy,
                    xx,
                ) by {
                    lemma_index_in_plane(w as int, h as int, yy, xx);
                    if yy * w + xx == base + x {
                        lemma_index_rows(w as int, yy, xx, y as int, x as int);
                    }
                    assert(before[yy * w + xx] == row_box(s, w as int, r, yy, xx));
                }
                assert forall|xx: int| 0 <= xx < x + 1 implies #[trigger] horiz@[base + xx]
                    == row_box(s, w as int, r, y as int, xx) by {
                    if xx < x {
                        assert(before[base + xx] == row_box(s, w as int, r, y as int, xx));
                    }
                }
            }
            let add_x: usize = if radius < w - 1 - x {
                x + radius + 1
            } else {
                w - 1
            };
            let drop_x: usize = if x >= radius {
                x - radius
            } else {
                0
            };
            proof {
                lemma_run_slide(g, w - 1, x - r, (2 * r + 1) as nat);
                assert(x - r + (2 * r + 1) == x + r + 1);
                lemma_row_box_bound(s, w as int, h as int, r, y as int, x + 1, b);
                assert(-b <= s[base + add_x] <= b);
                assert(-b <= s[base + drop_x] <= b);
            }
            let diff = src[base + add_x] - src[base + drop_x];
            sum = sum + diff;
            x = x + 1;
        }
        proof {
            assert forall|yy: int, xx: int|
                0 <= yy < y + 1 && 0 <= xx < w implies #[trigger] horiz@[yy * w + xx] == row_box(
                s,
                w as int,
                r,
                yy,
                xx,
            ) by {
                if yy == y {
                    assert(horiz@[base + xx] == row_box(s, w as int, r, y as int, xx));
                }
            }
        }
        y = y + 1;
    }
    let mut out: Vec<i64> = vec![0i64; n];
    let ghost hb = k * b;
    let mut x: usize = 0;
    while x < w
        invariant
            0 <= x <= w,
            w > 0,
            h > 0,
            n == w * h,
            radius > 0,
            r == radius,
            k == 2 * r + 1,
            s == src@,
            horiz.len() == n,
            out.len() == n,
            b == box_sample_limit(r),
            b >= 0,
            hb == k * b,
            k * hb <= i64::MAX,
            hb <= k * hb,
            2 * b <= k * b,
            r > i64::MAX ==> b == 0,
            samples_within(s, r),
            s.len() == w * h,
            forall|yy: int, xx: int|
                0 <= yy < h && 0 <= xx < w ==> #[trigger] horiz@[yy * w + xx] == row_box(
                    s,
                    w as int,
                    r,
                    yy,
                    xx,
                ),
            forall|yy: int, xx: int|
                0 <= yy < h && 0 <= xx < x ==> #[trigger] out@[yy * w + xx] == box_value(
                    s,
                    w as int,
                    h as int,
                    r,
                    yy,
                    xx,
                ),
        decreases w - x,
    {
        let ghost g = col_sample(s, w as int, r, x as int);
        let last: usize = if radius < h - 1 {
            radius
        } else {
            h - 1
        };
        proof {
            assert(forall|i: int| 0 <= i < s.len() ==> -b <= #[trigger] s[i] <= b);
            assert(2 * hb <= k * hb) by (nonlinear_arith)
                requires
                    2 * b <= k * b,
                    hb == k * b,
                    k >= 1,
                    b >= 0,
            ;
        }
        let mut sum: i64 = 0;
        let mut i: usize = 0;
        while i <= last
            invariant
                0 <= i <= last + 1,
                last < h,
                last <= r,
                x < w,
                w > 0,
                h > 0,
                n == w * h,
                horiz.len() == n,
                s.len() == w * h,
                b >= 0,
                r >= 0,
                k == 2 * r + 1,
                hb == k * b,
                r == radius,
                k * hb <= i64::MAX,
                forall|i: int| 0 <= i < s.len() ==> -b <= #[trigger] s[i] <= b,
                g == col_sample(s, w as int, r, x as int),
                forall|yy: int, xx: int|
                    0 <= yy < h && 0 <= xx < w ==> #[trigger] horiz@[yy * w + xx] == row_box(
                        s,
                        w as int,
                        r,
                        yy,
                        xx,
                    ),
                sum == clamped_run(g, h - 1, 0, i as nat),
                -(i * hb) <= sum <= i * hb,
            decreases last + 1 - i,
        {
            proof {
                lemma_index_in_plane(w as int, h as int, i as int, x as int);
                lemma_row_box_bound(s, w as int, h as int, r, i as int, x as int, b);
                assert((i + 1) * hb <= k * hb) by (nonlinear_arith)
                    requires
                        i <= r,
                        b >= 0,
                        k == 2 * r + 1,
                        hb == k * b,
                ;
                assert(i * hb + hb == (i + 1) * hb) by (nonlinear_arith);
                assert(horiz@[i * w + x] == row_box(s, w as int, r, i as int, x as int));
            }
            sum = sum + horiz[i * w + x];
            i = i + 1;
        }
        proof {
            lemma_run_seed(g, h - 1, r);
            lemma_index_in_plane(w as int, h as int, 0, x as int);
            lemma_row_box_bound(s, w as int, h as int, r, 0, x as int, b);
            assert(horiz@[0 * w + x] == row_box(s, w as int, r, 0, x as int));
            assert(0 * w + x == x);
            let top = horiz@[x as int] as int;
            assert(hb >= 0) by (nonlinear_arith)
                requires
                    k >= 1,
                    b >= 0,
                    hb == k * b,
            ;
            assert(r > i64::MAX ==> hb == 0) by (nonlinear_arith)
                requires
                    r > i64::MAX ==> b == 0,
                    hb == k * b,
            ;
            assert((i + r) * hb <= k * hb) by (nonlinear_arith)
                requires
                    i <= r + 1,
                    hb >= 0,
                    k == 2 * r + 1,
            ;
            assert(r * hb <= k * hb) by (nonlinear_arith)
                requires
                    r >= 0,
                    hb >= 0,
                    k == 2 * r + 1,
            ;
            lemma_repeat(horiz@[x as int], radius, hb, k * hb);
            assert(i * hb + r * hb == (i + r) * hb) by (nonlinear_arith);
            assert(r * g(0) == top * r) by (nonlinear_arith)
                requires
                    g(0) == top,
            ;
        }
        sum = sum + horiz[x] * (radius as i64);
        proof {
            lemma_index_in_plane(w as int, h as int, h - 1, x as int);
            lemma_row_box_bound(s, w as int, h as int, r, h - 1, x as int, b);
            assert(horiz@[(h - 1) * w + x] == row_box(s, w as int, r, h - 1, x as int));
            assert(g(h - 1) == horiz@[(h - 1) * w + x]);
        }
        if radius >= h {
            let extra = radius - (h - 1);
            proof {
                let c = r + 1 - h;
                assert(extra == c);
                assert(c * hb <= k * hb) by (nonlinear_arith)
                    requires
                        0 <= c <= r,
                        hb >= 0,
                        k == 2 * r + 1,
                ;
                assert(extra > i64::MAX ==> r > i64::MAX);
                lemma_repeat(horiz@[(h - 1) * w + x], extra, hb, k * hb);
                assert(last + 1 + r + c == 2 * r + 1);
                assert((i + r) * hb + c * hb == k * hb) by (nonlinear_arith)
                    requires
                        i + r + c == 2 * r + 1,
                        k == 2 * r + 1,
                ;
            }
            sum = sum + horiz[(h - 1) * w + x] * (extra as i64);
        }
        proof {
            assert(pos(r - (h - 1)) * g(h - 1) == if r + 1 > h {
                horiz@[(h - 1) * w + x] * (r + 1 - h)
            } else {
                0
            }) by (nonlinear_arith)
                requires
                    g(h - 1) == horiz@[(h - 1) * w + x],
                    pos(r - (h - 1)) == if r + 1 > h {
                        r + 1 - h
                    } else {
                        0
                    },
            ;
        }
        let mut y: usize = 0;
        while y < h
            invariant
                0 <= y <= h,
                x < w,
                w > 0,
                h > 0,
                n == w * h,
                radius > 0,
                r == radius,
                k == 2 * r + 1,
                s == src@,
                horiz.len() == n,
                out.len() == n,
                b >= 0,
                hb == k * b,
                k * hb <= i64::MAX,
                2 * hb <= k * hb,
                s.len() == w * h,
                forall|i: int| 0 <= i < s.len() ==> -b <= #[trigger] s[i] <= b,
                g == col_sample(s, w as int, r, x as int),
                sum == box_value(s, w as int, h as int, r, y as int, x as int),
                forall|yy: int, xx: int|
                    0 <= yy < h && 0 <= xx < w ==> #[trigger] horiz@[yy * w + xx] == row_box(
                        s,
                        w as int,
                        r,
                        yy,
                        xx,
                    ),
                forall|yy: int, xx: int|
                    0 <= yy < h && 0 <= xx < x ==> #[trigger] out@[yy * w + xx] == box_value(
                        s,
                        w as int,
                        h as int,
                        r,
                        yy,
                        xx,
                    ),
                forall|yy: int|
                    0 <= yy < y ==> #[trigger] out@[yy * w + x] == box_value(
                        s,
                        w as int,
                        h as int,
                        r,
                        yy,
                        x as int,
                    ),
            decreases h - y,
        {
            proof {
                lemma_index_in_plane(w as int, h as int, y as int, x as int);
            }
            let ghost before = out@;
            out.set(y * w + x, sum);
            proof {
                assert forall|yy: int, xx: int|
                    0 <= yy < h && 0 <= xx < x implies #[trigger] out@[yy * w + xx] == box_value(
                    s,
                    w as int,
                    h as int,
                    r,
                    yy,
                    xx,
                ) by {
                    lemma_index_in_plane(w as int, h as int, yy, xx);
                    if yy * w + xx == y * w + x {
                        lemma_index_rows(w as int, yy, xx, y as int, x as int);
                    }
                    assert(before[yy * w + xx] == box_value(s, w as int, h as int, r, yy, xx));
                }
                assert forall|yy: int| 0 <= yy < y + 1 implies #[trigger] out@[yy * w + x]
                    == box_value(s, w as int, h as int, r, yy, x as int) by {
                    if yy < y {
                        lemma_index_in_plane(w as int, h as int, yy, x as int);
                        if yy * w + x == y * w + x {
                            lemma_index_rows(w as int, yy, x as int, y as int, x as int);
                        }
                        assert(before[yy * w + x] == box_value(
                            s,
                            w as int,
                            h as int,
                            r,
                            yy,
                            x as int,
                        ));
                    }
                }
            }
            let add_y: usize = if radius < h - 1 - y {
                y + radius + 1
            } else {
                h - 1
            };
            let drop_y: usize = if y >= radius {
                y - radius
            } else {
                0
            };
            proof {
                lemma_run_slide(g, h - 1, y - r, (2 * r + 1) as nat);
                assert(y - r + (2 * r + 1) == y + r + 1);
                lemma_box_value_bound(s, w as int, h as int, r, y + 1, x as int, b);
                lemma_index_in_plane(w as int, h as int, add_y as int, x as int);
                lemma_index_in_plane(w as int, h as int, drop_y as int, x as int);
                lemma_row_box_bound(s, w as int, h as int, r, add_y as int, x as int, b);
                lemma_row_box_bound(s, w as int, h as int, r, drop_y as int, x as int, b);
                assert(horiz@[add_y * w + x] == row_box(s, w as int, r, add_y as int, x as int));
                assert(horiz@[drop_y * w + x] == row_box(s, w as int, r, drop_y as int, x as int));
            }
            let diff = horiz[add_y * w + x] - horiz[drop_y * w + x];
            sum = sum + diff;
            y = y + 1;
        }
        x = x + 1;
    }
    proof {
        assert forall|y: int, x: int| 0 <= y < h && 0 <= x < w implies #[trigger] out@[y * w + x]
            == window_sum(s, w as int, h as int, r, y, x) by {
            lemma_box_value_is_window_sum(s, w as int, h as int, r, y, x);
        }
    }
    out
}

} // verus!
