//! Oil-paint stylise (`-paint radius`).
//!
//! Replaces every pixel by the mean colour of the most frequent
//! intensity bucket among the samples of the `(2r + 1)²` window around
//! it (borders clamped):
//!
//! 1. Each window sample's bucket is `min(luma · levels / 256, levels − 1)`
//!    with `luma = (77 R + 150 G + 29 B) >> 8`.
//! 2. Bucket counts and per-bucket channel sums are tallied.
//! 3. The bucket with the highest count wins, ties going to the lower
//!    index.
//! 4. The output is the per-channel sum of the winning bucket divided by
//!    its count.
//!
//! `radius = 0` is the identity. RGBA keeps each pixel's own alpha.

use vstd::prelude::*;
use crate::boxsum::{
    clamped_run, clampi, lemma_run_flat, lemma_run_nonneg, lemma_run_scaled, lemma_run_split,
};
use crate::frame::{
    error_text, first_plane_bpp, gray_or_packed_rgb, lemma_row_in_bounds, rows_fit,
    single_plane_frame, unsupported, unsupported_text, FilterError, FrameView, PixelFormat,
    PlaneView, VideoFrame, VideoPlane, VideoStreamParams,
};
use crate::grid::{grid_full, grid_upto, lemma_grid_done, lemma_grid_next_pixel, lemma_grid_next_row, lemma_grid_push, lemma_grid_start};
use crate::luma::plane_byte;

verus! {

/// Oil-paint stylise filter.
#[derive(Clone, Copy, Debug)]
pub struct Paint {
    /// Window radius in pixels. The window is `(2 * radius + 1)²`.
    pub radius: u32,
    /// Number of intensity buckets used for the modal-bucket vote.
    pub levels: u32,
}

impl Default for Paint {
    fn default() -> (r: Self)
        ensures
            r.radius == 2,
            r.levels == 20,
    {
        Paint::new(2)
    }
}

impl Paint {
    /// Build a paint filter with the given window radius and 20
    /// intensity buckets.
    pub fn new(radius: u32) -> (r: Self)
        ensures
            r.radius == radius,
            r.levels == 20,
    {
        Paint { radius, levels: 20 }
    }

    /// Override the bucket count, clamped to `[1, 256]`.
    pub fn with_levels(self, levels: u32) -> (r: Self)
        ensures
            r.radius == self.radius,
            r.levels == clamp_levels(levels),
    {
        Paint { radius: self.radius, levels: if levels < 1 {
            1
        } else if levels > 256 {
            256
        } else {
            levels
        } }
    }
}

/// `levels` clamped to `[1, 256]`.
pub open spec fn clamp_levels(levels: u32) -> int {
    if levels < 1 {
        1
    } else if levels > 256 {
        256
    } else {
        levels as int
    }
}

/// Paint's luma `(77 R + 150 G + 29 B) >> 8`.
pub open spec fn paint_luma_value(r: u8, g: u8, b: u8) -> int {
    (r * 77 + g * 150 + b * 29) / 256
}

/// Paint's luma `(77 R + 150 G + 29 B) >> 8`.
pub fn luma(r: u8, g: u8, b: u8) -> (v: u8)
    ensures
        v == paint_luma_value(r, g, b),
{
    let s: u32 = r as u32 * 77 + g as u32 * 150 + b as u32 * 29;
    assert(s >> 8u32 == s / 256) by (bit_vector);
    (s >> 8) as u8
}

/// The intensity bucket of a luma value.
pub open spec fn bucket_of(l: int, levels: int) -> int {
    let b = l * levels / 256;
    if b < levels - 1 {
        b
    } else {
        levels - 1
    }
}

/// Channel `c` of source pixel `(yy, xx)`; a gray sample stands for
/// all three channels.
pub open spec fn px_channel(p: PlaneView, bpp: int, yy: int, xx: int, c: int) -> int {
    if bpp == 1 {
        plane_byte(p, yy, xx) as int
    } else {
        plane_byte(p, yy, bpp * xx + c) as int
    }
}

/// The bucket of source pixel `(yy, xx)`.
pub open spec fn px_bucket(p: PlaneView, bpp: int, levels: int, yy: int, xx: int) -> int {
    bucket_of(
        paint_luma_value(
            px_channel(p, bpp, yy, xx, 0) as u8,
            px_channel(p, bpp, yy, xx, 1) as u8,
            px_channel(p, bpp, yy, xx, 2) as u8,
        ),
        levels,
    )
}

/// What pixel `(yy, xx)` adds to the tally of bucket `b`: `1` to the
/// count (`c == -1`) or its channel `c` to the channel sum, when it
/// falls in bucket `b`.
pub open spec fn vote_weight(p: PlaneView, bpp: int, levels: int, b: int, c: int, yy: int, xx: int) -> int {
    if px_bucket(p, bpp, levels, yy, xx) == b {
        if c < 0 {
            1
        } else {
            px_channel(p, bpp, yy, xx, c)
        }
    } else {
        0
    }
}

/// Row `yy` of the window, as a function of the column.
pub open spec fn vote_col(p: PlaneView, bpp: int, levels: int, b: int, c: int, yy: int) -> spec_fn(
    int,
) -> int {
    |xx: int| vote_weight(p, bpp, levels, b, c, yy, xx)
}

/// A window row's tally, as a function of the row.
pub open spec fn vote_row(
    p: PlaneView,
    bpp: int,
    levels: int,
    w: int,
    r: int,
    x: int,
    b: int,
    c: int,
) -> spec_fn(int) -> int {
    |yy: int| clamped_run(vote_col(p, bpp, levels, b, c, yy), w - 1, x - r, (2 * r + 1) as nat)
}

/// The window tally of bucket `b` around `(y, x)`: its count
/// (`c == -1`) or the sum of its channel `c`.
pub open spec fn tally(
    p: PlaneView,
    bpp: int,
    levels: int,
    w: int,
    h: int,
    r: int,
    y: int,
    x: int,
    b: int,
    c: int,
) -> int {
    clamped_run(vote_row(p, bpp, levels, w, r, x, b, c), h - 1, y - r, (2 * r + 1) as nat)
}

/// `best` is the lowest-index bucket of highest count.
pub open spec fn is_modal(
    p: PlaneView,
    bpp: int,
    levels: int,
    w: int,
    h: int,
    r: int,
    y: int,
    x: int,
    best: int,
) -> bool {
    &&& 0 <= best < levels
    &&& forall|b: int|
        0 <= b < levels ==> #[trigger] tally(p, bpp, levels, w, h, r, y, x, b, -1) <= tally(
            p,
            bpp,
            levels,
            w,
            h,
            r,
            y,
            x,
            best,
            -1,
        )
    &&& forall|b: int|
        0 <= b < best ==> #[trigger] tally(p, bpp, levels, w, h, r, y, x, b, -1) < tally(
            p,
            bpp,
            levels,
            w,
            h,
            r,
            y,
            x,
            best,
            -1,
        )
}

/// The winning bucket of the window around `(y, x)`.
pub open spec fn modal_bucket(
    p: PlaneView,
    bpp: int,
    levels: int,
    w: int,
    h: int,
    r: int,
    y: int,
    x: int,
) -> int {
    choose|best: int| is_modal(p, bpp, levels, w, h, r, y, x, best)
}

/// The winning bucket is unique.
pub proof fn lemma_modal_unique(
    p: PlaneView,
    bpp: int,
    levels: int,
    w: int,
    h: int,
    r: int,
    y: int,
    x: int,
    b1: int,
    b2: int,
)
    requires
        is_modal(p, bpp, levels, w, h, r, y, x, b1),
        is_modal(p, bpp, levels, w, h, r, y, x, b2),
    ensures
        b1 == b2,
{
    if b1 < b2 {
        assert(tally(p, bpp, levels, w, h, r, y, x, b1, -1) < tally(p, bpp, levels, w, h, r, y, x, b2, -1));
        assert(tally(p, bpp, levels, w, h, r, y, x, b1, -1) >= tally(p, bpp, levels, w, h, r, y, x, b2, -1));
    }
    if b2 < b1 {
        assert(tally(p, bpp, levels, w, h, r, y, x, b2, -1) < tally(p, bpp, levels, w, h, r, y, x, b1, -1));
        assert(tally(p, bpp, levels, w, h, r, y, x, b2, -1) >= tally(p, bpp, levels, w, h, r, y, x, b1, -1));
    }
}

/// Output channel `c` of pixel `(y, x)`: the winning bucket's channel
/// sum over its count (a count of zero counting as one).
pub open spec fn paint_value(
    p: PlaneView,
    bpp: int,
    levels: int,
    w: int,
    h: int,
    r: int,
    y: int,
    x: int,
    c: int,
) -> int {
    let best = modal_bucket(p, bpp, levels, w, h, r, y, x);
    let n = tally(p, bpp, levels, w, h, r, y, x, best, -1);
    tally(p, bpp, levels, w, h, r, y, x, best, c) / if n < 1 {
        1
    } else {
        n
    }
}

} // verus!

verus! {

/// A window tally run is bounded: `n` samples each at most `cap`.
proof fn lemma_tally_bounds(
    p: PlaneView,
    bpp: int,
    levels: int,
    w: int,
    r: int,
    x: int,
    b: int,
    c: int,
    yy: int,
    j: nat,
    cap: int,
)
    requires
        cap >= 0,
        forall|xx: int| 0 <= #[trigger] vote_weight(p, bpp, levels, b, c, yy, xx) <= cap,
    ensures
        0 <= clamped_run(vote_col(p, bpp, levels, b, c, yy), w - 1, x - r, j) <= j * cap,
    decreases j,
{
    if j > 0 {
        lemma_tally_bounds(p, bpp, levels, w, r, x, b, c, yy, (j - 1) as nat, cap);
        let g = vote_col(p, bpp, levels, b, c, yy);
        assert(0 <= g(clampi(x - r + j - 1, w - 1)) <= cap);
        assert(((j - 1) as nat) * cap + cap == j * cap) by (nonlinear_arith)
            requires
                j > 0,
        ;
    } else {
        assert(j * cap == 0) by (nonlinear_arith)
            requires
                j == 0,
        ;
    }
}

/// Whole-row tallies are bounded by `n * cap` each.
proof fn lemma_rows_bounds(
    p: PlaneView,
    bpp: int,
    levels: int,
    w: int,
    h: int,
    r: int,
    y: int,
    x: int,
    b: int,
    c: int,
    i: nat,
    cap: int,
)
    requires
        cap >= 0,
        r >= 0,
        forall|yy: int, xx: int| 0 <= #[trigger] vote_weight(p, bpp, levels, b, c, yy, xx) <= cap,
    ensures
        0 <= clamped_run(vote_row(p, bpp, levels, w, r, x, b, c), h - 1, y - r, i) <= i * ((2
            * r + 1) * cap),
    decreases i,
{
    let n = (2 * r + 1) as nat;
    if i > 0 {
        lemma_rows_bounds(p, bpp, levels, w, h, r, y, x, b, c, (i - 1) as nat, cap);
        let yy = clampi(y - r + i - 1, h - 1);
        lemma_tally_bounds(p, bpp, levels, w, r, x, b, c, yy, n, cap);
        assert(((i - 1) as nat) * (n * cap) + n * cap == i * (n * cap)) by (nonlinear_arith)
            requires
                i > 0,
        ;
    } else {
        assert(i * (n * cap) == 0) by (nonlinear_arith)
            requires
                i == 0,
        ;
    }
}

/// `cur` is `base` plus the tally of channel `c` (`-1`: counts) over the
/// first `j` columns of window row `yy`.
#[verifier::opaque]
pub open spec fn row_partial(
    cur: Seq<u64>,
    base: Seq<u64>,
    p: PlaneView,
    bpp: int,
    levels: int,
    w: int,
    r: int,
    x: int,
    c: int,
    yy: int,
    j: nat,
) -> bool {
    &&& cur.len() == levels
    &&& base.len() == levels
    &&& forall|b: int|
        0 <= b < levels ==> #[trigger] cur[b] == base[b] + clamped_run(
            vote_col(p, bpp, levels, b, c, yy),
            w - 1,
            x - r,
            j,
        )
}

/// `cur` holds the tally of channel `c` over the first `i` window rows.
#[verifier::opaque]
pub open spec fn rows_done(
    cur: Seq<u64>,
    p: PlaneView,
    bpp: int,
    levels: int,
    w: int,
    h: int,
    r: int,
    y: int,
    x: int,
    c: int,
    i: nat,
) -> bool {
    &&& cur.len() == levels
    &&& forall|b: int|
        0 <= b < levels ==> #[trigger] cur[b] == clamped_run(
            vote_row(p, bpp, levels, w, r, x, b, c),
            h - 1,
            y - r,
            i,
        )
}

/// The weight pixel `(yy, xx)` adds to its own bucket's tally of `c`.
pub open spec fn own_weight(p: PlaneView, bpp: int, yy: int, xx: int, c: int) -> int {
    if c < 0 {
        1
    } else {
        px_channel(p, bpp, yy, xx, c)
    }
}

/// Adding a sample's weight to its bucket extends a partial row tally by
/// one column.
proof fn lemma_row_step(
    cur: Seq<u64>,
    base: Seq<u64>,
    p: PlaneView,
    bpp: int,
    levels: int,
    w: int,
    r: int,
    x: int,
    c: int,
    yy: int,
    j: nat,
    bk: int,
    v: u64,
)
    requires
        row_partial(cur, base, p, bpp, levels, w, r, x, c, yy, j),
        bk == px_bucket(p, bpp, levels, yy, clampi(x - r + j, w - 1)),
        0 <= bk < levels,
        v == cur[bk] + own_weight(p, bpp, yy, clampi(x - r + j, w - 1), c),
    ensures
        row_partial(cur.update(bk, v), base, p, bpp, levels, w, r, x, c, yy, j + 1),
{
    reveal(row_partial);
    let nw = cur.update(bk, v);
    assert forall|b: int| 0 <= b < levels implies #[trigger] nw[b] == base[b] + clamped_run(
        vote_col(p, bpp, levels, b, c, yy),
        w - 1,
        x - r,
        j + 1,
    ) by {
        assert(x - r + (j + 1) - 1 == x - r + j);
        assert(cur[b] == base[b] + clamped_run(vote_col(p, bpp, levels, b, c, yy), w - 1, x - r, j));
    }
}

/// A finished window row extends the row tally.
proof fn lemma_row_done(
    cur: Seq<u64>,
    base: Seq<u64>,
    p: PlaneView,
    bpp: int,
    levels: int,
    w: int,
    h: int,
    r: int,
    y: int,
    x: int,
    c: int,
    i: nat,
)
    requires
        r >= 0,
        rows_done(base, p, bpp, levels, w, h, r, y, x, c, i),
        row_partial(cur, base, p, bpp, levels, w, r, x, c, clampi(y - r + i, h - 1), (2 * r + 1) as nat),
    ensures
        rows_done(cur, p, bpp, levels, w, h, r, y, x, c, i + 1),
{
    reveal(row_partial);
    reveal(rows_done);
    assert forall|b: int| 0 <= b < levels implies #[trigger] cur[b] == clamped_run(
        vote_row(p, bpp, levels, w, r, x, b, c),
        h - 1,
        y - r,
        i + 1,
    ) by {
        assert(y - r + (i + 1) - 1 == y - r + i);
        assert(base[b] == clamped_run(vote_row(p, bpp, levels, w, r, x, b, c), h - 1, y - r, i));
    }
}

/// The bucket and channels read for a sample are those of the spec.
proof fn lemma_sample(p: PlaneView, bpp: int, levels: int, yy: int, xx: int, rv: u8, gv: u8, bv: u8, bk: int)
    requires
        rv == px_channel(p, bpp, yy, xx, 0),
        gv == px_channel(p, bpp, yy, xx, 1),
        bv == px_channel(p, bpp, yy, xx, 2),
        bk == bucket_of(paint_luma_value(rv, gv, bv), levels),
    ensures
        px_bucket(p, bpp, levels, yy, xx) == bk,
        own_weight(p, bpp, yy, xx, -1) == 1,
        own_weight(p, bpp, yy, xx, 0) == rv,
        own_weight(p, bpp, yy, xx, 1) == gv,
        own_weight(p, bpp, yy, xx, 2) == bv,
{
}

/// A tally entry past `u32::MAX` after adding a sample means the
/// window's full tally of that bucket is past it too: the partial sum
/// is part of the full one.
proof fn lemma_entry_exceeds(
    cur: Seq<u64>,
    base: Seq<u64>,
    p: PlaneView,
    bpp: int,
    levels: int,
    w: int,
    h: int,
    r: int,
    y: int,
    x: int,
    c: int,
    i: nat,
    j: nat,
    k: int,
)
    requires
        -1 <= c <= 2,
        r >= 0,
        i < 2 * r + 1,
        j < 2 * r + 1,
        0 <= k < levels,
        rows_done(base, p, bpp, levels, w, h, r, y, x, c, i),
        row_partial(cur, base, p, bpp, levels, w, r, x, c, clampi(y - r + i, h - 1), j + 1),
        cur[k] > u32::MAX,
    ensures
        !window_fits(p, bpp, levels, w, h, r, y, x),
{
    reveal(row_partial);
    reveal(rows_done);
    reveal(window_fits);
    let n = (2 * r + 1) as nat;
    let yy = clampi(y - r + i, h - 1);
    let g = vote_col(p, bpp, levels, k, c, yy);
    let rows = vote_row(p, bpp, levels, w, r, x, k, c);
    assert forall|q: int| 0 <= #[trigger] g(q) by {}
    lemma_run_split(g, w - 1, x - r, (j + 1) as nat, (n - (j + 1)) as nat);
    lemma_run_nonneg(g, w - 1, x - r + (j + 1), (n - (j + 1)) as nat);
    assert forall|q: int| 0 <= #[trigger] rows(q) by {
        lemma_run_nonneg(vote_col(p, bpp, levels, k, c, q), w - 1, x - r, n);
    }
    lemma_run_split(rows, h - 1, y - r, (i + 1) as nat, (n - (i + 1)) as nat);
    lemma_run_nonneg(rows, h - 1, y - r + (i + 1), (n - (i + 1)) as nat);
    assert(clamped_run(rows, h - 1, y - r, (i + 1) as nat) == clamped_run(rows, h - 1, y - r, i) + rows(yy));
    assert(cur[k] == base[k] + clamped_run(g, w - 1, x - r, (j + 1) as nat));
    assert(base[k] == clamped_run(rows, h - 1, y - r, i));
    assert(tally(p, bpp, levels, w, h, r, y, x, k, c) > u32::MAX);
}

/// Every entry fits a `u32`.
pub open spec fn entries_fit(t: Seq<u64>) -> bool {
    forall|b: int| 0 <= b < t.len() ==> #[trigger] t[b] <= u32::MAX
}

/// Adds `v` to entry `k`.
fn bump(t: &mut Vec<u64>, k: usize, v: u64)
    requires
        k < old(t).len(),
        old(t)@[k as int] + v <= u64::MAX,
    ensures
        final(t)@ == old(t)@.update(k as int, (old(t)@[k as int] + v) as u64),
{
    let cur = t[k];
    t.set(k, cur + v);
}

/// Tallies bucket counts and channel sums over the window around
/// `(y, x)` in wide counters, and gives up with `None` as soon as one of
/// them passes `u32::MAX`: it returns the tallies exactly when they all
/// fit a `u32`.
#[verifier::rlimit(60)]
fn window_tally(
    p: &VideoPlane,
    bpp: usize,
    levels: usize,
    w: usize,
    h: usize,
    r: usize,
    y: usize,
    x: usize,
) -> (res: Option<(Vec<u64>, Vec<u64>, Vec<u64>, Vec<u64>)>)
    requires
        bpp == 1 || bpp == 3 || bpp == 4,
        1 <= levels <= 256,
        0 < w,
        0 < h,
        y < h,
        x < w,
        y + 2 * r + 1 <= usize::MAX,
        x + 2 * r + 1 <= usize::MAX,
        rows_fit(p.data@.len() as int, p.stride as int, h as int, w * bpp),
    ensures
        res is Some <==> window_fits(p@, bpp as int, levels as int, w as int, h as int, r as int, y as int, x as int),
        res is Some ==> {
            let t = res->Some_0;
            &&& t.0.len() == levels
            &&& rows_done(t.0@, p@, bpp as int, levels as int, w as int, h as int, r as int, y as int, x as int, -1, (2 * r + 1) as nat)
            &&& rows_done(t.1@, p@, bpp as int, levels as int, w as int, h as int, r as int, y as int, x as int, 0, (2 * r + 1) as nat)
            &&& rows_done(t.2@, p@, bpp as int, levels as int, w as int, h as int, r as int, y as int, x as int, 1, (2 * r + 1) as nat)
            &&& rows_done(t.3@, p@, bpp as int, levels as int, w as int, h as int, r as int, y as int, x as int, 2, (2 * r + 1) as nat)
        },
{
    let ghost pv = p@;
    let ghost (bi, li, wi, hi, ri, yi, xi) = (bpp as int, levels as int, w as int, h as int, r as int, y as int, x as int);
    let n = 2 * r + 1;
    let len = p.data.len();
    let mut counts: Vec<u64> = vec![0u64; levels];
    let mut sr: Vec<u64> = vec![0u64; levels];
    let mut sg: Vec<u64> = vec![0u64; levels];
    let mut sb: Vec<u64> = vec![0u64; levels];
    proof {
        reveal(rows_done);
    }
    assert(rows_done(counts@, pv, bi, li, wi, hi, ri, yi, xi, -1, 0));
    assert(rows_done(sr@, pv, bi, li, wi, hi, ri, yi, xi, 0, 0));
    assert(rows_done(sg@, pv, bi, li, wi, hi, ri, yi, xi, 1, 0));
    assert(rows_done(sb@, pv, bi, li, wi, hi, ri, yi, xi, 2, 0));
    let mut i: usize = 0;
    while i < n
        invariant
            0 <= i <= n,
            n == 2 * r + 1,
            pv == p@,
            len == p.data@.len(),
            bpp == 1 || bpp == 3 || bpp == 4,
            1 <= levels <= 256,
            0 < w,
            0 < h,
            y < h,
            x < w,
            y + 2 * r + 1 <= usize::MAX,
            x + 2 * r + 1 <= usize::MAX,
            bi == bpp && li == levels && wi == w && hi == h && ri == r && yi == y && xi == x,
            entries_fit(counts@) && entries_fit(sr@) && entries_fit(sg@) && entries_fit(sb@),
            counts.len() == levels && sr.len() == levels && sg.len() == levels && sb.len() == levels,
            rows_fit(p.data@.len() as int, p.stride as int, h as int, w * bpp),
            rows_done(counts@, pv, bi, li, wi, hi, ri, yi, xi, -1, i as nat),
            rows_done(sr@, pv, bi, li, wi, hi, ri, yi, xi, 0, i as nat),
            rows_done(sg@, pv, bi, li, wi, hi, ri, yi, xi, 1, i as nat),
            rows_done(sb@, pv, bi, li, wi, hi, ri, yi, xi, 2, i as nat),
        decreases n - i,
    {
        let yy: usize = if y + i < r {
            0
        } else if y + i - r > h - 1 {
            h - 1
        } else {
            y + i - r
        };
        assert(yy == clampi(yi - ri + i, hi - 1));
        proof {
            lemma_row_in_bounds(len as int, p.stride as int, hi, wi * bi, yy as int);
        }
        let row_base = yy * p.stride;
        let ghost cr = counts@;
        let ghost rr = sr@;
        let ghost gg = sg@;
        let ghost bb = sb@;
        proof {
            reveal(row_partial);
            reveal(rows_done);
            assert(row_partial(counts@, cr, pv, bi, li, wi, ri, xi, -1, yy as int, 0));
            assert(row_partial(sr@, rr, pv, bi, li, wi, ri, xi, 0, yy as int, 0));
            assert(row_partial(sg@, gg, pv, bi, li, wi, ri, xi, 1, yy as int, 0));
            assert(row_partial(sb@, bb, pv, bi, li, wi, ri, xi, 2, yy as int, 0));
        }
        let mut j: usize = 0;
        while j < n
            invariant
                0 <= j <= n,
                0 <= i < n,
                n == 2 * r + 1,
                pv == p@,
                len == p.data@.len(),
                bpp == 1 || bpp == 3 || bpp == 4,
                1 <= levels <= 256,
                0 < w,
                x < w,
                x + 2 * r + 1 <= usize::MAX,
                bi == bpp && li == levels && wi == w && hi == h && ri == r && yi == y && xi == x,
                yy < h,
                yy == clampi(yi - ri + i, hi - 1),
                row_base == yy * p.stride,
                row_base + w * bpp <= len,
                entries_fit(counts@) && entries_fit(sr@) && entries_fit(sg@) && entries_fit(sb@),
            counts.len() == levels && sr.len() == levels && sg.len() == levels && sb.len() == levels,
                rows_done(cr, pv, bi, li, wi, hi, ri, yi, xi, -1, i as nat),
                rows_done(rr, pv, bi, li, wi, hi, ri, yi, xi, 0, i as nat),
                rows_done(gg, pv, bi, li, wi, hi, ri, yi, xi, 1, i as nat),
                rows_done(bb, pv, bi, li, wi, hi, ri, yi, xi, 2, i as nat),
                row_partial(counts@, cr, pv, bi, li, wi, ri, xi, -1, yy as int, j as nat),
                row_partial(sr@, rr, pv, bi, li, wi, ri, xi, 0, yy as int, j as nat),
                row_partial(sg@, gg, pv, bi, li, wi, ri, xi, 1, yy as int, j as nat),
                row_partial(sb@, bb, pv, bi, li, wi, ri, xi, 2, yy as int, j as nat),
            decreases n - j,
        {
            let xx: usize = if x + j < r {
                0
            } else if x + j - r > w - 1 {
                w - 1
            } else {
                x + j - r
            };
            assert(xx == clampi(xi - ri + j, wi - 1));
            proof {
                assert(xx * bpp + bpp <= w * bpp) by (nonlinear_arith)
                    requires
                        xx < w,
                        bpp >= 1,
                ;
                assert(bpp * xx == xx * bpp) by (nonlinear_arith);
            }
            let base = row_base + xx * bpp;
            let rv = p.data[base];
            let (gv, bv) = if bpp == 1 {
                (rv, rv)
            } else {
                (p.data[base + 1], p.data[base + 2])
            };
            let l = luma(rv, gv, bv) as usize;
            assert(l * levels <= 255 * 256) by (nonlinear_arith)
                requires
                    l <= 255,
                    levels <= 256,
            ;
            let b0 = l * levels / 256;
            let bk: usize = if b0 < levels - 1 {
                b0
            } else {
                levels - 1
            };
            proof {
                lemma_sample(pv, bi, li, yy as int, xx as int, rv, gv, bv, bk as int);
                assert(counts@[bk as int] <= u32::MAX && sr@[bk as int] <= u32::MAX);
                assert(sg@[bk as int] <= u32::MAX && sb@[bk as int] <= u32::MAX);
            }
            let ghost c0 = counts@;
            let ghost r0 = sr@;
            let ghost g0 = sg@;
            let ghost b0s = sb@;
            bump(&mut counts, bk, 1);
            bump(&mut sr, bk, rv as u64);
            bump(&mut sg, bk, gv as u64);
            bump(&mut sb, bk, bv as u64);
            proof {
                lemma_row_step(c0, cr, pv, bi, li, wi, ri, xi, -1, yy as int, j as nat, bk as int, counts@[bk as int]);
                lemma_row_step(r0, rr, pv, bi, li, wi, ri, xi, 0, yy as int, j as nat, bk as int, sr@[bk as int]);
                lemma_row_step(g0, gg, pv, bi, li, wi, ri, xi, 1, yy as int, j as nat, bk as int, sg@[bk as int]);
                lemma_row_step(b0s, bb, pv, bi, li, wi, ri, xi, 2, yy as int, j as nat, bk as int, sb@[bk as int]);
            }
            if counts[bk] > 0xffff_ffff || sr[bk] > 0xffff_ffff || sg[bk] > 0xffff_ffff || sb[bk] > 0xffff_ffff {
                proof {
                    let k = bk as int;
                    if counts@[k] > u32::MAX {
                        lemma_entry_exceeds(counts@, cr, pv, bi, li, wi, hi, ri, yi, xi, -1, i as nat, j as nat, k);
                    } else if sr@[k] > u32::MAX {
                        lemma_entry_exceeds(sr@, rr, pv, bi, li, wi, hi, ri, yi, xi, 0, i as nat, j as nat, k);
                    } else if sg@[k] > u32::MAX {
                        lemma_entry_exceeds(sg@, gg, pv, bi, li, wi, hi, ri, yi, xi, 1, i as nat, j as nat, k);
                    } else {
                        lemma_entry_exceeds(sb@, bb, pv, bi, li, wi, hi, ri, yi, xi, 2, i as nat, j as nat, k);
                    }
                }
                return None;
            }
            proof {
                assert(entries_fit(counts@));
                assert(entries_fit(sr@));
                assert(entries_fit(sg@));
                assert(entries_fit(sb@));
            }
            j = j + 1;
        }
        proof {
            lemma_row_done(counts@, cr, pv, bi, li, wi, hi, ri, yi, xi, -1, i as nat);
            lemma_row_done(sr@, rr, pv, bi, li, wi, hi, ri, yi, xi, 0, i as nat);
            lemma_row_done(sg@, gg, pv, bi, li, wi, hi, ri, yi, xi, 1, i as nat);
            lemma_row_done(sb@, bb, pv, bi, li, wi, hi, ri, yi, xi, 2, i as nat);
        }
        i = i + 1;
    }
    proof {
        reveal(rows_done);
        reveal(window_fits);
        let nn = (2 * r + 1) as nat;
        assert forall|b: int, c: int|
            0 <= b < li && -1 <= c <= 2 implies #[trigger] tally(pv, bi, li, wi, hi, ri, yi, xi, b, c) <= u32::MAX by {
            if c == -1 {
                assert(counts@[b] == tally(pv, bi, li, wi, hi, ri, yi, xi, b, c));
            } else if c == 0 {
                assert(sr@[b] == tally(pv, bi, li, wi, hi, ri, yi, xi, b, c));
            } else if c == 1 {
                assert(sg@[b] == tally(pv, bi, li, wi, hi, ri, yi, xi, b, c));
            } else {
                assert(sb@[b] == tally(pv, bi, li, wi, hi, ri, yi, xi, b, c));
            }
        }
    }
    Some((counts, sr, sg, sb))
}


/// The lowest-index entry of largest value.
fn modal(counts: &Vec<u64>) -> (best: usize)
    requires
        counts.len() >= 1,
    ensures
        best < counts.len(),
        forall|b: int| 0 <= b < counts.len() ==> #[trigger] counts@[b] <= counts@[best as int],
        forall|b: int| 0 <= b < best ==> #[trigger] counts@[b] < counts@[best as int],
{
    let mut best: usize = 0;
    let mut best_count = counts[0];
    let mut i: usize = 1;
    while i < counts.len()
        invariant
            1 <= i <= counts.len(),
            best < i,
            best_count == counts@[best as int],
            forall|b: int| 0 <= b < i ==> #[trigger] counts@[b] <= best_count,
            forall|b: int| 0 <= b < best ==> #[trigger] counts@[b] < best_count,
        decreases counts.len() - i,
    {
        let c = counts[i];
        if c > best_count {
            best_count = c;
            best = i;
        }
        i = i + 1;
    }
    best
}

/// A channel tally is at most 255 times the count tally, and neither is
/// negative.
proof fn lemma_tally_le(
    p: PlaneView,
    bpp: int,
    levels: int,
    w: int,
    h: int,
    r: int,
    y: int,
    x: int,
    b: int,
    c: int,
)
    requires
        0 <= c <= 2,
        r >= 0,
    ensures
        tally(p, bpp, levels, w, h, r, y, x, b, c) <= 255 * tally(p, bpp, levels, w, h, r, y, x, b, -1),
        0 <= tally(p, bpp, levels, w, h, r, y, x, b, c),
{
    let n = (2 * r + 1) as nat;
    assert forall|yy: int| #[trigger] vote_row(p, bpp, levels, w, r, x, b, c)(yy) <= 255 * vote_row(
        p,
        bpp,
        levels,
        w,
        r,
        x,
        b,
        -1,
    )(yy) by {
        assert forall|xx: int| #[trigger] vote_col(p, bpp, levels, b, c, yy)(xx) <= 255 * vote_col(
            p,
            bpp,
            levels,
            b,
            -1,
            yy,
        )(xx) by {}
        lemma_run_scaled(vote_col(p, bpp, levels, b, c, yy), vote_col(p, bpp, levels, b, -1, yy), w - 1, x - r, n, 255);
    }
    lemma_run_scaled(vote_row(p, bpp, levels, w, r, x, b, c), vote_row(p, bpp, levels, w, r, x, b, -1), h - 1, y - r, n, 255);
    assert forall|yy: int, xx: int| 0 <= #[trigger] vote_weight(p, bpp, levels, b, c, yy, xx) <= 255 by {}
    lemma_rows_bounds(p, bpp, levels, w, h, r, y, x, b, c, n, 255);
}

/// A channel sum over a count (zero counting as one) is a byte.
proof fn lemma_mean_byte(s: int, count: int, n: int)
    requires
        0 <= s <= 255 * count,
        n == if count < 1 {
            1
        } else {
            count
        },
    ensures
        0 <= s / n <= 255,
{
    assert(0 <= s / n <= 255) by (nonlinear_arith)
        requires
            0 <= s <= 255 * count,
            n >= 1,
            count < 1 ==> n == 1,
            count >= 1 ==> n == count,
    ;
}

/// Every bucket tally of the window around `(y, x)` fits a `u32`.
#[verifier::opaque]
pub open spec fn window_fits(
    p: PlaneView,
    bpp: int,
    levels: int,
    w: int,
    h: int,
    r: int,
    y: int,
    x: int,
) -> bool {
    forall|b: int, c: int|
        0 <= b < levels && -1 <= c <= 2 ==> #[trigger] tally(p, bpp, levels, w, h, r, y, x, b, c)
            <= u32::MAX
}

/// Every window of the picture has tallies that fit a `u32`.
pub open spec fn tallies_fit(p: PlaneView, bpp: int, levels: int, w: int, h: int, r: int) -> bool {
    forall|y: int, x: int| 0 <= y < h && 0 <= x < w ==> #[trigger] window_fits(p, bpp, levels, w, h, r, y, x)
}

/// The frames `Paint::apply` accepts without failing: the picture fits
/// its plane, the window's coordinates fit an `i32`, and every bucket
/// count and channel sum fits a `u32`.
pub open spec fn paint_accepts(v: FrameView, params: VideoStreamParams, radius: u32, levels: u32) -> bool {
    let w = params.width as int;
    let h = params.height as int;
    let bpp = first_plane_bpp(params.format);
    gray_or_packed_rgb(params.format) ==> {
        &&& v.planes.len() >= 1
        &&& rows_fit(v.planes[0].data.len() as int, v.planes[0].stride as int, h, w * bpp)
        &&& h * (w * bpp) <= usize::MAX
        &&& w * bpp <= usize::MAX
        &&& (w > 0 && h > 0 && radius > 0) ==> {
            &&& radius != 0x8000_0000
            &&& radius < 0x8000_0000 ==> {
                &&& w - 1 + radius <= i32::MAX
                &&& h - 1 + radius <= i32::MAX
                &&& tallies_fit(v.planes[0], bpp, clamp_levels(levels), w, h, radius as int)
            }
        }
    }
}

/// Output channel `c` of pixel `(y, x)`: the source byte when the radius
/// is 0 and for RGBA alpha; zero when the radius does not fit an `i32`
/// (the window is then empty); otherwise the mean of the winning bucket
/// (a gray pixel reads its single channel).
pub open spec fn paint_out(
    p: PlaneView,
    bpp: int,
    levels: int,
    w: int,
    h: int,
    radius: int,
    y: int,
    x: int,
    c: int,
) -> u8 {
    if radius == 0 || (bpp == 4 && c == 3) {
        plane_byte(p, y, bpp * x + c)
    } else if radius > i32::MAX {
        0
    } else {
        paint_value(p, bpp, levels, w, h, radius, y, x, if bpp == 1 {
            0
        } else {
            c
        }) as u8
    }
}

/// The painted picture.
pub open spec fn paint_pixels(
    p: PlaneView,
    bpp: int,
    levels: int,
    w: int,
    h: int,
    radius: int,
) -> spec_fn(int, int, int) -> u8 {
    |y: int, x: int, c: int| paint_out(p, bpp, levels, w, h, radius, y, x, c)
}

/// The text of the error for a format `Paint` does not handle.
pub open spec fn paint_error_prefix() -> Seq<char> {
    "oxideav-image-filter: Paint requires Gray8/Rgb24/Rgba, got "@
}

impl Paint {
    /// Paint a frame. The output is one plane of `width * bpp` bytes per
    /// row.
    pub fn apply(&self, input: &VideoFrame, params: VideoStreamParams) -> (r: Result<
        VideoFrame,
        FilterError,
    >)
        requires
            paint_accepts(input@, params, self.radius, self.levels),
        ensures
            !gray_or_packed_rgb(params.format) ==> r is Err && r->Err_0 is Unsupported && error_text(
                r->Err_0,
            ) == unsupported_text(paint_error_prefix(), params.format),
            gray_or_packed_rgb(params.format) ==> r is Ok && r->Ok_0@.pts == input.pts
                && r->Ok_0@.planes.len() == 1 && r->Ok_0@.planes[0].stride == params.width
                * first_plane_bpp(params.format) && grid_full(
                r->Ok_0@.planes[0].data,
                params.width as int,
                params.height as int,
                first_plane_bpp(params.format),
                paint_pixels(
                    input@.planes[0],
                    first_plane_bpp(params.format),
                    clamp_levels(self.levels),
                    params.width as int,
                    params.height as int,
                    self.radius as int,
                ),
            ),
    {
        let bpp: usize = match params.format {
            PixelFormat::Gray8 => 1,
            PixelFormat::Rgb24 => 3,
            PixelFormat::Rgba => 4,
            _ => {
                return Err(
                    unsupported("oxideav-image-filter: Paint requires Gray8/Rgb24/Rgba, got ", params.format),
                );
            },
        };
        let w = params.width as usize;
        let h = params.height as usize;
        let levels: usize = if self.levels < 1 {
            1
        } else if self.levels > 256 {
            256
        } else {
            self.levels as usize
        };
        let src = &input.planes[0];
        let len = src.data.len();
        let radius = self.radius;
        let ghost pv = src@;
        let ghost f = paint_pixels(pv, bpp as int, levels as int, w as int, h as int, radius as int);
        assert(input@.planes[0] == pv);
        let mut out: Vec<u8> = Vec::new();
        proof {
            lemma_grid_start(w as int, bpp as int, f);
        }
        let mut y: usize = 0;
        while y < h
            invariant
                0 <= y <= h,
                w == params.width,
                h == params.height,
                bpp == first_plane_bpp(params.format),
                gray_or_packed_rgb(params.format),
                levels == clamp_levels(self.levels),
                radius == self.radius,
                pv == src@,
                input@.planes[0] == pv,
                len == src.data@.len(),
                src == input.planes[0],
                paint_accepts(input@, params, self.radius, self.levels),
                f == paint_pixels(pv, bpp as int, levels as int, w as int, h as int, radius as int),
                grid_upto(out@, w as int, bpp as int, y as int, 0, 0, f),
            decreases h - y,
        {
            proof {
                lemma_row_in_bounds(len as int, src.stride as int, h as int, w * bpp, y as int);
            }
            let mut x: usize = 0;
            while x < w
                invariant
                    0 <= x <= w,
                    0 <= y < h,
                    w == params.width,
                    h == params.height,
                    bpp == first_plane_bpp(params.format),
                    gray_or_packed_rgb(params.format),
                    levels == clamp_levels(self.levels),
                    radius == self.radius,
                    pv == src@,
                    input@.planes[0] == pv,
                    len == src.data@.len(),
                    y * src.stride + w * bpp <= len,
                    paint_accepts(input@, params, self.radius, self.levels),
                    f == paint_pixels(pv, bpp as int, levels as int, w as int, h as int, radius as int),
                    grid_upto(out@, w as int, bpp as int, y as int, x as int, 0, f),
                decreases w - x,
            {
                proof {
                    assert(x * bpp + bpp <= w * bpp) by (nonlinear_arith)
                        requires
                            x < w,
                            bpp >= 1,
                    ;
                    assert(bpp * x == x * bpp) by (nonlinear_arith);
                }
                let base = y * src.stride + x * bpp;
                let (v0, v1, v2): (u8, u8, u8) = if radius == 0 {
                    if bpp == 1 {
                        (src.data[base], 0, 0)
                    } else {
                        (src.data[base], src.data[base + 1], src.data[base + 2])
                    }
                } else if radius > 0x7fff_ffff {
                    (0, 0, 0)
                } else {
                    let r = radius as usize;
                    proof {
                        let pw = pv;
                        assert(window_fits(pw, bpp as int, levels as int, w as int, h as int, r as int, y as int, x as int));
                    }
                    let (counts, sr, sg, sb) = window_tally(src, bpp, levels, w, h, r, y, x).unwrap();
                    let best = modal(&counts);
                    let n = if counts[best] < 1 {
                        1
                    } else {
                        counts[best]
                    };
                    proof {
                        let (bi, li, wi, hi, ri, yi, xi) = (bpp as int, levels as int, w as int, h as int, r as int, y as int, x as int);
                        reveal(rows_done);
                        assert forall|b: int| 0 <= b < levels implies #[trigger] counts@[b] == tally(pv, bi, li, wi, hi, ri, yi, xi, b, -1) by {}
                        assert forall|b: int| 0 <= b < levels implies #[trigger] tally(pv, bi, li, wi, hi, ri, yi, xi, b, -1)
                            <= tally(pv, bi, li, wi, hi, ri, yi, xi, best as int, -1) by {
                            assert(counts@[b] <= counts@[best as int]);
                        }
                        assert forall|b: int| 0 <= b < best implies #[trigger] tally(pv, bi, li, wi, hi, ri, yi, xi, b, -1)
                            < tally(pv, bi, li, wi, hi, ri, yi, xi, best as int, -1) by {
                            assert(counts@[b] < counts@[best as int]);
                        }
                        assert(is_modal(pv, bi, li, wi, hi, ri, yi, xi, best as int));
                        lemma_modal_unique(pv, bi, li, wi, hi, ri, yi, xi, best as int, modal_bucket(pv, bi, li, wi, hi, ri, yi, xi));
                        let bb = best as int;
                        lemma_tally_le(pv, bi, li, wi, hi, ri, yi, xi, bb, 0);
                        lemma_tally_le(pv, bi, li, wi, hi, ri, yi, xi, bb, 1);
                        lemma_tally_le(pv, bi, li, wi, hi, ri, yi, xi, bb, 2);
                        assert(sr@[bb] == tally(pv, bi, li, wi, hi, ri, yi, xi, bb, 0));
                        assert(sg@[bb] == tally(pv, bi, li, wi, hi, ri, yi, xi, bb, 1));
                        assert(sb@[bb] == tally(pv, bi, li, wi, hi, ri, yi, xi, bb, 2));
                        lemma_mean_byte(sr@[bb] as int, counts@[bb] as int, n as int);
                        lemma_mean_byte(sg@[bb] as int, counts@[bb] as int, n as int);
                        lemma_mean_byte(sb@[bb] as int, counts@[bb] as int, n as int);
                        assert(0 <= sr@[bb] / n <= 255);
                        assert(0 <= sg@[bb] / n <= 255);
                        assert(0 <= sb@[bb] / n <= 255);
                    }
                    ((sr[best] / n) as u8, (sg[best] / n) as u8, (sb[best] / n) as u8)
                };
                let mut c: usize = 0;
                while c < bpp
                    invariant
                        0 <= c <= bpp,
                        0 <= x < w,
                        0 <= y < h,
                        w == params.width,
                        h == params.height,
                        bpp == first_plane_bpp(params.format),
                        gray_or_packed_rgb(params.format),
                        levels == clamp_levels(self.levels),
                        radius == self.radius,
                        pv == src@,
                        len == src.data@.len(),
                        base == y * src.stride + x * bpp,
                        base + bpp <= len,
                        f == paint_pixels(pv, bpp as int, levels as int, w as int, h as int, radius as int),
                        f(y as int, x as int, 0) == v0,
                        bpp > 1 ==> f(y as int, x as int, 1) == v1,
                        bpp > 1 ==> f(y as int, x as int, 2) == v2,
                        grid_upto(out@, w as int, bpp as int, y as int, x as int, c as int, f),
                    decreases bpp - c,
                {
                    proof {
                        assert(bpp * x == x * bpp) by (nonlinear_arith);
                        if c == 3 {
                            assert(f(y as int, x as int, 3) == plane_byte(pv, y as int, bpp * x + 3));
                        }
                    }
                    let v = if c == 3 {
                        src.data[base + 3]
                    } else if c == 0 {
                        v0
                    } else if c == 1 {
                        v1
                    } else {
                        v2
                    };
                    proof {
                        lemma_grid_push(out@, w as int, bpp as int, y as int, x as int, c as int, f);
                    }
                    out.push(v);
                    c = c + 1;
                }
                proof {
                    lemma_grid_next_pixel(out@, w as int, bpp as int, y as int, x as int, f);
                }
                x = x + 1;
            }
            proof {
                lemma_grid_next_row(out@, w as int, bpp as int, y as int, f);
            }
            y = y + 1;
        }
        proof {
            lemma_grid_done(out@, w as int, h as int, bpp as int, f);
        }
        Ok(single_plane_frame(input.pts, w * bpp, out))
    }
}

/// The window tallies of a picture of one solid colour: every sample
/// votes for the colour's bucket.
proof fn lemma_solid_tally(
    p: PlaneView,
    bpp: int,
    levels: int,
    w: int,
    h: int,
    r: int,
    y: int,
    x: int,
    col: Seq<u8>,
    b: int,
    c: int,
)
    requires
        w > 0,
        h > 0,
        r >= 0,
        col.len() == 3,
        -1 <= c < 3,
        forall|yy: int, xx: int, k: int|
            0 <= yy < h && 0 <= xx < w && 0 <= k < 3 ==> #[trigger] px_channel(p, bpp, yy, xx, k) == col[k] as int,
    ensures
        tally(p, bpp, levels, w, h, r, y, x, b, c) == if b == bucket_of(
            paint_luma_value(col[0], col[1], col[2]),
            levels,
        ) {
            (2 * r + 1) * ((2 * r + 1) * if c < 0 {
                1int
            } else {
                col[c] as int
            })
        } else {
            0
        },
{
    let bb = bucket_of(paint_luma_value(col[0], col[1], col[2]), levels);
    let v: int = if b == bb {
        if c < 0 {
            1int
        } else {
            col[c] as int
        }
    } else {
        0
    };
    let n = (2 * r + 1) as nat;
    let rows = vote_row(p, bpp, levels, w, r, x, b, c);
    assert forall|q: int| 0 <= q <= h - 1 implies #[trigger] rows(q) == n * v by {
        let g = vote_col(p, bpp, levels, b, c, q);
        assert forall|xx: int| 0 <= xx <= w - 1 implies #[trigger] g(xx) == v by {
            assert(px_channel(p, bpp, q, xx, 0) == col[0] as int);
            assert(px_channel(p, bpp, q, xx, 1) == col[1] as int);
            assert(px_channel(p, bpp, q, xx, 2) == col[2] as int);
            if c >= 0 {
                assert(px_channel(p, bpp, q, xx, c) == col[c] as int);
            }
        }
        lemma_run_flat(g, w - 1, x - r, n, v);
    }
    lemma_run_flat(rows, h - 1, y - r, n, n * v);
    if b != bb {
        assert(n * (n * 0) == 0) by (nonlinear_arith);
    }
}

impl Paint {
    /// Whether every window of this frame has bucket counts and channel
    /// sums that fit the `u32` tallies `apply` keeps: checked window by
    /// window in wide counters, stopping at the first that does not fit.
    pub fn tallies_fit_in(&self, input: &VideoFrame, params: VideoStreamParams) -> (ok: bool)
        requires
            gray_or_packed_rgb(params.format),
            input@.planes.len() >= 1,
            rows_fit(
                input@.planes[0].data.len() as int,
                input@.planes[0].stride as int,
                params.height as int,
                params.width * first_plane_bpp(params.format),
            ),
            params.width > 0,
            params.height > 0,
            0 < self.radius < 0x8000_0000,
            params.width - 1 + self.radius <= i32::MAX,
            params.height - 1 + self.radius <= i32::MAX,
        ensures
            ok == tallies_fit(
                input@.planes[0],
                first_plane_bpp(params.format),
                clamp_levels(self.levels),
                params.width as int,
                params.height as int,
                self.radius as int,
            ),
    {
        let bpp: usize = match params.format {
            PixelFormat::Gray8 => 1,
            PixelFormat::Rgb24 => 3,
            _ => 4,
        };
        let w = params.width as usize;
        let h = params.height as usize;
        let levels: usize = if self.levels < 1 {
            1
        } else if self.levels > 256 {
            256
        } else {
            self.levels as usize
        };
        let src = &input.planes[0];
        let r = self.radius as usize;
        let ghost pv = src@;
        let ghost (bi, li, wi, hi, ri) = (bpp as int, levels as int, w as int, h as int, r as int);
        assert(input@.planes[0] == pv);
        let mut y: usize = 0;
        while y < h
            invariant
                0 <= y <= h,
                w == params.width,
                h == params.height,
                bpp == first_plane_bpp(params.format),
                levels == clamp_levels(self.levels),
                r == self.radius,
                0 < r < 0x8000_0000,
                w - 1 + r <= i32::MAX,
                h - 1 + r <= i32::MAX,
                pv == src@,
                input@.planes[0] == pv,
                bi == bpp && li == levels && wi == w && hi == h && ri == r,
                rows_fit(src.data@.len() as int, src.stride as int, h as int, w * bpp),
                forall|yy: int, xx: int| 0 <= yy < y && 0 <= xx < w ==> #[trigger] window_fits(pv, bi, li, wi, hi, ri, yy, xx),
            decreases h - y,
        {
            let mut x: usize = 0;
            while x < w
                invariant
                    0 <= x <= w,
                    0 <= y < h,
                    w == params.width,
                    h == params.height,
                    bpp == first_plane_bpp(params.format),
                    levels == clamp_levels(self.levels),
                    r == self.radius,
                    0 < r < 0x8000_0000,
                    w - 1 + r <= i32::MAX,
                    h - 1 + r <= i32::MAX,
                    pv == src@,
                    input@.planes[0] == pv,
                    bi == bpp && li == levels && wi == w && hi == h && ri == r,
                    rows_fit(src.data@.len() as int, src.stride as int, h as int, w * bpp),
                    forall|yy: int, xx: int| 0 <= yy < y && 0 <= xx < w ==> #[trigger] window_fits(pv, bi, li, wi, hi, ri, yy, xx),
                    forall|xx: int| 0 <= xx < x ==> #[trigger] window_fits(pv, bi, li, wi, hi, ri, y as int, xx),
                decreases w - x,
            {
                let t = window_tally(src, bpp, levels, w, h, r, y, x);
                if t.is_none() {
                    proof {
                        assert(!window_fits(pv, bi, li, wi, hi, ri, y as int, x as int));
                        if tallies_fit(pv, bi, li, wi, hi, ri) {
                            assert(window_fits(pv, bi, li, wi, hi, ri, y as int, x as int));
                        }
                    }
                    return false;
                }
                x = x + 1;
            }
            proof {
                assert forall|yy: int, xx: int| 0 <= yy < y + 1 && 0 <= xx < w implies #[trigger] window_fits(
                    pv,
                    bi,
                    li,
                    wi,
                    hi,
                    ri,
                    yy,
                    xx,
                ) by {
                    if yy == y {
                        assert(window_fits(pv, bi, li, wi, hi, ri, y as int, xx));
                    }
                }
            }
            y = y + 1;
        }
        true
    }
}

/// The buckets cut the luma range into `levels` slices of width
/// `256 / levels`: luma `l` lands in the bucket `b` with
/// `b · 256 <= l · levels < (b + 1) · 256`.
pub proof fn paint_buckets_are_equal_slices(l: int, levels: int)
    requires
        0 <= l <= 255,
        1 <= levels <= 256,
    ensures
        0 <= bucket_of(l, levels) < levels,
        bucket_of(l, levels) * 256 <= l * levels < (bucket_of(l, levels) + 1) * 256,
{
    let q = l * levels / 256;
    assert(q * 256 <= l * levels < (q + 1) * 256 && 0 <= q) by (nonlinear_arith)
        requires
            q == l * levels / 256,
            0 <= l,
            1 <= levels,
    ;
    assert(q < levels) by (nonlinear_arith)
        requires
            q * 256 <= l * levels,
            l <= 255,
            1 <= levels,
    ;
}

/// Every bucket holds some luma: the smallest is `⌈b · 256 / levels⌉`.
pub proof fn paint_every_bucket_is_reached(b: int, levels: int)
    requires
        1 <= levels <= 256,
        0 <= b < levels,
    ensures
        bucket_of((b * 256 + levels - 1) / levels, levels) == b,
        0 <= (b * 256 + levels - 1) / levels <= 255,
{
    let l = (b * 256 + levels - 1) / levels;
    assert(l * levels <= b * 256 + levels - 1 < (l + 1) * levels && 0 <= l) by (nonlinear_arith)
        requires
            l == (b * 256 + levels - 1) / levels,
            levels >= 1,
            b >= 0,
    ;
    assert(b * 256 <= l * levels) by (nonlinear_arith)
        requires
            b * 256 + levels - 1 < (l + 1) * levels,
    ;
    assert(l * levels < (b + 1) * 256) by (nonlinear_arith)
        requires
            l * levels <= b * 256 + levels - 1,
            levels <= 256,
    ;
    assert(l <= 255) by (nonlinear_arith)
        requires
            l * levels < (b + 1) * 256,
            b + 1 <= levels,
            levels >= 1,
    ;
    paint_buckets_are_equal_slices(l, levels);
    let c = bucket_of(l, levels);
    assert(c == b) by (nonlinear_arith)
        requires
            c * 256 <= l * levels < (c + 1) * 256,
            b * 256 <= l * levels < (b + 1) * 256,
    ;
}

/// A source pixel's bucket is the slice of its luma
/// `(77 R + 150 G + 29 B) / 256` (a gray sample is its own R, G and B):
/// `b · 256 <= luma · levels < (b + 1) · 256`.
pub proof fn paint_pixel_bucket(p: PlaneView, bpp: int, levels: int, yy: int, xx: int)
    requires
        1 <= levels <= 256,
    ensures
        ({
            let (r, g, b) = if bpp == 1 {
                let v = plane_byte(p, yy, xx) as int;
                (v, v, v)
            } else {
                (
                    plane_byte(p, yy, bpp * xx) as int,
                    plane_byte(p, yy, bpp * xx + 1) as int,
                    plane_byte(p, yy, bpp * xx + 2) as int,
                )
            };
            let l = (77 * r + 150 * g + 29 * b) / 256;
            let k = px_bucket(p, bpp, levels, yy, xx);
            &&& 0 <= k < levels
            &&& k * 256 <= l * levels < (k + 1) * 256
        }),
{
    let r = px_channel(p, bpp, yy, xx, 0);
    let g = px_channel(p, bpp, yy, xx, 1);
    let b = px_channel(p, bpp, yy, xx, 2);
    let l = paint_luma_value(r as u8, g as u8, b as u8);
    assert(0 <= l <= 255);
    paint_buckets_are_equal_slices(l, levels);
}

/// Each painted colour channel is the floor mean of that channel over the
/// window's modal bucket: given a bucket `best` whose window count no
/// bucket beats and every lower bucket falls short of (ties go to the
/// lowest bucket), the output `m` has `n · m <= s < n · (m + 1)`, with
/// `n` its count (at least 1) and `s` its channel sum. A gray pixel
/// reads its one channel.
pub proof fn paint_takes_floor_mean_of_modal_bucket(
    p: PlaneView,
    bpp: int,
    levels: int,
    w: int,
    h: int,
    r: int,
    y: int,
    x: int,
    c: int,
    best: int,
)
    requires
        0 < r <= i32::MAX,
        0 <= c < 3,
        0 <= best < levels,
        forall|b: int|
            0 <= b < levels ==> #[trigger] tally(p, bpp, levels, w, h, r, y, x, b, -1) <= tally(
                p,
                bpp,
                levels,
                w,
                h,
                r,
                y,
                x,
                best,
                -1,
            ),
        forall|b: int|
            0 <= b < best ==> #[trigger] tally(p, bpp, levels, w, h, r, y, x, b, -1) < tally(
                p,
                bpp,
                levels,
                w,
                h,
                r,
                y,
                x,
                best,
                -1,
            ),
    ensures
        ({
            let cnt = tally(p, bpp, levels, w, h, r, y, x, best, -1);
            let n = if cnt < 1 {
                1
            } else {
                cnt
            };
            let s = tally(p, bpp, levels, w, h, r, y, x, best, if bpp == 1 {
                0
            } else {
                c
            });
            let m = paint_out(p, bpp, levels, w, h, r, y, x, c) as int;
            n * m <= s < n * (m + 1)
        }),
{
    assert(is_modal(p, bpp, levels, w, h, r, y, x, best));
    lemma_modal_unique(p, bpp, levels, w, h, r, y, x, best, modal_bucket(p, bpp, levels, w, h, r, y, x));
    let cc = if bpp == 1 {
        0
    } else {
        c
    };
    let cnt = tally(p, bpp, levels, w, h, r, y, x, best, -1);
    let n = if cnt < 1 {
        1
    } else {
        cnt
    };
    let s = tally(p, bpp, levels, w, h, r, y, x, best, cc);
    lemma_tally_le(p, bpp, levels, w, h, r, y, x, best, cc);
    lemma_mean_byte(s, cnt, n);
    let q = s / n;
    assert(n * q <= s < n * (q + 1)) by (nonlinear_arith)
        requires
            q == s / n,
            n >= 1,
    ;
}

/// Radius 0 copies the picture, and RGBA alpha is always taken from the
/// source pixel.
pub proof fn paint_copies_at_radius_zero_and_keeps_alpha(
    p: PlaneView,
    bpp: int,
    levels: int,
    w: int,
    h: int,
    r: int,
    y: int,
    x: int,
    c: int,
)
    requires
        r == 0 || (bpp == 4 && c == 3),
    ensures
        paint_out(p, bpp, levels, w, h, r, y, x, c) == plane_byte(p, y, bpp * x + c),
{
}

/// A picture of one solid colour paints to itself: the colour's bucket
/// wins every window, and its mean is the colour.
pub proof fn paint_keeps_solid_colour(
    p: PlaneView,
    bpp: int,
    levels: int,
    w: int,
    h: int,
    r: int,
    y: int,
    x: int,
    c: int,
    col: Seq<u8>,
)
    requires
        1 <= levels <= 256,
        w > 0,
        h > 0,
        r >= 0,
        0 <= c < 3,
        col.len() == 3,
        forall|yy: int, xx: int, k: int|
            0 <= yy < h && 0 <= xx < w && 0 <= k < 3 ==> #[trigger] px_channel(p, bpp, yy, xx, k) == col[k] as int,
    ensures
        paint_value(p, bpp, levels, w, h, r, y, x, c) == col[c] as int,
{
    let bb = bucket_of(paint_luma_value(col[0], col[1], col[2]), levels);
    let n = (2 * r + 1) * ((2 * r + 1) * 1int);
    assert(n >= 1) by (nonlinear_arith)
        requires
            r >= 0,
            n == (2 * r + 1) * ((2 * r + 1) * 1int),
    ;
    let l = paint_luma_value(col[0], col[1], col[2]);
    assert(0 <= l <= 255) by {
        assert(0 <= col[0] * 77 + col[1] * 150 + col[2] * 29 <= 255 * 256);
    }
    assert(0 <= l * levels / 256) by (nonlinear_arith)
        requires
            0 <= l,
            levels >= 1,
    ;
    assert(0 <= bb < levels);
    assert forall|b: int| #![trigger tally(p, bpp, levels, w, h, r, y, x, b, -1)]
        0 <= b < levels implies tally(p, bpp, levels, w, h, r, y, x, b, -1) <= tally(
        p,
        bpp,
        levels,
        w,
        h,
        r,
        y,
        x,
        bb,
        -1,
    ) && (b < bb ==> tally(p, bpp, levels, w, h, r, y, x, b, -1) < tally(
        p,
        bpp,
        levels,
        w,
        h,
        r,
        y,
        x,
        bb,
        -1,
    )) by {
        lemma_solid_tally(p, bpp, levels, w, h, r, y, x, col, b, -1);
        lemma_solid_tally(p, bpp, levels, w, h, r, y, x, col, bb, -1);
    }
    assert(is_modal(p, bpp, levels, w, h, r, y, x, bb));
    lemma_modal_unique(p, bpp, levels, w, h, r, y, x, bb, modal_bucket(p, bpp, levels, w, h, r, y, x));
    lemma_solid_tally(p, bpp, levels, w, h, r, y, x, col, bb, -1);
    lemma_solid_tally(p, bpp, levels, w, h, r, y, x, col, bb, c);
    let v = col[c] as int;
    assert((2 * r + 1) * ((2 * r + 1) * v) == n * v) by (nonlinear_arith)
        requires
            n == (2 * r + 1) * ((2 * r + 1) * 1int),
    ;
    assert((n * v) / n == v) by (nonlinear_arith)
        requires
            n >= 1,
    ;
}

} // verus!
