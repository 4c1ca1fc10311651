//! Block-average mosaic ("pixelate"): collapse each `N×N` tile to its
//! mean colour.
//!
//! Tiles start at multiples of `block` in both directions (the last row
//! and column of tiles are cut short by the frame edge); every pixel of
//! a tile receives the rounded mean `(sum + count / 2) / count` of the
//! tile's samples, channel by channel. The output keeps the input shape.
//! `block <= 1` copies the frame. YUV frames pixelate the luma plane and
//! keep the chroma planes.

use vstd::prelude::*;
use crate::boxsum::{
    clamped_run, clampi, lemma_run_bound, lemma_run_flat, lemma_run_nonneg, lemma_run_split,
};
use crate::frame::{
    copy_plane, error_text, first_plane_bpp, invalid, is_planar_yuv, lemma_row_in_bounds, rows_fit,
    single_plane_frame, supported_format, unsupported, unsupported_text, FilterError, FrameView,
    PixelFormat, PlaneView, VideoFrame, VideoPlane, VideoStreamParams,
};
use crate::grid::{
    grid_full, grid_upto, lemma_grid_done, lemma_grid_full_unique, lemma_grid_next_pixel, lemma_grid_next_row,
    lemma_grid_push, lemma_grid_start, lemma_index_in_grid, lemma_index_injective, px_index,
};
use crate::luma::plane_byte;

verus! {

/// Spatial block-average mosaic.
#[derive(Clone, Copy, Debug)]
pub struct Pixelate {
    /// Tile size in pixels. `block <= 1` is a pass-through.
    pub block: u32,
}

impl Default for Pixelate {
    fn default() -> (r: Self)
        ensures
            r.block == 8,
    {
        Pixelate { block: 8 }
    }
}

impl Pixelate {
    /// Build a pixelate filter with explicit `block` size in pixels.
    pub fn new(block: u32) -> (r: Self)
        ensures
            r.block == block,
    {
        Pixelate { block }
    }
}

/// First row (or column) of the tile holding `v`.
pub open spec fn tile_start(v: int, block: int) -> int {
    (v / block) * block
}

/// Extent of the tile starting at `start`, cut at the frame edge.
pub open spec fn tile_len(start: int, block: int, extent: int) -> int {
    if start + block < extent {
        block
    } else {
        extent - start
    }
}

/// Channel `c` along row `yy`, as a function of the column.
pub open spec fn chan_row(p: PlaneView, bpp: int, c: int, yy: int) -> spec_fn(int) -> int {
    |xx: int| plane_byte(p, yy, bpp * xx + c) as int
}

/// Sum of channel `c` over columns `tx .. tx + nx` of a row, as a
/// function of the row.
pub open spec fn tile_row_sum(p: PlaneView, bpp: int, c: int, w: int, tx: int, nx: int) -> spec_fn(
    int,
) -> int {
    |yy: int| clamped_run(chan_row(p, bpp, c, yy), w - 1, tx, nx as nat)
}

/// Sum of channel `c` over the tile `[ty, ty + ny) × [tx, tx + nx)`.
pub open spec fn rect_sum(
    p: PlaneView,
    bpp: int,
    c: int,
    w: int,
    h: int,
    ty: int,
    ny: int,
    tx: int,
    nx: int,
) -> int {
    clamped_run(tile_row_sum(p, bpp, c, w, tx, nx), h - 1, ty, ny as nat)
}

/// The rounded mean of a tile channel.
pub open spec fn rounded_mean(sum: int, count: int) -> int {
    let m = (sum + count / 2) / count;
    if m < 255 {
        m
    } else {
        255
    }
}

/// Channel `c` of output pixel `(y, x)`.
pub open spec fn pixelate_out(p: PlaneView, bpp: int, w: int, h: int, block: int, y: int, x: int, c: int) -> u8 {
    if block <= 1 {
        plane_byte(p, y, bpp * x + c)
    } else {
        let ty = tile_start(y, block);
        let tx = tile_start(x, block);
        let ny = tile_len(ty, block, h);
        let nx = tile_len(tx, block, w);
        rounded_mean(rect_sum(p, bpp, c, w, h, ty, ny, tx, nx), ny * nx) as u8
    }
}

/// The pixelated plane.
pub open spec fn pixelate_pixels(p: PlaneView, bpp: int, w: int, h: int, block: int) -> spec_fn(
    int,
    int,
    int,
) -> u8 {
    |y: int, x: int, c: int| pixelate_out(p, bpp, w, h, block, y, x, c)
}

/// The largest tile of a `w × h` plane.
pub open spec fn max_tile(w: int, h: int, block: int) -> int {
    (if block < h {
        block
    } else {
        h
    }) * (if block < w {
        block
    } else {
        w
    })
}

/// The tile holding pixel `(y, x)` has channel sums that, with half its
/// pixel count added for rounding, fit a `u32`.
pub open spec fn tile_fits(p: PlaneView, bpp: int, w: int, h: int, block: int, y: int, x: int) -> bool {
    let ty = tile_start(y, block);
    let tx = tile_start(x, block);
    let ny = tile_len(ty, block, h);
    let nx = tile_len(tx, block, w);
    forall|c: int|
        0 <= c < bpp ==> #[trigger] rect_sum(p, bpp, c, w, h, ty, ny, tx, nx) + (ny * nx) / 2
            <= u32::MAX
}

/// The plane holds the picture, the tile walk stays inside `usize` and
/// a tile's pixel count fits a `u32`.
pub open spec fn pixelate_layout_fits(p: PlaneView, w: int, h: int, bpp: int, block: int) -> bool {
    &&& rows_fit(p.data.len() as int, p.stride as int, h, w * bpp)
    &&& h * (w * bpp) <= usize::MAX
    &&& w * bpp <= usize::MAX
    &&& w + block <= usize::MAX
    &&& h + block <= usize::MAX
    &&& block > 1 ==> max_tile(w, h, block) <= u32::MAX
}

/// Every tile's rounded channel sums fit a `u32`.
pub open spec fn tiles_fit(p: PlaneView, bpp: int, w: int, h: int, block: int) -> bool {
    forall|y: int, x: int| 0 <= y < h && 0 <= x < w ==> #[trigger] tile_fits(p, bpp, w, h, block, y, x)
}

/// The layout fits, and so does every tile's rounded channel sum.
pub open spec fn pixelate_fits(p: PlaneView, w: int, h: int, bpp: int, block: int) -> bool {
    &&& pixelate_layout_fits(p, w, h, bpp, block)
    &&& block > 1 ==> tiles_fit(p, bpp, w, h, block)
}

/// A row-major prefix of a tile (its first `i` rows, then `j + 1`
/// samples of row `i`) sums to no more than the whole tile.
proof fn lemma_tile_prefix(p: PlaneView, bpp: int, c: int, w: int, h: int, ty: int, ny: int, tx: int, nx: int, i: int, j: int)
    requires
        0 <= i < ny,
        0 <= j < nx,
    ensures
        clamped_run(tile_row_sum(p, bpp, c, w, tx, nx), h - 1, ty, i as nat) + clamped_run(
            chan_row(p, bpp, c, clampi(ty + i, h - 1)),
            w - 1,
            tx,
            (j + 1) as nat,
        ) <= rect_sum(p, bpp, c, w, h, ty, ny, tx, nx),
{
    let g = chan_row(p, bpp, c, clampi(ty + i, h - 1));
    let rows = tile_row_sum(p, bpp, c, w, tx, nx);
    assert forall|q: int| 0 <= #[trigger] g(q) by {}
    lemma_run_split(g, w - 1, tx, (j + 1) as nat, (nx - (j + 1)) as nat);
    lemma_run_nonneg(g, w - 1, tx + (j + 1), (nx - (j + 1)) as nat);
    assert forall|q: int| 0 <= #[trigger] rows(q) by {
        lemma_run_nonneg(chan_row(p, bpp, c, q), w - 1, tx, nx as nat);
    }
    lemma_run_split(rows, h - 1, ty, (i + 1) as nat, (ny - (i + 1)) as nat);
    lemma_run_nonneg(rows, h - 1, ty + (i + 1), (ny - (i + 1)) as nat);
    assert(clamped_run(rows, h - 1, ty, (i + 1) as nat) == clamped_run(rows, h - 1, ty, i as nat) + rows(
        clampi(ty + i, h - 1),
    ));
}

/// A row inside a tile starting at a multiple of the block lies in that
/// tile.
proof fn lemma_tile_start(v: int, k: int, block: int)
    requires
        block > 0,
        k * block <= v < k * block + block,
    ensures
        tile_start(v, block) == k * block,
{
    vstd::arithmetic::div_mod::lemma_fundamental_div_mod_converse(v, block, k, v - k * block);
}

/// Sums the channels of the tile `[ty, ty + ny) × [tx, tx + nx)`.
fn tile_sums(p: &VideoPlane, w: usize, h: usize, bpp: usize, ty: usize, ny: usize, tx: usize, nx: usize) -> (sums: Vec<u64>)
    requires
        1 <= bpp <= 4,
        rows_fit(p.data@.len() as int, p.stride as int, h as int, w * bpp),
        ty + ny <= h,
        tx + nx <= w,
        forall|c: int|
            0 <= c < bpp ==> #[trigger] rect_sum(p@, bpp as int, c, w as int, h as int, ty as int, ny as int, tx as int, nx as int) <= u64::MAX,
    ensures
        sums.len() == bpp,
        forall|c: int|
            0 <= c < bpp ==> #[trigger] sums@[c] == rect_sum(p@, bpp as int, c, w as int, h as int, ty as int, ny as int, tx as int, nx as int),
{
    let ghost pv = p@;
    let ghost (wi, hi, bi, tyi, nyi, txi, nxi) = (w as int, h as int, bpp as int, ty as int, ny as int, tx as int, nx as int);
    let len = p.data.len();
    let mut sums: Vec<u64> = vec![0u64; bpp];
    let mut i: usize = 0;
    while i < ny
        invariant
            0 <= i <= ny,
            1 <= bpp <= 4,
            pv == p@,
            len == p.data@.len(),
            wi == w && hi == h && bi == bpp && tyi == ty && nyi == ny && txi == tx && nxi == nx,
            rows_fit(p.data@.len() as int, p.stride as int, h as int, w * bpp),
            ty + ny <= h,
            tx + nx <= w,
            forall|c: int|
                0 <= c < bpp ==> #[trigger] rect_sum(pv, bi, c, wi, hi, tyi, nyi, txi, nxi) <= u64::MAX,
            sums.len() == bpp,
            forall|c: int|
                0 <= c < bpp ==> #[trigger] sums@[c] == clamped_run(tile_row_sum(pv, bi, c, wi, txi, nxi), hi - 1, tyi, i as nat),
        decreases ny - i,
    {
        let yy = ty + i;
        proof {
            lemma_row_in_bounds(len as int, p.stride as int, h as int, w * bpp, yy as int);
        }
        let row = yy * p.stride;
        let ghost s0 = sums@;
        let mut j: usize = 0;
        while j < nx
            invariant
                0 <= j <= nx,
                0 <= i < ny,
                yy == ty + i,
                1 <= bpp <= 4,
                pv == p@,
                len == p.data@.len(),
                wi == w && hi == h && bi == bpp && tyi == ty && nyi == ny && txi == tx && nxi == nx,
                row == yy * p.stride,
                row + w * bpp <= len,
                ty + ny <= h,
                tx + nx <= w,
                forall|c: int|
                    0 <= c < bpp ==> #[trigger] rect_sum(pv, bi, c, wi, hi, tyi, nyi, txi, nxi) <= u64::MAX,
                sums.len() == bpp,
                s0.len() == bpp,
                forall|c: int|
                    0 <= c < bpp ==> #[trigger] s0[c] == clamped_run(tile_row_sum(pv, bi, c, wi, txi, nxi), hi - 1, tyi, i as nat),
                forall|c: int|
                    0 <= c < bpp ==> #[trigger] sums@[c] == s0[c] + clamped_run(chan_row(pv, bi, c, yy as int), wi - 1, txi, j as nat),
            decreases nx - j,
        {
            let xx = tx + j;
            proof {
                assert(xx * bpp + bpp <= w * bpp) by (nonlinear_arith)
                    requires
                        xx < w,
                        bpp >= 1,
                ;
            }
            let base = row + xx * bpp;
            let ghost s1 = sums@;
            proof {
                assert forall|c2: int| 0 <= c2 < bpp implies #[trigger] s1[c2] + pv.data[base + c2] <= u64::MAX by {
                    lemma_tile_prefix(pv, bi, c2, wi, hi, tyi, nyi, txi, nxi, i as int, j as int);
                    assert(clampi(tyi + i, hi - 1) == yy);
                    assert(txi + (j + 1) - 1 == xx);
                    assert(bi * xx + c2 == xx * bpp + c2) by (nonlinear_arith)
                        requires
                            bi == bpp,
                    ;
                }
            }
            let mut c: usize = 0;
            while c < bpp
                invariant
                    0 <= c <= bpp,
                    1 <= bpp <= 4,
                    pv == p@,
                    len == p.data@.len(),
                    base == yy * p.stride + xx * bpp,
                    base + bpp <= len,
                    sums.len() == bpp,
                    s1.len() == bpp,
                    forall|c2: int| 0 <= c2 < bpp ==> #[trigger] s1[c2] + pv.data[base + c2] <= u64::MAX,
                    forall|c2: int|
                        0 <= c2 < bpp ==> #[trigger] sums@[c2] == s1[c2] + if c2 < c {
                            p.data@[base + c2] as int
                        } else {
                            0
                        },
                decreases bpp - c,
            {
                let cur = sums[c];
                sums.set(c, cur + p.data[base + c] as u64);
                c = c + 1;
            }
            proof {
                assert forall|c2: int| 0 <= c2 < bpp implies #[trigger] sums@[c2] == s0[c2] + clamped_run(
                    chan_row(pv, bi, c2, yy as int),
                    wi - 1,
                    txi,
                    (j + 1) as nat,
                ) by {
                    assert(txi + (j + 1) - 1 == xx);
                    assert(bi * xx + c2 == xx * bpp + c2) by (nonlinear_arith)
                        requires
                            bi == bpp,
                    ;
                    assert(s1[c2] == s0[c2] + clamped_run(chan_row(pv, bi, c2, yy as int), wi - 1, txi, j as nat));
                }
            }
            j = j + 1;
        }
        proof {
            assert forall|c: int| 0 <= c < bpp implies #[trigger] sums@[c] == clamped_run(
                tile_row_sum(pv, bi, c, wi, txi, nxi),
                hi - 1,
                tyi,
                (i + 1) as nat,
            ) by {
                assert(tyi + (i + 1) - 1 == yy);
                assert(s0[c] == clamped_run(tile_row_sum(pv, bi, c, wi, txi, nxi), hi - 1, tyi, i as nat));
            }
        }
        i = i + 1;
    }
    sums
}


/// Pixel `(yy, xx)` lies in the tile `[ty, ty + ny) × [tx, tx + nx)`.
pub open spec fn in_rect(yy: int, xx: int, ty: int, ny: int, tx: int, nx: int) -> bool {
    ty <= yy < ty + ny && tx <= xx < tx + nx
}

/// Stamps `mean` into every pixel of the tile `[ty, ty + ny) × [tx, tx +
/// nx)` of a tight `w × h` buffer.
fn write_tile(out: &mut Vec<u8>, w: usize, h: usize, bpp: usize, ty: usize, ny: usize, tx: usize, nx: usize, mean: &Vec<u8>)
    requires
        1 <= bpp <= 4,
        mean.len() == bpp,
        w * bpp <= usize::MAX,
        old(out).len() == h * (w * bpp),
        ty + ny <= h,
        tx + nx <= w,
        w > 0,
    ensures
        final(out).len() == old(out).len(),
        forall|yy: int, xx: int, c: int|
            0 <= yy < h && 0 <= xx < w && 0 <= c < bpp ==> #[trigger] final(out)@[px_index(w as int, bpp as int, yy, xx, c)]
                == if in_rect(yy, xx, ty as int, ny as int, tx as int, nx as int) {
                mean@[c]
            } else {
                old(out)@[px_index(w as int, bpp as int, yy, xx, c)]
            },
{
    let ghost o0 = out@;
    let ghost (wi, bi) = (w as int, bpp as int);
    let row_bytes = w * bpp;
    let mut i: usize = 0;
    while i < ny
        invariant
            0 <= i <= ny,
            1 <= bpp <= 4,
            wi == w,
            bi == bpp,
            mean.len() == bpp,
            row_bytes == w * bpp,
            out.len() == h * (w * bpp),
            o0.len() == h * (w * bpp),
            ty + ny <= h,
            tx + nx <= w,
            w > 0,
            forall|yy: int, xx: int, c: int|
                0 <= yy < h && 0 <= xx < w && 0 <= c < bpp ==> #[trigger] out@[px_index(wi, bi, yy, xx, c)]
                    == if in_rect(yy, xx, ty as int, i as int, tx as int, nx as int) {
                    mean@[c]
                } else {
                    o0[px_index(wi, bi, yy, xx, c)]
                },
        decreases ny - i,
    {
        let yy = ty + i;
        let mut j: usize = 0;
        while j < nx
            invariant
                0 <= j <= nx,
                0 <= i < ny,
                yy == ty + i,
                1 <= bpp <= 4,
                wi == w,
                bi == bpp,
                mean.len() == bpp,
                row_bytes == w * bpp,
                out.len() == h * (w * bpp),
                o0.len() == h * (w * bpp),
                ty + ny <= h,
                tx + nx <= w,
                w > 0,
                forall|y2: int, x2: int, c: int|
                    0 <= y2 < h && 0 <= x2 < w && 0 <= c < bpp ==> #[trigger] out@[px_index(wi, bi, y2, x2, c)]
                        == if in_rect(y2, x2, ty as int, i as int, tx as int, nx as int) || (y2 == yy && tx <= x2 < tx + j) {
                        mean@[c]
                    } else {
                        o0[px_index(wi, bi, y2, x2, c)]
                    },
            decreases nx - j,
        {
            let xx = tx + j;
            let mut c: usize = 0;
            while c < bpp
                invariant
                    0 <= c <= bpp,
                    0 <= j < nx,
                    0 <= i < ny,
                    yy == ty + i,
                    xx == tx + j,
                    1 <= bpp <= 4,
                    wi == w,
                    bi == bpp,
                    mean.len() == bpp,
                    row_bytes == w * bpp,
                    out.len() == h * (w * bpp),
                    o0.len() == h * (w * bpp),
                    ty + ny <= h,
                    tx + nx <= w,
                    w > 0,
                    forall|y2: int, x2: int, c2: int|
                        0 <= y2 < h && 0 <= x2 < w && 0 <= c2 < bpp ==> #[trigger] out@[px_index(wi, bi, y2, x2, c2)]
                            == if in_rect(y2, x2, ty as int, i as int, tx as int, nx as int) || (y2 == yy && tx <= x2 < tx + j) || (y2 == yy && x2 == xx && c2 < c) {
                            mean@[c2]
                        } else {
                            o0[px_index(wi, bi, y2, x2, c2)]
                        },
                decreases bpp - c,
            {
                proof {
                    lemma_index_in_grid(wi, h as int, bi, yy as int, xx as int, c as int);
                    assert(px_index(wi, bi, yy as int, xx as int, c as int) == yy * row_bytes + xx * bpp + c);
                }
                let k = yy * row_bytes + xx * bpp + c;
                let ghost before = out@;
                out.set(k, mean[c]);
                proof {
                    assert forall|y2: int, x2: int, c2: int|
                        0 <= y2 < h && 0 <= x2 < w && 0 <= c2 < bpp implies #[trigger] out@[px_index(wi, bi, y2, x2, c2)]
                        == if in_rect(y2, x2, ty as int, i as int, tx as int, nx as int) || (y2 == yy && tx <= x2 < tx + j) || (y2 == yy && x2 == xx && c2 < c + 1) {
                        mean@[c2]
                    } else {
                        o0[px_index(wi, bi, y2, x2, c2)]
                    } by {
                        lemma_index_in_grid(wi, h as int, bi, y2, x2, c2);
                        if px_index(wi, bi, y2, x2, c2) == k {
                            lemma_index_injective(wi, bi, y2, x2, c2, yy as int, xx as int, c as int);
                        } else {
                            assert(out@[px_index(wi, bi, y2, x2, c2)] == before[px_index(wi, bi, y2, x2, c2)]);
                        }
                    }
                }
                c = c + 1;
            }
            proof {
                assert forall|y2: int, x2: int, c2: int|
                    0 <= y2 < h && 0 <= x2 < w && 0 <= c2 < bpp implies #[trigger] out@[px_index(wi, bi, y2, x2, c2)]
                    == if in_rect(y2, x2, ty as int, i as int, tx as int, nx as int) || (y2 == yy && tx <= x2 < tx + (j + 1)) {
                    mean@[c2]
                } else {
                    o0[px_index(wi, bi, y2, x2, c2)]
                } by {}
            }
            j = j + 1;
        }
        proof {
            assert forall|y2: int, x2: int, c2: int|
                0 <= y2 < h && 0 <= x2 < w && 0 <= c2 < bpp implies #[trigger] out@[px_index(wi, bi, y2, x2, c2)]
                == if in_rect(y2, x2, ty as int, (i + 1) as int, tx as int, nx as int) {
                mean@[c2]
            } else {
                o0[px_index(wi, bi, y2, x2, c2)]
            } by {}
        }
        i = i + 1;
    }
}


/// Pixelates one plane of `w × h` pixels of `bpp` bytes into a tight
/// buffer.
pub fn pixelate_plane(src: &VideoPlane, w: usize, h: usize, bpp: usize, block: usize) -> (out: Vec<u8>)
    requires
        block <= 1 || bpp <= 4,
        pixelate_fits(src@, w as int, h as int, bpp as int, block as int),
    ensures
        grid_full(out@, w as int, h as int, bpp as int, pixelate_pixels(src@, bpp as int, w as int, h as int, block as int)),
{
    let ghost pv = src@;
    let ghost f = pixelate_pixels(pv, bpp as int, w as int, h as int, block as int);
    let row_bytes = w * bpp;
    let len = src.data.len();
    if bpp == 0 {
        let out: Vec<u8> = Vec::new();
        assert(h * (w * bpp) == 0) by (nonlinear_arith)
            requires
                bpp == 0,
        ;
        return out;
    }
    if block <= 1 {
        let mut out: Vec<u8> = Vec::new();
        proof {
            lemma_grid_start(w as int, bpp as int, f);
        }
        let mut y: usize = 0;
        while y < h
            invariant
                0 <= y <= h,
                bpp >= 1,
                block <= 1,
                pv == src@,
                len == src.data@.len(),
                pixelate_fits(pv, w as int, h as int, bpp as int, block as int),
                f == pixelate_pixels(pv, bpp as int, w as int, h as int, block as int),
                grid_upto(out@, w as int, bpp as int, y as int, 0, 0, f),
            decreases h - y,
        {
            proof {
                lemma_row_in_bounds(len as int, src.stride as int, h as int, w * bpp, y as int);
            }
            let mut x: usize = 0;
            while x < w
                invariant
                    0 <= x <= w,
                    0 <= y < h,
                    bpp >= 1,
                    block <= 1,
                    pv == src@,
                    len == src.data@.len(),
                    y * src.stride + w * bpp <= len,
                    f == pixelate_pixels(pv, bpp as int, w as int, h as int, block as int),
                    grid_upto(out@, w as int, bpp as int, y as int, x as int, 0, f),
                decreases w - x,
            {
                proof {
                    assert(x * bpp + bpp <= w * bpp) by (nonlinear_arith)
                        requires
                            x < w,
                            bpp >= 1,
                    ;
                }
                let base = y * src.stride + x * bpp;
                let mut c: usize = 0;
                while c < bpp
                    invariant
                        0 <= c <= bpp,
                        0 <= x < w,
                        0 <= y < h,
                        block <= 1,
                        pv == src@,
                        len == src.data@.len(),
                        base == y * src.stride + x * bpp,
                        base + bpp <= len,
                        f == pixelate_pixels(pv, bpp as int, w as int, h as int, block as int),
                        grid_upto(out@, w as int, bpp as int, y as int, x as int, c as int, f),
                    decreases bpp - c,
                {
                    proof {
                        assert(bpp * x == x * bpp) by (nonlinear_arith);
                        lemma_grid_push(out@, w as int, bpp as int, y as int, x as int, c as int, f);
                    }
                    out.push(src.data[base + c]);
                    c = c + 1;
                }
                proof {
                    lemma_grid_next_pixel(out@, w as int, bpp as int, y as int, x as int, f);
                }
                x = x + 1;
            }
            proof {
                lemma_grid_next_row(out@, w as int, bpp as int, y as int, f);
            }
            y = y + 1;
        }
        proof {
            lemma_grid_done(out@, w as int, h as int, bpp as int, f);
        }
        return out;
    }
    if w == 0 || h == 0 {
        let out: Vec<u8> = Vec::new();
        assert(h * (w * bpp) == 0) by (nonlinear_arith)
            requires
                w == 0 || h == 0,
        ;
        return out;
    }
    let mut out: Vec<u8> = vec![0u8; row_bytes * h];
    assert(row_bytes * h == h * (w * bpp)) by (nonlinear_arith)
        requires
            row_bytes == w * bpp,
    ;
    let ghost mut k: int = 0;
    let mut ty: usize = 0;
    while ty < h
        invariant
            1 <= bpp <= 4,
            block > 1,
            w > 0,
            h > 0,
            ty <= h,
            k >= 0,
            ty < h ==> ty == k * block,
            row_bytes == w * bpp,
            pv == src@,
            pixelate_fits(pv, w as int, h as int, bpp as int, block as int),
            f == pixelate_pixels(pv, bpp as int, w as int, h as int, block as int),
            out.len() == h * (w * bpp),
            forall|yy: int, xx: int, c: int|
                0 <= yy < h && 0 <= xx < w && 0 <= c < bpp && yy < ty ==> #[trigger] out@[px_index(w as int, bpp as int, yy, xx, c)] == f(yy, xx, c),
        decreases h - ty,
    {
        let y_end = if ty + block < h {
            ty + block
        } else {
            h
        };
        let ny = y_end - ty;
        let ghost mut m: int = 0;
        let mut tx: usize = 0;
        while tx < w
            invariant
                1 <= bpp <= 4,
                block > 1,
                w > 0,
                h > 0,
                ty == k * block,
                k >= 0,
                ty < h,
                y_end == ty + ny,
                ny == tile_len(ty as int, block as int, h as int),
                ny <= block,
                ny <= h,
                tx <= w,
                m >= 0,
                tx < w ==> tx == m * block,
                row_bytes == w * bpp,
                pv == src@,
                pixelate_fits(pv, w as int, h as int, bpp as int, block as int),
                f == pixelate_pixels(pv, bpp as int, w as int, h as int, block as int),
                out.len() == h * (w * bpp),
                forall|yy: int, xx: int, c: int|
                    0 <= yy < h && 0 <= xx < w && 0 <= c < bpp && (yy < ty || (yy < y_end && xx < tx)) ==> #[trigger] out@[px_index(w as int, bpp as int, yy, xx, c)] == f(yy, xx, c),
            decreases w - tx,
        {
            let x_end = if tx + block < w {
                tx + block
            } else {
                w
            };
            let nx = x_end - tx;
            proof {
                let mt = max_tile(w as int, h as int, block as int);
                assert(ny * nx <= mt) by (nonlinear_arith)
                    requires
                        0 <= ny <= (if block < h { block } else { h }) as int,
                        0 <= nx <= (if block < w { block } else { w }) as int,
                        mt == (if block < h { block } else { h }) as int * (if block < w { block } else { w }) as int,
                ;
                assert(ny * nx >= 1) by (nonlinear_arith)
                    requires
                        ny >= 1,
                        nx >= 1,
                ;
                lemma_tile_start(ty as int, k, block as int);
                lemma_tile_start(tx as int, m, block as int);
                assert(nx == tile_len(tx as int, block as int, w as int));
                assert(tile_fits(pv, bpp as int, w as int, h as int, block as int, ty as int, tx as int));
            }
            let sums = tile_sums(src, w, h, bpp, ty, ny, tx, nx);
            let count = (ny * nx) as u32;
            let mut mean: Vec<u8> = Vec::new();
            let mut c: usize = 0;
            while c < bpp
                invariant
                    0 <= c <= bpp,
                    1 <= bpp <= 4,
                    sums.len() == bpp,
                    count == ny * nx,
                    count >= 1,
                    forall|c2: int| 0 <= c2 < bpp ==> #[trigger] sums@[c2] + count / 2 <= u32::MAX,
                    mean.len() == c,
                    forall|c2: int| 0 <= c2 < bpp ==> #[trigger] sums@[c2] == rect_sum(pv, bpp as int, c2, w as int, h as int, ty as int, ny as int, tx as int, nx as int),
                    forall|c2: int| 0 <= c2 < c ==> #[trigger] mean@[c2] == rounded_mean(sums@[c2] as int, count as int) as u8,
                decreases bpp - c,
            {
                let m0 = (sums[c] + (count / 2) as u64) / (count as u64);
                let v: u8 = if m0 < 255 {
                    m0 as u8
                } else {
                    255
                };
                mean.push(v);
                c = c + 1;
            }
            let ghost before = out@;
            write_tile(&mut out, w, h, bpp, ty, ny, tx, nx, &mean);
            proof {
                assert forall|yy: int, xx: int, c2: int|
                    0 <= yy < h && 0 <= xx < w && 0 <= c2 < bpp && (yy < ty || (yy < y_end && xx < x_end)) implies #[trigger] out@[px_index(w as int, bpp as int, yy, xx, c2)] == f(yy, xx, c2) by {
                    if in_rect(yy, xx, ty as int, ny as int, tx as int, nx as int) {
                        lemma_tile_start(yy, k, block as int);
                        lemma_tile_start(xx, m, block as int);
                        assert(nx == tile_len(tx as int, block as int, w as int));
                    } else {
                        assert(before[px_index(w as int, bpp as int, yy, xx, c2)] == f(yy, xx, c2));
                    }
                }
                m = m + 1;
                assert(m * block == tx + block) by (nonlinear_arith)
                    requires
                        tx == (m - 1) * block,
                ;
            }
            tx = x_end;
        }
        proof {
            k = k + 1;
            assert(k * block == ty + block) by (nonlinear_arith)
                requires
                    ty == (k - 1) * block,
            ;
        }
        ty = y_end;
    }
    proof {
        assert(grid_full(out@, w as int, h as int, bpp as int, f));
    }
    out
}

/// The tile size in effect: `block`, at least 1.
pub open spec fn effective_block(block: u32) -> int {
    if block < 1 {
        1
    } else {
        block as int
    }
}

/// The frame carries the planes its layout needs: three for planar YUV,
/// one otherwise.
pub open spec fn pixelate_has_planes(f: PixelFormat, v: FrameView) -> bool {
    if is_planar_yuv(f) {
        v.planes.len() >= 3
    } else {
        v.planes.len() >= 1
    }
}

/// The frames `Pixelate::apply` works on without failing: a supported
/// layout with its planes, whose first plane holds the picture.
pub open spec fn pixelate_accepts(v: FrameView, params: VideoStreamParams, block: u32) -> bool {
    supported_format(params.format) && pixelate_has_planes(params.format, v) ==> pixelate_fits(
        v.planes[0],
        params.width as int,
        params.height as int,
        first_plane_bpp(params.format),
        effective_block(block),
    )
}

/// The error text for a frame missing its planes.
pub open spec fn pixelate_missing_plane_text(f: PixelFormat) -> Seq<char> {
    if f == PixelFormat::Gray8 {
        "oxideav-image-filter: Pixelate requires a non-empty Gray8 plane"@
    } else if is_planar_yuv(f) {
        "oxideav-image-filter: Pixelate on planar YUV requires 3 planes"@
    } else {
        "oxideav-image-filter: Pixelate requires a non-empty packed RGB plane"@
    }
}

/// `out` is the pixelated `v`: the same timestamp, the first plane's
/// pixels replaced by their rounded tile means in one tight plane, and
/// for planar YUV the two chroma planes of `v` after it.
pub open spec fn pixelated(v: FrameView, params: VideoStreamParams, block: u32, out: FrameView) -> bool {
    let bpp = first_plane_bpp(params.format);
    let w = params.width as int;
    let h = params.height as int;
    &&& out.pts == v.pts
    &&& out.planes.len() == if is_planar_yuv(params.format) {
        3int
    } else {
        1int
    }
    &&& out.planes[0].stride == w * bpp
    &&& grid_full(
        out.planes[0].data,
        w,
        h,
        bpp,
        pixelate_pixels(v.planes[0], bpp, w, h, effective_block(block)),
    )
    &&& is_planar_yuv(params.format) ==> out.planes[1] == v.planes[1] && out.planes[2] == v.planes[2]
}

/// The prefix of the error for a layout `Pixelate` does not handle.
pub open spec fn pixelate_error_prefix() -> Seq<char> {
    "oxideav-image-filter: Pixelate does not yet handle "@
}

impl Pixelate {
    /// Pixelates a frame: Gray8 / Rgb24 / Rgba come back as one tight
    /// plane, planar YUV as the pixelated luma plane followed by the
    /// input's two chroma planes.
    pub fn apply(&self, input: &VideoFrame, params: VideoStreamParams) -> (r: Result<
        VideoFrame,
        FilterError,
    >)
        requires
            pixelate_accepts(input@, params, self.block),
        ensures
            !supported_format(params.format) ==> r is Err && r->Err_0 is Unsupported && error_text(
                r->Err_0,
            ) == unsupported_text(pixelate_error_prefix(), params.format),
            supported_format(params.format) && !pixelate_has_planes(params.format, input@) ==> r is Err
                && r->Err_0 is Invalid && error_text(r->Err_0) == pixelate_missing_plane_text(
                params.format,
            ),
            supported_format(params.format) && pixelate_has_planes(params.format, input@) ==> r is Ok
                && pixelated(input@, params, self.block, r->Ok_0@),
    {
        let block: usize = if self.block < 1 {
            1
        } else {
            self.block as usize
        };
        let w = params.width as usize;
        let h = params.height as usize;
        match params.format {
            PixelFormat::Gray8 => {
                if input.planes.len() == 0 {
                    return Err(
                        invalid("oxideav-image-filter: Pixelate requires a non-empty Gray8 plane"),
                    );
                }
                let data = pixelate_plane(&input.planes[0], w, h, 1, block);
                Ok(single_plane_frame(input.pts, w, data))
            },
            PixelFormat::Rgb24 | PixelFormat::Rgba => {
                let bpp: usize = if params.format == PixelFormat::Rgb24 {
                    3
                } else {
                    4
                };
                if input.planes.len() == 0 {
                    return Err(
                        invalid(
                            "oxideav-image-filter: Pixelate requires a non-empty packed RGB plane",
                        ),
                    );
                }
                let data = pixelate_plane(&input.planes[0], w, h, bpp, block);
                Ok(single_plane_frame(input.pts, w * bpp, data))
            },
            PixelFormat::Yuv420P | PixelFormat::Yuv422P | PixelFormat::Yuv444P => {
                if input.planes.len() < 3 {
                    return Err(
                        invalid("oxideav-image-filter: Pixelate on planar YUV requires 3 planes"),
                    );
                }
                let y_data = pixelate_plane(&input.planes[0], w, h, 1, block);
                let mut planes: Vec<VideoPlane> = Vec::new();
                planes.push(VideoPlane { stride: w, data: y_data });
                planes.push(copy_plane(&input.planes[1]));
                planes.push(copy_plane(&input.planes[2]));
                Ok(VideoFrame { pts: input.pts, planes })
            },
            _ => Err(unsupported("oxideav-image-filter: Pixelate does not yet handle ", params.format)),
        }
    }
}

/// A channel that is flat over the picture stays flat: pixelating
/// never changes a channel whose every sample is `v`.
pub proof fn pixelate_keeps_flat_channel(
    p: PlaneView,
    bpp: int,
    w: int,
    h: int,
    block: int,
    c: int,
    v: u8,
    y: int,
    x: int,
)
    requires
        0 <= y < h,
        0 <= x < w,
        forall|yy: int, xx: int| 0 <= yy < h && 0 <= xx < w ==> #[trigger] plane_byte(p, yy, bpp * xx + c) == v,
    ensures
        pixelate_out(p, bpp, w, h, block, y, x, c) == v,
{
    if block > 1 {
        let ty = tile_start(y, block);
        let tx = tile_start(x, block);
        vstd::arithmetic::div_mod::lemma_fundamental_div_mod(y, block);
        vstd::arithmetic::div_mod::lemma_fundamental_div_mod(x, block);
        assert(0 <= y / block) by {
            vstd::arithmetic::div_mod::lemma_div_pos_is_pos(y, block);
        }
        assert(0 <= x / block) by {
            vstd::arithmetic::div_mod::lemma_div_pos_is_pos(x, block);
        }
        assert(0 <= ty <= y) by (nonlinear_arith)
            requires
                ty == (y / block) * block,
                y == block * (y / block) + y % block,
                0 <= y % block,
                0 <= y / block,
                block > 0,
        ;
        assert(0 <= tx <= x) by (nonlinear_arith)
            requires
                tx == (x / block) * block,
                x == block * (x / block) + x % block,
                0 <= x % block,
                0 <= x / block,
                block > 0,
        ;
        let ny = tile_len(ty, block, h);
        let nx = tile_len(tx, block, w);
        let rows = tile_row_sum(p, bpp, c, w, tx, nx);
        assert forall|q: int| 0 <= q <= h - 1 implies #[trigger] rows(q) == nx * v by {
            let g = chan_row(p, bpp, c, q);
            assert forall|xx: int| 0 <= xx <= w - 1 implies #[trigger] g(xx) == v by {}
            lemma_run_flat(g, w - 1, tx, nx as nat, v as int);
        }
        lemma_run_flat(rows, h - 1, ty, ny as nat, nx * v);
        let n = ny * nx;
        assert(ny * (nx * v) == n * v) by (nonlinear_arith)
            requires
                n == ny * nx,
        ;
        assert(n >= 1) by (nonlinear_arith)
            requires
                ny >= 1,
                nx >= 1,
                n == ny * nx,
        ;
        assert((n * v + n / 2) / n == v) by (nonlinear_arith)
            requires
                n >= 1,
                0 <= v,
        ;
    }
}

/// A run whose samples are all `v` sums to `n * v`.
proof fn lemma_run_all(g: spec_fn(int) -> int, hi: int, a: int, n: nat, v: int)
    requires
        forall|i: int| 0 <= i < n ==> #[trigger] g(clampi(a + i, hi)) == v,
    ensures
        clamped_run(g, hi, a, n) == n * v,
    decreases n,
{
    if n > 0 {
        assert(g(clampi(a + (n - 1), hi)) == v);
        lemma_run_all(g, hi, a, (n - 1) as nat, v);
        assert(((n - 1) as nat) * v + v == n * v) by (nonlinear_arith)
            requires
                n > 0,
        ;
    } else {
        assert(n * v == 0) by (nonlinear_arith)
            requires
                n == 0,
        ;
    }
}

/// The tile holding `v` starts at or before it, ends past it inside the
/// extent, and every position in it has the same tile start.
proof fn lemma_tile_of(v: int, block: int, extent: int)
    requires
        block > 1,
        0 <= v < extent,
    ensures
        0 <= tile_start(v, block) <= v,
        v < tile_start(v, block) + tile_len(tile_start(v, block), block, extent) <= extent,
        tile_len(tile_start(v, block), block, extent) <= block,
        forall|u: int|
            tile_start(v, block) <= u < tile_start(v, block) + tile_len(tile_start(v, block), block, extent)
                ==> #[trigger] tile_start(u, block) == tile_start(v, block),
{
    let t = tile_start(v, block);
    let k = v / block;
    vstd::arithmetic::div_mod::lemma_fundamental_div_mod(v, block);
    assert(0 <= k) by {
        vstd::arithmetic::div_mod::lemma_div_pos_is_pos(v, block);
    }
    assert(0 <= t <= v < t + block) by (nonlinear_arith)
        requires
            t == k * block,
            v == block * k + v % block,
            0 <= v % block < block,
            0 <= k,
            block > 0,
    ;
    let n = tile_len(t, block, extent);
    assert forall|u: int| t <= u < t + n implies #[trigger] tile_start(u, block) == t by {
        lemma_tile_start(u, k, block);
    }
}

/// Pixelating twice is pixelating once: every tile of a pixelated plane
/// is flat, and the rounded mean of a flat tile is its value. So a plane
/// `q` holding the pixelated pixels of `p` pixelates to the same pixels,
/// and any plane holding those is `q`'s bytes.
pub proof fn pixelate_twice_is_once(p: PlaneView, q: PlaneView, bpp: int, w: int, h: int, block: int)
    requires
        bpp > 0,
        w >= 0,
        h >= 0,
        q.stride == w * bpp,
        grid_full(q.data, w, h, bpp, pixelate_pixels(p, bpp, w, h, block)),
    ensures
        forall|y: int, x: int, c: int|
            0 <= y < h && 0 <= x < w && 0 <= c < bpp ==> #[trigger] pixelate_out(q, bpp, w, h, block, y, x, c)
                == pixelate_out(p, bpp, w, h, block, y, x, c),
        forall|d: Seq<u8>| #[trigger] grid_full(d, w, h, bpp, pixelate_pixels(q, bpp, w, h, block)) ==> d == q.data,
{
    assert forall|yy: int, xx: int, c: int|
        0 <= yy < h && 0 <= xx < w && 0 <= c < bpp implies #[trigger] plane_byte(q, yy, bpp * xx + c)
            == pixelate_out(p, bpp, w, h, block, yy, xx, c) by {
        assert(yy * q.stride + (bpp * xx + c) == px_index(w, bpp, yy, xx, c)) by (nonlinear_arith)
            requires
                q.stride == w * bpp,
        ;
    }
    assert forall|y: int, x: int, c: int|
        0 <= y < h && 0 <= x < w && 0 <= c < bpp implies #[trigger] pixelate_out(q, bpp, w, h, block, y, x, c)
            == pixelate_out(p, bpp, w, h, block, y, x, c) by {
        if block > 1 {
            lemma_tile_of(y, block, h);
            lemma_tile_of(x, block, w);
            let ty = tile_start(y, block);
            let tx = tile_start(x, block);
            let ny = tile_len(ty, block, h);
            let nx = tile_len(tx, block, w);
            let m = pixelate_out(p, bpp, w, h, block, y, x, c) as int;
            let rows = tile_row_sum(q, bpp, c, w, tx, nx);
            assert forall|i: int| 0 <= i < ny implies #[trigger] rows(clampi(ty + i, h - 1)) == nx * m by {
                let yy = ty + i;
                assert(clampi(yy, h - 1) == yy);
                assert(tile_start(yy, block) == ty);
                let g = chan_row(q, bpp, c, yy);
                assert forall|j: int| 0 <= j < nx implies #[trigger] g(clampi(tx + j, w - 1)) == m by {
                    let xx = tx + j;
                    assert(clampi(xx, w - 1) == xx);
                    assert(tile_start(xx, block) == tx);
                    assert(plane_byte(q, yy, bpp * xx + c) == pixelate_out(p, bpp, w, h, block, yy, xx, c));
                }
                lemma_run_all(g, w - 1, tx, nx as nat, m);
            }
            lemma_run_all(rows, h - 1, ty, ny as nat, nx * m);
            let n = ny * nx;
            assert(ny * (nx * m) == n * m) by (nonlinear_arith)
                requires
                    n == ny * nx,
            ;
            assert(n >= 1) by (nonlinear_arith)
                requires
                    ny >= 1,
                    nx >= 1,
                    n == ny * nx,
            ;
            assert(0 <= m <= 255);
            assert((n * m + n / 2) / n == m) by (nonlinear_arith)
                requires
                    n >= 1,
                    0 <= m,
            ;
        }
    }
    assert forall|d: Seq<u8>| #[trigger] grid_full(d, w, h, bpp, pixelate_pixels(q, bpp, w, h, block)) implies d
        == q.data by {
        assert forall|y: int, x: int, c: int|
            0 <= y < h && 0 <= x < w && 0 <= c < bpp implies #[trigger] d[px_index(w, bpp, y, x, c)]
                == pixelate_pixels(p, bpp, w, h, block)(y, x, c) by {
            assert(pixelate_out(q, bpp, w, h, block, y, x, c) == pixelate_out(p, bpp, w, h, block, y, x, c));
        }
        assert(grid_full(d, w, h, bpp, pixelate_pixels(p, bpp, w, h, block)));
        lemma_grid_full_unique(d, q.data, w, h, bpp, pixelate_pixels(p, bpp, w, h, block));
    }
}

/// A tile of bytes sums to at most `255` per pixel.
proof fn lemma_rect_sum_bound(p: PlaneView, bpp: int, c: int, w: int, h: int, ty: int, ny: int, tx: int, nx: int)
    requires
        ny >= 0,
        nx >= 0,
    ensures
        0 <= rect_sum(p, bpp, c, w, h, ty, ny, tx, nx) <= 255 * (ny * nx),
{
    let rows = tile_row_sum(p, bpp, c, w, tx, nx);
    assert forall|i: int| 0 <= i < ny implies -(nx * 255) <= #[trigger] rows(clampi(ty + i, h - 1)) <= nx
        * 255 by {
        let g = chan_row(p, bpp, c, clampi(ty + i, h - 1));
        assert forall|j: int| 0 <= j < nx implies -255 <= #[trigger] g(clampi(tx + j, w - 1)) <= 255 by {}
        lemma_run_bound(g, w - 1, tx, nx as nat, 255);
    }
    lemma_run_bound(rows, h - 1, ty, ny as nat, nx * 255);
    assert forall|q: int| 0 <= #[trigger] rows(q) by {
        lemma_run_nonneg(chan_row(p, bpp, c, q), w - 1, tx, nx as nat);
    }
    lemma_run_nonneg(rows, h - 1, ty, ny as nat);
    assert(ny * (nx * 255) == 255 * (ny * nx)) by (nonlinear_arith);
}

impl Pixelate {
    /// Whether every tile's channel sums, with half the tile's pixel
    /// count added for rounding, fit the `u32` sums `apply` keeps:
    /// checked tile by tile in wide sums, stopping at the first that does
    /// not fit. Always true when the block is 1 (nothing is summed).
    pub fn tiles_fit_in(&self, input: &VideoFrame, params: VideoStreamParams) -> (ok: bool)
        requires
            supported_format(params.format),
            pixelate_has_planes(params.format, input@),
            pixelate_layout_fits(
                input@.planes[0],
                params.width as int,
                params.height as int,
                first_plane_bpp(params.format),
                effective_block(self.block),
            ),
        ensures
            ok == (effective_block(self.block) > 1 ==> tiles_fit(
                input@.planes[0],
                first_plane_bpp(params.format),
                params.width as int,
                params.height as int,
                effective_block(self.block),
            )),
    {
        let bpp: usize = match params.format {
            PixelFormat::Rgb24 => 3,
            PixelFormat::Rgba => 4,
            _ => 1,
        };
        let block: usize = if self.block < 1 {
            1
        } else {
            self.block as usize
        };
        let w = params.width as usize;
        let h = params.height as usize;
        if block <= 1 || w == 0 || h == 0 {
            return true;
        }
        let src = &input.planes[0];
        let ghost pv = src@;
        let ghost (bi, wi, hi, blk) = (bpp as int, w as int, h as int, block as int);
        assert(input@.planes[0] == pv);
        let ghost mut k: int = 0;
        let mut ty: usize = 0;
        while ty < h
            invariant
                1 <= bpp <= 4,
                bi == bpp && wi == w && hi == h && blk == block,
                w == params.width && h == params.height,
                bpp == first_plane_bpp(params.format),
                block > 1,
                block == effective_block(self.block),
                w > 0,
                h > 0,
                ty <= h,
                k >= 0,
                ty < h ==> ty == k * block,
                pv == src@,
                input@.planes[0] == pv,
                pixelate_layout_fits(pv, wi, hi, bi, blk),
                forall|yy: int, xx: int|
                    0 <= yy < h && 0 <= xx < w && yy < ty ==> #[trigger] tile_fits(pv, bi, wi, hi, blk, yy, xx),
            decreases h - ty,
        {
            let y_end = if ty + block < h {
                ty + block
            } else {
                h
            };
            let ny = y_end - ty;
            let ghost mut m: int = 0;
            let mut tx: usize = 0;
            while tx < w
                invariant
                    1 <= bpp <= 4,
                    bi == bpp && wi == w && hi == h && blk == block,
                    w == params.width && h == params.height,
                    bpp == first_plane_bpp(params.format),
                    block > 1,
                    block == effective_block(self.block),
                    w > 0,
                    h > 0,
                    ty == k * block,
                    k >= 0,
                    ty < h,
                    y_end == ty + ny,
                    ny == tile_len(ty as int, blk, hi),
                    ny <= block,
                    ny <= h,
                    tx <= w,
                    m >= 0,
                    tx < w ==> tx == m * block,
                    pv == src@,
                    input@.planes[0] == pv,
                    pixelate_layout_fits(pv, wi, hi, bi, blk),
                    forall|yy: int, xx: int|
                        0 <= yy < h && 0 <= xx < w && (yy < ty || (yy < y_end && xx < tx)) ==> #[trigger] tile_fits(pv, bi, wi, hi, blk, yy, xx),
                decreases w - tx,
            {
                let x_end = if tx + block < w {
                    tx + block
                } else {
                    w
                };
                let nx = x_end - tx;
                proof {
                    let mt = max_tile(wi, hi, blk);
                    assert(ny * nx <= mt) by (nonlinear_arith)
                        requires
                            0 <= ny <= (if blk < hi { blk } else { hi }),
                            0 <= nx <= (if blk < wi { blk } else { wi }),
                            mt == (if blk < hi { blk } else { hi }) * (if blk < wi { blk } else { wi }),
                    ;
                    lemma_tile_start(ty as int, k, blk);
                    lemma_tile_start(tx as int, m, blk);
                    assert(nx == tile_len(tx as int, blk, wi));
                    assert forall|c: int| 0 <= c < bpp implies #[trigger] rect_sum(pv, bi, c, wi, hi, ty as int, ny as int, tx as int, nx as int)
                        <= u64::MAX by {
                        lemma_rect_sum_bound(pv, bi, c, wi, hi, ty as int, ny as int, tx as int, nx as int);
                    }
                }
                let sums = tile_sums(src, w, h, bpp, ty, ny, tx, nx);
                proof {
                    assert forall|c2: int| 0 <= c2 < bpp implies #[trigger] sums@[c2] <= 255 * (ny * nx) by {
                        lemma_rect_sum_bound(pv, bi, c2, wi, hi, ty as int, ny as int, tx as int, nx as int);
                    }
                }
                let half: u64 = ((ny * nx) / 2) as u64;
                let mut c: usize = 0;
                while c < bpp
                    invariant
                        0 <= c <= bpp,
                        1 <= bpp <= 4,
                        sums.len() == bpp,
                        half == (ny * nx) / 2,
                        forall|c2: int| 0 <= c2 < bpp ==> #[trigger] sums@[c2] == rect_sum(pv, bi, c2, wi, hi, ty as int, ny as int, tx as int, nx as int),
                        forall|c2: int| 0 <= c2 < bpp ==> #[trigger] sums@[c2] <= 255 * (ny * nx),
                        ny * nx <= u32::MAX,
                        forall|c2: int| 0 <= c2 < c ==> #[trigger] sums@[c2] + half <= u32::MAX,
                        bi == bpp && wi == w && hi == h && blk == block,
                        w == params.width && h == params.height,
                        bpp == first_plane_bpp(params.format),
                        pv == src@,
                        input@.planes[0] == pv,
                        block == effective_block(self.block),
                        block > 1,
                        0 <= ty < h && 0 <= tx < w,
                        tile_start(ty as int, blk) == ty && tile_start(tx as int, blk) == tx,
                        tile_len(ty as int, blk, hi) == ny && tile_len(tx as int, blk, wi) == nx,
                    decreases bpp - c,
                {
                    if sums[c] + half > 0xffff_ffff {
                        proof {
                            assert(rect_sum(pv, bi, c as int, wi, hi, ty as int, ny as int, tx as int, nx as int) + (ny * nx) / 2 > u32::MAX);
                            assert(!tile_fits(pv, bi, wi, hi, blk, ty as int, tx as int));
                            if effective_block(self.block) > 1 && tiles_fit(pv, bi, wi, hi, blk) {
                                assert(tile_fits(pv, bi, wi, hi, blk, ty as int, tx as int));
                            }
                        }
                        return false;
                    }
                    c = c + 1;
                }
                proof {
                    assert forall|yy: int, xx: int|
                        0 <= yy < h && 0 <= xx < w && (yy < ty || (yy < y_end && xx < x_end)) implies #[trigger] tile_fits(pv, bi, wi, hi, blk, yy, xx) by {
                        if ty <= yy < y_end && tx <= xx < x_end {
                            lemma_tile_start(yy, k, blk);
                            lemma_tile_start(xx, m, blk);
                            assert forall|c2: int| 0 <= c2 < bi implies #[trigger] rect_sum(pv, bi, c2, wi, hi, ty as int, ny as int, tx as int, nx as int)
                                + (ny * nx) / 2 <= u32::MAX by {
                                assert(sums@[c2] + half <= u32::MAX);
                            }
                        }
                    }
                    m = m + 1;
                    assert(m * blk == tx + blk) by (nonlinear_arith)
                        requires
                            tx == (m - 1) * blk,
                    ;
                }
                tx = x_end;
            }
            proof {
                k = k + 1;
                assert(k * blk == ty + blk) by (nonlinear_arith)
                    requires
                        ty == (k - 1) * blk,
                ;
            }
            ty = y_end;
        }
        true
    }
}

/// Each output sample is the rounded mean of its tile: with `n` the
/// tile's pixel count and `s` the tile's sum of that channel, the output
/// `m` has `n · m <= s + n / 2 < n · (m + 1)`. A block of 1 copies the
/// sample.
pub proof fn pixelate_is_rounded_tile_mean(p: PlaneView, bpp: int, w: int, h: int, block: int, y: int, x: int, c: int)
    requires
        0 <= y < h,
        0 <= x < w,
    ensures
        block <= 1 ==> pixelate_out(p, bpp, w, h, block, y, x, c) == plane_byte(p, y, bpp * x + c),
        block > 1 ==> ({
            let ty = tile_start(y, block);
            let tx = tile_start(x, block);
            let ny = tile_len(ty, block, h);
            let nx = tile_len(tx, block, w);
            let n = ny * nx;
            let s = rect_sum(p, bpp, c, w, h, ty, ny, tx, nx);
            let m = pixelate_out(p, bpp, w, h, block, y, x, c) as int;
            &&& 1 <= n
            &&& ty <= y < ty + ny
            &&& tx <= x < tx + nx
            &&& n * m <= s + n / 2 < n * (m + 1)
        }),
{
    if block > 1 {
        lemma_tile_of(y, block, h);
        lemma_tile_of(x, block, w);
        let ty = tile_start(y, block);
        let tx = tile_start(x, block);
        let ny = tile_len(ty, block, h);
        let nx = tile_len(tx, block, w);
        let n = ny * nx;
        let s = rect_sum(p, bpp, c, w, h, ty, ny, tx, nx);
        lemma_rect_sum_bound(p, bpp, c, w, h, ty, ny, tx, nx);
        assert(n >= 1) by (nonlinear_arith)
            requires
                ny >= 1,
                nx >= 1,
                n == ny * nx,
        ;
        let m0 = (s + n / 2) / n;
        assert(n * m0 <= s + n / 2 < n * (m0 + 1) && 0 <= m0 <= 255) by (nonlinear_arith)
            requires
                m0 == (s + n / 2) / n,
                n >= 1,
                0 <= s <= 255 * n,
        ;
    }
}

/// A pixelated frame is accepted again: its plane is tight, and a tile
/// of bytes sums to at most `255` per pixel, so when a tile of 255s
/// still fits the tally every tile of it does.
pub proof fn pixelated_frame_is_accepted_again(
    v: FrameView,
    params: VideoStreamParams,
    block: u32,
    out: FrameView,
)
    requires
        supported_format(params.format),
        pixelate_has_planes(params.format, v),
        pixelate_accepts(v, params, block),
        pixelated(v, params, block, out),
        effective_block(block) > 1 ==> 255 * max_tile(
            params.width as int,
            params.height as int,
            effective_block(block),
        ) + max_tile(params.width as int, params.height as int, effective_block(block)) / 2
            <= u32::MAX,
    ensures
        pixelate_has_planes(params.format, out),
        pixelate_accepts(out, params, block),
{
    let bpp = first_plane_bpp(params.format);
    let w = params.width as int;
    let h = params.height as int;
    let eb = effective_block(block);
    let q = out.planes[0];
    assert((h - 1) * (w * bpp) + w * bpp == h * (w * bpp)) by (nonlinear_arith);
    if eb > 1 {
        let mt = max_tile(w, h, eb);
        assert forall|y: int, x: int| 0 <= y < h && 0 <= x < w implies #[trigger] tile_fits(q, bpp, w, h, eb, y, x) by {
            lemma_tile_of(y, eb, h);
            lemma_tile_of(x, eb, w);
            let ty = tile_start(y, eb);
            let tx = tile_start(x, eb);
            let ny = tile_len(ty, eb, h);
            let nx = tile_len(tx, eb, w);
            let n = ny * nx;
            assert(0 <= n <= mt) by (nonlinear_arith)
                requires
                    1 <= ny <= (if eb < h { eb } else { h }),
                    1 <= nx <= (if eb < w { eb } else { w }),
                    n == ny * nx,
                    mt == (if eb < h { eb } else { h }) * (if eb < w { eb } else { w }),
            ;
            assert forall|c: int| 0 <= c < bpp implies #[trigger] rect_sum(q, bpp, c, w, h, ty, ny, tx, nx) + n / 2
                <= u32::MAX by {
                lemma_rect_sum_bound(q, bpp, c, w, h, ty, ny, tx, nx);
                assert(255 * n + n / 2 <= 255 * mt + mt / 2) by (nonlinear_arith)
                    requires
                        0 <= n <= mt,
                ;
            }
        }
    }
}

/// Pixelating a frame twice gives the frame pixelated once: each tile of
/// the first result is flat, and a flat tile's rounded mean is its value.
pub proof fn pixelate_frame_twice_is_once(
    v: FrameView,
    params: VideoStreamParams,
    block: u32,
    once: FrameView,
    twice: FrameView,
)
    requires
        supported_format(params.format),
        pixelate_has_planes(params.format, v),
        pixelated(v, params, block, once),
        pixelated(once, params, block, twice),
    ensures
        twice == once,
{
    let bpp = first_plane_bpp(params.format);
    let w = params.width as int;
    let h = params.height as int;
    let eb = effective_block(block);
    pixelate_twice_is_once(v.planes[0], once.planes[0], bpp, w, h, eb);
    assert(twice.planes[0].data == once.planes[0].data);
    assert(twice.planes[0] == once.planes[0]);
    assert(twice.planes =~= once.planes);
}

} // verus!
