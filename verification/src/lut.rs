//! 256-entry byte lookup tables applied to planes.
//!
//! Two shapes: in place over the visible rows of a plane (the walk of
//! [`map_rows`](crate::rowmap::map_rows)), or into a fresh tight buffer
//! with one table per channel.

use vstd::prelude::*;
use crate::frame::{lemma_row_in_bounds, rows_fit, PlaneView, VideoPlane};
use crate::grid::{
    grid_full, grid_upto, lemma_grid_done, lemma_grid_next_pixel, lemma_grid_next_row,
    lemma_grid_push, lemma_grid_start,
};
use crate::luma::plane_byte;
use crate::rowmap::{cover, iterate, lemma_map_rows_count, map_row, map_rows};

verus! {

/// The byte map a table stands for.
pub open spec fn table_fn(t: Seq<u8>) -> spec_fn(u8) -> u8 {
    |v: u8| t[v as int]
}

/// The identity table.
pub open spec fn identity_table() -> Seq<u8> {
    Seq::new(256, |i: int| i as u8)
}

/// Builds the identity table.
pub fn make_identity_table() -> (t: Vec<u8>)
    ensures
        t@ == identity_table(),
{
    let mut t: Vec<u8> = Vec::new();
    let mut i: usize = 0;
    while i < 256
        invariant
            0 <= i <= 256,
            t@.len() == i,
            forall|j: int| 0 <= j < i ==> #[trigger] t@[j] == j as u8,
        decreases 256 - i,
    {
        t.push(i as u8);
        i = i + 1;
    }
    assert(t@ =~= identity_table());
    t
}

/// Rewrites, in place through `lut`, the selected channel bytes of the
/// first `rows` rows of `data`, walking the rows in order.
pub fn lut_rows(
    data: &mut Vec<u8>,
    stride: usize,
    rows: usize,
    row_bytes: usize,
    bpp: usize,
    nch: usize,
    lut: &Vec<u8>,
)
    requires
        bpp > 0,
        lut.len() == 256,
        rows_fit(old(data)@.len() as int, stride as int, rows as int, row_bytes as int),
    ensures
        final(data)@ == map_rows(
            old(data)@,
            stride as int,
            rows as int,
            row_bytes as int,
            bpp as int,
            nch as int,
            table_fn(lut@),
        ),
{
    let ghost d0 = data@;
    let ghost f = table_fn(lut@);
    let len = data.len();
    let mut y: usize = 0;
    while y < rows
        invariant
            0 <= y <= rows,
            bpp > 0,
            lut.len() == 256,
            f == table_fn(lut@),
            data@.len() == d0.len(),
            d0.len() == len,
            rows_fit(d0.len() as int, stride as int, rows as int, row_bytes as int),
            data@ == map_rows(d0, stride as int, y as int, row_bytes as int, bpp as int, nch as int, f),
        decreases rows - y,
    {
        proof {
            lemma_row_in_bounds(d0.len() as int, stride as int, rows as int, row_bytes as int, y as int);
        }
        let start = y * stride;
        let ghost m = data@;
        let mut j: usize = 0;
        while j < row_bytes
            invariant
                0 <= j <= row_bytes,
                bpp > 0,
                lut.len() == 256,
                f == table_fn(lut@),
                start == y * stride,
                start + row_bytes <= d0.len(),
                d0.len() == len,
                m.len() == d0.len(),
                data@ == map_row(m, start as int, j as int, bpp as int, nch as int, f),
            decreases row_bytes - j,
        {
            let k = start + j;
            if j % bpp < nch {
                let v = data[k];
                data.set(k, lut[v as usize]);
            }
            assert(data@ =~= map_row(m, start as int, (j + 1) as int, bpp as int, nch as int, f));
            j = j + 1;
        }
        y = y + 1;
        assert(map_rows(d0, stride as int, y as int, row_bytes as int, bpp as int, nch as int, f)
            == map_row(m, ((y - 1) * stride) as int, row_bytes as int, bpp as int, nch as int, f));
    }
}

/// A map that fixes every byte, applied any number of times, fixes it.
proof fn lemma_iterate_fixed(f: spec_fn(u8) -> u8, n: nat, v: u8)
    requires
        forall|x: u8| #[trigger] f(x) == x,
    ensures
        iterate(f, n, v) == v,
    decreases n,
{
    if n > 0 {
        lemma_iterate_fixed(f, (n - 1) as nat, v);
    }
}

/// A walk with a map that fixes every byte leaves the bytes unchanged.
pub proof fn lemma_map_rows_fixed(
    d: Seq<u8>,
    stride: int,
    rows: int,
    row_bytes: int,
    bpp: int,
    nch: int,
    f: spec_fn(u8) -> u8,
)
    requires
        forall|x: u8| #[trigger] f(x) == x,
    ensures
        map_rows(d, stride, rows, row_bytes, bpp, nch, f) == d,
{
    let out = map_rows(d, stride, rows, row_bytes, bpp, nch, f);
    lemma_map_rows_count(d, stride, rows, row_bytes, bpp, nch, f);
    assert forall|k: int| 0 <= k < d.len() implies out[k] == d[k] by {
        lemma_iterate_fixed(f, cover(k, stride, rows, row_bytes, bpp, nch), d[k]);
    }
    assert(out =~= d);
}

/// Channel `c` of pixel `(y, x)` sent through the table of its channel.
pub open spec fn through_tables(p: PlaneView, bpp: int, tables: Seq<Seq<u8>>) -> spec_fn(
    int,
    int,
    int,
) -> u8 {
    |y: int, x: int, c: int| tables[c][plane_byte(p, y, bpp * x + c) as int]
}

/// The tables of a table list.
pub open spec fn table_views(luts: Seq<Vec<u8>>) -> Seq<Seq<u8>> {
    luts.map_values(|t: Vec<u8>| t@)
}

/// Sends the first `h` rows of `w` pixels of `src` through one table
/// per channel into a tight buffer.
pub fn map_through_tables(src: &VideoPlane, w: usize, h: usize, bpp: usize, luts: &Vec<Vec<u8>>) -> (out:
    Vec<u8>)
    requires
        bpp >= 1,
        luts.len() == bpp,
        forall|c: int| 0 <= c < bpp ==> (#[trigger] luts@[c]).len() == 256,
        rows_fit(src.data@.len() as int, src.stride as int, h as int, w * bpp),
        h * (w * bpp) <= usize::MAX,
    ensures
        grid_full(out@, w as int, h as int, bpp as int, through_tables(src@, bpp as int, table_views(luts@))),
{
    let ghost f = through_tables(src@, bpp as int, table_views(luts@));
    let len = src.data.len();
    let mut out: Vec<u8> = Vec::new();
    if w == 0 {
        assert(h * (w * bpp) == 0) by (nonlinear_arith)
            requires
                w == 0,
        ;
        return out;
    }
    proof {
        lemma_grid_start(w as int, bpp as int, f);
    }
    let mut y: usize = 0;
    while y < h
        invariant
            0 <= y <= h,
            w > 0,
            bpp >= 1,
            luts.len() == bpp,
            forall|c: int| 0 <= c < bpp ==> (#[trigger] luts@[c]).len() == 256,
            len == src.data@.len(),
            rows_fit(src.data@.len() as int, src.stride as int, h as int, w * bpp),
            f == through_tables(src@, bpp as int, table_views(luts@)),
            grid_upto(out@, w as int, bpp as int, y as int, 0, 0, f),
        decreases h - y,
    {
        proof {
            lemma_row_in_bounds(len as int, src.stride as int, h as int, w * bpp, y as int);
        }
        let mut x: usize = 0;
        while x < w
            invariant
                0 <= x <= w,
                0 <= y < h,
                bpp >= 1,
                luts.len() == bpp,
                forall|c: int| 0 <= c < bpp ==> (#[trigger] luts@[c]).len() == 256,
                len == src.data@.len(),
                y * src.stride + w * bpp <= len,
                f == through_tables(src@, bpp as int, table_views(luts@)),
                grid_upto(out@, w as int, bpp as int, y as int, x as int, 0, f),
            decreases w - x,
        {
            proof {
                assert(x * bpp + bpp <= w * bpp) by (nonlinear_arith)
                    requires
                        x < w,
                        bpp >= 1,
                ;
            }
            let base = y * src.stride + x * bpp;
            let mut c: usize = 0;
            while c < bpp
                invariant
                    0 <= c <= bpp,
                    0 <= x < w,
                    0 <= y < h,
                    luts.len() == bpp,
                    forall|c2: int| 0 <= c2 < bpp ==> (#[trigger] luts@[c2]).len() == 256,
                    len == src.data@.len(),
                    base == y * src.stride + x * bpp,
                    base + bpp <= len,
                    f == through_tables(src@, bpp as int, table_views(luts@)),
                    grid_upto(out@, w as int, bpp as int, y as int, x as int, c as int, f),
                decreases bpp - c,
            {
                proof {
                    assert(bpp * x == x * bpp) by (nonlinear_arith);
                    lemma_grid_push(out@, w as int, bpp as int, y as int, x as int, c as int, f);
                }
                let v = src.data[base + c];
                let t = &luts[c];
                out.push(t[v as usize]);
                c = c + 1;
            }
            proof {
                lemma_grid_next_pixel(out@, w as int, bpp as int, y as int, x as int, f);
            }
            x = x + 1;
        }
        proof {
            lemma_grid_next_row(out@, w as int, bpp as int, y as int, f);
        }
        y = y + 1;
    }
    proof {
        lemma_grid_done(out@, w as int, h as int, bpp as int, f);
    }
    out
}

} // verus!
