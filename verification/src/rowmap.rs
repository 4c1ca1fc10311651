//! In-place per-byte maps over the visible rows of a plane.
//!
//! A plane holds `rows` rows of `row_bytes` visible bytes, `stride`
//! bytes apart. An in-place filter walks the rows top to bottom and,
//! inside each row, rewrites every byte whose channel index
//! (`offset % bpp`) is below `nch` through a byte map `f`.
//! [`map_rows`] states that walk exactly, whatever the stride;
//! [`lemma_map_rows_pointwise`] gives the per-pixel reading when rows
//! do not overlap (`stride >= row_bytes`).

use vstd::prelude::*;

verus! {

/// Byte `k` is a rewritten channel byte of the row starting at `start`.
pub open spec fn in_row(k: int, start: int, row_bytes: int, bpp: int, nch: int) -> bool {
    start <= k < start + row_bytes && (k - start) % bpp < nch
}

/// One row of the walk.
pub open spec fn map_row(
    d: Seq<u8>,
    start: int,
    row_bytes: int,
    bpp: int,
    nch: int,
    f: spec_fn(u8) -> u8,
) -> Seq<u8> {
    Seq::new(
        d.len(),
        |k: int|
            if in_row(k, start, row_bytes, bpp, nch) {
                f(d[k])
            } else {
                d[k]
            },
    )
}

/// The first `rows` rows of the walk, in order.
pub open spec fn map_rows(
    d: Seq<u8>,
    stride: int,
    rows: int,
    row_bytes: int,
    bpp: int,
    nch: int,
    f: spec_fn(u8) -> u8,
) -> Seq<u8>
    decreases rows,
{
    if rows <= 0 {
        d
    } else {
        map_row(
            map_rows(d, stride, rows - 1, row_bytes, bpp, nch, f),
            (rows - 1) * stride,
            row_bytes,
            bpp,
            nch,
            f,
        )
    }
}

/// How many of the first `rows` rows rewrite byte `k`.
pub open spec fn cover(k: int, stride: int, rows: int, row_bytes: int, bpp: int, nch: int) -> nat
    decreases rows,
{
    if rows <= 0 {
        0
    } else {
        cover(k, stride, rows - 1, row_bytes, bpp, nch) + if in_row(
            k,
            (rows - 1) * stride,
            row_bytes,
            bpp,
            nch,
        ) {
            1nat
        } else {
            0nat
        }
    }
}

/// `f` applied `n` times.
pub open spec fn iterate(f: spec_fn(u8) -> u8, n: nat, v: u8) -> u8
    decreases n,
{
    if n == 0 {
        v
    } else {
        f(iterate(f, (n - 1) as nat, v))
    }
}

/// The walk applies `f` to each byte as many times as rows cover it.
pub proof fn lemma_map_rows_count(
    d: Seq<u8>,
    stride: int,
    rows: int,
    row_bytes: int,
    bpp: int,
    nch: int,
    f: spec_fn(u8) -> u8,
)
    ensures
        map_rows(d, stride, rows, row_bytes, bpp, nch, f).len() == d.len(),
        forall|k: int|
            0 <= k < d.len() ==> #[trigger] map_rows(d, stride, rows, row_bytes, bpp, nch, f)[k]
                == iterate(f, cover(k, stride, rows, row_bytes, bpp, nch), d[k]),
    decreases rows,
{
    if rows > 0 {
        lemma_map_rows_count(d, stride, rows - 1, row_bytes, bpp, nch, f);
    }
}

/// An involution applied an even number of times is the identity, an
/// odd number of times is one application.
pub proof fn lemma_iterate_involution(f: spec_fn(u8) -> u8, n: nat, v: u8)
    requires
        forall|x: u8| #[trigger] f(f(x)) == x,
    ensures
        iterate(f, n, v) == if n % 2 == 0 {
            v
        } else {
            f(v)
        },
    decreases n,
{
    if n > 0 {
        lemma_iterate_involution(f, (n - 1) as nat, v);
    }
}

/// Walking twice with an involution restores the bytes.
pub proof fn lemma_map_rows_twice(
    d: Seq<u8>,
    stride: int,
    rows: int,
    row_bytes: int,
    bpp: int,
    nch: int,
    f: spec_fn(u8) -> u8,
)
    requires
        forall|x: u8| #[trigger] f(f(x)) == x,
    ensures
        map_rows(
            map_rows(d, stride, rows, row_bytes, bpp, nch, f),
            stride,
            rows,
            row_bytes,
            bpp,
            nch,
            f,
        ) == d,
{
    let once = map_rows(d, stride, rows, row_bytes, bpp, nch, f);
    let twice = map_rows(once, stride, rows, row_bytes, bpp, nch, f);
    lemma_map_rows_count(d, stride, rows, row_bytes, bpp, nch, f);
    lemma_map_rows_count(once, stride, rows, row_bytes, bpp, nch, f);
    assert forall|k: int| 0 <= k < d.len() implies twice[k] == d[k] by {
        let c = cover(k, stride, rows, row_bytes, bpp, nch);
        lemma_iterate_involution(f, c, d[k]);
        lemma_iterate_involution(f, c, once[k]);
    }
    assert(twice =~= d);
}

/// With non-overlapping rows, a byte of row `y` at offset `j` is
/// covered once when its channel is rewritten and never otherwise.
pub proof fn lemma_cover_single(
    stride: int,
    rows: int,
    row_bytes: int,
    bpp: int,
    nch: int,
    y: int,
    j: int,
)
    requires
        0 <= row_bytes <= stride,
        0 <= j < row_bytes,
        0 <= y,
    ensures
        cover(y * stride + j, stride, rows, row_bytes, bpp, nch) == if y < rows && j % bpp < nch {
            1nat
        } else {
            0nat
        },
    decreases rows,
{
    if rows > 0 {
        lemma_cover_single(stride, rows - 1, row_bytes, bpp, nch, y, j);
        let r = rows - 1;
        let k = y * stride + j;
        if r < y {
            assert((r + 1) * stride <= y * stride) by (nonlinear_arith)
                requires
                    r + 1 <= y,
                    stride >= 0,
            ;
            assert(r * stride + stride == (r + 1) * stride) by (nonlinear_arith);
        } else if r > y {
            assert((y + 1) * stride <= r * stride) by (nonlinear_arith)
                requires
                    y + 1 <= r,
                    stride >= 0,
            ;
            assert(y * stride + stride == (y + 1) * stride) by (nonlinear_arith);
        } else {
            assert(k - r * stride == j);
        }
    }
}

/// With non-overlapping rows, every visible byte is rewritten exactly
/// once when its channel is selected, and left alone otherwise.
pub proof fn lemma_map_rows_pointwise(
    d: Seq<u8>,
    stride: int,
    rows: int,
    row_bytes: int,
    bpp: int,
    nch: int,
    f: spec_fn(u8) -> u8,
    y: int,
    j: int,
)
    requires
        0 <= row_bytes <= stride,
        0 <= y < rows,
        0 <= j < row_bytes,
        y * stride + j < d.len(),
    ensures
        map_rows(d, stride, rows, row_bytes, bpp, nch, f)[y * stride + j] == if j % bpp < nch {
            f(d[y * stride + j])
        } else {
            d[y * stride + j]
        },
{
    assert(0 <= y * stride) by (nonlinear_arith)
        requires
            0 <= y,
            0 <= stride,
    ;
    lemma_map_rows_count(d, stride, rows, row_bytes, bpp, nch, f);
    lemma_cover_single(stride, rows, row_bytes, bpp, nch, y, j);
    let k = y * stride + j;
    if j % bpp < nch {
        assert(iterate(f, 1, d[k]) == f(iterate(f, 0, d[k])));
    }
}

} // verus!
