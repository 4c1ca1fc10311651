//! Row-major packed pixel buffers filled in scan order.
//!
//! A tight buffer of `w` pixels per row and `bpp` bytes per pixel keeps
//! channel `c` of pixel `(y, x)` at [`px_index`]. Filters that emit
//! their output pixel by pixel, channel by channel, keep [`grid_upto`]
//! as the loop invariant: every byte before the current position holds
//! its value.

use vstd::prelude::*;

verus! {

/// Position of channel `c` of pixel `(y, x)`.
pub open spec fn px_index(w: int, bpp: int, y: int, x: int, c: int) -> int {
    y * (w * bpp) + x * bpp + c
}

/// `(yy, xx, cc)` comes before `(y, x, c)` in scan order.
pub open spec fn before(yy: int, xx: int, cc: int, y: int, x: int, c: int) -> bool {
    yy < y || (yy == y && (xx < x || (xx == x && cc < c)))
}

/// `out` holds, in scan order, the values `f(yy, xx, cc)` of every
/// position before `(y, x, c)`.
pub open spec fn grid_upto(
    out: Seq<u8>,
    w: int,
    bpp: int,
    y: int,
    x: int,
    c: int,
    f: spec_fn(int, int, int) -> u8,
) -> bool {
    &&& out.len() == px_index(w, bpp, y, x, c)
    &&& forall|yy: int, xx: int, cc: int|
        0 <= yy && 0 <= xx < w && 0 <= cc < bpp && before(yy, xx, cc, y, x, c) ==> #[trigger] out[px_index(
            w,
            bpp,
            yy,
            xx,
            cc,
        )] == f(yy, xx, cc)
}

/// Positions before `(y, x, c)` come earlier in the buffer.
pub proof fn lemma_index_before(w: int, bpp: int, yy: int, xx: int, cc: int, y: int, x: int, c: int)
    requires
        w > 0,
        bpp > 0,
        0 <= yy,
        0 <= xx < w,
        0 <= cc < bpp,
        0 <= x <= w,
        0 <= c <= bpp,
        before(yy, xx, cc, y, x, c),
    ensures
        0 <= px_index(w, bpp, yy, xx, cc) < px_index(w, bpp, y, x, c),
{
    let rb = w * bpp;
    assert(xx * bpp + cc < rb) by (nonlinear_arith)
        requires
            0 <= xx < w,
            0 <= cc < bpp,
            rb == w * bpp,
    ;
    assert(0 <= xx * bpp) by (nonlinear_arith)
        requires
            0 <= xx,
            bpp > 0,
    ;
    assert(0 <= yy * rb) by (nonlinear_arith)
        requires
            0 <= yy,
            rb >= 0,
    ;
    assert(0 <= x * bpp) by (nonlinear_arith)
        requires
            0 <= x,
            bpp > 0,
    ;
    if yy < y {
        assert(yy * rb + rb <= y * rb) by (nonlinear_arith)
            requires
                yy < y,
                rb >= 0,
        ;
    } else if xx < x {
        assert(xx * bpp + bpp <= x * bpp) by (nonlinear_arith)
            requires
                xx < x,
                bpp > 0,
        ;
    }
}

/// Nothing is written before the first position.
pub proof fn lemma_grid_start(w: int, bpp: int, f: spec_fn(int, int, int) -> u8)
    ensures
        grid_upto(Seq::empty(), w, bpp, 0, 0, 0, f),
{
    assert(px_index(w, bpp, 0, 0, 0) == 0) by (nonlinear_arith);
}

/// Appending the value of the current position advances by one channel.
pub proof fn lemma_grid_push(
    out: Seq<u8>,
    w: int,
    bpp: int,
    y: int,
    x: int,
    c: int,
    f: spec_fn(int, int, int) -> u8,
)
    requires
        w > 0,
        bpp > 0,
        0 <= y,
        0 <= x < w,
        0 <= c < bpp,
        grid_upto(out, w, bpp, y, x, c, f),
    ensures
        grid_upto(out.push(f(y, x, c)), w, bpp, y, x, c + 1, f),
{
    let o2 = out.push(f(y, x, c));
    assert forall|yy: int, xx: int, cc: int|
        0 <= yy && 0 <= xx < w && 0 <= cc < bpp && before(yy, xx, cc, y, x, c + 1) implies #[trigger] o2[px_index(
        w,
        bpp,
        yy,
        xx,
        cc,
    )] == f(yy, xx, cc) by {
        if before(yy, xx, cc, y, x, c) {
            lemma_index_before(w, bpp, yy, xx, cc, y, x, c);
        } else {
            assert(yy == y && xx == x && cc == c);
        }
    }
}

/// After the last channel of a pixel comes the next pixel.
pub proof fn lemma_grid_next_pixel(
    out: Seq<u8>,
    w: int,
    bpp: int,
    y: int,
    x: int,
    f: spec_fn(int, int, int) -> u8,
)
    requires
        grid_upto(out, w, bpp, y, x, bpp, f),
    ensures
        grid_upto(out, w, bpp, y, x + 1, 0, f),
{
    assert(px_index(w, bpp, y, x + 1, 0) == px_index(w, bpp, y, x, bpp)) by (nonlinear_arith);
    assert forall|yy: int, xx: int, cc: int|
        0 <= yy && 0 <= xx < w && 0 <= cc < bpp && before(yy, xx, cc, y, x + 1, 0) implies #[trigger] out[px_index(
        w,
        bpp,
        yy,
        xx,
        cc,
    )] == f(yy, xx, cc) by {
        assert(before(yy, xx, cc, y, x, bpp));
    }
}

/// After the last pixel of a row comes the next row.
pub proof fn lemma_grid_next_row(
    out: Seq<u8>,
    w: int,
    bpp: int,
    y: int,
    f: spec_fn(int, int, int) -> u8,
)
    requires
        grid_upto(out, w, bpp, y, w, 0, f),
    ensures
        grid_upto(out, w, bpp, y + 1, 0, 0, f),
{
    assert(px_index(w, bpp, y + 1, 0, 0) == px_index(w, bpp, y, w, 0)) by (nonlinear_arith);
    assert forall|yy: int, xx: int, cc: int|
        0 <= yy && 0 <= xx < w && 0 <= cc < bpp && before(yy, xx, cc, y + 1, 0, 0) implies #[trigger] out[px_index(
        w,
        bpp,
        yy,
        xx,
        cc,
    )] == f(yy, xx, cc) by {
        assert(before(yy, xx, cc, y, w, 0));
    }
}

/// A finished buffer of `h` rows.
pub open spec fn grid_full(
    out: Seq<u8>,
    w: int,
    h: int,
    bpp: int,
    f: spec_fn(int, int, int) -> u8,
) -> bool {
    &&& out.len() == h * (w * bpp)
    &&& forall|y: int, x: int, c: int|
        0 <= y < h && 0 <= x < w && 0 <= c < bpp ==> #[trigger] out[px_index(w, bpp, y, x, c)]
            == f(y, x, c)
}

/// Having written every row, the buffer is full.
pub proof fn lemma_grid_done(
    out: Seq<u8>,
    w: int,
    h: int,
    bpp: int,
    f: spec_fn(int, int, int) -> u8,
)
    requires
        grid_upto(out, w, bpp, h, 0, 0, f),
    ensures
        grid_full(out, w, h, bpp, f),
{
    assert(px_index(w, bpp, h, 0, 0) == h * (w * bpp)) by (nonlinear_arith);
    assert forall|y: int, x: int, c: int|
        0 <= y < h && 0 <= x < w && 0 <= c < bpp implies #[trigger] out[px_index(w, bpp, y, x, c)]
        == f(y, x, c) by {
        assert(before(y, x, c, h, 0, 0));
    }
}

} // verus!

verus! {

/// Distinct pixels and channels of a buffer sit at distinct positions.
pub proof fn lemma_index_injective(w: int, bpp: int, y1: int, x1: int, c1: int, y2: int, x2: int, c2: int)
    requires
        w > 0,
        bpp > 0,
        0 <= y1,
        0 <= y2,
        0 <= x1 < w,
        0 <= x2 < w,
        0 <= c1 < bpp,
        0 <= c2 < bpp,
        px_index(w, bpp, y1, x1, c1) == px_index(w, bpp, y2, x2, c2),
    ensures
        y1 == y2,
        x1 == x2,
        c1 == c2,
{
    if before(y1, x1, c1, y2, x2, c2) {
        lemma_index_before(w, bpp, y1, x1, c1, y2, x2, c2);
    } else if before(y2, x2, c2, y1, x1, c1) {
        lemma_index_before(w, bpp, y2, x2, c2, y1, x1, c1);
    }
}

/// Every position of a `w × h` buffer lies inside it.
pub proof fn lemma_index_in_grid(w: int, h: int, bpp: int, y: int, x: int, c: int)
    requires
        w > 0,
        bpp > 0,
        0 <= y < h,
        0 <= x < w,
        0 <= c < bpp,
    ensures
        0 <= px_index(w, bpp, y, x, c) < h * (w * bpp),
{
    lemma_index_before(w, bpp, y, x, c, h, 0, 0);
    assert(px_index(w, bpp, h, 0, 0) == h * (w * bpp)) by (nonlinear_arith);
}

/// Two full grids of the same values are the same bytes.
pub proof fn lemma_grid_full_unique(
    a: Seq<u8>,
    b: Seq<u8>,
    w: int,
    h: int,
    bpp: int,
    f: spec_fn(int, int, int) -> u8,
)
    requires
        w >= 0,
        h >= 0,
        bpp > 0,
        grid_full(a, w, h, bpp, f),
        grid_full(b, w, h, bpp, f),
    ensures
        a == b,
{
    assert forall|i: int| 0 <= i < a.len() implies a[i] == b[i] by {
        let rb = w * bpp;
        assert(rb > 0 && w > 0) by (nonlinear_arith)
            requires
                0 <= i < h * (w * bpp),
                rb == w * bpp,
                w >= 0,
                h >= 0,
                bpp > 0,
        ;
        let y = i / rb;
        let rem = i % rb;
        let x = rem / bpp;
        let c = rem % bpp;
        assert(i == y * rb + rem && 0 <= rem < rb && 0 <= y < h) by (nonlinear_arith)
            requires
                rb > 0,
                y == i / rb,
                rem == i % rb,
                0 <= i < h * rb,
        ;
        assert(rem == x * bpp + c && 0 <= c < bpp && 0 <= x < w) by (nonlinear_arith)
            requires
                bpp > 0,
                x == rem / bpp,
                c == rem % bpp,
                0 <= rem < rb,
                rb == w * bpp,
        ;
        assert(px_index(w, bpp, y, x, c) == i);
        assert(a[px_index(w, bpp, y, x, c)] == f(y, x, c));
        assert(b[px_index(w, bpp, y, x, c)] == f(y, x, c));
    }
    assert(a =~= b);
}

} // verus!
