//! Pieces of the four-corner perspective warp that need no geometry:
//! the background fill of pixels that map outside the source.

use vstd::prelude::*;

verus! {

/// Fills the `bpp` bytes of the pixel at `base` with the background
/// colour `bg` (RGBA; a pixel of more than 4 bytes repeats alpha).
pub fn write_background(dst: &mut Vec<u8>, base: usize, bg: &[u8; 4], bpp: usize)
    requires
        base + bpp <= old(dst).len(),
    ensures
        final(dst).len() == old(dst).len(),
        forall|i: int| 0 <= i < bpp ==> #[trigger] final(dst)@[base + i] == bg@[if i < 3 {
            i
        } else {
            3
        }],
        forall|k: int| 0 <= k < old(dst).len() && !(base <= k < base + bpp) ==> #[trigger] final(dst)@[k]
            == old(dst)@[k],
{
    let mut i: usize = 0;
    while i < bpp
        invariant
            0 <= i <= bpp,
            base + bpp <= dst.len(),
            dst.len() == old(dst).len(),
            forall|j: int| 0 <= j < i ==> #[trigger] dst@[base + j] == bg@[if j < 3 {
                j
            } else {
                3
            }],
            forall|k: int| 0 <= k < dst.len() && !(base <= k < base + i) ==> #[trigger] dst@[k]
                == old(dst)@[k],
        decreases bpp - i,
    {
        let c = if i < 3 {
            i
        } else {
            3
        };
        dst.set(base + i, bg[c]);
        i = i + 1;
    }
}

} // verus!
