//! Rescale settings: target size and reconstruction kernel, and the
//! border clamp the kernels share.

use vstd::prelude::*;
use crate::boxsum::clampi;

verus! {

/// How samples are reconstructed during rescale.
#[derive(Clone, Copy, Debug, PartialEq, Eq, Structural)]
pub enum Interpolation {
    /// Nearest neighbour.
    Nearest,
    /// Bilinear, the default.
    Bilinear,
    /// Separable 4-tap Catmull-Rom cubic; border taps clamp.
    Bicubic,
    /// Area average over each output pixel's source footprint.
    Area,
}

impl Default for Interpolation {
    fn default() -> (i: Self)
        ensures
            i == Interpolation::Bilinear,
    {
        Interpolation::Bilinear
    }
}

/// Rescale to `target_width × target_height`.
#[derive(Clone, Debug)]
pub struct Resize {
    target_width: u32,
    target_height: u32,
    interp: Interpolation,
}

impl Resize {
    /// Target width in pixels.
    pub closed spec fn width_spec(&self) -> u32 {
        self.target_width
    }

    /// Target height in pixels.
    pub closed spec fn height_spec(&self) -> u32 {
        self.target_height
    }

    /// Reconstruction kernel.
    pub closed spec fn interp_spec(&self) -> Interpolation {
        self.interp
    }

    /// A resize to the given size (each at least 1), bilinear.
    pub fn new(target_width: u32, target_height: u32) -> (r: Self)
        ensures
            r.width_spec() == if target_width < 1 {
                1
            } else {
                target_width
            },
            r.height_spec() == if target_height < 1 {
                1
            } else {
                target_height
            },
            r.interp_spec() == Interpolation::Bilinear,
    {
        Resize {
            target_width: if target_width < 1 {
                1
            } else {
                target_width
            },
            target_height: if target_height < 1 {
                1
            } else {
                target_height
            },
            interp: Interpolation::Bilinear,
        }
    }

    /// Chooses the reconstruction kernel.
    pub fn with_interpolation(self, interp: Interpolation) -> (r: Self)
        ensures
            r.width_spec() == self.width_spec(),
            r.height_spec() == self.height_spec(),
            r.interp_spec() == interp,
    {
        Resize { interp, ..self }
    }

    /// The target size `(width, height)`.
    pub fn target_size(&self) -> (s: (u32, u32))
        ensures
            s == (self.width_spec(), self.height_spec()),
    {
        (self.target_width, self.target_height)
    }

    /// The reconstruction kernel.
    pub fn interpolation(&self) -> (i: Interpolation)
        ensures
            i == self.interp_spec(),
    {
        self.interp
    }
}

/// Clamps an integer source coordinate into `[0, extent − 1]`, so an
/// out-of-bounds tap reads the border sample.
pub fn clamp_coord(c: isize, extent: usize) -> (r: usize)
    requires
        1 <= extent <= isize::MAX,
    ensures
        r == clampi(c as int, extent - 1),
        r < extent,
{
    if c < 0 {
        0
    } else if c as usize > extent - 1 {
        extent - 1
    } else {
        c as usize
    }
}

} // verus!
