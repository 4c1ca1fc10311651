//! Cartesian ⇄ polar distortion settings.
//!
//! The polar direction bends a rectangle into an annular fan (output
//! column = angle, row = radius); the depolar direction unrolls the
//! disc back into a rectangle. Both work on packed `Rgb24` / `Rgba`.

use vstd::prelude::*;

verus! {

/// Direction of the polar distortion.
#[derive(Clone, Copy, Debug, PartialEq, Eq, Structural)]
pub enum PolarDirection {
    /// Cartesian → polar (image bent into a fan).
    Polar,
    /// Polar → Cartesian (fan unrolled back to a rectangle).
    DePolar,
}

impl Default for PolarDirection {
    fn default() -> (d: Self)
        ensures
            d == PolarDirection::Polar,
    {
        PolarDirection::Polar
    }
}

/// Polar / Cartesian distortion.
#[derive(Clone, Copy, Debug)]
pub struct Polar {
    /// Which way the distortion maps.
    pub direction: PolarDirection,
}

impl Default for Polar {
    fn default() -> (p: Self)
        ensures
            p.direction == PolarDirection::Polar,
    {
        Polar { direction: PolarDirection::Polar }
    }
}

impl Polar {
    /// A Cartesian → polar distortion.
    pub fn forward() -> (p: Self)
        ensures
            p.direction == PolarDirection::Polar,
    {
        Polar { direction: PolarDirection::Polar }
    }

    /// A polar → Cartesian distortion.
    pub fn inverse() -> (p: Self)
        ensures
            p.direction == PolarDirection::DePolar,
    {
        Polar { direction: PolarDirection::DePolar }
    }

    /// Overrides the direction.
    pub fn with_direction(self, direction: PolarDirection) -> (p: Self)
        ensures
            p.direction == direction,
    {
        Polar { direction }
    }
}

} // verus!
