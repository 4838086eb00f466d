//! The settings of a render.

use crate::scalar::Scalar;
use vstd::prelude::*;

verus! {

/// What does not change while an image is rendered.
#[derive(Clone, Copy, PartialEq, Eq, Structural, Debug)]
pub struct RendererSettings {
    /// The number of pixel rows of the image.
    pub definition: u32,
    /// The number of samples taken along each axis of a pixel; at least 1.
    pub anti_aliasing: u32,
    /// How close to a surface counts as having reached it; above 0.
    pub epsilon: Scalar,
    /// The strength of the light that reaches every surface.
    pub ambient_light: Scalar,
}

impl RendererSettings {
    /// The settings are usable: there is at least one sample per pixel axis,
    /// and epsilon is a number above zero.
    pub open spec fn valid(&self) -> bool {
        self.anti_aliasing >= 1 && (Scalar { bits: 0 }).less_than(self.epsilon)
    }

    /// Whether the settings are usable.
    pub fn is_valid(&self) -> (r: bool)
        ensures
            r == self.valid(),
    {
        self.anti_aliasing >= 1 && Scalar::from_bits(0).lt(self.epsilon)
    }

    /// The number of sample rows of the image before it is scaled down:
    /// `definition * anti_aliasing`, where that fits 32 bits.
    pub fn sample_rows(&self) -> (r: Option<u32>)
        ensures
            r is Some <==> self.definition * self.anti_aliasing <= u32::MAX,
            r matches Some(rows) ==> rows == self.definition * self.anti_aliasing,
    {
        self.definition.checked_mul(self.anti_aliasing)
    }
}

} // verus!
