//! The choices of the lighting model.
//!
//! A surface is lit by every light of the scene. The sums and products of
//! the model are the caller's arithmetic; which way a normal faces, which
//! cosines count and which colour the diffuse light has are settled here.

use crate::geometry::Vector;
use crate::scalar::{lemma_magnitude_zero, Scalar, SIGN_BIT};
use crate::scene::Color;
use vstd::prelude::*;

verus! {

/// The bits of the NaN that stands for a direction that cannot be told.
pub const NAN_BITS: u32 = 0x7fc0_0000;

/// The scalar with the opposite sign.
pub open spec fn negated(s: Scalar) -> Scalar {
    Scalar {
        bits: if s.bits >= SIGN_BIT {
            (s.bits - SIGN_BIT) as u32
        } else {
            (s.bits + SIGN_BIT) as u32
        },
    }
}

/// The vector that points the opposite way.
pub open spec fn reversed(v: Vector) -> Vector {
    Vector { x: negated(v.x), y: negated(v.y), z: negated(v.z) }
}

/// Changing the sign of a number negates its value, and a NaN stays one.
pub proof fn lemma_negated_is_the_negative(s: Scalar)
    ensures
        negated(s).value() == -s.value(),
        negated(s).nan() == s.nan(),
        negated(negated(s)) == s,
{
}

/// A normal turned to the side of the viewer: `facing` is the product of
/// the normal and the direction to the viewer; where it is negative the
/// normal is reversed, and where it is a NaN no direction is left.
pub open spec fn turned(normal: Vector, facing: Scalar) -> Vector {
    let lost = Scalar { bits: NAN_BITS };
    if facing.nan() {
        Vector { x: lost, y: lost, z: lost }
    } else if facing.is_negative() {
        reversed(normal)
    } else {
        normal
    }
}

/// Changes the sign of a scalar.
fn negate(s: Scalar) -> (r: Scalar)
    ensures
        r == negated(s),
{
    let bits = s.to_bits();
    Scalar::from_bits(if bits >= SIGN_BIT { bits - SIGN_BIT } else { bits + SIGN_BIT })
}

/// Turns a normal to the side of the viewer, where `facing` is the dot
/// product of the normal and the direction to the viewer.
pub fn face_viewer(normal: Vector, facing: Scalar) -> (r: Vector)
    ensures
        r == turned(normal, facing),
{
    if facing.is_nan() {
        let lost = Scalar::from_bits(NAN_BITS);
        Vector { x: lost, y: lost, z: lost }
    } else if facing.to_bits() >= SIGN_BIT {
        Vector { x: negate(normal.x), y: negate(normal.y), z: negate(normal.z) }
    } else {
        normal
    }
}

/// The share of a light that reaches a surface at the angle with this
/// cosine: the cosine itself, and nothing where the light comes from behind.
pub fn lit(cosine: Scalar) -> (r: Scalar)
    ensures
        r == cosine.larger(Scalar { bits: 0 }),
        !r.nan() && !r.less_than(Scalar { bits: 0 }),
{
    proof {
        lemma_magnitude_zero(0);
    }
    cosine.max(Scalar::from_bits(0))
}

/// The colour of the diffuse light of a surface: in each channel the
/// smaller of what the light sheds and what the surface gives back.
pub open spec fn dimmer(light: Color, surface: Color) -> Color {
    Vector {
        x: light.x.smaller(surface.x),
        y: light.y.smaller(surface.y),
        z: light.z.smaller(surface.z),
    }
}

/// The colour of the diffuse light that `light` leaves on `surface`.
pub fn diffuse_color(light: Color, surface: Color) -> (r: Color)
    ensures
        r == dimmer(light, surface),
{
    Vector { x: light.x.min(surface.x), y: light.y.min(surface.y), z: light.z.min(surface.z) }
}

} // verus!
