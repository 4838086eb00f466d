//! The rules of a triangle.
//!
//! The distance from a point to a triangle is found in the frame of the
//! triangle: the frame whose axes are the two edges from the first corner
//! and their cross product, so that the triangle is the set of points with
//! `x >= 0`, `y >= 0`, `x + y <= 1` and `z = 0`. What is arithmetic in this
//! (the change of frame, the sums, the distance) is the caller's; what is to
//! be chosen is settled here.

use crate::geometry::{Geometry, Vector};
use crate::scalar::{lemma_magnitude_of_normal, lemma_magnitude_zero, Scalar, ONE_BITS};
use vstd::arithmetic::power2::{lemma2_to64, pow2};
use vstd::prelude::*;

verus! {

/// The bits of the binary32 number nearest to `0.01`: how thick a triangle
/// is taken to be. Only a point whose distance to the bounding sphere of a
/// triangle is within this depth has its distance to the triangle itself
/// worked out.
pub const TRIANGLE_DEPTH_BITS: u32 = 0x3c23_d70a;

/// [`TRIANGLE_DEPTH_BITS`] encodes `5368709 * 2^-29`, which lies within
/// `2^-26` below a hundredth.
pub proof fn lemma_triangle_depth_is_a_hundredth()
    ensures
        (Scalar { bits: TRIANGLE_DEPTH_BITS }).value() == 5368709 * pow2(120),
        pow2(149) - 100 * pow2(123) < 100 * (Scalar { bits: TRIANGLE_DEPTH_BITS }).value() < pow2(
            149,
        ),
{
    lemma2_to64();
    lemma_magnitude_of_normal(120, 5368709, 1);
    vstd::arithmetic::power2::lemma_pow2_adds(29, 120);
    vstd::arithmetic::power2::lemma_pow2_adds(3, 120);
    let unit = pow2(120);
    vstd::arithmetic::power2::lemma_pow2_pos(120);
    assert(pow2(149) == 536870912 * unit && pow2(123) == 8 * unit) by (nonlinear_arith)
        requires
            pow2(29) * unit == pow2(149),
            pow2(3) * unit == pow2(123),
            pow2(29) == 536870912,
            pow2(3) == 8,
    ;
    assert(536870912 * unit - 100 * (8 * unit) < 100 * (5368709 * unit) < 536870912 * unit)
        by (nonlinear_arith)
        requires
            unit > 0,
    ;
}

/// Whether a triangle is far from the query point: its bounding sphere lies
/// at more than the triangle depth, so that the distance to the sphere
/// stands for the distance to the triangle.
pub fn is_far(bounding_sphere_distance: Scalar) -> (r: bool)
    ensures
        r == (Scalar { bits: TRIANGLE_DEPTH_BITS }).less_than(bounding_sphere_distance),
{
    Scalar::from_bits(TRIANGLE_DEPTH_BITS).lt(bounding_sphere_distance)
}

/// The radius of the sphere around the centroid of a triangle that holds
/// its corners: the greatest of the distances of the three corners from the
/// centroid. There is none where a distance is a NaN.
pub open spec fn greatest(distances: [Scalar; 3]) -> Option<Scalar> {
    if distances[0].nan() || distances[1].nan() || distances[2].nan() {
        None
    } else {
        let first = if distances[1].less_than(distances[0]) {
            distances[0]
        } else {
            distances[1]
        };
        Some(if distances[2].less_than(first) { first } else { distances[2] })
    }
}

/// The greatest of three distances is one of them, and none is above it.
pub proof fn lemma_greatest_bounds(distances: [Scalar; 3])
    requires
        greatest(distances) is Some,
    ensures
        ({
            let radius = greatest(distances)->Some_0;
            &&& radius == distances[0] || radius == distances[1] || radius == distances[2]
            &&& !radius.less_than(distances[0])
            &&& !radius.less_than(distances[1])
            &&& !radius.less_than(distances[2])
        }),
{
}

/// The radius of the bounding sphere of a triangle whose corners lie at
/// these distances from its centre.
pub fn bounding_radius(distances: [Scalar; 3]) -> (r: Option<Scalar>)
    ensures
        r == greatest(distances),
{
    if distances[0].is_nan() || distances[1].is_nan() || distances[2].is_nan() {
        return None;
    }
    let first = if distances[1].lt(distances[0]) {
        distances[0]
    } else {
        distances[1]
    };
    Some(if distances[2].lt(first) { first } else { distances[2] })
}

/// The point of a triangle nearest to a point, both in the frame of the
/// triangle, where the triangle is the set of points with `x >= 0`,
/// `y >= 0` and `x + y <= 1` in a slab of `0 <= z <= depth`: `x` and `y` are
/// raised to 0 where they are below, and `z` is brought into the slab. The
/// third bound is kept by the weight of the point (see [`slab_weight`]).
pub open spec fn slab_point(local: Vector) -> Vector {
    let zero = Scalar { bits: 0 };
    let depth = Scalar { bits: TRIANGLE_DEPTH_BITS };
    Vector {
        x: local.x.larger(zero),
        y: local.y.larger(zero),
        z: local.z.larger(zero).smaller(depth),
    }
}

/// The homogeneous weight of a point of the slab whose `x` and `y` add up
/// to `sum`: 1 within the triangle, and `sum` beyond the edge `x + y = 1`,
/// which scales the point back onto that edge.
pub open spec fn slab_weight(sum: Scalar) -> Scalar {
    sum.larger(Scalar { bits: ONE_BITS })
}

/// Brings a point, given in the frame of a triangle, into the slab of the
/// triangle.
pub fn clamp_to_slab(local: Vector) -> (r: Vector)
    ensures
        r == slab_point(local),
{
    let zero = Scalar::from_bits(0);
    let depth = Scalar::from_bits(TRIANGLE_DEPTH_BITS);
    Vector { x: local.x.max(zero), y: local.y.max(zero), z: local.z.max(zero).min(depth) }
}

/// The homogeneous weight that goes with a point of the slab whose `x` and
/// `y` add up to `sum`.
pub fn weight(sum: Scalar) -> (r: Scalar)
    ensures
        r == slab_weight(sum),
{
    sum.max(Scalar::from_bits(ONE_BITS))
}

/// A number that is not below zero.
pub open spec fn not_negative(s: Scalar) -> bool {
    !s.nan() && !s.less_than(Scalar { bits: 0 })
}

/// A point of a triangle is its own nearest point, so that its distance to
/// the triangle is zero: where, in the frame of the triangle, `x`, `y` and
/// `z` are not below 0, `z` is not above the depth and the sum of `x` and
/// `y` is not above 1, the point stays where it is, with weight 1.
pub proof fn lemma_points_of_the_triangle_stay(local: Vector, sum: Scalar)
    requires
        not_negative(local.x),
        not_negative(local.y),
        not_negative(local.z),
        !(Scalar { bits: TRIANGLE_DEPTH_BITS }).less_than(local.z),
        !sum.nan(),
        !(Scalar { bits: ONE_BITS }).less_than(sum),
    ensures
        slab_point(local) == local,
        slab_weight(sum).value() == (Scalar { bits: ONE_BITS }).value(),
{
}

/// The corners of a triangle are points of it: in its frame they are the
/// origin and the ends of the two unit axes, and they stay where they are.
pub proof fn lemma_corners_stay()
    ensures
        ({
            let zero = Scalar { bits: 0 };
            let one = Scalar { bits: ONE_BITS };
            &&& slab_point(Vector { x: zero, y: zero, z: zero }) == (Vector {
                x: zero,
                y: zero,
                z: zero,
            })
            &&& slab_point(Vector { x: one, y: zero, z: zero }) == (Vector {
                x: one,
                y: zero,
                z: zero,
            })
            &&& slab_point(Vector { x: zero, y: one, z: zero }) == (Vector {
                x: zero,
                y: one,
                z: zero,
            })
            &&& slab_weight(zero) == one
            &&& slab_weight(one) == one
        }),
{
    lemma_magnitude_zero(ONE_BITS as nat);
    lemma_magnitude_zero(TRIANGLE_DEPTH_BITS as nat);
    lemma_magnitude_zero(0);
}

/// Over the inside of a triangle a point is moved along the normal only,
/// so that its distance is measured at right angles to the plane: where,
/// in the frame of the triangle, `x` and `y` are not below 0 and their sum
/// is not above 1, the nearest point has the same `x` and `y`, weight 1,
/// and a `z` within the slab.
pub proof fn lemma_inside_moves_along_the_normal(local: Vector, sum: Scalar)
    requires
        not_negative(local.x),
        not_negative(local.y),
        !sum.nan(),
        !(Scalar { bits: ONE_BITS }).less_than(sum),
    ensures
        slab_point(local).x == local.x,
        slab_point(local).y == local.y,
        slab_weight(sum).value() == (Scalar { bits: ONE_BITS }).value(),
        not_negative(slab_point(local).z),
        !(Scalar { bits: TRIANGLE_DEPTH_BITS }).less_than(slab_point(local).z),
{
    lemma_magnitude_zero(TRIANGLE_DEPTH_BITS as nat);
    lemma_magnitude_zero(0);
}

impl Geometry {
    /// The geometry is a triangle without a face: the cross product of its
    /// edges, `axes[2]`, gives no direction, as it does where the three
    /// vertices lie on one line.
    pub open spec fn degenerate(self) -> bool {
        self matches Geometry::Triangle { axes, .. } && !axes[2].has_direction()
    }

    /// Whether the geometry is a triangle without a face.
    pub fn is_degenerate(&self) -> (r: bool)
        ensures
            r == self.degenerate(),
    {
        match self {
            Geometry::Triangle { axes, .. } => !axes[2].is_direction(),
            _ => false,
        }
    }
}

} // verus!
