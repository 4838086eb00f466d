use raymarcher::geometry::{Geometry, Matrix, Vector};
use raymarcher::scalar::Scalar;
use raymarcher::triangle::{bounding_radius, clamp_to_slab, is_far, weight};

type Point = nalgebra::Point3<f32>;

fn scalar(value: f32) -> Scalar {
    Scalar::from_bits(value.to_bits())
}

fn number(s: Scalar) -> f32 {
    f32::from_bits(s.to_bits())
}

fn pack(v: &nalgebra::Vector3<f32>) -> Vector {
    Vector { x: scalar(v.x), y: scalar(v.y), z: scalar(v.z) }
}

fn unpack(v: &Vector) -> nalgebra::Vector3<f32> {
    nalgebra::Vector3::new(number(v.x), number(v.y), number(v.z))
}

fn pack_transform(m: &nalgebra::Matrix4<f32>) -> Matrix {
    let mut rows = [[scalar(0.0); 4]; 4];
    for r in 0..4 {
        for c in 0..4 {
            rows[r][c] = scalar(m[(r, c)]);
        }
    }
    Matrix { rows }
}

fn unpack_transform(m: &Matrix) -> nalgebra::Matrix4<f32> {
    nalgebra::Matrix4::from_fn(|r, c| number(m.rows[r][c]))
}

/// A triangle with what is derived from its corners, worked out by the
/// linear algebra crate; the radius is chosen by the library.
fn triangle(vertices: [Point; 3]) -> Geometry {
    let center =
        Point::from((vertices[0].coords + vertices[1].coords + vertices[2].coords).unscale(3.0));
    let radius =
        bounding_radius(vertices.map(|v| scalar(nalgebra::distance(&v, &center)))).unwrap();
    let x_axis = vertices[1] - vertices[0];
    let y_axis = vertices[2] - vertices[0];
    let z_axis = x_axis.cross(&y_axis);
    let base = nalgebra::Matrix3::from_columns(&[x_axis, y_axis, z_axis]);
    let shift = nalgebra::Translation3::from(vertices[0].coords);
    let transform_10 = shift.to_homogeneous() * base.to_homogeneous();
    let transform_01 = transform_10.pseudo_inverse(0.0).unwrap();
    Geometry::Triangle {
        axes: [pack(&x_axis), pack(&y_axis), pack(&z_axis)],
        bounding_sphere_center: pack(&center.coords),
        bounding_sphere_radius: radius,
        transform_01: pack_transform(&transform_01),
        transform_10: pack_transform(&transform_10),
    }
}

/// The distance from a point to a triangle: the sums and products by the
/// linear algebra crate, the choices by the library.
fn distance(geometry: &Geometry, point: [f32; 3]) -> f32 {
    let point = Point::new(point[0], point[1], point[2]);
    match geometry {
        Geometry::Triangle {
            bounding_sphere_center,
            bounding_sphere_radius,
            transform_01,
            transform_10,
            ..
        } => {
            let bounding = nalgebra::distance(&point, &Point::from(unpack(bounding_sphere_center)))
                - number(*bounding_sphere_radius);
            if is_far(scalar(bounding)) {
                return bounding;
            }
            let local =
                Point::from_homogeneous(unpack_transform(transform_01) * point.to_homogeneous())
                    .unwrap();
            let clamped = unpack(&clamp_to_slab(pack(&local.coords)));
            let w = number(weight(scalar(clamped.x + clamped.y)));
            let back = Point::from_homogeneous(
                unpack_transform(transform_10)
                    * nalgebra::Vector4::new(clamped.x, clamped.y, clamped.z, w),
            )
            .unwrap();
            nalgebra::distance(&point, &back)
        }
        _ => panic!("only triangles are measured here"),
    }
}

fn unit_triangle() -> Geometry {
    triangle([Point::new(0.0, 0.0, 0.0), Point::new(1.0, 0.0, 0.0), Point::new(0.0, 1.0, 0.0)])
}

fn close(a: f32, b: f32) -> bool {
    (a - b).abs() < 1e-5
}

#[test]
fn the_corners_of_a_triangle_are_at_no_distance() {
    let unit = unit_triangle();
    for corner in [[0.0, 0.0, 0.0], [1.0, 0.0, 0.0], [0.0, 1.0, 0.0]] {
        assert!(close(distance(&unit, corner), 0.0), "{corner:?}");
    }
    let corners = [Point::new(3.0, -2.0, 5.0), Point::new(4.5, 1.0, 5.5), Point::new(2.0, 0.5, 8.0)];
    let slanted = triangle(corners);
    for corner in corners {
        assert!(distance(&slanted, [corner.x, corner.y, corner.z]).abs() < 1e-4);
    }
}

#[test]
fn a_point_on_the_long_edge_is_at_no_distance() {
    let d = distance(&unit_triangle(), [0.5, 0.5, 0.0]);
    assert!(d >= 0.0 && close(d, 0.0), "{d}");
}

#[test]
fn under_the_inside_the_distance_is_measured_at_right_angles() {
    let unit = unit_triangle();
    assert!(close(distance(&unit, [0.25, 0.25, -0.5]), 0.5));
    assert!(close(distance(&unit, [0.1, 0.6, -0.125]), 0.125));
    assert!(close(distance(&unit, [0.25, 0.25, 0.0]), 0.0));
}

#[test]
fn over_the_inside_the_depth_of_the_triangle_is_taken_off() {
    let unit = unit_triangle();
    assert!(close(distance(&unit, [0.25, 0.25, 0.5]), 0.49));
    assert!(close(distance(&unit, [0.25, 0.25, 0.005]), 0.0));
}

#[test]
fn beside_a_short_edge_the_distance_is_that_to_the_edge() {
    let unit = unit_triangle();
    assert!(close(distance(&unit, [0.5, -0.2, 0.0]), 0.2));
    assert!(close(distance(&unit, [-0.25, 0.5, 0.0]), 0.25));
    assert!(close(distance(&unit, [-0.1, -0.1, 0.0]), 0.02f32.sqrt()));
    assert!(close(distance(&unit, [0.5, -0.3, -0.2]), 0.13f32.sqrt()));
}

#[test]
fn beyond_the_long_edge_a_point_is_drawn_back_onto_it() {
    let unit = unit_triangle();
    assert!(close(distance(&unit, [0.75, 0.75, 0.0]), 0.125f32.sqrt()));
    assert!(close(distance(&unit, [0.6, 0.6, 0.0]), 0.02f32.sqrt()));
}

#[test]
fn far_from_a_triangle_its_bounding_sphere_answers() {
    let unit = unit_triangle();
    let radius = (5.0f32 / 9.0).sqrt();
    let from_center = |p: [f32; 3]| {
        ((p[0] - 1.0 / 3.0).powi(2) + (p[1] - 1.0 / 3.0).powi(2) + p[2].powi(2)).sqrt()
    };
    for p in [[10.0, 10.0, 10.0], [0.0, 0.0, -3.0], [-4.0, 1.0, 0.5], [1.0, 1.0, 0.0], [0.5, -0.5, 0.0]] {
        assert!(close(distance(&unit, p), from_center(p) - radius), "{p:?}");
    }
    match &unit {
        Geometry::Triangle { bounding_sphere_radius, bounding_sphere_center, .. } => {
            assert!(close(number(*bounding_sphere_radius), radius));
            assert!(close(number(bounding_sphere_center.x), 1.0 / 3.0));
        }
        _ => panic!("a triangle was built"),
    }
}

#[test]
fn a_triangle_with_a_face_is_not_degenerate() {
    assert!(!unit_triangle().is_degenerate());
    let line = triangle([Point::new(0.0, 0.0, 0.0), Point::new(1.0, 1.0, 1.0), Point::new(2.0, 2.0, 2.0)]);
    assert!(line.is_degenerate());
    let dot = triangle([Point::new(1.0, 2.0, 3.0); 3]);
    assert!(dot.is_degenerate());
}
