use raymarcher::geometry::Vector;
use raymarcher::triangle::{bounding_radius, clamp_to_slab, is_far, weight, TRIANGLE_DEPTH_BITS};
use raymarcher::march::START_FACTOR_BITS;
use raymarcher::scalar::{Scalar, INFINITY_BITS, ONE_BITS, SIGN_BIT};

fn scalar(value: f32) -> Scalar {
    Scalar::from_bits(value.to_bits())
}

fn samples() -> Vec<f32> {
    vec![
        f32::NEG_INFINITY,
        f32::MIN,
        -1.0e10,
        -3.5,
        -1.0,
        -f32::MIN_POSITIVE,
        -1.0e-45,
        -0.0,
        0.0,
        1.0e-45,
        f32::from_bits(0x007f_ffff),
        f32::MIN_POSITIVE,
        1.0e-3,
        1.0e-2,
        0.5,
        1.0,
        1.000_000_1,
        10.0,
        16_777_216.0,
        f32::MAX,
        f32::INFINITY,
        f32::NAN,
        f32::from_bits(0xffc0_0001),
    ]
}

#[test]
fn lt_agrees_with_the_hardware() {
    for a in samples() {
        for b in samples() {
            assert_eq!(scalar(a).lt(scalar(b)), a < b, "{a:?} < {b:?}");
        }
    }
}

#[test]
fn lt_agrees_with_the_hardware_on_neighbouring_encodings() {
    let starts = [0u32, 0x007f_fff0, 0x3f7f_fff0, 0x7f7f_fff0, 0x7f80_0000 - 8];
    for start in starts {
        for offset in 0..32u32 {
            let bits = start + offset;
            let next = bits + 1;
            let (a, b) = (f32::from_bits(bits), f32::from_bits(next));
            assert_eq!(Scalar::from_bits(bits).lt(Scalar::from_bits(next)), a < b);
            assert_eq!(Scalar::from_bits(next).lt(Scalar::from_bits(bits)), b < a);
            let (na, nb) = (bits | SIGN_BIT, next | SIGN_BIT);
            assert_eq!(
                Scalar::from_bits(na).lt(Scalar::from_bits(nb)),
                f32::from_bits(na) < f32::from_bits(nb)
            );
            assert_eq!(
                Scalar::from_bits(nb).lt(Scalar::from_bits(na)),
                f32::from_bits(nb) < f32::from_bits(na)
            );
        }
    }
}

#[test]
fn the_zeros_are_level() {
    assert!(!scalar(-0.0).lt(scalar(0.0)));
    assert!(!scalar(0.0).lt(scalar(-0.0)));
    assert!(scalar(-0.0) != scalar(0.0));
}

#[test]
fn nan_is_below_nothing_and_above_nothing() {
    let nan = scalar(f32::NAN);
    assert!(nan.is_nan());
    assert!(!nan.lt(nan));
    assert!(!nan.lt(scalar(f32::INFINITY)));
    assert!(!scalar(f32::NEG_INFINITY).lt(nan));
}

#[test]
fn is_nan_agrees_with_the_hardware() {
    for a in samples() {
        assert_eq!(scalar(a).is_nan(), a.is_nan());
    }
    assert!(!Scalar::from_bits(INFINITY_BITS).is_nan());
    assert!(Scalar::from_bits(INFINITY_BITS + 1).is_nan());
    assert!(!Scalar::from_bits(INFINITY_BITS | SIGN_BIT).is_nan());
    assert!(Scalar::from_bits(u32::MAX).is_nan());
}

#[test]
fn bits_go_in_and_out_unchanged() {
    for bits in [0u32, 1, 0x3f80_0000, 0x8000_0000, 0x7fc0_0000, u32::MAX] {
        assert_eq!(Scalar::from_bits(bits).to_bits(), bits);
    }
}

#[test]
fn the_constants_are_the_numbers_they_name() {
    assert_eq!(START_FACTOR_BITS, 10.0f32.to_bits());
    assert_eq!(TRIANGLE_DEPTH_BITS, 1e-2f32.to_bits());
    assert_eq!(INFINITY_BITS, f32::INFINITY.to_bits());
    assert_eq!(SIGN_BIT, (-0.0f32).to_bits());
}

#[test]
fn a_triangle_is_far_beyond_its_depth() {
    assert!(is_far(scalar(0.5)));
    assert!(is_far(scalar(0.010_001)));
    assert!(!is_far(scalar(0.01)));
    assert!(!is_far(scalar(0.0)));
    assert!(!is_far(scalar(-2.0)));
    assert!(!is_far(scalar(f32::NAN)));
}

fn number(s: Scalar) -> f32 {
    f32::from_bits(s.to_bits())
}

fn same_number(a: f32, b: f32) -> bool {
    a == b || (a.is_nan() && b.is_nan())
}

#[test]
fn max_and_min_agree_with_the_hardware() {
    for a in samples() {
        for b in samples() {
            let larger = number(scalar(a).max(scalar(b)));
            let smaller = number(scalar(a).min(scalar(b)));
            assert!(same_number(larger, a.max(b)), "max of {a:?} and {b:?}");
            assert!(same_number(smaller, a.min(b)), "min of {a:?} and {b:?}");
        }
    }
}

#[test]
fn max_and_min_pass_over_a_nan() {
    assert_eq!(scalar(f32::NAN).max(scalar(2.0)), scalar(2.0));
    assert_eq!(scalar(2.0).max(scalar(f32::NAN)), scalar(2.0));
    assert_eq!(scalar(f32::NAN).min(scalar(-2.0)), scalar(-2.0));
    assert_eq!(scalar(-2.0).min(scalar(f32::NAN)), scalar(-2.0));
    assert!(scalar(f32::NAN).max(scalar(f32::NAN)).is_nan());
}

#[test]
fn of_two_level_scalars_the_first_is_kept() {
    assert_eq!(scalar(-0.0).max(scalar(0.0)), scalar(-0.0));
    assert_eq!(scalar(0.0).max(scalar(-0.0)), scalar(0.0));
    assert_eq!(scalar(-0.0).min(scalar(0.0)), scalar(-0.0));
    assert_eq!(scalar(0.0).min(scalar(-0.0)), scalar(0.0));
}

fn local(x: f32, y: f32, z: f32) -> Vector {
    Vector { x: scalar(x), y: scalar(y), z: scalar(z) }
}

#[test]
fn a_point_is_brought_into_the_slab() {
    assert_eq!(clamp_to_slab(local(0.25, 0.5, 0.005)), local(0.25, 0.5, 0.005));
    assert_eq!(clamp_to_slab(local(-1.0, 0.5, 0.0)), local(0.0, 0.5, 0.0));
    assert_eq!(clamp_to_slab(local(0.5, -3.0, 0.0)), local(0.5, 0.0, 0.0));
    assert_eq!(clamp_to_slab(local(2.0, 3.0, 7.0)), local(2.0, 3.0, 0.01));
    assert_eq!(clamp_to_slab(local(0.1, 0.1, -7.0)), local(0.1, 0.1, 0.0));
    assert_eq!(clamp_to_slab(local(0.1, 0.1, 0.01)), local(0.1, 0.1, 0.01));
    assert_eq!(clamp_to_slab(local(f32::NAN, f32::NAN, f32::NAN)), local(0.0, 0.0, 0.0));
    assert_eq!(clamp_to_slab(local(f32::INFINITY, -f32::INFINITY, f32::INFINITY)), local(f32::INFINITY, 0.0, 0.01));
}

#[test]
fn the_slab_is_what_the_hardware_clamps_to() {
    for a in samples() {
        let r = clamp_to_slab(local(a, a, a));
        assert!(same_number(number(r.x), a.max(0.0)));
        assert!(same_number(number(r.y), a.max(0.0)));
        assert!(same_number(number(r.z), a.max(0.0).min(1e-2)));
        assert!(same_number(number(weight(scalar(a))), a.max(1.0)));
    }
}

#[test]
fn the_corners_of_a_triangle_stay_where_they_are() {
    for corner in [local(0.0, 0.0, 0.0), local(1.0, 0.0, 0.0), local(0.0, 1.0, 0.0)] {
        assert_eq!(clamp_to_slab(corner), corner);
        assert_eq!(weight(scalar(number(corner.x) + number(corner.y))), scalar(1.0));
    }
    assert_eq!(clamp_to_slab(local(0.5, 0.5, 0.0)), local(0.5, 0.5, 0.0));
    assert_eq!(weight(scalar(0.5 + 0.5)), scalar(1.0));
}

#[test]
fn the_weight_is_one_within_the_triangle_and_the_sum_beyond() {
    assert_eq!(ONE_BITS, 1.0f32.to_bits());
    assert_eq!(weight(scalar(0.0)), scalar(1.0));
    assert_eq!(weight(scalar(0.75)), scalar(1.0));
    assert_eq!(weight(scalar(1.0)), scalar(1.0));
    assert_eq!(weight(scalar(1.5)), scalar(1.5));
    assert_eq!(weight(scalar(-4.0)), scalar(1.0));
    assert_eq!(weight(scalar(f32::NAN)), scalar(1.0));
}

#[test]
fn the_bounding_radius_is_the_greatest_distance() {
    let radius = |a: f32, b: f32, c: f32| bounding_radius([scalar(a), scalar(b), scalar(c)]);
    assert_eq!(radius(1.0, 2.0, 3.0), Some(scalar(3.0)));
    assert_eq!(radius(3.0, 2.0, 1.0), Some(scalar(3.0)));
    assert_eq!(radius(1.0, 3.0, 2.0), Some(scalar(3.0)));
    assert_eq!(radius(0.5, 0.5, 0.5), Some(scalar(0.5)));
    assert_eq!(radius(0.0, 0.0, 0.0), Some(scalar(0.0)));
    assert_eq!(radius(f32::INFINITY, 2.0, 1.0), Some(scalar(f32::INFINITY)));
    assert_eq!(radius(f32::NAN, 2.0, 1.0), None);
    assert_eq!(radius(1.0, f32::NAN, 1.0), None);
    assert_eq!(radius(1.0, 2.0, f32::NAN), None);
}

#[test]
fn the_bounding_radius_is_what_the_standard_library_finds() {
    let values = [0.0f32, 0.25, 1.0, 1.0e-3, 7.5, 1.0e10, f32::INFINITY];
    for a in values {
        for b in values {
            for c in values {
                let expected = [a, b, c].into_iter().max_by(|x, y| x.partial_cmp(y).unwrap());
                assert_eq!(bounding_radius([scalar(a), scalar(b), scalar(c)]), expected.map(scalar));
            }
        }
    }
}
