use voxels::mesh::triangle::{
    Intersection, Triangle, EPSILON_BITS, MARGIN_BITS, MINUS_EPSILON_BITS, ONE_PLUS_EPSILON_BITS,
};
use voxels::rounding::ONE_BITS;
use voxels::scalar::Scalar;

fn s(x: f32) -> Scalar {
    Scalar::from_bits(x.to_bits())
}

fn hit(distance: f32, u: f32, v: f32) -> Intersection {
    Intersection { distance: s(distance), u: s(u), v: s(v) }
}

fn miss() -> Intersection {
    hit(f32::INFINITY, 0.0, 0.0)
}

/// The test as floating point states it.
fn reference(raw: (f32, f32, f32)) -> Option<(f32, f32, f32)> {
    const EPSILON: f32 = 1e-5;
    let (mut distance, u, v) = raw;
    if distance != f32::INFINITY
        && distance >= -EPSILON
        && u >= -EPSILON
        && u <= 1.0 + EPSILON
        && v >= -EPSILON
        && v <= 1.0 + EPSILON
        && (u + v) <= 1.0 + EPSILON
    {
        if distance < 0.0 {
            distance = 0.0;
        }
        return Some((distance, u.clamp(0.0, 1.0), v.clamp(0.0, 1.0)));
    }
    None
}

#[test]
fn the_tolerance_is_the_nearest_number_to_a_hundred_thousandth() {
    assert_eq!(EPSILON_BITS, 1e-5f32.to_bits());
    assert_eq!(MINUS_EPSILON_BITS, (-1e-5f32).to_bits());
    assert_eq!(ONE_BITS, 1.0f32.to_bits());
    assert_eq!(ONE_PLUS_EPSILON_BITS, (1.0f32 + 1e-5f32).to_bits());
    assert_eq!(MARGIN_BITS, 0.001f32.to_bits());
}

#[test]
fn a_hit_inside_the_triangle_is_taken_as_it_is() {
    assert_eq!(Triangle::intersects(&hit(2.5, 0.25, 0.5), &miss()), Some(hit(2.5, 0.25, 0.5)));
}

#[test]
fn a_hit_on_the_reversed_triangle_has_its_weights_exchanged() {
    assert_eq!(Triangle::intersects(&miss(), &hit(2.5, 0.25, 0.5)), Some(hit(2.5, 0.5, 0.25)));
}

#[test]
fn the_first_report_goes_before_the_second() {
    assert_eq!(Triangle::intersects(&hit(1.0, 0.1, 0.2), &hit(3.0, 0.3, 0.4)), Some(hit(1.0, 0.1, 0.2)));
}

#[test]
fn two_misses_are_a_miss() {
    assert_eq!(Triangle::intersects(&miss(), &miss()), None);
    assert_eq!(Triangle::intersects(&hit(f32::NAN, 0.1, 0.1), &hit(1.0, f32::NAN, 0.1)), None);
    assert_eq!(Triangle::intersects(&hit(1.0, 0.1, f32::NAN), &hit(f32::NEG_INFINITY, 0.1, 0.1)), None);
}

#[test]
fn a_hit_is_found_whichever_way_the_triangle_winds() {
    let reports = [hit(2.0, 0.3, 0.3), miss(), hit(1.0, 1.5, 0.0), hit(4.0, 0.0, 1.0), hit(-1.0, 0.2, 0.2)];
    for a in reports {
        for b in reports {
            let one = Triangle::intersects(&a, &b);
            let other = Triangle::intersects(&b, &a);
            assert_eq!(one.is_some(), other.is_some());
            if a.accept() != b.accept() {
                let one = one.unwrap();
                let other = other.unwrap();
                assert_eq!(one.distance, other.distance);
                assert_eq!(one.u, other.v);
                assert_eq!(one.v, other.u);
            }
        }
    }
}

#[test]
fn a_hit_on_the_border_is_accepted() {
    assert_eq!(Triangle::intersects(&hit(1.0, 0.0, 0.5), &miss()), Some(hit(1.0, 0.0, 0.5)));
    assert_eq!(Triangle::intersects(&hit(1.0, 0.5, 0.0), &miss()), Some(hit(1.0, 0.5, 0.0)));
    assert_eq!(Triangle::intersects(&hit(1.0, 0.25, 0.75), &miss()), Some(hit(1.0, 0.25, 0.75)));
    assert_eq!(Triangle::intersects(&hit(1.0, 0.0, 0.0), &miss()), Some(hit(1.0, 0.0, 0.0)));
    assert_eq!(Triangle::intersects(&hit(1.0, 1.0, 0.0), &miss()), Some(hit(1.0, 1.0, 0.0)));
    assert_eq!(Triangle::intersects(&hit(1.0, 0.0, 1.0), &miss()), Some(hit(1.0, 0.0, 1.0)));
    assert_eq!(Triangle::intersects(&hit(0.0, 0.5, 0.5), &miss()), Some(hit(0.0, 0.5, 0.5)));
}

#[test]
fn a_hit_within_the_tolerance_is_brought_onto_the_triangle() {
    assert_eq!(Triangle::intersects(&hit(-5e-6, -5e-6, 0.5), &miss()), Some(hit(0.0, 0.0, 0.5)));
    assert_eq!(Triangle::intersects(&hit(1.0, 1.000005, -5e-6), &miss()), Some(hit(1.0, 1.0, 0.0)));
    assert_eq!(Triangle::intersects(&hit(1.0, -1e-5, 1.00001), &miss()), Some(hit(1.0, 0.0, 1.0)));
}

#[test]
fn a_hit_beyond_the_tolerance_is_refused() {
    assert_eq!(Triangle::intersects(&hit(-2e-5, 0.2, 0.2), &miss()), None);
    assert_eq!(Triangle::intersects(&hit(1.0, -2e-5, 0.2), &miss()), None);
    assert_eq!(Triangle::intersects(&hit(1.0, 0.2, -2e-5), &miss()), None);
    assert_eq!(Triangle::intersects(&hit(1.0, 1.00002, 0.0), &miss()), None);
    assert_eq!(Triangle::intersects(&hit(1.0, 0.0, 1.00002), &miss()), None);
    assert_eq!(Triangle::intersects(&hit(1.0, 0.6, 0.40002), &miss()), None);
    assert_eq!(Triangle::intersects(&hit(f32::INFINITY, 0.2, 0.2), &miss()), None);
}

#[test]
fn the_test_agrees_with_floating_point_on_a_grid_of_reports() {
    let steps: Vec<f32> = (-4..=36).map(|i| i as f32 / 32.0).collect();
    let distances = [-1.0f32, -1e-5, -5e-6, 0.0, 0.5, 7.0, f32::INFINITY];
    for &distance in &distances {
        for &u in &steps {
            for &v in &steps {
                let ours = Triangle::intersects(&hit(distance, u, v), &miss());
                let theirs = reference((distance, u, v)).map(|(d, u, v)| hit(d, u, v));
                assert_eq!(ours, theirs, "{distance} {u} {v}");
            }
        }
    }
}

#[test]
fn the_sum_of_the_weights_is_rounded_as_addition_rounds_it() {
    let bound = 1.0f32 + 1e-5f32;
    let below = f32::from_bits(bound.to_bits() - 1);
    let above = f32::from_bits(bound.to_bits() + 1);
    let least = f32::from_bits(1);
    let values: Vec<f32> = vec![
        0.0, -0.0, 1.0, 0.5, 0.25, 0.75, 1e-5, -1e-5, bound, below, above, least, -least, 0.3, 0.7, 0.1,
        0.9, 1e-3, 5.9604645e-8, 1.1920929e-7, 0.50000006, 0.5000101,
    ];
    for &a in &values {
        for &b in &values {
            let ours = Triangle::intersects(&hit(1.0, a, b), &miss());
            let theirs = reference((1.0, a, b)).map(|(d, u, v)| hit(d, u, v));
            assert_eq!(ours, theirs, "{a:e} + {b:e}");
        }
    }
    assert!(hit(1.0, bound, least).accept());
    assert!(hit(1.0, 0.5, f32::from_bits(0.5f32.to_bits() + 168)).accept());
    assert!(!hit(1.0, 0.5, f32::from_bits(0.5f32.to_bits() + 170)).accept());
}

#[test]
fn the_test_agrees_with_floating_point_on_random_reports() {
    let mut state: u64 = 0xacce_55ed;
    let mut next = move || {
        state = state.wrapping_mul(6364136223846793005).wrapping_add(1442695040888963407);
        (state >> 32) as u32
    };
    for round in 0..1_000_000 {
        let mut number = |wide: bool| {
            if wide {
                f32::from_bits(next())
            } else {
                f32::from_bits((next() & 0x807f_ffff) | ((96 + next() % 33) << 23))
            }
        };
        let raw = (number(round % 5 == 0), number(round % 7 == 0), number(round % 11 == 0));
        let ours = Triangle::intersects(&hit(raw.0, raw.1, raw.2), &miss());
        let theirs = reference(raw).map(|(d, u, v)| hit(d, u, v));
        assert_eq!(ours, theirs, "{raw:?}");
    }
}

#[test]
fn reports_that_mirror_each_other_give_hits_that_mirror_each_other() {
    let reports = [hit(2.0, 0.3, 0.5), hit(0.0, 0.0, 1.0), hit(-5e-6, 1.000005, -5e-6), hit(1.0, 0.9, 0.9), miss()];
    for a in reports {
        let mirrored = Intersection { distance: a.distance, u: a.v, v: a.u };
        let one = Triangle::intersects(&a, &mirrored);
        let other = Triangle::intersects(&mirrored, &a);
        assert_eq!(one.is_some(), other.is_some());
        if let (Some(one), Some(other)) = (one, other) {
            assert_eq!(one.distance, other.distance);
            assert_eq!(one.u, other.v);
            assert_eq!(one.v, other.u);
        }
    }
}
