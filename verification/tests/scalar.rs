use voxels::scalar::Scalar;
use voxels::vector::Vector3;

fn s(x: f32) -> Scalar {
    Scalar::from_bits(x.to_bits())
}

fn f(x: Scalar) -> f32 {
    f32::from_bits(x.to_bits())
}

fn samples() -> Vec<f32> {
    let mut out = vec![
        0.0,
        -0.0,
        1.0,
        -1.0,
        0.5,
        -0.5,
        1e-5,
        -1e-5,
        1.00001,
        f32::MIN_POSITIVE,
        -f32::MIN_POSITIVE,
        f32::from_bits(1),
        f32::from_bits(0x8000_0001),
        f32::from_bits(0x007f_ffff),
        f32::MAX,
        f32::MIN,
        f32::INFINITY,
        f32::NEG_INFINITY,
        f32::NAN,
        f32::from_bits(0xffc0_0001),
        3.25,
        -7.75,
        123456.78,
        -0.000123,
    ];
    let mut bits: u32 = 0x0123_4567;
    for _ in 0..200 {
        bits = bits.wrapping_mul(1664525).wrapping_add(1013904223);
        out.push(f32::from_bits(bits));
    }
    out
}

#[test]
fn classification_agrees_with_the_machine() {
    for x in samples() {
        assert_eq!(s(x).finite(), x.is_finite(), "{x}");
        assert_eq!(s(x).nan(), x.is_nan(), "{x}");
        assert_eq!(s(x).negative(), x.is_sign_negative(), "{x}");
    }
}

#[test]
fn order_agrees_with_the_machine() {
    let all = samples();
    for &a in &all {
        for &b in &all {
            assert_eq!(s(a).less_than(s(b)), a < b, "{a} < {b}");
            assert_eq!(s(a).less_or_equal(s(b)), a <= b, "{a} <= {b}");
        }
    }
}

#[test]
fn min_and_max_take_the_second_where_the_first_does_not_compare() {
    let all = samples();
    for &a in &all {
        for &b in &all {
            let low = if a <= b { a } else { b };
            let high = if a >= b { a } else { b };
            assert_eq!(s(a).min(s(b)).to_bits(), low.to_bits(), "min {a} {b}");
            assert_eq!(s(a).max(s(b)).to_bits(), high.to_bits(), "max {a} {b}");
        }
    }
    assert_eq!(f(s(2.0).min(s(3.0))), 2.0);
    assert_eq!(f(s(2.0).max(s(3.0))), 3.0);
}

#[test]
fn clamp_agrees_with_the_machine() {
    for x in samples() {
        if x.is_nan() {
            continue;
        }
        assert_eq!(s(x).clamp(s(0.0), s(1.0)).to_bits(), x.clamp(0.0, 1.0).to_bits(), "{x}");
    }
    assert_eq!(f(s(-0.25).clamp(s(0.0), s(1.0))), 0.0);
    assert_eq!(f(s(1.25).clamp(s(0.0), s(1.0))), 1.0);
    assert_eq!(f(s(0.25).clamp(s(0.0), s(1.0))), 0.25);
}

#[test]
fn decompose_gives_the_value_back() {
    for x in samples() {
        if !x.is_finite() {
            continue;
        }
        let (significand, lift) = s(x).decompose();
        let value = significand as f64 * 2f64.powi(lift as i32 - 149);
        assert_eq!(value, x.abs() as f64, "{x}");
    }
}

#[test]
fn positive_is_finite_and_above_zero() {
    for x in samples() {
        assert_eq!(s(x).positive(), x.is_finite() && x > 0.0, "{x}");
    }
}

#[test]
fn inf_and_sup_work_axis_by_axis() {
    let a = Vector3 { x: s(1.0), y: s(5.0), z: s(-2.0) };
    let b = Vector3 { x: s(3.0), y: s(4.0), z: s(-2.5) };
    assert_eq!(a.inf(&b), Vector3 { x: s(1.0), y: s(4.0), z: s(-2.5) });
    assert_eq!(a.sup(&b), Vector3 { x: s(3.0), y: s(5.0), z: s(-2.0) });
    assert!(a.finite());
    assert!(!Vector3 { x: s(1.0), y: s(f32::INFINITY), z: s(0.0) }.finite());
    assert_eq!(Vector3::repeat(1.0f32.to_bits()), Vector3 { x: s(1.0), y: s(1.0), z: s(1.0) });
}
