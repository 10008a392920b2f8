use voxels::scalar::Scalar;

fn s(x: f32) -> Scalar {
    Scalar::from_bits(x.to_bits())
}

struct Random(u64);

impl Random {
    fn next(&mut self) -> u32 {
        self.0 = self.0.wrapping_mul(6364136223846793005).wrapping_add(1442695040888963407);
        (self.0 >> 32) as u32
    }

    /// Any finite number: now and then a zero, a subnormal or one near the ends.
    fn finite(&mut self) -> f32 {
        let kind = self.next() % 16;
        let bits = match kind {
            0 => self.next() & 0x807f_ffff,
            1 => (self.next() & 0x807f_ffff) | 0x7f00_0000,
            2 => (self.next() & 0x8000_0000) | (self.next() % 4),
            3 => (self.next() & 0x80ff_ffff) | 0x3f00_0000,
            _ => self.next(),
        };
        let x = f32::from_bits(bits);
        if x.is_finite() {
            x
        } else {
            f32::from_bits(bits & 0xbfff_ffff)
        }
    }

    /// A finite number not far from the given one in size.
    fn near(&mut self, x: f32) -> f32 {
        let bits = x.to_bits();
        let exponent = ((bits >> 23) & 0xff) as i32 + (self.next() % 64) as i32 - 32;
        let exponent = exponent.clamp(0, 254) as u32;
        f32::from_bits((self.next() & 0x807f_ffff) | (exponent << 23))
    }
}

#[test]
fn addition_of_finite_numbers_agrees_with_the_machine() {
    let mut random = Random(0x5eed_0011);
    for _ in 0..1_000_000 {
        let x = random.finite();
        let y = random.finite();
        assert_eq!(s(x).add(s(y)).to_bits(), (x + y).to_bits(), "{x:e} + {y:e}");
    }
    for _ in 0..2_000_000 {
        let x = random.finite();
        let y = random.near(x);
        assert_eq!(s(x).add(s(y)).to_bits(), (x + y).to_bits(), "{x:e} + {y:e}");
        assert_eq!(s(x).add(s(-x)).to_bits(), (x + -x).to_bits(), "{x:e} - {x:e}");
    }
}

#[test]
fn addition_of_chosen_numbers_agrees_with_the_machine() {
    let numbers = [
        0.0f32,
        -0.0,
        1.0,
        -1.0,
        0.1,
        0.2,
        0.7,
        1e-5,
        -1e-5,
        1.00001,
        f32::MAX,
        f32::MIN,
        f32::MIN_POSITIVE,
        -f32::MIN_POSITIVE,
        f32::from_bits(1),
        f32::from_bits(0x8000_0001),
        f32::from_bits(0x007f_ffff),
        f32::from_bits(0x0080_0001),
        f32::from_bits(0x7f7f_fffe),
        16777216.0,
        -16777215.0,
        5.9604645e-8,
        2.9802322e-8,
        8.940697e-8,
        4294967296.0,
        1e30,
        -1e30,
        1e-30,
    ];
    for &x in &numbers {
        for &y in &numbers {
            assert_eq!(s(x).add(s(y)).to_bits(), (x + y).to_bits(), "{x:e} + {y:e}");
        }
    }
}

fn same(ours: Scalar, theirs: f32) -> bool {
    if theirs.is_nan() {
        ours.nan()
    } else {
        ours.to_bits() == theirs.to_bits()
    }
}

fn specials() -> Vec<f32> {
    vec![
        0.0,
        -0.0,
        1.0,
        -1.0,
        2.5,
        -0.1,
        f32::MAX,
        f32::MIN,
        f32::MIN_POSITIVE,
        f32::from_bits(1),
        f32::from_bits(0x8000_0001),
        f32::INFINITY,
        f32::NEG_INFINITY,
        f32::NAN,
        -f32::NAN,
        1e-30,
        1e30,
    ]
}

#[test]
fn the_four_operations_agree_with_the_machine_on_chosen_numbers() {
    for &x in &specials() {
        for &y in &specials() {
            assert!(same(s(x).add(s(y)), x + y), "{x:e} + {y:e}");
            assert!(same(s(x).sub(s(y)), x - y), "{x:e} - {y:e}");
            assert!(same(s(x).mul(s(y)), x * y), "{x:e} * {y:e}");
            assert!(same(s(x).div(s(y)), x / y), "{x:e} / {y:e}");
        }
        assert!(same(s(x).neg(), -x), "-{x:e}");
    }
}

#[test]
fn the_four_operations_agree_with_the_machine_on_random_numbers() {
    let mut random = Random(0x5eed_0012);
    for round in 0..1_000_000 {
        let x = f32::from_bits(random.next());
        let y = if round % 2 == 0 { f32::from_bits(random.next()) } else { random.near(x) };
        assert!(same(s(x).add(s(y)), x + y), "{x:e} + {y:e}");
        assert!(same(s(x).sub(s(y)), x - y), "{x:e} - {y:e}");
        assert!(same(s(x).mul(s(y)), x * y), "{x:e} * {y:e}");
        assert!(same(s(x).div(s(y)), x / y), "{x:e} / {y:e}");
    }
}

#[test]
fn integers_of_either_sign_become_the_nearest_number() {
    let mut random = Random(0x5eed_0013);
    for _ in 0..1_000_000 {
        let i = (random.next() as i32) >> (random.next() % 32);
        assert_eq!(Scalar::from_i32(i).to_bits(), (i as f32).to_bits(), "{i}");
    }
    for i in [0, 1, -1, i32::MAX, i32::MIN, i32::MIN + 1, 16777217, -16777217, 16777219, -33554435] {
        assert_eq!(Scalar::from_i32(i).to_bits(), (i as f32).to_bits(), "{i}");
    }
}
