use voxels::grid::{voxel, GridCoord};
use voxels::scalar::Scalar;
use voxels::vector::Vector3;

fn s(x: f32) -> Scalar {
    Scalar::from_bits(x.to_bits())
}

struct Random(u64);

impl Random {
    fn next(&mut self) -> u32 {
        self.0 = self.0.wrapping_mul(6364136223846793005).wrapping_add(1442695040888963407);
        (self.0 >> 32) as u32
    }

    /// A number of moderate size, of either sign.
    fn number(&mut self) -> f32 {
        let exponent = 100 + self.next() % 60;
        f32::from_bits((self.next() & 0x807f_ffff) | (exponent << 23))
    }
}

fn cell(p: f32, r: f32) -> i32 {
    s(p).div(s(r)).round()
}

#[test]
fn half_rounds_away_from_zero() {
    assert_eq!(cell(0.5, 1.0), 1);
    assert_eq!(cell(-0.5, 1.0), -1);
    assert_eq!(cell(1.5, 1.0), 2);
    assert_eq!(cell(-1.5, 1.0), -2);
    assert_eq!(cell(2.5, 1.0), 3);
    assert_eq!(cell(0.25, 0.5), 1);
    assert_eq!(cell(-0.25, 0.5), -1);
    assert_eq!(s(0.5).round(), 1);
    assert_eq!(s(-0.5).round(), -1);
    assert_eq!(s(0.49999997).round(), 0);
    assert_eq!(s(-0.49999997).round(), 0);
}

#[test]
fn the_quotient_is_rounded_before_the_cell_is() {
    // the quotient of the two numbers nearest to 0.35 and 0.1 lies just below
    // 3.5; division gives 3.5, and 3.5 rounds to 4
    assert_eq!(s(0.35).div(s(0.1)), s(3.5));
    assert_eq!(cell(0.35, 0.1), 4);
    assert_eq!(s(0.15).div(s(0.1)), s(1.5));
    assert_eq!(cell(0.15, 0.1), 2);
    assert_eq!(cell(-0.15, 0.1), -2);
    assert_eq!(cell(0.3, 0.1), 3);
    assert_eq!(cell(1.0, 3.0), 0);
    assert_eq!(cell(2.0, 3.0), 1);
}

#[test]
fn rounding_agrees_with_the_machine() {
    let mut bits: u32 = 0;
    let mut checked = 0u32;
    loop {
        let x = f32::from_bits(bits);
        assert_eq!(s(x).round(), x.round() as i32, "{x:e}");
        assert_eq!(s(x).floor(), x.floor() as i32, "{x:e}");
        assert_eq!(s(x).ceil(), x.ceil() as i32, "{x:e}");
        assert_eq!(s(x).truncate(), x as u32, "{x:e}");
        checked += 1;
        match bits.checked_add(0x0000_13ff) {
            Some(next) => bits = next,
            None => break,
        }
    }
    assert!(checked > 800_000);
    for x in [0.0f32, -0.0, 0.5, -0.5, 1.5, 2147483520.0, 2147483648.0, -2147483648.0, -2147483904.0, 4294967040.0, 4294967296.0, f32::MAX, f32::MIN, f32::INFINITY, f32::NEG_INFINITY, f32::NAN, 8388607.5, 8388608.5, -8388607.5, 16777215.0] {
        assert_eq!(s(x).round(), x.round() as i32, "{x:e}");
        assert_eq!(s(x).floor(), x.floor() as i32, "{x:e}");
        assert_eq!(s(x).ceil(), x.ceil() as i32, "{x:e}");
        assert_eq!(s(x).truncate(), x as u32, "{x:e}");
    }
}

#[test]
fn cells_agree_with_the_machine() {
    let mut random = Random(0x1234_5678_9abc_def0);
    for round in 0..1_000_000 {
        let p = if round % 4 == 0 { f32::from_bits(random.next()) } else { random.number() };
        let r = if round % 7 == 0 { f32::from_bits(random.next()) } else { random.number().abs() };
        assert_eq!(cell(p, r), (p / r).round() as i32, "{p:e} / {r:e}");
        assert_eq!(s(p).div(s(r)).floor(), (p / r).floor() as i32, "{p:e} / {r:e}");
        assert_eq!(s(p).div(s(r)).ceil(), (p / r).ceil() as i32, "{p:e} / {r:e}");
    }
}

#[test]
fn quotients_beyond_the_integers_are_brought_to_the_nearest_end() {
    assert_eq!(cell(3e9, 1.0), i32::MAX);
    assert_eq!(cell(-3e9, 1.0), i32::MIN);
    assert_eq!(cell(1.0, 1e-30), i32::MAX);
    assert_eq!(cell(-1.0, 1e-30), i32::MIN);
    assert_eq!(cell(f32::MAX, f32::from_bits(1)), i32::MAX);
    assert_eq!(cell(f32::MAX, f32::MAX), 1);
    assert_eq!(cell(f32::INFINITY, f32::MAX), i32::MAX);
    assert_eq!(cell(f32::NEG_INFINITY, 1.0), i32::MIN);
    assert_eq!(cell(f32::NAN, 1.0), 0);
    assert_eq!(cell(1.0, 0.0), i32::MAX);
    assert_eq!(cell(-1.0, 0.0), i32::MIN);
    assert_eq!(cell(0.0, 0.0), 0);
    assert_eq!(cell(1.0, -1.0), -1);
    assert_eq!(cell(2147483520.0, 1.0), 2147483520);
    assert_eq!(cell(2147483648.0, 1.0), i32::MAX);
    assert_eq!(cell(-2147483648.0, 1.0), i32::MIN);
}

#[test]
fn voxel_rounds_each_coordinate() {
    let p = Vector3 { x: s(0.4), y: s(-2.6), z: s(7.5) };
    assert_eq!(voxel(&p, s(1.0)), GridCoord { x: 0, y: -3, z: 8 });
    assert_eq!(voxel(&p, s(0.5)), GridCoord { x: 1, y: -5, z: 15 });
    let mut random = Random(0xfeed_beef);
    for _ in 0..100_000 {
        let (x, y, z, r) = (random.number(), random.number(), random.number(), random.number().abs());
        let expected = GridCoord {
            x: (x / r).round() as i32,
            y: (y / r).round() as i32,
            z: (z / r).round() as i32,
        };
        assert_eq!(voxel(&Vector3 { x: s(x), y: s(y), z: s(z) }, s(r)), expected);
    }
}
