//! The integer grid, and how a number is brought onto it.
//!
//! A grid coordinate is a position divided by the resolution, as binary32
//! division gives it, and then rounded to the nearest integer, a tie going
//! away from zero.
use crate::scalar::{lemma_scaled_division, power_of_two, Scalar};
use crate::vector::Vector3;
use vstd::arithmetic::div_mod::*;
use vstd::arithmetic::power2::*;
use vstd::prelude::*;

verus! {

/// A cell of the grid.
#[derive(Clone, Copy, Debug, PartialEq, Eq, Structural)]
pub struct GridCoord {
    pub x: i32,
    pub y: i32,
    pub z: i32,
}

/// A cell and the colour it carries, as red, green, blue and alpha.
pub type Voxel = (GridCoord, [u8; 4]);

/// The largest whole part that is told apart from larger ones: `2^32`.
pub const WHOLE_CAP: u64 = 0x1_0000_0000;

/// `n / d` rounded down, for a positive `d`.
pub open spec fn floor_div(n: int, d: int) -> int {
    n / d
}

/// `n / d` rounded up, for a positive `d`.
pub open spec fn ceil_div(n: int, d: int) -> int {
    -((-n) / d)
}

/// `n / d` rounded to the nearest integer, a tie going away from zero, for a
/// positive `d`.
pub open spec fn round_half_away(n: int, d: int) -> int {
    if n >= 0 {
        (2 * n + d) / (2 * d)
    } else {
        -((2 * (-n) + d) / (2 * d))
    }
}

/// The nearest value that an `i32` holds.
pub open spec fn saturate(x: int) -> i32 {
    if x < i32::MIN {
        i32::MIN
    } else if x > i32::MAX {
        i32::MAX
    } else {
        x as i32
    }
}

/// The roundings of `n / d`, read off the quotient and the remainder.
pub proof fn lemma_roundings_by_remainder(n: int, d: int)
    requires
        0 <= n,
        0 < d,
    ensures
        floor_div(-n, d) == (if n % d == 0 { -(n / d) } else { -(n / d) - 1 }),
        ceil_div(n, d) == (if n % d == 0 { n / d } else { n / d + 1 }),
        ceil_div(-n, d) == -(n / d),
        round_half_away(n, d) == (if 2 * (n % d) >= d { n / d + 1 } else { n / d }),
        round_half_away(-n, d) == -round_half_away(n, d),
{
    let q = n / d;
    let r = n % d;
    lemma_fundamental_div_mod(n, d);
    lemma_mod_pos_bound(n, d);
    assert(d * q == q * d) by (nonlinear_arith);
    if r == 0 {
        assert(-n == (-q) * d + 0) by (nonlinear_arith)
            requires
                n == q * d,
        ;
        lemma_fundamental_div_mod_converse(-n, d, -q, 0);
    } else {
        assert(-n == (-q - 1) * d + (d - r)) by (nonlinear_arith)
            requires
                n == q * d + r,
        ;
        lemma_fundamental_div_mod_converse(-n, d, -q - 1, d - r);
    }
    if 2 * r >= d {
        assert(2 * n + d == (q + 1) * (2 * d) + (2 * r - d)) by (nonlinear_arith)
            requires
                n == q * d + r,
        ;
        lemma_fundamental_div_mod_converse(2 * n + d, 2 * d, q + 1, 2 * r - d);
    } else {
        assert(2 * n + d == q * (2 * d) + (2 * r + d)) by (nonlinear_arith)
            requires
                n == q * d + r,
        ;
        lemma_fundamental_div_mod_converse(2 * n + d, 2 * d, q, 2 * r + d);
    }
    if n == 0 {
        lemma_basic_div(d, 2 * d);
    }
}

/// The rounded quotient is a nearest integer, and a tie goes away from zero:
/// `q = round_half_away(n, d)` lies within one half of `n / d`; where it lies
/// exactly one half above, `n` is positive, and where it lies exactly one half
/// below, `n` is negative.
pub proof fn lemma_round_half_away_is_nearest(n: int, d: int)
    requires
        0 < d,
    ensures
        -d <= 2 * (n - round_half_away(n, d) * d) <= d,
        2 * (n - round_half_away(n, d) * d) == -d ==> n > 0,
        2 * (n - round_half_away(n, d) * d) == d ==> n < 0,
{
    let m = if n >= 0 { n } else { -n };
    let q = m / d;
    let r = m % d;
    lemma_roundings_by_remainder(m, d);
    lemma_fundamental_div_mod(m, d);
    lemma_mod_pos_bound(m, d);
    let up = round_half_away(m, d);
    assert(m - up * d == (if 2 * r >= d { r - d } else { r })) by (nonlinear_arith)
        requires
            m == d * q + r,
            up == (if 2 * r >= d { q + 1 } else { q }),
    ;
    if n < 0 {
        assert(n - (-up) * d == -(m - up * d)) by (nonlinear_arith)
            requires
                n == -m,
        ;
    }
}

/// The integer that a number is brought to where it is none itself: zero for
/// a NaN, the nearest end of the range for an infinity.
pub open spec fn non_finite_cell(q: Scalar) -> i32 {
    if q.is_nan() {
        0
    } else if q.is_negative() {
        i32::MIN
    } else {
        i32::MAX
    }
}

impl Scalar {
    /// The number rounded to the nearest integer, a tie going away from zero,
    /// and brought into the range of `i32`.
    pub open spec fn rounded(self) -> i32 {
        if self.is_finite() {
            saturate(round_half_away(self.units(), pow2(149) as int))
        } else {
            non_finite_cell(self)
        }
    }

    /// The number rounded down and brought into the range of `i32`.
    pub open spec fn floored(self) -> i32 {
        if self.is_finite() {
            saturate(floor_div(self.units(), pow2(149) as int))
        } else {
            non_finite_cell(self)
        }
    }

    /// The number rounded up and brought into the range of `i32`.
    pub open spec fn ceiled(self) -> i32 {
        if self.is_finite() {
            saturate(ceil_div(self.units(), pow2(149) as int))
        } else {
            non_finite_cell(self)
        }
    }

    /// The number with what follows the point cut off, brought into the range
    /// of `u32`: zero for a NaN and for a negative number.
    pub open spec fn truncated(self) -> u32 {
        if self.is_nan() || self.is_negative() {
            0
        } else if !self.is_finite() || self.abs_units() / pow2(149) > u32::MAX {
            u32::MAX
        } else {
            (self.abs_units() / pow2(149)) as u32
        }
    }

    /// The whole part of the magnitude, capped at `2^32`, with whether
    /// anything follows the point and whether that is at least one half. The
    /// two flags are told only below the cap.
    fn whole_part(self) -> (out: (u64, bool, bool))
        requires
            self.is_finite(),
        ensures
            ({
                let n = self.abs_units() as int;
                let d = pow2(149) as int;
                &&& d > 0
                &&& out.0 == (if n / d < WHOLE_CAP { n / d } else { WHOLE_CAP as int })
                &&& n / d < WHOLE_CAP ==> out.1 == (n % d != 0) && out.2 == (2 * (n % d) >= d)
            }),
    {
        let (s, l) = self.decompose();
        let ghost n = self.abs_units() as int;
        let ghost d = pow2(149) as int;
        proof {
            lemma2_to64();
            lemma2_to64_rest();
            lemma_pow2_pos(l as nat);
            lemma_pow2_pos(149);
        }
        if s == 0 {
            proof {
                assert(n == 0) by (nonlinear_arith)
                    requires
                        n == s * pow2(l as nat),
                        s == 0,
                ;
                lemma_basic_div(0, d);
                lemma_small_mod(0, d as nat);
            }
            return (0, false, false);
        }
        if l >= 149 {
            let k: u32 = l - 149;
            proof {
                let whole = pow2(k as nat) as int;
                lemma_pow2_adds(k as nat, 149);
                lemma_pow2_pos(k as nat);
                assert(n == d * (s * whole)) by (nonlinear_arith)
                    requires
                        n == s * (whole * d),
                ;
                lemma_div_multiples_vanish(s * whole, d);
                lemma_fundamental_div_mod_converse(n, d, s * whole, 0);
                if k >= 9 {
                    if k > 9 {
                        lemma_pow2_strictly_increases(9, k as nat);
                    }
                    assert(s * whole >= 0x1_0000_0000) by (nonlinear_arith)
                        requires
                            s >= 0x80_0000,
                            whole >= 512,
                    ;
                } else {
                    lemma_pow2_strictly_increases(k as nat, 9);
                    assert(s * whole < 0x2_0000_0000) by (nonlinear_arith)
                        requires
                            0 <= s < 0x100_0000,
                            0 < whole < 512,
                    ;
                }
            }
            if k >= 9 {
                return (WHOLE_CAP, false, false);
            }
            let whole: u64 = s as u64 * power_of_two(k);
            return (if whole < WHOLE_CAP { whole } else { WHOLE_CAP }, false, false);
        }
        let shift: u32 = 149 - l;
        proof {
            let cut = pow2(shift as nat) as int;
            let common = pow2(l as nat) as int;
            lemma_pow2_adds(shift as nat, l as nat);
            lemma_pow2_pos(shift as nat);
            assert(n == s * common && d == cut * common);
            lemma_scaled_division(s as int, cut, common);
            assert((2 * ((s as int % cut) * common) >= cut * common) == (2 * (s as int % cut)
                >= cut)) by (nonlinear_arith)
                requires
                    common > 0,
            ;
            assert((((s as int % cut) * common) != 0) == (s as int % cut != 0))
                by (nonlinear_arith)
                requires
                    common > 0,
            ;
            if shift >= 26 {
                if shift > 26 {
                    lemma_pow2_strictly_increases(26, shift as nat);
                }
                lemma_basic_div(s as int, cut);
                lemma_small_mod(s as nat, cut as nat);
            }
        }
        if shift >= 26 {
            return (0, true, false);
        }
        let cut: u64 = power_of_two(shift);
        let whole: u64 = s as u64 / cut;
        let rest: u64 = s as u64 % cut;
        (whole, rest != 0, 2 * rest >= cut)
    }

    /// A magnitude with its sign, brought into the range of `i32`.
    fn signed_saturate(negative: bool, magnitude: u64) -> (c: i32)
        requires
            magnitude <= WHOLE_CAP + 1,
        ensures
            c == saturate(if negative { -(magnitude as int) } else { magnitude as int }),
    {
        if negative {
            if magnitude >= 0x8000_0000 {
                i32::MIN
            } else {
                -(magnitude as i32)
            }
        } else {
            if magnitude >= 0x7fff_ffff {
                i32::MAX
            } else {
                magnitude as i32
            }
        }
    }

    fn non_finite(self) -> (c: i32)
        requires
            !self.is_finite(),
        ensures
            c == non_finite_cell(self),
    {
        if self.nan() {
            0
        } else if self.negative() {
            i32::MIN
        } else {
            i32::MAX
        }
    }

    /// The number rounded to the nearest integer, a tie going away from zero.
    pub fn round(self) -> (c: i32)
        ensures
            c == self.rounded(),
    {
        if !self.finite() {
            return self.non_finite();
        }
        let (whole, _rest, half) = self.whole_part();
        proof {
            lemma_roundings_by_remainder(self.abs_units() as int, pow2(149) as int);
        }
        let magnitude: u64 = if half && whole < WHOLE_CAP {
            whole + 1
        } else {
            whole
        };
        Scalar::signed_saturate(self.negative(), magnitude)
    }

    /// The number rounded down.
    pub fn floor(self) -> (c: i32)
        ensures
            c == self.floored(),
    {
        if !self.finite() {
            return self.non_finite();
        }
        let (whole, rest, _half) = self.whole_part();
        proof {
            lemma_roundings_by_remainder(self.abs_units() as int, pow2(149) as int);
        }
        let negative = self.negative();
        let magnitude: u64 = if negative && rest && whole < WHOLE_CAP {
            whole + 1
        } else {
            whole
        };
        Scalar::signed_saturate(negative, magnitude)
    }

    /// The number rounded up.
    pub fn ceil(self) -> (c: i32)
        ensures
            c == self.ceiled(),
    {
        if !self.finite() {
            return self.non_finite();
        }
        let (whole, rest, _half) = self.whole_part();
        proof {
            lemma_roundings_by_remainder(self.abs_units() as int, pow2(149) as int);
        }
        let negative = self.negative();
        let magnitude: u64 = if !negative && rest && whole < WHOLE_CAP {
            whole + 1
        } else {
            whole
        };
        Scalar::signed_saturate(negative, magnitude)
    }

    /// The number with what follows the point cut off, as a `u32`.
    pub fn truncate(self) -> (c: u32)
        ensures
            c == self.truncated(),
    {
        if self.nan() || self.negative() {
            return 0;
        }
        if !self.finite() {
            return u32::MAX;
        }
        let (whole, _rest, _half) = self.whole_part();
        if whole >= WHOLE_CAP {
            u32::MAX
        } else {
            whole as u32
        }
    }
}

/// The rounding of a finite number below `2^24` in magnitude can be read off
/// its significand `n` and its lift: the number is `n / d` for the power of
/// two `d` that the lift leaves of `2^149`, and its rounding `q` lies within
/// half of `d` of `n`, a tie going away from zero.
pub proof fn lemma_rounded_by_parts(x: Scalar)
    requires
        x.is_finite(),
        x.lift() <= 149,
    ensures
        ({
            let n = if x.is_negative() { -(x.significand() as int) } else { x.significand() as int };
            let d = pow2((149 - x.lift()) as nat) as int;
            let q = round_half_away(n, d);
            &&& d > 0
            &&& x.rounded() == saturate(q)
            &&& -d <= 2 * (n - q * d) <= d
            &&& 2 * (n - q * d) == -d ==> n > 0
            &&& 2 * (n - q * d) == d ==> n < 0
        }),
{
    let m = x.significand() as int;
    let d = pow2((149 - x.lift()) as nat) as int;
    let c = pow2(x.lift()) as int;
    let n = if x.is_negative() { -m } else { m };
    lemma_pow2_pos(x.lift());
    lemma_pow2_pos((149 - x.lift()) as nat);
    lemma_pow2_adds((149 - x.lift()) as nat, x.lift());
    lemma_scaled_division(m, d, c);
    lemma_roundings_by_remainder(m, d);
    assert(m * c >= 0 && d * c > 0) by (nonlinear_arith)
        requires
            m >= 0,
            d > 0,
            c > 0,
    ;
    lemma_roundings_by_remainder(m * c, d * c);
    assert((2 * ((m % d) * c) >= d * c) == (2 * (m % d) >= d)) by (nonlinear_arith)
        requires
            c > 0,
    ;
    lemma_round_half_away_is_nearest(n, d);
}

/// The cell of a coordinate at a resolution: the quotient of the two, rounded
/// to the nearest integer, a tie going away from zero.
pub open spec fn nearest_cell(p: Scalar, r: Scalar) -> i32 {
    p.over(r).rounded()
}

/// The cell of a position: each coordinate divided by the resolution and
/// rounded to the nearest integer, a tie going away from zero.
pub open spec fn cell_of(pos: Vector3, resolution: Scalar) -> GridCoord {
    GridCoord {
        x: nearest_cell(pos.x, resolution),
        y: nearest_cell(pos.y, resolution),
        z: nearest_cell(pos.z, resolution),
    }
}

/// The cell that a position falls into at the given resolution.
pub fn voxel(pos: &Vector3, resolution: Scalar) -> (cell: GridCoord)
    ensures
        cell == cell_of(*pos, resolution),
{
    GridCoord {
        x: pos.x.div(resolution).round(),
        y: pos.y.div(resolution).round(),
        z: pos.z.div(resolution).round(),
    }
}

} // verus!
