//! Binary32 arithmetic.
//!
//! Sum, difference, product and quotient of two binary32 numbers, each the
//! binary32 number nearest to the exact result, a tie going to the one whose
//! last bit is zero: the arithmetic of IEEE 754 in its default rounding.
//! Where the result is not a number, it is the one quiet NaN of `NAN_BITS`.
use crate::rounding::{
    has_last_place, infinity_units, is_last_place, last_place, lemma_last_place_is,
    lemma_rounded_units_scaled, lemma_rounds_zero, ratio_denominator, ratio_numerator,
    round_half_even, round_ratio, rounded_units, SIGNIFICAND_LIMIT,
};
use crate::scalar::{
    lemma_abs_units_increasing, lemma_zero_magnitude, Scalar, HIDDEN_BIT, INFINITY_BITS, SIGN_BIT,
};
use vstd::arithmetic::div_mod::*;
use vstd::arithmetic::power2::*;
use vstd::prelude::*;

verus! {

/// The bits of the NaN that arithmetic gives.
pub const NAN_BITS: u32 = 0x7fc0_0000;

/// `s` is the number, or the infinity, with the given sign and magnitude.
pub open spec fn is_made_of(s: Scalar, negative: bool, units: int) -> bool {
    !s.is_nan() && s.is_negative() == negative && s.abs_units() == units
}

/// The number, or the infinity, with the given sign and the given magnitude
/// in units of `2^-149`.
pub open spec fn made(negative: bool, units: int) -> Scalar {
    choose|s: Scalar| is_made_of(s, negative, units)
}

/// There is one number only with a given sign and magnitude.
pub proof fn lemma_made(s: Scalar, negative: bool, units: int)
    requires
        is_made_of(s, negative, units),
    ensures
        made(negative, units) == s,
{
    let other = made(negative, units);
    assert(is_made_of(other, negative, units));
    if other.magnitude() < s.magnitude() {
        lemma_abs_units_increasing(other, s);
    }
    if s.magnitude() < other.magnitude() {
        lemma_abs_units_increasing(s, other);
    }
    assert(other.bits == s.bits);
}

/// A finite number is its own rounding.
pub proof fn lemma_rounds_to_itself(s: Scalar)
    requires
        s.is_finite(),
    ensures
        has_last_place(s.abs_units() as int, 1),
        rounded_units(s.abs_units() as int, 1) == s.abs_units(),
{
    let n = s.abs_units() as int;
    let m = s.significand() as int;
    let t = s.lift();
    let pt = pow2(t) as int;
    lemma2_to64();
    lemma_pow2_pos(t);
    assert(n == pt * m) by (nonlinear_arith)
        requires
            n == m * pt,
    ;
    lemma_div_multiples_vanish(m, pt);
    lemma_fundamental_div_mod_converse(n, pt, m, 0);
    assert(1 * pt == pt);
    if t > 0 {
        let ps = pow2((t - 1) as nat) as int;
        lemma_pow2_pos((t - 1) as nat);
        lemma_pow2_unfold(t);
        assert(n == ps * (2 * m)) by (nonlinear_arith)
            requires
                n == m * pt,
                pt == 2 * ps,
        ;
        lemma_div_multiples_vanish(2 * m, ps);
        assert(1 * ps == ps);
    }
    assert(is_last_place(n, 1, t));
    lemma_last_place_is(n, 1, t);
    assert(round_half_even(n, pt) == m);
}

/// Division is exact where the quotient is a binary32 number: where `q * r`
/// is `p`, with the signs to match, `p / r` is `q`.
pub proof fn lemma_exact_quotient(p: Scalar, r: Scalar, q: Scalar)
    requires
        p.is_finite(),
        r.is_finite(),
        !r.is_zero(),
        q.is_finite(),
        q.abs_units() * r.abs_units() == p.abs_units() * pow2(149),
        q.is_negative() == (p.is_negative() != r.is_negative()),
    ensures
        p.over(r) == q,
{
    let whole = q.abs_units() as int;
    let divisor = r.abs_units() as int;
    let zero = Scalar { bits: 0 };
    lemma_zero_magnitude(zero);
    if zero.magnitude() < r.magnitude() {
        lemma_abs_units_increasing(zero, r);
    }
    lemma_rounds_to_itself(q);
    crate::rounding::lemma_last_place_scaled(whole, 1, divisor, last_place(whole, 1));
    assert(1 * divisor == divisor);
    lemma_rounded_units_scaled(whole, 1, divisor);
    lemma_made(q, q.is_negative(), whole);
}

/// A number divided by one is the number.
pub proof fn lemma_over_one(x: Scalar)
    requires
        !x.is_nan(),
    ensures
        x.over(Scalar { bits: crate::rounding::ONE_BITS }) == x,
{
    let one = Scalar { bits: crate::rounding::ONE_BITS };
    lemma2_to64();
    assert(one.significand() == HIDDEN_BIT && one.lift() == 126);
    lemma_pow2_adds(23, 126);
    if x.is_finite() {
        assert(x.abs_units() * one.abs_units() == x.abs_units() * pow2(149)) by (nonlinear_arith)
            requires
                one.abs_units() == pow2(149),
        ;
        lemma_exact_quotient(x, one, x);
    } else {
        lemma_made(x, x.is_negative(), infinity_units());
    }
}

/// A number far below the last place of another does not change it: the sum
/// and the difference of `m * 2^t` and `delta` round to `m * 2^t`, for a
/// significand `m` of twenty-four bits and a `delta` below `2^(t - 8)`.
proof fn lemma_negligible(m: int, t: nat, delta: int, n: int)
    requires
        HIDDEN_BIT <= m < SIGNIFICAND_LIMIT,
        8 <= t <= 253,
        0 < delta,
        delta * 256 < pow2(t),
        n == m * pow2(t) + delta || n == m * pow2(t) - delta,
    ensures
        has_last_place(n, 1),
        rounded_units(n, 1) == m * pow2(t),
{
    let pt = pow2(t) as int;
    let ps = pow2((t - 1) as nat) as int;
    let pr = pow2((t - 2) as nat) as int;
    lemma_pow2_unfold(t);
    lemma_pow2_unfold((t - 1) as nat);
    lemma_pow2_pos((t - 2) as nat);
    assert(1 * pt == pt && 1 * ps == ps && 1 * pr == pr);
    if n == m * pt + delta {
        assert(n == m * pt + delta && n == (2 * m) * ps + delta) by (nonlinear_arith)
            requires
                n == m * pt + delta,
                pt == 2 * ps,
        ;
        lemma_fundamental_div_mod_converse(n, pt, m, delta);
        lemma_fundamental_div_mod_converse(n, ps, 2 * m, delta);
        assert(is_last_place(n, 1, t));
        lemma_last_place_is(n, 1, t);
    } else if m > HIDDEN_BIT {
        assert(n == (m - 1) * pt + (pt - delta) && n == (2 * m - 1) * ps + (ps - delta))
            by (nonlinear_arith)
            requires
                n == m * pt - delta,
                pt == 2 * ps,
        ;
        lemma_fundamental_div_mod_converse(n, pt, m - 1, pt - delta);
        lemma_fundamental_div_mod_converse(n, ps, 2 * m - 1, ps - delta);
        assert(is_last_place(n, 1, t));
        lemma_last_place_is(n, 1, t);
    } else {
        let s = (t - 1) as nat;
        assert(n == (0x100_0000 - 1) * ps + (ps - delta) && n == (0x200_0000 - 1) * pr + (pr
            - delta) && m * pt == 0x100_0000 * ps) by (nonlinear_arith)
            requires
                n == m * pt - delta,
                m == 0x80_0000,
                pt == 2 * ps,
                ps == 2 * pr,
        ;
        lemma_fundamental_div_mod_converse(n, ps, 0x100_0000 - 1, ps - delta);
        lemma_fundamental_div_mod_converse(n, pr, 0x200_0000 - 1, pr - delta);
        assert(is_last_place(n, 1, s));
        lemma_last_place_is(n, 1, s);
        assert(round_half_even(n, ps) == 0x100_0000);
    }
}

/// The sum of two finite numbers as binary32 addition gives it: the binary32
/// number nearest to the exact sum. A sum of zero is `+0`, unless both
/// numbers are `-0`.
pub open spec fn finite_sum(x: Scalar, y: Scalar) -> Scalar {
    let sum = x.units() + y.units();
    if sum == 0 {
        made(x.is_negative() && y.is_negative(), 0)
    } else if sum < 0 {
        made(true, rounded_units(-sum, 1))
    } else {
        made(false, rounded_units(sum, 1))
    }
}

/// The number with the given sign and the bits of the given magnitude.
fn signed(negative: bool, magnitude: u32) -> (s: Scalar)
    requires
        magnitude <= INFINITY_BITS,
    ensures
        is_made_of(s, negative, (Scalar { bits: magnitude }).abs_units() as int),
        s.magnitude() == magnitude,
{
    if negative {
        Scalar { bits: magnitude + SIGN_BIT }
    } else {
        Scalar { bits: magnitude }
    }
}

/// The sum of two finite numbers.
pub(crate) fn add_finite(x: Scalar, y: Scalar) -> (sum: Scalar)
    requires
        x.is_finite(),
        y.is_finite(),
    ensures
        sum == finite_sum(x, y),
        !sum.is_nan(),
{
    let (sx, lx) = x.decompose();
    let (sy, ly) = y.decompose();
    let ghost ux = x.units();
    let ghost uy = y.units();
    proof {
        lemma2_to64();
        lemma2_to64_rest();
        lemma_pow2_pos(lx as nat);
        lemma_pow2_pos(ly as nat);
        assert((sx == 0) == (x.abs_units() == 0)) by (nonlinear_arith)
            requires
                x.abs_units() == sx * pow2(lx as nat),
                pow2(lx as nat) > 0,
                sx >= 0,
        ;
        assert((sy == 0) == (y.abs_units() == 0)) by (nonlinear_arith)
            requires
                y.abs_units() == sy * pow2(ly as nat),
                pow2(ly as nat) > 0,
                sy >= 0,
        ;
    }
    if sx == 0 && sy == 0 {
        let zero = signed(x.negative() && y.negative(), 0);
        proof {
            lemma_zero_magnitude(Scalar { bits: 0 });
            lemma_made(zero, x.is_negative() && y.is_negative(), 0);
        }
        return zero;
    }
    if sy == 0 {
        proof {
            lemma_rounds_to_itself(x);
            lemma_made(x, x.is_negative(), x.abs_units() as int);
        }
        return x;
    }
    if sx == 0 {
        proof {
            lemma_rounds_to_itself(y);
            lemma_made(y, y.is_negative(), y.abs_units() as int);
        }
        return y;
    }
    let x_leads = lx >= ly;
    let (big, sb, lb, small, ss, ls) = if x_leads {
        (x, sx, lx, y, sy, ly)
    } else {
        (y, sy, ly, x, sx, lx)
    };
    let gap: u32 = lb - ls;
    let ghost ub = big.abs_units() as int;
    let ghost us = small.abs_units() as int;
    let ghost total = ux + uy;
    proof {
        lemma_pow2_adds(gap as nat, ls as nat);
        lemma_pow2_pos(gap as nat);
    }
    if gap > 31 {
        proof {
            let pg = pow2(gap as nat) as int;
            let pls = pow2(ls as nat) as int;
            let plb = pow2(lb as nat) as int;
            if gap > 32 {
                lemma_pow2_strictly_increases(32, gap as nat);
            }
            assert(us * 256 < plb && us > 0) by (nonlinear_arith)
                requires
                    us == ss * pls,
                    plb == pg * pls,
                    0 < ss < 0x100_0000,
                    pg >= 0x1_0000_0000,
                    pls > 0,
            ;
            assert(big.exponent() >= 1);
            let n = if big.is_negative() == small.is_negative() {
                ub + us
            } else {
                ub - us
            };
            lemma_negligible(sb as int, lb as nat, us, n);
            assert(ub >= plb * 0x80_0000) by (nonlinear_arith)
                requires
                    ub == sb * plb,
                    sb >= 0x80_0000,
                    plb > 0,
            ;
            assert(ub > us);
            if big.is_negative() {
                assert(total == -n);
            } else {
                assert(total == n);
            }
            lemma_made(big, big.is_negative(), ub);
        }
        return big;
    }
    proof {
        if gap < 31 {
            lemma_pow2_strictly_increases(gap as nat, 31);
        }
        assert(sb * pow2(gap as nat) < 0x80_0000_0000_0000) by (nonlinear_arith)
            requires
                0 < sb < 0x100_0000,
                0 < pow2(gap as nat) <= 0x8000_0000,
        ;
    }
    let lead: u64 = sb as u64 * crate::scalar::power_of_two(gap);
    let same_sign = big.negative() == small.negative();
    let (a, negative) = if same_sign {
        (lead + ss as u64, big.negative())
    } else if lead >= ss as u64 {
        (lead - ss as u64, big.negative() && lead > ss as u64)
    } else {
        (ss as u64 - lead, small.negative())
    };
    let ghost magnitude = if total < 0 { -total } else { total };
    let ghost c = pow2(1024) as int;
    proof {
        let pls = pow2(ls as nat) as int;
        lemma_pow2_pos(1024);
        lemma_pow2_adds(ls as nat, 1024);
        assert(ub == lead * pls) by (nonlinear_arith)
            requires
                ub == sb * (pow2(gap as nat) * pls),
                lead == sb * pow2(gap as nat),
        ;
        assert((lead >= ss) == (ub >= us) && (lead > ss) == (ub > us)) by (nonlinear_arith)
            requires
                ub == lead * pls,
                us == ss * pls,
                pls > 0,
        ;
        assert(magnitude == a * pls && (a > 0 ==> magnitude > 0)) by (nonlinear_arith)
            requires
                ub == lead * pls,
                us == ss * pls,
                pls > 0,
                magnitude == (if same_sign {
                    ub + us
                } else if ub >= us {
                    ub - us
                } else {
                    us - ub
                }),
                a == (if same_sign {
                    lead + ss
                } else if lead >= ss {
                    lead - ss
                } else {
                    ss - lead
                }),
                (lead >= ss) == (ub >= us) || same_sign,
        ;
        assert(ratio_numerator(a as int, ls as int) == magnitude * c) by (nonlinear_arith)
            requires
                ratio_numerator(a as int, ls as int) == a * (pls * c),
                magnitude == a * pls,
        ;
        assert(ratio_denominator(1) == 1 * c);
    }
    let bits = round_ratio(a, 1, ls as i32);
    let sum = signed(negative, bits);
    proof {
        lemma_rounded_units_scaled(magnitude, 1, c);
        if a == 0 {
            assert(total == 0);
            let zero = Scalar { bits: 0 };
            lemma_zero_magnitude(zero);
            lemma_rounds_to_itself(zero);
            assert(magnitude == 0);
            lemma_made(sum, false, 0);
        } else {
            lemma_made(sum, negative, rounded_units(magnitude, 1));
        }
    }
    sum
}

/// An infinity is `2^128`, in units `2^277`.
proof fn lemma_infinity()
    ensures
        (Scalar { bits: INFINITY_BITS }).abs_units() == infinity_units(),
        (Scalar { bits: 0 }).abs_units() == 0,
{
    lemma_zero_magnitude(Scalar { bits: 0 });
}

impl Scalar {
    /// The NaN that arithmetic gives.
    pub open spec fn not_a_number() -> Scalar {
        Scalar { bits: NAN_BITS }
    }

    /// Zero, of either sign.
    pub open spec fn is_zero(self) -> bool {
        self.magnitude() == 0
    }

    /// An infinity, of either sign.
    pub open spec fn is_infinite(self) -> bool {
        self.magnitude() == INFINITY_BITS
    }

    /// The number with the other sign.
    pub open spec fn negated(self) -> Scalar {
        if self.is_negative() {
            Scalar { bits: (self.bits - SIGN_BIT) as u32 }
        } else {
            Scalar { bits: (self.bits + SIGN_BIT) as u32 }
        }
    }

    /// `self + y` as binary32 addition gives it.
    pub open spec fn plus(self, y: Scalar) -> Scalar {
        if self.is_nan() || y.is_nan() {
            Scalar::not_a_number()
        } else if self.is_infinite() {
            if y.is_infinite() && y.is_negative() != self.is_negative() {
                Scalar::not_a_number()
            } else {
                self
            }
        } else if y.is_infinite() {
            y
        } else {
            finite_sum(self, y)
        }
    }

    /// `self - y` as binary32 subtraction gives it.
    pub open spec fn minus(self, y: Scalar) -> Scalar {
        self.plus(y.negated())
    }

    /// `self * y` as binary32 multiplication gives it.
    pub open spec fn times(self, y: Scalar) -> Scalar {
        let negative = self.is_negative() != y.is_negative();
        if self.is_nan() || y.is_nan() {
            Scalar::not_a_number()
        } else if self.is_infinite() || y.is_infinite() {
            if self.is_zero() || y.is_zero() {
                Scalar::not_a_number()
            } else {
                made(negative, infinity_units())
            }
        } else {
            made(negative, self.product_units(y))
        }
    }

    /// `self / y` as binary32 division gives it.
    pub open spec fn over(self, y: Scalar) -> Scalar {
        let negative = self.is_negative() != y.is_negative();
        if self.is_nan() || y.is_nan() {
            Scalar::not_a_number()
        } else if self.is_infinite() {
            if y.is_infinite() {
                Scalar::not_a_number()
            } else {
                made(negative, infinity_units())
            }
        } else if y.is_infinite() {
            made(negative, 0)
        } else if y.is_zero() {
            if self.is_zero() {
                Scalar::not_a_number()
            } else {
                made(negative, infinity_units())
            }
        } else {
            made(negative, self.quotient_units(y))
        }
    }

    /// The integer as binary32 conversion gives it: the binary32 number
    /// nearest to it.
    pub open spec fn of_integer(i: int) -> Scalar {
        if i < 0 {
            made(true, rounded_units((-i * pow2(149)) as int, 1))
        } else {
            made(false, rounded_units((i * pow2(149)) as int, 1))
        }
    }

    /// Whether the number is zero, of either sign.
    pub fn zero(self) -> (b: bool)
        ensures
            b == self.is_zero(),
    {
        self.bits % SIGN_BIT == 0
    }

    /// Whether the number is an infinity, of either sign.
    pub fn infinite(self) -> (b: bool)
        ensures
            b == self.is_infinite(),
    {
        self.bits % SIGN_BIT == INFINITY_BITS
    }

    /// The number with the other sign.
    pub fn neg(self) -> (n: Scalar)
        ensures
            n == self.negated(),
    {
        if self.bits >= SIGN_BIT {
            Scalar { bits: self.bits - SIGN_BIT }
        } else {
            Scalar { bits: self.bits + SIGN_BIT }
        }
    }

    /// `self + y`.
    pub fn add(self, y: Scalar) -> (sum: Scalar)
        ensures
            sum == self.plus(y),
    {
        if self.nan() || y.nan() {
            Scalar { bits: NAN_BITS }
        } else if self.infinite() {
            if y.infinite() && y.negative() != self.negative() {
                Scalar { bits: NAN_BITS }
            } else {
                self
            }
        } else if y.infinite() {
            y
        } else {
            add_finite(self, y)
        }
    }

    /// `self - y`.
    pub fn sub(self, y: Scalar) -> (difference: Scalar)
        ensures
            difference == self.minus(y),
    {
        self.add(y.neg())
    }

    /// `self * y`.
    pub fn mul(self, y: Scalar) -> (product: Scalar)
        ensures
            product == self.times(y),
    {
        let negative = self.negative() != y.negative();
        if self.nan() || y.nan() {
            Scalar { bits: NAN_BITS }
        } else if self.infinite() || y.infinite() {
            if self.zero() || y.zero() {
                Scalar { bits: NAN_BITS }
            } else {
                let product = signed(negative, INFINITY_BITS);
                proof {
                    lemma_infinity();
                    lemma_made(product, negative, infinity_units());
                }
                product
            }
        } else {
            let magnitude = self.times_magnitude(y);
            let product = signed(negative, magnitude.bits);
            proof {
                lemma_made(product, negative, self.product_units(y));
            }
            product
        }
    }

    /// `self / y`.
    pub fn div(self, y: Scalar) -> (quotient: Scalar)
        ensures
            quotient == self.over(y),
    {
        let negative = self.negative() != y.negative();
        proof {
            lemma_infinity();
        }
        if self.nan() || y.nan() {
            Scalar { bits: NAN_BITS }
        } else if self.infinite() {
            if y.infinite() {
                Scalar { bits: NAN_BITS }
            } else {
                let quotient = signed(negative, INFINITY_BITS);
                proof {
                    lemma_made(quotient, negative, infinity_units());
                }
                quotient
            }
        } else if y.infinite() {
            let quotient = signed(negative, 0);
            proof {
                lemma_made(quotient, negative, 0);
            }
            quotient
        } else if y.zero() {
            if self.zero() {
                Scalar { bits: NAN_BITS }
            } else {
                let quotient = signed(negative, INFINITY_BITS);
                proof {
                    lemma_made(quotient, negative, infinity_units());
                }
                quotient
            }
        } else {
            let divisor = Scalar { bits: y.bits % SIGN_BIT };
            let magnitude = Scalar { bits: self.bits % SIGN_BIT }.divided_by(divisor);
            let quotient = signed(negative, magnitude.bits);
            proof {
                lemma_made(quotient, negative, self.quotient_units(y));
            }
            quotient
        }
    }

    /// The integer as a binary32 number.
    pub fn from_u32(w: u32) -> (s: Scalar)
        ensures
            s == Scalar::of_integer(w as int),
            s.is_finite(),
            !s.is_negative(),
    {
        let s = Scalar::from_integer(w);
        proof {
            lemma_made(s, false, Scalar::integer_units(w));
        }
        s
    }

    /// The integer as a binary32 number.
    pub fn from_i32(i: i32) -> (s: Scalar)
        ensures
            s == Scalar::of_integer(i as int),
            s.is_finite(),
    {
        if i < 0 {
            let magnitude = Scalar::from_integer((-(i as i64)) as u32);
            let s = signed(true, magnitude.bits);
            proof {
                lemma_made(s, true, Scalar::integer_units((-i) as u32));
            }
            s
        } else {
            let magnitude = Scalar::from_integer(i as u32);
            proof {
                lemma_made(magnitude, false, Scalar::integer_units(i as u32));
            }
            magnitude
        }
    }
}

/// Two numbers that are one number: neither is a NaN, and they have the same
/// value. `+0` and `-0` are one number.
pub open spec fn same_number(a: Scalar, b: Scalar) -> bool {
    !a.is_nan() && !b.is_nan() && a.units() == b.units()
}

/// A number of magnitude zero is a zero.
proof fn lemma_zero_units(s: Scalar)
    ensures
        s.is_zero() <==> !s.is_nan() && s.abs_units() == 0,
{
    let zero = Scalar { bits: 0 };
    lemma_infinity();
    if zero.magnitude() < s.magnitude() {
        lemma_abs_units_increasing(zero, s);
    } else {
        lemma_zero_magnitude(s);
    }
}

/// One times a finite number is the number.
pub proof fn lemma_times_one(x: Scalar)
    requires
        x.is_finite(),
    ensures
        (Scalar { bits: crate::rounding::ONE_BITS }).times(x) == x,
        x.times(Scalar { bits: crate::rounding::ONE_BITS }) == x,
{
    let one = Scalar { bits: crate::rounding::ONE_BITS };
    let whole = x.abs_units() as int;
    let unit = pow2(149) as int;
    lemma2_to64();
    assert(one.significand() == HIDDEN_BIT && one.lift() == 126);
    lemma_pow2_adds(23, 126);
    lemma_pow2_pos(149);
    assert(one.abs_units() == unit);
    lemma_rounds_to_itself(x);
    crate::rounding::lemma_last_place_scaled(whole, 1, unit, last_place(whole, 1));
    assert(1 * unit == unit);
    lemma_rounded_units_scaled(whole, 1, unit);
    assert(one.abs_units() * x.abs_units() == whole * unit) by (nonlinear_arith)
        requires
            one.abs_units() == unit,
            whole == x.abs_units(),
    ;
    assert(x.abs_units() * one.abs_units() == whole * unit) by (nonlinear_arith)
        requires
            one.abs_units() == unit,
            whole == x.abs_units(),
    ;
    lemma_made(x, x.is_negative(), whole);
}

/// Zero times a finite number is zero.
pub proof fn lemma_times_zero(z: Scalar, x: Scalar)
    requires
        z.is_zero(),
        x.is_finite(),
    ensures
        z.times(x).is_zero(),
        x.times(z).is_zero(),
{
    lemma_zero_units(z);
    lemma_pow2_pos(149);
    lemma_rounds_zero(pow2(149) as int);
    assert(z.abs_units() * x.abs_units() == 0 && x.abs_units() * z.abs_units() == 0)
        by (nonlinear_arith)
        requires
            z.abs_units() == 0,
    ;
    let zero = Scalar { bits: 0 };
    let minus_zero = Scalar { bits: SIGN_BIT };
    lemma_zero_units(zero);
    lemma_zero_units(minus_zero);
    lemma_made(zero, false, 0);
    lemma_made(minus_zero, true, 0);
}

/// A finite number and a zero add up to the number.
pub proof fn lemma_plus_zero(x: Scalar, z: Scalar)
    requires
        x.is_finite(),
        z.is_zero(),
    ensures
        same_number(x.plus(z), x),
        same_number(z.plus(x), x),
        x.plus(z).is_finite(),
        z.plus(x).is_finite(),
        !x.is_zero() ==> x.plus(z) == x && z.plus(x) == x,
        x.is_zero() ==> x.plus(z).is_zero() && z.plus(x).is_zero(),
{
    lemma_zero_units(z);
    lemma_zero_units(x);
    lemma_zero_units(x.plus(z));
    lemma_zero_units(z.plus(x));
    let zero = Scalar { bits: 0 };
    let minus_zero = Scalar { bits: SIGN_BIT };
    lemma_zero_units(zero);
    lemma_zero_units(minus_zero);
    lemma_made(zero, false, 0);
    lemma_made(minus_zero, true, 0);
    lemma_rounds_to_itself(x);
    lemma_made(x, x.is_negative(), x.abs_units() as int);
}

/// A sum does not depend on the order of the two numbers.
pub proof fn lemma_plus_commutes(x: Scalar, y: Scalar)
    ensures
        x.plus(y) == y.plus(x),
{
    assert(x.units() + y.units() == y.units() + x.units());
    if x.is_infinite() && y.is_infinite() && !x.is_nan() && !y.is_nan() {
        assert(x.is_negative() == y.is_negative() ==> x.bits == y.bits);
    }
}

} // verus!
