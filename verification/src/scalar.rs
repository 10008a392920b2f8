//! Binary32 numbers by their bit pattern.
//!
//! A `Scalar` is the 32 bits of an IEEE-754 single-precision number. Every
//! number that is not a NaN is a whole multiple of `2^-149`; `units` names that
//! multiple, and the rest of the crate states its arithmetic over it.
use vstd::arithmetic::div_mod::*;
use vstd::arithmetic::power2::*;
use vstd::bits::*;
use vstd::prelude::*;

verus! {

/// The bits of a binary32 number: one sign bit, eight exponent bits and
/// twenty-three fraction bits, from the top down.
#[derive(Clone, Copy, Debug, PartialEq, Eq, Structural)]
pub struct Scalar {
    pub bits: u32,
}

/// The bits of the largest finite number.
pub const LARGEST_BITS: u32 = 0x7f7f_ffff;

/// The bits of the lowest finite number.
pub const LOWEST_BITS: u32 = 0xff7f_ffff;

/// `2^23`, the weight of the hidden bit of a normal number.
pub const HIDDEN_BIT: u32 = 0x80_0000;

/// `2^31`, the weight of the sign bit.
pub const SIGN_BIT: u32 = 0x8000_0000;

/// The bits of positive infinity; every larger magnitude is a NaN.
pub const INFINITY_BITS: u32 = 0x7f80_0000;

impl Scalar {
    /// The bits below the sign bit.
    pub open spec fn magnitude(self) -> nat {
        (self.bits % SIGN_BIT) as nat
    }

    /// Whether the sign bit is set. It is set in `-0.0` too.
    pub open spec fn is_negative(self) -> bool {
        self.bits >= SIGN_BIT
    }

    /// The biased exponent, `0..=255`.
    pub open spec fn exponent(self) -> nat {
        self.magnitude() / (HIDDEN_BIT as nat)
    }

    /// The twenty-three fraction bits.
    pub open spec fn fraction(self) -> nat {
        self.magnitude() % (HIDDEN_BIT as nat)
    }

    /// Neither an infinity nor a NaN.
    pub open spec fn is_finite(self) -> bool {
        self.magnitude() < INFINITY_BITS
    }

    /// Not a number.
    pub open spec fn is_nan(self) -> bool {
        self.magnitude() > INFINITY_BITS
    }

    /// The fraction with the hidden bit of a normal number put in front.
    pub open spec fn significand(self) -> nat {
        if self.exponent() == 0 {
            self.fraction()
        } else {
            self.fraction() + HIDDEN_BIT as nat
        }
    }

    /// The power of two by which the significand is multiplied to give the
    /// magnitude in units of `2^-149`.
    pub open spec fn lift(self) -> nat {
        if self.exponent() == 0 {
            0
        } else {
            (self.exponent() - 1) as nat
        }
    }

    /// The magnitude in units of `2^-149`.
    pub open spec fn abs_units(self) -> nat {
        self.significand() * pow2(self.lift())
    }

    /// The number in units of `2^-149`: the number is `units / 2^149`.
    ///
    /// An infinity gets the value that its bits would have as a normal number,
    /// `2^128`, which lies beyond every finite number, so that the order of
    /// `units` is the order of the numbers wherever neither is a NaN.
    pub open spec fn units(self) -> int {
        if self.is_negative() {
            -(self.abs_units() as int)
        } else {
            self.abs_units() as int
        }
    }

    /// Finite and greater than zero: the sign bit is clear, and the magnitude
    /// is neither zero nor that of an infinity or a NaN.
    pub open spec fn is_positive(self) -> bool {
        0 < self.bits < INFINITY_BITS
    }

    pub fn from_bits(bits: u32) -> (s: Scalar)
        ensures
            s.bits == bits,
    {
        Scalar { bits }
    }

    pub fn to_bits(self) -> (bits: u32)
        ensures
            bits == self.bits,
    {
        self.bits
    }

    /// Whether the number is neither an infinity nor a NaN.
    pub fn finite(self) -> (b: bool)
        ensures
            b == self.is_finite(),
    {
        self.bits % SIGN_BIT < INFINITY_BITS
    }

    /// Whether the number is a NaN.
    pub fn nan(self) -> (b: bool)
        ensures
            b == self.is_nan(),
    {
        self.bits % SIGN_BIT > INFINITY_BITS
    }

    /// Whether the sign bit is set.
    pub fn negative(self) -> (b: bool)
        ensures
            b == self.is_negative(),
    {
        self.bits >= SIGN_BIT
    }

    /// Whether the number is finite and greater than zero.
    pub fn positive(self) -> (b: bool)
        ensures
            b == self.is_positive(),
    {
        0 < self.bits && self.bits < INFINITY_BITS
    }

    /// The significand and the lift, as machine integers.
    pub fn decompose(self) -> (parts: (u32, u32))
        ensures
            parts.0 == self.significand(),
            parts.1 == self.lift(),
            parts.0 < 2 * HIDDEN_BIT,
            parts.1 <= 254,
            self.is_finite() ==> parts.1 <= 253,
    {
        let magnitude: u32 = self.bits % SIGN_BIT;
        let exponent: u32 = magnitude / HIDDEN_BIT;
        let fraction: u32 = magnitude % HIDDEN_BIT;
        if exponent == 0 {
            (fraction, 0)
        } else {
            (fraction + HIDDEN_BIT, exponent - 1)
        }
    }
}

impl Scalar {
    /// The bits as a signed integer that is ordered as the numbers are: the
    /// magnitude, made negative where the sign bit is set.
    pub open spec fn order_key(self) -> int {
        if self.is_negative() {
            -(self.magnitude() as int)
        } else {
            self.magnitude() as int
        }
    }

    /// `self < other` as numbers. A NaN is neither below nor above anything.
    pub open spec fn lt(self, other: Scalar) -> bool {
        !self.is_nan() && !other.is_nan() && self.units() < other.units()
    }

    /// `self <= other` as numbers. A NaN is neither below nor above anything.
    pub open spec fn le(self, other: Scalar) -> bool {
        !self.is_nan() && !other.is_nan() && self.units() <= other.units()
    }

    /// `self` where `self <= other`, else `other`: the smaller of two numbers,
    /// and `other` where either is a NaN.
    pub open spec fn lower(self, other: Scalar) -> Scalar {
        if self.le(other) {
            self
        } else {
            other
        }
    }

    /// `self` where `self >= other`, else `other`: the larger of two numbers,
    /// and `other` where either is a NaN.
    pub open spec fn upper(self, other: Scalar) -> Scalar {
        if other.le(self) {
            self
        } else {
            other
        }
    }

    /// `self` brought into the range from `low` to `high`: `low` where `self`
    /// is below it, `high` where `self` is above it, else `self`.
    pub open spec fn clamped(self, low: Scalar, high: Scalar) -> Scalar {
        if self.lt(low) {
            low
        } else if high.lt(self) {
            high
        } else {
            self
        }
    }

    fn key(self) -> (k: i64)
        ensures
            k == self.order_key(),
    {
        let magnitude: u32 = self.bits % SIGN_BIT;
        if self.bits >= SIGN_BIT {
            -(magnitude as i64)
        } else {
            magnitude as i64
        }
    }

    /// Whether `self < other` as numbers.
    pub fn less_than(self, other: Scalar) -> (b: bool)
        ensures
            b == self.lt(other),
    {
        if self.nan() || other.nan() {
            return false;
        }
        proof {
            lemma_order_by_bits(self, other);
        }
        self.key() < other.key()
    }

    /// Whether `self <= other` as numbers.
    pub fn less_or_equal(self, other: Scalar) -> (b: bool)
        ensures
            b == self.le(other),
    {
        if self.nan() || other.nan() {
            return false;
        }
        proof {
            lemma_order_by_bits(self, other);
        }
        self.key() <= other.key()
    }

    /// The smaller of two numbers.
    pub fn min(self, other: Scalar) -> (m: Scalar)
        ensures
            m == self.lower(other),
    {
        if self.less_or_equal(other) {
            self
        } else {
            other
        }
    }

    /// The larger of two numbers.
    pub fn max(self, other: Scalar) -> (m: Scalar)
        ensures
            m == self.upper(other),
    {
        if other.less_or_equal(self) {
            self
        } else {
            other
        }
    }

    /// `self` brought into the range from `low` to `high`.
    pub fn clamp(self, low: Scalar, high: Scalar) -> (c: Scalar)
        ensures
            c == self.clamped(low, high),
    {
        if self.less_than(low) {
            low
        } else if high.less_than(self) {
            high
        } else {
            self
        }
    }
}

/// A number whose magnitude bits are all zero has the value zero.
pub proof fn lemma_zero_magnitude(s: Scalar)
    requires
        s.magnitude() == 0,
    ensures
        s.abs_units() == 0,
        s.units() == 0,
{
    assert(s.significand() == 0);
    assert(0 * pow2(s.lift()) == 0) by (nonlinear_arith);
}

/// A number that is finite and greater than zero has a value above zero, and
/// the other way round.
pub proof fn lemma_positive(s: Scalar)
    ensures
        s.is_positive() <==> s.is_finite() && s.units() > 0,
        s.is_positive() ==> s.units() == s.abs_units(),
{
    let zero = Scalar { bits: 0 };
    lemma_order_by_bits(zero, s);
    lemma_zero_magnitude(zero);
}

/// A larger magnitude in bits is a larger magnitude in value.
pub proof fn lemma_abs_units_increasing(a: Scalar, b: Scalar)
    requires
        a.magnitude() < b.magnitude(),
    ensures
        a.abs_units() < b.abs_units(),
{
    let ea = a.exponent();
    let eb = b.exponent();
    let sa = a.significand() as int;
    let sb = b.significand() as int;
    let la = a.lift();
    let lb = b.lift();
    lemma_pow2_pos(la);
    lemma_pow2_pos(lb);
    lemma2_to64();
    assert(ea <= eb);
    if ea == eb {
        assert(a.fraction() < b.fraction());
        assert(sa < sb);
        assert(la == lb);
        assert(sa * pow2(la) < sb * pow2(la)) by (nonlinear_arith)
            requires
                sa < sb,
                pow2(la) > 0,
        ;
    } else if ea == 0 {
        assert(la == 0);
        assert(sa * pow2(la) == sa) by (nonlinear_arith)
            requires
                pow2(la) == 1,
        ;
        assert(sb * pow2(lb) >= sb) by (nonlinear_arith)
            requires
                sb >= 0,
                pow2(lb) > 0,
        ;
    } else {
        assert(la + 1 <= lb);
        if la + 1 < lb {
            lemma_pow2_strictly_increases(la + 1, lb);
        }
        lemma_pow2_unfold(la + 1);
        assert(pow2(la + 1) == 2 * pow2(la));
        assert(sa * pow2(la) < sb * pow2(lb)) by (nonlinear_arith)
            requires
                sa < 0x100_0000,
                sb >= 0x80_0000,
                pow2(lb) >= 2 * pow2(la),
                pow2(la) > 0,
        ;
    }
}

/// Numbers that are not NaNs are ordered as their order keys are.
pub proof fn lemma_order_by_bits(a: Scalar, b: Scalar)
    ensures
        (a.units() < b.units()) == (a.order_key() < b.order_key()),
        (a.units() <= b.units()) == (a.order_key() <= b.order_key()),
        (a.units() == b.units()) == (a.order_key() == b.order_key()),
{
    if a.magnitude() < b.magnitude() {
        lemma_abs_units_increasing(a, b);
    }
    if b.magnitude() < a.magnitude() {
        lemma_abs_units_increasing(b, a);
    }
    let zero = Scalar { bits: 0 };
    lemma_zero_magnitude(zero);
    if 0 < a.magnitude() {
        lemma_abs_units_increasing(zero, a);
    } else {
        lemma_zero_magnitude(a);
    }
    if 0 < b.magnitude() {
        lemma_abs_units_increasing(zero, b);
    } else {
        lemma_zero_magnitude(b);
    }
}

/// `2^k` as a machine integer.
pub(crate) fn power_of_two(k: u32) -> (p: u64)
    requires
        k < 64,
    ensures
        p == pow2(k as nat),
{
    proof {
        lemma_u64_pow2_no_overflow(k as nat);
        lemma_u64_shl_is_mul(1, k as u64);
    }
    1u64 << (k as u64)
}

/// Cancelling a common positive factor changes neither the quotient nor, up to
/// that factor, the remainder.
pub proof fn lemma_scaled_division(n: int, d: int, c: int)
    requires
        0 <= n,
        0 < d,
        0 < c,
    ensures
        0 < d * c,
        (n * c) / (d * c) == n / d,
        (n * c) % (d * c) == (n % d) * c,
{
    let q = n / d;
    let r = n % d;
    lemma_fundamental_div_mod(n, d);
    lemma_mod_pos_bound(n, d);
    assert(n * c == q * (d * c) + r * c) by (nonlinear_arith)
        requires
            n == d * q + r,
    ;
    assert(0 <= r * c < d * c) by (nonlinear_arith)
        requires
            0 <= r < d,
            0 < c,
    ;
    lemma_fundamental_div_mod_converse(n * c, d * c, q, r * c);
}

} // verus!
