//! Rounding to binary32.
//!
//! The quotient or the product of two binary32 numbers is seldom one itself:
//! arithmetic gives the binary32 number nearest to the exact result, and of
//! two that are equally near the one whose last bit is zero. This module
//! states that rounding over the integers, for a ratio `n / d` in units of
//! `2^-149`, and carries it out.
use crate::scalar::{
    lemma_scaled_division, lemma_zero_magnitude, power_of_two, Scalar, HIDDEN_BIT, INFINITY_BITS,
};
use vstd::arithmetic::div_mod::*;
use vstd::arithmetic::power2::*;
use vstd::prelude::*;

verus! {

/// `2^24`: a binary32 number has twenty-four significant bits, so in units of
/// its last place it lies below this.
pub const SIGNIFICAND_LIMIT: u64 = 0x100_0000;

/// `n / d` rounded to the nearest integer, a tie going to the even one, for a
/// positive `d`.
pub open spec fn round_half_even(n: int, d: int) -> int {
    if 2 * (n % d) < d {
        n / d
    } else if 2 * (n % d) > d {
        n / d + 1
    } else if (n / d) % 2 == 0 {
        n / d
    } else {
        n / d + 1
    }
}

/// `t` is the power of two that the last place of `n / d` stands for when
/// `n / d` is written with twenty-four significant bits: `n / d` lies below
/// `2^24` last places, and, unless the last place is the unit itself, not
/// below `2^23`.
pub open spec fn is_last_place(n: int, d: int, t: nat) -> bool {
    &&& n / (d * pow2(t)) < SIGNIFICAND_LIMIT
    &&& t > 0 ==> n / (d * pow2((t - 1) as nat)) >= SIGNIFICAND_LIMIT
}

/// `n / d` has a last place.
pub open spec fn has_last_place(n: int, d: int) -> bool {
    exists|t: nat| is_last_place(n, d, t)
}

/// The power of two that the last place of `n / d` stands for.
pub open spec fn last_place(n: int, d: int) -> nat {
    choose|t: nat| is_last_place(n, d, t)
}

/// The units of an infinity: what the rounding gives where the result lies
/// beyond every finite number.
pub open spec fn infinity_units() -> int {
    HIDDEN_BIT * pow2(254)
}

/// `n / d` rounded to binary32: the multiple of the last place that is nearest
/// to `n / d`, a tie going to the even multiple, and the units of an infinity
/// where that lies beyond the finite numbers. `n / d` and the result are in
/// units of `2^-149`.
pub open spec fn rounded_units(n: int, d: int) -> int {
    if last_place(n, d) > 253 {
        infinity_units()
    } else {
        round_half_even(n, d * pow2(last_place(n, d))) * pow2(last_place(n, d))
    }
}

/// The rounding is to a nearest number: short of an infinity, `n / d` rounded
/// to binary32 lies within half a last place of `n / d`.
pub proof fn lemma_rounded_units_is_nearest(n: int, d: int)
    requires
        0 <= n,
        0 < d,
        last_place(n, d) <= 253,
    ensures
        -(d * pow2(last_place(n, d))) <= 2 * (n - rounded_units(n, d) * d) <= d * pow2(
            last_place(n, d),
        ),
{
    let t = last_place(n, d);
    let scaled = d * pow2(t);
    let q = round_half_even(n, scaled);
    lemma_pow2_pos(t);
    assert(0 < scaled) by (nonlinear_arith)
        requires
            scaled == d * pow2(t),
            0 < d,
            0 < pow2(t),
    ;
    lemma_fundamental_div_mod(n, scaled);
    lemma_mod_pos_bound(n, scaled);
    assert(-scaled <= 2 * (n - q * scaled) <= scaled) by (nonlinear_arith)
        requires
            n == scaled * (n / scaled) + n % scaled,
            0 <= n % scaled < scaled,
            q == n / scaled || q == n / scaled + 1,
            q == n / scaled ==> 2 * (n % scaled) <= scaled,
            q == n / scaled + 1 ==> 2 * (n % scaled) >= scaled,
    ;
    assert((q * pow2(t)) * d == q * scaled) by (nonlinear_arith)
        requires
            scaled == d * pow2(t),
    ;
}

/// A larger power of two in the divisor gives no larger a quotient.
proof fn lemma_quotient_shrinks(n: int, d: int, s: nat, t: nat)
    requires
        0 <= n,
        0 < d,
        s <= t,
    ensures
        0 < d * pow2(s) <= d * pow2(t),
        n / (d * pow2(t)) <= n / (d * pow2(s)),
{
    lemma_pow2_pos(s);
    if s < t {
        lemma_pow2_strictly_increases(s, t);
    }
    assert(0 < d * pow2(s) <= d * pow2(t)) by (nonlinear_arith)
        requires
            0 < d,
            0 < pow2(s) <= pow2(t),
    ;
    lemma_div_is_ordered_by_denominator(n, d * pow2(s), d * pow2(t));
}

/// There is one last place only.
pub proof fn lemma_last_place_is(n: int, d: int, t: nat)
    requires
        0 <= n,
        0 < d,
        is_last_place(n, d, t),
    ensures
        last_place(n, d) == t,
{
    let found = last_place(n, d);
    assert(is_last_place(n, d, found));
    if found < t {
        lemma_quotient_shrinks(n, d, found, (t - 1) as nat);
    }
    if t < found {
        lemma_quotient_shrinks(n, d, t, (found - 1) as nat);
    }
}

/// A factor that numerator and denominator have in common does not change
/// the rounded quotient.
pub proof fn lemma_round_half_even_scaled(n: int, d: int, c: int)
    requires
        0 <= n,
        0 < d,
        0 < c,
    ensures
        round_half_even(n * c, d * c) == round_half_even(n, d),
{
    lemma_scaled_division(n, d, c);
    let r = n % d;
    assert((2 * (r * c) < d * c) == (2 * r < d)) by (nonlinear_arith)
        requires
            c > 0,
    ;
    assert((2 * (r * c) > d * c) == (2 * r > d)) by (nonlinear_arith)
        requires
            c > 0,
    ;
}

/// A factor that numerator and denominator have in common does not change
/// the last place.
pub proof fn lemma_last_place_scaled(n: int, d: int, c: int, t: nat)
    requires
        0 <= n,
        0 < d,
        0 < c,
    ensures
        0 <= n * c,
        0 < d * c,
        is_last_place(n * c, d * c, t) == is_last_place(n, d, t),
{
    lemma_pow2_pos(t);
    assert(0 < d * pow2(t)) by (nonlinear_arith)
        requires
            0 < d,
            0 < pow2(t),
    ;
    assert((d * c) * pow2(t) == (d * pow2(t)) * c) by (nonlinear_arith);
    lemma_scaled_division(n, d * pow2(t), c);
    if t > 0 {
        let s = (t - 1) as nat;
        lemma_pow2_pos(s);
        assert(0 < d * pow2(s)) by (nonlinear_arith)
            requires
                0 < d,
                0 < pow2(s),
        ;
        assert((d * c) * pow2(s) == (d * pow2(s)) * c) by (nonlinear_arith);
        lemma_scaled_division(n, d * pow2(s), c);
    }
    assert(n * c >= 0 && d * c > 0) by (nonlinear_arith)
        requires
            n >= 0,
            d > 0,
            c > 0,
    ;
}

/// A factor that numerator and denominator have in common does not change
/// the rounding to binary32.
pub proof fn lemma_rounded_units_scaled(n: int, d: int, c: int)
    requires
        0 <= n,
        0 < d,
        0 < c,
        has_last_place(n * c, d * c),
    ensures
        rounded_units(n * c, d * c) == rounded_units(n, d),
        has_last_place(n, d),
{
    let t = last_place(n * c, d * c);
    lemma_last_place_scaled(n, d, c, t);
    lemma_last_place_is(n * c, d * c, t);
    lemma_last_place_is(n, d, t);
    lemma_pow2_pos(t);
    assert(0 < d * pow2(t)) by (nonlinear_arith)
        requires
            0 < d,
            0 < pow2(t),
    ;
    assert((d * c) * pow2(t) == (d * pow2(t)) * c) by (nonlinear_arith);
    lemma_round_half_even_scaled(n, d * pow2(t), c);
}

/// The bits `t * 2^23 + m` are the number `m * 2^t`, for a last place `t` and
/// a significand `m` of at most twenty-four bits, or `2^24` itself.
pub proof fn lemma_units_of_parts(t: nat, m: nat)
    requires
        t <= 253,
        m <= SIGNIFICAND_LIMIT,
        t > 0 ==> m >= HIDDEN_BIT,
    ensures
        t * HIDDEN_BIT + m <= INFINITY_BITS,
        (Scalar { bits: (t * HIDDEN_BIT + m) as u32 }).abs_units() == m * pow2(t),
        !(Scalar { bits: (t * HIDDEN_BIT + m) as u32 }).is_negative(),
{
    let bits = (t * HIDDEN_BIT + m) as u32;
    let s = Scalar { bits };
    lemma2_to64();
    assert(t * HIDDEN_BIT <= 253 * HIDDEN_BIT) by (nonlinear_arith)
        requires
            t <= 253,
    ;
    assert(s.magnitude() == t * HIDDEN_BIT + m);
    if m == SIGNIFICAND_LIMIT {
        assert(t * HIDDEN_BIT + m == (t + 2) * HIDDEN_BIT) by (nonlinear_arith)
            requires
                m == 2 * HIDDEN_BIT,
        ;
        lemma_fundamental_div_mod_converse(
            s.magnitude() as int,
            HIDDEN_BIT as int,
            (t + 2) as int,
            0,
        );
        assert(s.exponent() == t + 2);
        assert(s.fraction() == 0);
        lemma_pow2_unfold(t + 1);
        assert(HIDDEN_BIT * pow2(t + 1) == m * pow2(t)) by (nonlinear_arith)
            requires
                pow2(t + 1) == 2 * pow2(t),
                m == 2 * HIDDEN_BIT,
        ;
    } else if m >= HIDDEN_BIT {
        assert(t * HIDDEN_BIT + m == (t + 1) * HIDDEN_BIT + (m - HIDDEN_BIT)) by (nonlinear_arith);
        lemma_fundamental_div_mod_converse(
            s.magnitude() as int,
            HIDDEN_BIT as int,
            (t + 1) as int,
            m - HIDDEN_BIT,
        );
        assert(s.exponent() == t + 1);
        assert(s.fraction() == m - HIDDEN_BIT);
    } else {
        assert(t == 0);
        lemma_fundamental_div_mod_converse(s.magnitude() as int, HIDDEN_BIT as int, 0, m as int);
        assert(s.exponent() == 0);
        assert(s.fraction() == m);
    }
}

/// The number of bits of `x`: none for zero.
fn bit_length(x: u64) -> (len: u32)
    ensures
        len <= 64,
        x == 0 ==> len == 0,
        x > 0 ==> len > 0 && pow2((len - 1) as nat) <= x < pow2(len as nat),
{
    let mut len: u32 = 0;
    let mut rest: u64 = x;
    proof {
        lemma2_to64();
    }
    while rest > 0
        invariant
            len <= 64,
            rest == x as nat / pow2(len as nat),
            len > 0 ==> pow2((len - 1) as nat) <= x,
            x < pow2(64),
            len == 64 ==> rest == 0,
        decreases rest,
    {
        proof {
            let p = pow2(len as nat) as int;
            lemma_pow2_pos(len as nat);
            lemma_pow2_unfold((len + 1) as nat);
            lemma_fundamental_div_mod(x as int, p);
            lemma_mod_pos_bound(x as int, p);
            assert(p * (x as int / p) >= p) by (nonlinear_arith)
                requires
                    x as int / p >= 1,
                    p > 0,
            ;
            lemma_div_denominator(x as int, p, 2);
            assert(p * 2 == pow2((len + 1) as nat));
            if len == 63 {
                lemma_basic_div(x as int, pow2(64) as int);
            }
        }
        rest = rest / 2;
        len = len + 1;
    }
    proof {
        if len > 0 {
            lemma_pow2_pos((len - 1) as nat);
        }
        if x > 0 {
            let p = pow2(len as nat) as int;
            lemma_pow2_pos(len as nat);
            lemma_fundamental_div_mod(x as int, p);
            lemma_mod_pos_bound(x as int, p);
            assert(p * (x as int / p) == 0) by (nonlinear_arith)
                requires
                    x as int / p == 0,
            ;
        }
    }
    len
}

/// The numerator of `a * 2^e / b` in a form without negative powers: both
/// the numerator and the denominator are multiplied by `2^1024`.
pub open spec fn ratio_numerator(a: int, e: int) -> int {
    a * pow2((e + 1024) as nat)
}

/// The denominator that goes with `ratio_numerator`.
pub open spec fn ratio_denominator(b: int) -> int {
    b * pow2(1024)
}

/// Where `a / b` lies from `2^h` up to, but not including, `2^(h + 1)`, the
/// last place of `a * 2^e / b` is `h + e - 23`, or zero where that is
/// negative.
proof fn lemma_place_of_ratio(a: int, b: int, e: int, h: int, t: nat)
    requires
        0 < a,
        0 < b,
        -512 <= e <= 512,
        -64 <= h <= 64,
        b * pow2((h + 64) as nat) <= a * pow2(64) < b * pow2((h + 65) as nat),
        t == (if h + e - 23 > 0 { h + e - 23 } else { 0 }),
    ensures
        0 < ratio_denominator(b) * pow2(t),
        is_last_place(ratio_numerator(a, e), ratio_denominator(b), t),
        ratio_numerator(a, e) / (ratio_denominator(b) * pow2(t)) < SIGNIFICAND_LIMIT,
        t > 0 ==> ratio_numerator(a, e) / (ratio_denominator(b) * pow2(t)) >= HIDDEN_BIT,
{
    let n = ratio_numerator(a, e);
    let d = ratio_denominator(b);
    let w = (e + 1024 - 64) as nat;
    let p64 = pow2(64) as int;
    let pw = pow2(w) as int;
    let pt = pow2(t) as int;
    let pb = pow2(1024) as int;
    let hi = pow2((h + 65) as nat) as int;
    let lo = pow2((h + 64) as nat) as int;
    lemma2_to64();
    lemma_pow2_pos(w);
    lemma_pow2_pos(t);
    lemma_pow2_pos(1024);
    lemma_pow2_adds(64, w);
    assert(n == (a * p64) * pw) by (nonlinear_arith)
        requires
            n == a * (p64 * pw),
    ;
    assert(0 < d * pt) by (nonlinear_arith)
        requires
            d == b * pb,
            b > 0,
            pb > 0,
            pt > 0,
    ;
    // above
    lemma_pow2_adds((h + 65) as nat, w);
    lemma_pow2_adds(1024, t);
    lemma_pow2_adds(1024 + t, 24);
    let top = pow2((h + 65) as nat + w) as int;
    let limit = pow2(1024 + t + 24) as int;
    if (h + 65) as nat + w < 1024 + t + 24 {
        lemma_pow2_strictly_increases((h + 65) as nat + w, 1024 + t + 24);
    }
    assert(n < (d * pt) * 0x100_0000) by (nonlinear_arith)
        requires
            n == (a * p64) * pw,
            a * p64 < b * hi,
            pw > 0,
            top == hi * pw,
            top <= limit,
            limit == (pb * pt) * 0x100_0000,
            d == b * pb,
            b > 0,
    ;
    lemma_multiply_divide_lt(n, d * pt, 0x100_0000);
    if t > 0 {
        let s = (t - 1) as nat;
        let ps = pow2(s) as int;
        lemma_pow2_pos(s);
        lemma_pow2_adds((h + 64) as nat, w);
        lemma_pow2_adds(1024, s);
        lemma_pow2_adds(1024 + s, 24);
        lemma_pow2_unfold(t);
        let bottom = pow2((h + 64) as nat + w) as int;
        assert((h + 64) as nat + w == 1024 + s + 24);
        assert(0 < d * ps) by (nonlinear_arith)
            requires
                d == b * pb,
                b > 0,
                pb > 0,
                ps > 0,
        ;
        assert(n >= (d * ps) * 0x100_0000 && (d * ps) * 0x100_0000 == (d * pt) * 0x80_0000)
            by (nonlinear_arith)
            requires
                n == (a * p64) * pw,
                b * lo <= a * p64,
                pw > 0,
                bottom == lo * pw,
                bottom == (pb * ps) * 0x100_0000,
                d == b * pb,
                pt == 2 * ps,
        ;
        lemma_div_multiples_vanish(0x100_0000, d * ps);
        lemma_div_is_ordered((d * ps) * 0x100_0000, n, d * ps);
        lemma_div_multiples_vanish(0x80_0000, d * pt);
        lemma_div_is_ordered((d * pt) * 0x80_0000, n, d * pt);
    }
}

/// Zero rounds to zero, whatever it is divided by.
pub proof fn lemma_rounds_zero(d: int)
    requires
        0 < d,
    ensures
        rounded_units(0, d) == 0,
        has_last_place(0, d),
{
    lemma2_to64();
    assert(d * pow2(0) == d) by (nonlinear_arith)
        requires
            pow2(0) == 1,
    ;
    lemma_basic_div(0, d);
    lemma_small_mod(0, d as nat);
    assert(is_last_place(0, d, 0));
    lemma_last_place_is(0, d, 0);
    assert(0 * pow2(0) == 0) by (nonlinear_arith);
}

/// The bits of `a * 2^e / b`, in units of `2^-149`, rounded to binary32.
pub fn round_ratio(a: u64, b: u64, e: i32) -> (bits: u32)
    requires
        a < 0x100_0000_0000_0000,
        0 < b < 0x1_0000_0000,
        -512 <= e <= 512,
    ensures
        bits <= INFINITY_BITS,
        (Scalar { bits }).abs_units() == rounded_units(
            ratio_numerator(a as int, e as int),
            ratio_denominator(b as int),
        ),
        has_last_place(ratio_numerator(a as int, e as int), ratio_denominator(b as int)),
{
    let ghost n = ratio_numerator(a as int, e as int);
    let ghost d = ratio_denominator(b as int);
    proof {
        lemma2_to64();
        lemma2_to64_rest();
        lemma_pow2_pos(1024);
        lemma_pow2_pos((e + 1024) as nat);
        assert(d > 0 && n >= 0) by (nonlinear_arith)
            requires
                d == b * pow2(1024),
                n == a * pow2((e + 1024) as nat),
                b > 0,
                a >= 0,
                pow2(1024) > 0,
                pow2((e + 1024) as nat) > 0,
        ;
    }
    if a == 0 {
        proof {
            assert(n == 0) by (nonlinear_arith)
                requires
                    n == a * pow2((e + 1024) as nat),
                    a == 0,
            ;
            lemma_rounds_zero(d);
            lemma_zero_magnitude(Scalar { bits: 0 });
        }
        return 0;
    }
    let la: u32 = bit_length(a);
    let lb: u32 = bit_length(b);
    proof {
        if la > 56 {
            lemma_pow2_strictly_increases(56, (la - 1) as nat);
        }
        if lb > 32 {
            lemma_pow2_strictly_increases(32, (lb - 1) as nat);
        }
        lemma_pow2_strictly_increases(lb as nat, 64);
        lemma_pow2_strictly_increases(la as nat, 64);
        assert(a * pow2(lb as nat) < 0x1_0000_0000_0000_0000_0000_0000) by (nonlinear_arith)
            requires
                a < 0x100_0000_0000_0000,
                pow2(lb as nat) <= 0x1_0000_0000,
        ;
        assert(b * pow2(la as nat) < 0x1_0000_0000_0000_0000_0000_0000) by (nonlinear_arith)
            requires
                b < 0x1_0000_0000,
                pow2(la as nat) <= 0x100_0000_0000_0000,
        ;
    }
    let left: u128 = a as u128 * power_of_two(lb) as u128;
    let right: u128 = b as u128 * power_of_two(la) as u128;
    let h: i32 = if left >= right {
        la as i32 - lb as i32
    } else {
        la as i32 - lb as i32 - 1
    };
    let place: i32 = if h + e - 23 > 0 {
        h + e - 23
    } else {
        0
    };
    let ghost t = place as nat;
    proof {
        let pla = pow2(la as nat) as int;
        let plb = pow2(lb as nat) as int;
        let pla1 = pow2((la - 1) as nat) as int;
        let plb1 = pow2((lb - 1) as nat) as int;
        lemma_pow2_unfold(la as nat);
        lemma_pow2_unfold(lb as nat);
        lemma_pow2_pos((la - 1) as nat);
        lemma_pow2_pos((lb - 1) as nat);
        let p64 = pow2(64) as int;
        let lo = pow2((h + 64) as nat) as int;
        let hi = pow2((h + 65) as nat) as int;
        lemma_pow2_unfold((h + 65) as nat);
        lemma_pow2_pos((h + 64) as nat);
        if left >= right {
            // a * 2^lb >= b * 2^la, and a < 2^la <= 2 * b * 2^(la - lb)
            lemma_pow2_adds(lb as nat, (64 - lb) as nat);
            lemma_pow2_adds(la as nat, (64 - lb) as nat);
            lemma_pow2_pos((64 - lb) as nat);
            let rest = pow2((64 - lb) as nat) as int;
            assert(b * lo <= a * p64) by (nonlinear_arith)
                requires
                    a * plb >= b * pla,
                    p64 == plb * rest,
                    lo == pla * rest,
                    rest > 0,
            ;
            assert(a * p64 < b * hi) by (nonlinear_arith)
                requires
                    a < pla,
                    b >= plb1,
                    plb == 2 * plb1,
                    hi == 2 * lo,
                    lo == pla * rest,
                    p64 == plb * rest,
                    rest > 0,
                    plb1 > 0,
            ;
        } else {
            // a * 2^lb < b * 2^la, and 2 * a >= 2^la > b * 2^(la - lb)
            lemma_pow2_adds(lb as nat, (64 - lb) as nat);
            lemma_pow2_adds(la as nat, (64 - lb) as nat);
            lemma_pow2_pos((64 - lb) as nat);
            let rest = pow2((64 - lb) as nat) as int;
            assert(hi == pla * rest);
            assert(a * p64 < b * hi) by (nonlinear_arith)
                requires
                    a * plb < b * pla,
                    p64 == plb * rest,
                    hi == pla * rest,
                    rest > 0,
            ;
            assert(b * lo <= a * p64) by (nonlinear_arith)
                requires
                    a >= pla1,
                    pla == 2 * pla1,
                    b < plb,
                    hi == 2 * lo,
                    hi == pla * rest,
                    p64 == plb * rest,
                    rest > 0,
                    pla1 > 0,
            ;
        }
        lemma_place_of_ratio(a as int, b as int, e as int, h as int, t);
        lemma_last_place_is(n, d, t);
    }
    if place > 253 {
        proof {
            lemma_units_of_parts(253, SIGNIFICAND_LIMIT as nat);
            lemma_pow2_unfold(254);
            assert(SIGNIFICAND_LIMIT * pow2(253) == HIDDEN_BIT * pow2(254)) by (nonlinear_arith)
                requires
                    pow2(254) == 2 * pow2(253),
            ;
        }
        return INFINITY_BITS;
    }
    let shift: i32 = e - place;
    let ghost scaled = d * pow2(t);
    let ghost q = n / scaled;
    let top: u128;
    let bottom: u128;
    if shift >= 0 {
        proof {
            let g = shift as nat;
            let c = pow2(1024 + t) as int;
            let pg = pow2(g) as int;
            lemma_pow2_pos(g);
            lemma_pow2_pos(1024 + t);
            lemma_pow2_adds(g, 1024 + t);
            lemma_pow2_adds(1024, t);
            assert(n == (a * pg) * c && scaled == b * c) by (nonlinear_arith)
                requires
                    n == a * (pg * c),
                    scaled == (b * pow2(1024)) * pow2(t),
                    c == pow2(1024) * pow2(t),
            ;
            assert(a * pg >= 0) by (nonlinear_arith)
                requires
                    a >= 0,
                    pg > 0,
            ;
            lemma_scaled_division(a * pg, b as int, c);
            lemma_round_half_even_scaled(a * pg, b as int, c);
            lemma_fundamental_div_mod(a * pg, b as int);
            lemma_mod_pos_bound(a * pg, b as int);
            assert(a * pg < 0x100_0000_0000_0000) by (nonlinear_arith)
                requires
                    a * pg == b * ((a * pg) / (b as int)) + (a * pg) % (b as int),
                    (a * pg) / (b as int) < 0x100_0000,
                    (a * pg) % (b as int) < b,
                    0 < b < 0x1_0000_0000,
            ;
            assert(pg <= a * pg) by (nonlinear_arith)
                requires
                    a >= 1,
                    pg > 0,
            ;
            if g >= 56 {
                if g > 56 {
                    lemma_pow2_strictly_increases(56, g);
                }
            }
            assert(g < 56);
        }
        top = a as u128 * power_of_two(shift as u32) as u128;
        bottom = b as u128;
    } else {
        let k: i32 = -shift;
        proof {
            let c = pow2((e + 1024) as nat) as int;
            let pk = pow2(k as nat) as int;
            lemma_pow2_pos(k as nat);
            lemma_pow2_adds(k as nat, (e + 1024) as nat);
            lemma_pow2_adds(1024, t);
            assert(n == a * c && scaled == (b * pk) * c && b * pk > 0) by (nonlinear_arith)
                requires
                    n == a * c,
                    scaled == (b * pow2(1024)) * pow2(t),
                    pow2(1024) * pow2(t) == pk * c,
                    b > 0,
                    pk > 0,
            ;
            lemma_scaled_division(a as int, b * pk, c);
            lemma_round_half_even_scaled(a as int, b * pk, c);
            if k >= 58 {
                if k > 58 {
                    lemma_pow2_strictly_increases(58, k as nat);
                }
                assert(2 * a < b * pk) by (nonlinear_arith)
                    requires
                        a < 0x100_0000_0000_0000,
                        b >= 1,
                        pk >= 0x400_0000_0000_0000,
                ;
                lemma_basic_div(a as int, b * pk);
                lemma_small_mod(a as nat, (b * pk) as nat);
                assert(round_half_even(a as int, b * pk) == 0);
                assert(t == 0);
                lemma_zero_magnitude(Scalar { bits: 0 });
            } else {
                lemma_pow2_strictly_increases(k as nat, 58);
                assert(b * pk < 0x400_0000_0000_0000_0000_0000) by (nonlinear_arith)
                    requires
                        0 < b < 0x1_0000_0000,
                        0 < pk < 0x400_0000_0000_0000,
                ;
            }
        }
        if k >= 58 {
            return 0;
        }
        top = a as u128;
        bottom = b as u128 * power_of_two(k as u32) as u128;
    }
    assert(bottom > 0 && q == top / bottom && round_half_even(n, scaled) == round_half_even(
        top as int,
        bottom as int,
    ));
    let whole: u128 = top / bottom;
    let rest: u128 = top % bottom;
    let significand: u128 = if 2 * rest < bottom {
        whole
    } else if 2 * rest > bottom {
        whole + 1
    } else if whole % 2 == 0 {
        whole
    } else {
        whole + 1
    };
    proof {
        assert(significand == round_half_even(top as int, bottom as int));
        lemma_units_of_parts(t, significand as nat);
    }
    place as u32 * HIDDEN_BIT + significand as u32
}

/// An integer below `2^32` rounds to a finite number.
proof fn lemma_integer_is_finite(w: u32)
    requires
        has_last_place((w * pow2(149)) as int, 1),
    ensures
        rounded_units((w * pow2(149)) as int, 1) < infinity_units(),
{
    let n = (w * pow2(149)) as int;
    let t = last_place(n, 1);
    lemma2_to64();
    lemma_pow2_pos(149);
    lemma_pow2_pos(t);
    lemma_pow2_adds(32, 149);
    lemma_pow2_adds(24, 157);
    lemma_pow2_adds(23, 254);
    lemma_pow2_strictly_increases(181, 277);
    assert(0 <= n < pow2(181)) by (nonlinear_arith)
        requires
            n == w * pow2(149),
            0 <= w < 0x1_0000_0000,
            pow2(181) == 0x1_0000_0000 * pow2(149),
            pow2(149) > 0,
    ;
    if t > 157 {
        lemma_quotient_shrinks(n, 1, 157, (t - 1) as nat);
        assert(n < (1 * pow2(157)) * 0x100_0000) by (nonlinear_arith)
            requires
                n < pow2(181),
                pow2(181) == 0x100_0000 * pow2(157),
        ;
        lemma_multiply_divide_lt(n, (1 * pow2(157)) as int, 0x100_0000);
    }
    let scaled = (1 * pow2(t)) as int;
    lemma_fundamental_div_mod(n, scaled);
    lemma_mod_pos_bound(n, scaled);
    if t < 157 {
        lemma_pow2_strictly_increases(t, 157);
    }
    assert(round_half_even(n, scaled) * pow2(t) < infinity_units()) by (nonlinear_arith)
        requires
            round_half_even(n, scaled) <= n / scaled + 1,
            n / scaled < 0x100_0000,
            0 < pow2(t) <= pow2(157),
            pow2(181) == 0x100_0000 * pow2(157),
            pow2(181) < pow2(277),
            infinity_units() == 0x80_0000 * pow2(254),
            pow2(277) == 0x80_0000 * pow2(254),
            0 <= n / scaled,
    ;
}

/// The bits of one.
pub const ONE_BITS: u32 = 0x3f80_0000;

impl Scalar {
    /// The magnitude of `self / r` as binary32 division gives it, in units of
    /// `2^-149`: the exact quotient rounded to binary32.
    pub open spec fn quotient_units(self, r: Scalar) -> int {
        rounded_units((self.abs_units() * pow2(149)) as int, r.abs_units() as int)
    }

    /// The magnitude of `self * other` as binary32 multiplication gives it, in
    /// units of `2^-149`: the exact product rounded to binary32.
    pub open spec fn product_units(self, other: Scalar) -> int {
        rounded_units((self.abs_units() * other.abs_units()) as int, pow2(149) as int)
    }

    /// `self / r` as binary32 division gives it: the binary32 number nearest
    /// to the exact quotient, with the sign of `self`.
    pub(crate) fn divided_by(self, r: Scalar) -> (q: Scalar)
        requires
            self.is_finite(),
            r.is_positive(),
        ensures
            !q.is_nan(),
            q.is_negative() == self.is_negative(),
            q.abs_units() == self.quotient_units(r),
    {
        let (sp, lp) = self.decompose();
        let (sr, lr) = r.decompose();
        let e: i32 = lp as i32 + 149 - lr as i32;
        let ghost n = (self.abs_units() * pow2(149)) as int;
        let ghost d = r.abs_units() as int;
        let ghost c = pow2((1024 - lr) as nat) as int;
        proof {
            crate::scalar::lemma_positive(r);
            lemma_pow2_pos(lr as nat);
            lemma_pow2_pos(lp as nat);
            lemma_pow2_pos(149);
            lemma_pow2_pos((1024 - lr) as nat);
            lemma_pow2_adds(lp as nat, 149);
            lemma_pow2_adds((lp + 149) as nat, (1024 - lr) as nat);
            lemma_pow2_adds(lr as nat, (1024 - lr) as nat);
            assert(sr > 0) by (nonlinear_arith)
                requires
                    sr * pow2(lr as nat) > 0,
                    sr >= 0,
            ;
            assert(ratio_numerator(sp as int, e as int) == n * c && n >= 0) by (nonlinear_arith)
                requires
                    ratio_numerator(sp as int, e as int) == sp * (pow2((lp + 149) as nat) * c),
                    n == (sp * pow2(lp as nat)) * pow2(149),
                    pow2((lp + 149) as nat) == pow2(lp as nat) * pow2(149),
                    sp >= 0,
                    pow2(lp as nat) > 0,
                    pow2(149) > 0,
            ;
            assert(ratio_denominator(sr as int) == d * c && d > 0) by (nonlinear_arith)
                requires
                    ratio_denominator(sr as int) == sr * (pow2(lr as nat) * c),
                    d == sr * pow2(lr as nat),
                    sr > 0,
                    pow2(lr as nat) > 0,
            ;
        }
        let bits = round_ratio(sp as u64, sr as u64, e);
        proof {
            lemma_rounded_units_scaled(n, d, c);
        }
        if self.negative() {
            Scalar { bits: bits + crate::scalar::SIGN_BIT }
        } else {
            Scalar { bits }
        }
    }

    /// `self * other` as binary32 multiplication gives it: the binary32 number
    /// nearest to the exact product. The sign is left out: the result is that
    /// of the magnitudes.
    pub(crate) fn times_magnitude(self, other: Scalar) -> (product: Scalar)
        requires
            self.is_finite(),
            other.is_finite(),
        ensures
            !product.is_nan(),
            !product.is_negative(),
            product.abs_units() == self.product_units(other),
    {
        let (sx, lx) = self.decompose();
        let (sy, ly) = other.decompose();
        let e: i32 = lx as i32 + ly as i32 - 149;
        let ghost n = (self.abs_units() * other.abs_units()) as int;
        let ghost d = pow2(149) as int;
        let ghost c = pow2(875) as int;
        proof {
            lemma_pow2_pos(lx as nat);
            lemma_pow2_pos(ly as nat);
            lemma_pow2_pos(149);
            lemma_pow2_pos(875);
            lemma_pow2_adds(lx as nat, ly as nat);
            lemma_pow2_adds((lx + ly) as nat, 875);
            lemma_pow2_adds(149, 875);
            assert(sx * sy < 0x1_0000_0000_0000 && sx * sy >= 0) by (nonlinear_arith)
                requires
                    0 <= sx < 0x100_0000,
                    0 <= sy < 0x100_0000,
            ;
            assert(ratio_numerator(sx * sy, e as int) == n * c && n >= 0) by (nonlinear_arith)
                requires
                    ratio_numerator(sx * sy, e as int) == (sx * sy) * (pow2((lx + ly) as nat) * c),
                    n == (sx * pow2(lx as nat)) * (sy * pow2(ly as nat)),
                    pow2((lx + ly) as nat) == pow2(lx as nat) * pow2(ly as nat),
                    sx >= 0,
                    sy >= 0,
                    pow2(lx as nat) > 0,
                    pow2(ly as nat) > 0,
            ;
            assert(ratio_denominator(1) == d * c) by (nonlinear_arith)
                requires
                    ratio_denominator(1) == 1 * pow2(1024),
                    pow2(1024) == d * c,
            ;
        }
        let bits = round_ratio(sx as u64 * sy as u64, 1, e);
        proof {
            lemma_rounded_units_scaled(n, d, c);
        }
        Scalar { bits }
    }

    /// The magnitude of an integer as a binary32 number, in units of
    /// `2^-149`: the integer rounded to binary32.
    pub open spec fn integer_units(w: u32) -> int {
        rounded_units((w * pow2(149)) as int, 1)
    }

    /// An integer as a binary32 number: the binary32 number nearest to it.
    pub(crate) fn from_integer(w: u32) -> (s: Scalar)
        ensures
            s.is_finite(),
            !s.is_negative(),
            s.abs_units() == Scalar::integer_units(w),
    {
        let ghost n = (w * pow2(149)) as int;
        let ghost c = pow2(1024) as int;
        proof {
            lemma_pow2_pos(149);
            lemma_pow2_pos(1024);
            lemma_pow2_adds(149, 1024);
            assert(ratio_numerator(w as int, 149) == n * c && n >= 0) by (nonlinear_arith)
                requires
                    ratio_numerator(w as int, 149) == w * (pow2(149) * c),
                    n == w * pow2(149),
                    w >= 0,
                    pow2(149) > 0,
            ;
            assert(ratio_denominator(1) == 1 * c);
        }
        let bits = round_ratio(w as u64, 1, 149);
        proof {
            lemma_rounded_units_scaled(n, 1, c);
            lemma_integer_is_finite(w);
            let s = Scalar { bits };
            let infinity = Scalar { bits: INFINITY_BITS };
            assert(infinity.abs_units() == infinity_units());
            if s.magnitude() > infinity.magnitude() {
                crate::scalar::lemma_abs_units_increasing(infinity, s);
            }
        }
        Scalar { bits }
    }
}

} // verus!
