//! Rotations about the origin.
//!
//! A rotation is given by three angles, which turn a body about its own
//! axes: first by the roll about x, then by the pitch about the y that the
//! roll has turned, then by the yaw about the z that both have turned. The
//! matrix of such a rotation is the product `Rx * Ry * Rz` of the matrices of
//! the three turns. The rotation is held as that matrix, which a position is
//! multiplied with, and made from the sines and cosines of the three angles.
use crate::arithmetic::{lemma_plus_zero, lemma_times_one, lemma_times_zero, same_number};
use crate::scalar::lemma_zero_magnitude;
use crate::rounding::ONE_BITS;
use crate::scalar::Scalar;
use crate::vector::{same_point, Vector3};
use vstd::prelude::*;

verus! {

/// The sine and the cosine of an angle.
#[derive(Clone, Copy, Debug, PartialEq, Eq, Structural)]
pub struct SinCos {
    pub sin: Scalar,
    pub cos: Scalar,
}

/// A matrix of three rows and three columns; `m12` stands in the first row
/// and the second column.
#[derive(Clone, Copy, Debug, PartialEq, Eq, Structural)]
pub struct Rotation3 {
    pub m11: Scalar,
    pub m12: Scalar,
    pub m13: Scalar,
    pub m21: Scalar,
    pub m22: Scalar,
    pub m23: Scalar,
    pub m31: Scalar,
    pub m32: Scalar,
    pub m33: Scalar,
}

/// `a * x + b * y + c * z`, added up from the left: one row of a matrix times
/// a position.
pub open spec fn row_times(a: Scalar, b: Scalar, c: Scalar, p: Vector3) -> Scalar {
    a.times(p.x).plus(b.times(p.y)).plus(c.times(p.z))
}

impl Rotation3 {
    /// The rotation by a roll about x, then a pitch about y, then a yaw about
    /// z, each about the axis as the turns before have left it: the matrix
    /// `Rx * Ry * Rz`, written out from the sines `s` and cosines `c` of the
    /// roll `r`, the pitch `p` and the yaw `y`.
    ///
    /// ```text
    /// cp*cy               -(cp*sy)             sp
    /// cr*sy + sr*sp*cy    cr*cy - sr*sp*sy     -(sr*cp)
    /// sr*sy - cr*sp*cy    sr*cy + cr*sp*sy     cr*cp
    /// ```
    pub open spec fn of_euler_angles(roll: SinCos, pitch: SinCos, yaw: SinCos) -> Rotation3 {
        let (sr, cr) = (roll.sin, roll.cos);
        let (sp, cp) = (pitch.sin, pitch.cos);
        let (sy, cy) = (yaw.sin, yaw.cos);
        Rotation3 {
            m11: cp.times(cy),
            m12: cp.times(sy).negated(),
            m13: sp,
            m21: cr.times(sy).plus(sr.times(sp).times(cy)),
            m22: cr.times(cy).minus(sr.times(sp).times(sy)),
            m23: sr.times(cp).negated(),
            m31: sr.times(sy).minus(cr.times(sp).times(cy)),
            m32: sr.times(cy).plus(cr.times(sp).times(sy)),
            m33: cr.times(cp),
        }
    }

    /// The position turned by the rotation: the matrix times the position.
    pub open spec fn applied(self, p: Vector3) -> Vector3 {
        Vector3 {
            x: row_times(self.m11, self.m12, self.m13, p),
            y: row_times(self.m21, self.m22, self.m23, p),
            z: row_times(self.m31, self.m32, self.m33, p),
        }
    }

    /// The rotation by a roll about x, then a pitch about y, then a yaw about
    /// z, from the sines and cosines of the three angles.
    pub fn from_euler_angles(roll: SinCos, pitch: SinCos, yaw: SinCos) -> (rotation: Rotation3)
        ensures
            rotation == Rotation3::of_euler_angles(roll, pitch, yaw),
    {
        let (sr, cr) = (roll.sin, roll.cos);
        let (sp, cp) = (pitch.sin, pitch.cos);
        let (sy, cy) = (yaw.sin, yaw.cos);
        Rotation3 {
            m11: cp.mul(cy),
            m12: cp.mul(sy).neg(),
            m13: sp,
            m21: cr.mul(sy).add(sr.mul(sp).mul(cy)),
            m22: cr.mul(cy).sub(sr.mul(sp).mul(sy)),
            m23: sr.mul(cp).neg(),
            m31: sr.mul(sy).sub(cr.mul(sp).mul(cy)),
            m32: sr.mul(cy).add(cr.mul(sp).mul(sy)),
            m33: cr.mul(cp),
        }
    }

    /// Turns a position.
    pub fn apply(&self, p: &Vector3) -> (turned: Vector3)
        ensures
            turned == self.applied(*p),
    {
        Vector3 {
            x: self.m11.mul(p.x).add(self.m12.mul(p.y)).add(self.m13.mul(p.z)),
            y: self.m21.mul(p.x).add(self.m22.mul(p.y)).add(self.m23.mul(p.z)),
            z: self.m31.mul(p.x).add(self.m32.mul(p.y)).add(self.m33.mul(p.z)),
        }
    }
}

/// The sine and the cosine of no angle: zero and one.
pub open spec fn no_angle() -> SinCos {
    SinCos { sin: Scalar { bits: 0 }, cos: Scalar { bits: ONE_BITS } }
}

/// The rotation by no angle at all.
pub open spec fn no_rotation() -> Rotation3 {
    Rotation3::of_euler_angles(no_angle(), no_angle(), no_angle())
}

/// The matrix of no rotation has one on its diagonal and zero elsewhere.
pub proof fn lemma_no_rotation_matrix()
    ensures
        no_rotation().m11 == (Scalar { bits: ONE_BITS }),
        no_rotation().m22 == (Scalar { bits: ONE_BITS }),
        no_rotation().m33 == (Scalar { bits: ONE_BITS }),
        no_rotation().m12.is_zero(),
        no_rotation().m13.is_zero(),
        no_rotation().m21.is_zero(),
        no_rotation().m23.is_zero(),
        no_rotation().m31.is_zero(),
        no_rotation().m32.is_zero(),
{
    let one = Scalar { bits: ONE_BITS };
    let zero = Scalar { bits: 0 };
    // one times one is one, one times zero and zero times one are zero
    lemma_times_one(one);
    lemma_times_one(zero);
    // zero times zero, and that once more times zero or one
    let square = zero.times(zero);
    lemma_times_zero(zero, zero);
    lemma_times_zero(square, zero);
    lemma_times_one(square);
    // zero negated is a zero
    assert(zero.negated().is_zero());
    assert(square.times(zero).negated().is_zero());
    // the sums and differences of the second and the third row
    lemma_plus_zero(zero, square);
    lemma_plus_zero(one, square.times(zero).negated());
    lemma_plus_zero(square, zero.negated());
    assert(!one.is_zero());
}

/// A row of one and two zeros times a finite position is the coordinate that
/// the one stands at.
proof fn lemma_unit_row(a: Scalar, b: Scalar, c: Scalar, p: Vector3, at: int)
    requires
        p.is_finite(),
        0 <= at < 3,
        at == 0 ==> a == (Scalar { bits: ONE_BITS }) && b.is_zero() && c.is_zero(),
        at == 1 ==> b == (Scalar { bits: ONE_BITS }) && a.is_zero() && c.is_zero(),
        at == 2 ==> c == (Scalar { bits: ONE_BITS }) && a.is_zero() && b.is_zero(),
    ensures
        same_number(row_times(a, b, c, p), if at == 0 { p.x } else if at == 1 { p.y } else { p.z }),
{
    if at == 0 {
        lemma_times_one(p.x);
        lemma_times_zero(b, p.y);
        lemma_times_zero(c, p.z);
        lemma_plus_zero(p.x, b.times(p.y));
        lemma_plus_zero(p.x.plus(b.times(p.y)), c.times(p.z));
    } else if at == 1 {
        lemma_times_one(p.y);
        lemma_times_zero(a, p.x);
        lemma_times_zero(c, p.z);
        lemma_plus_zero(p.y, a.times(p.x));
        lemma_plus_zero(a.times(p.x).plus(p.y), c.times(p.z));
    } else {
        lemma_times_one(p.z);
        lemma_times_zero(a, p.x);
        lemma_times_zero(b, p.y);
        lemma_plus_zero(a.times(p.x), b.times(p.y));
        lemma_plus_zero(p.z, a.times(p.x).plus(b.times(p.y)));
    }
}

/// No rotation leaves every finite position where it is.
pub proof fn lemma_no_rotation(p: Vector3)
    requires
        p.is_finite(),
    ensures
        same_point(no_rotation().applied(p), p),
{
    let none = no_rotation();
    lemma_no_rotation_matrix();
    lemma_unit_row(none.m11, none.m12, none.m13, p, 0);
    lemma_unit_row(none.m21, none.m22, none.m23, p, 1);
    lemma_unit_row(none.m31, none.m32, none.m33, p, 2);
}

/// Two matrices that are one matrix: their entries are the same numbers.
pub open spec fn same_matrix(a: Rotation3, b: Rotation3) -> bool {
    &&& same_number(a.m11, b.m11) && same_number(a.m12, b.m12) && same_number(a.m13, b.m13)
    &&& same_number(a.m21, b.m21) && same_number(a.m22, b.m22) && same_number(a.m23, b.m23)
    &&& same_number(a.m31, b.m31) && same_number(a.m32, b.m32) && same_number(a.m33, b.m33)
}

/// The turn about the x axis by an angle of sine `s` and cosine `c`: `y` goes
/// towards `z`.
pub open spec fn about_x(angle: SinCos) -> Rotation3 {
    let one = Scalar { bits: ONE_BITS };
    let zero = Scalar { bits: 0 };
    Rotation3 {
        m11: one,
        m12: zero,
        m13: zero,
        m21: zero,
        m22: angle.cos,
        m23: angle.sin.negated(),
        m31: zero,
        m32: angle.sin,
        m33: angle.cos,
    }
}

/// The turn about the y axis: `z` goes towards `x`.
pub open spec fn about_y(angle: SinCos) -> Rotation3 {
    let one = Scalar { bits: ONE_BITS };
    let zero = Scalar { bits: 0 };
    Rotation3 {
        m11: angle.cos,
        m12: zero,
        m13: angle.sin,
        m21: zero,
        m22: one,
        m23: zero,
        m31: angle.sin.negated(),
        m32: zero,
        m33: angle.cos,
    }
}

/// The turn about the z axis: `x` goes towards `y`.
pub open spec fn about_z(angle: SinCos) -> Rotation3 {
    let one = Scalar { bits: ONE_BITS };
    let zero = Scalar { bits: 0 };
    Rotation3 {
        m11: angle.cos,
        m12: angle.sin.negated(),
        m13: zero,
        m21: angle.sin,
        m22: angle.cos,
        m23: zero,
        m31: zero,
        m32: zero,
        m33: one,
    }
}

/// Products and sums of a finite number with zeros and ones, as the entries
/// of a rotation by one angle alone are made of them.
proof fn lemma_with_zeros_and_ones(x: Scalar)
    requires
        x.is_finite(),
    ensures
        ({
            let one = Scalar { bits: ONE_BITS };
            let zero = Scalar { bits: 0 };
            &&& one.times(x) == x && x.times(one) == x
            &&& x.times(zero).is_zero() && zero.times(x).is_zero()
            &&& x.times(zero).times(one).is_zero() && zero.times(x).times(one).is_zero()
            &&& x.times(zero).times(zero).is_zero() && zero.times(x).times(zero).is_zero()
            &&& zero.times(zero).times(x).is_zero()
            &&& one.times(zero).times(x).is_zero()
            &&& one.times(x).times(zero).is_zero()
            &&& one.times(x).times(one) == x
            &&& zero.is_finite() && one.is_finite() && !x.is_nan() && !x.negated().is_nan()
            &&& x.negated().is_finite()
        }),
{
    let one = Scalar { bits: ONE_BITS };
    let zero = Scalar { bits: 0 };
    lemma_times_one(x);
    lemma_times_one(zero);
    lemma_times_zero(zero, x);
    lemma_times_zero(zero, zero);
    lemma_times_zero(x.times(zero), one);
    lemma_times_zero(zero.times(x), one);
    lemma_times_zero(x.times(zero), zero);
    lemma_times_zero(zero.times(x), zero);
    lemma_times_zero(zero.times(zero), x);
}

/// A number and a zero, added or taken away in either order.
proof fn lemma_with_a_zero(x: Scalar, z: Scalar)
    requires
        x.is_finite(),
        z.is_zero(),
    ensures
        same_number(x.plus(z), x),
        same_number(z.plus(x), x),
        same_number(x.minus(z), x),
        same_number(z.minus(x), x.negated()),
        x.is_zero() ==> x.plus(z).is_zero() && x.minus(z).is_zero(),
{
    assert(z.negated().is_zero());
    lemma_plus_zero(x, z);
    lemma_plus_zero(x, z.negated());
    lemma_plus_zero(x.negated(), z);
    assert(x.negated().units() == -x.units());
}

/// A roll alone is the turn about x.
proof fn lemma_sole_roll(angle: SinCos)
    requires
        angle.sin.is_finite(),
        angle.cos.is_finite(),
    ensures
        same_matrix(Rotation3::of_euler_angles(angle, no_angle(), no_angle()), about_x(angle)),
{
    let one = Scalar { bits: ONE_BITS };
    let zero = Scalar { bits: 0 };
    let (s, c) = (angle.sin, angle.cos);
    lemma_zero_magnitude(zero);
    lemma_with_zeros_and_ones(s);
    lemma_with_zeros_and_ones(c);
    lemma_with_zeros_and_ones(one);
    lemma_with_zeros_and_ones(zero);
    assert(one.times(zero).negated().is_zero());
    lemma_zero_magnitude(one.times(zero).negated());
    lemma_with_a_zero(c.times(zero), s.times(zero).times(one));
    lemma_with_a_zero(c, s.times(zero).times(zero));
    lemma_with_a_zero(s.times(zero), c.times(zero).times(one));
    lemma_with_a_zero(s, c.times(zero).times(zero));
    lemma_zero_magnitude(c.times(zero).plus(s.times(zero).times(one)));
    lemma_zero_magnitude(s.times(zero).minus(c.times(zero).times(one)));
}

/// A pitch alone is the turn about y.
proof fn lemma_sole_pitch(angle: SinCos)
    requires
        angle.sin.is_finite(),
        angle.cos.is_finite(),
    ensures
        same_matrix(Rotation3::of_euler_angles(no_angle(), angle, no_angle()), about_y(angle)),
{
    let one = Scalar { bits: ONE_BITS };
    let zero = Scalar { bits: 0 };
    let (s, c) = (angle.sin, angle.cos);
    lemma_zero_magnitude(zero);
    lemma_with_zeros_and_ones(s);
    lemma_with_zeros_and_ones(c);
    lemma_with_zeros_and_ones(one);
    lemma_with_zeros_and_ones(zero);
    assert(c.times(zero).negated().is_zero());
    assert(zero.times(c).negated().is_zero());
    lemma_zero_magnitude(c.times(zero).negated());
    lemma_zero_magnitude(zero.times(c).negated());
    lemma_with_a_zero(one.times(zero), zero.times(s).times(one));
    lemma_with_a_zero(one, zero.times(s).times(zero));
    lemma_with_a_zero(s, zero.times(zero));
    lemma_with_a_zero(zero.times(one), one.times(s).times(zero));
    lemma_zero_magnitude(one.times(zero).plus(zero.times(s).times(one)));
    lemma_zero_magnitude(zero.times(one).plus(one.times(s).times(zero)));
}

/// A yaw alone is the turn about z.
proof fn lemma_sole_yaw(angle: SinCos)
    requires
        angle.sin.is_finite(),
        angle.cos.is_finite(),
    ensures
        same_matrix(Rotation3::of_euler_angles(no_angle(), no_angle(), angle), about_z(angle)),
{
    let one = Scalar { bits: ONE_BITS };
    let zero = Scalar { bits: 0 };
    let (s, c) = (angle.sin, angle.cos);
    lemma_zero_magnitude(zero);
    lemma_with_zeros_and_ones(s);
    lemma_with_zeros_and_ones(c);
    lemma_with_zeros_and_ones(one);
    lemma_with_zeros_and_ones(zero);
    assert(zero.times(one).negated().is_zero());
    lemma_zero_magnitude(zero.times(one).negated());
    lemma_with_a_zero(s, zero.times(zero).times(c));
    lemma_with_a_zero(c, zero.times(zero).times(s));
    lemma_with_a_zero(zero.times(s), one.times(zero).times(c));
    lemma_with_a_zero(zero.times(c), one.times(zero).times(s));
    lemma_zero_magnitude(zero.times(s).minus(one.times(zero).times(c)));
    lemma_zero_magnitude(zero.times(c).plus(one.times(zero).times(s)));
}

/// Each angle alone turns about its own axis: with no pitch and no yaw the
/// rotation is the turn about x by the roll, with no roll and no yaw the turn
/// about y by the pitch, with no roll and no pitch the turn about z by the
/// yaw.
pub proof fn lemma_sole_turns(angle: SinCos)
    requires
        angle.sin.is_finite(),
        angle.cos.is_finite(),
    ensures
        same_matrix(Rotation3::of_euler_angles(angle, no_angle(), no_angle()), about_x(angle)),
        same_matrix(Rotation3::of_euler_angles(no_angle(), angle, no_angle()), about_y(angle)),
        same_matrix(Rotation3::of_euler_angles(no_angle(), no_angle(), angle), about_z(angle)),
{
    lemma_sole_roll(angle);
    lemma_sole_pitch(angle);
    lemma_sole_yaw(angle);
}

} // verus!
