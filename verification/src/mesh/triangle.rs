//! Triangles, and when a ray is taken to hit one.
use crate::bbox::Bbox;
use crate::rounding::ONE_BITS;
use crate::arithmetic::lemma_plus_commutes;
use crate::scalar::{lemma_order_by_bits, lemma_zero_magnitude, Scalar};
use crate::vector::{Vector2, Vector3};
use vstd::prelude::*;

verus! {

/// Three corners in space, each with the texture coordinate that belongs to
/// it.
#[derive(Clone, Copy, Debug, PartialEq, Eq, Structural)]
pub struct Triangle {
    pub position_a: Vector3,
    pub position_b: Vector3,
    pub position_c: Vector3,
    pub texture_a: Vector2,
    pub texture_b: Vector2,
    pub texture_c: Vector2,
}

impl Triangle {
    /// The corner `a`, `b` or `c`, for `k` of 0, 1 or 2.
    pub open spec fn corner(self, k: int) -> Vector3 {
        if k == 0 {
            self.position_a
        } else if k == 1 {
            self.position_b
        } else {
            self.position_c
        }
    }

    pub fn new(
        position_a: Vector3,
        position_b: Vector3,
        position_c: Vector3,
        texture_a: Vector2,
        texture_b: Vector2,
        texture_c: Vector2,
    ) -> (t: Triangle)
        ensures
            t.position_a == position_a,
            t.position_b == position_b,
            t.position_c == position_c,
            t.texture_a == texture_a,
            t.texture_b == texture_b,
            t.texture_c == texture_c,
    {
        Triangle { position_a, position_b, position_c, texture_a, texture_b, texture_c }
    }
}

/// The bits of the margin by which the box of a triangle is widened on every
/// side: the binary32 number nearest to `0.001`.
pub const MARGIN_BITS: u32 = 0x3a83_126f;

impl Triangle {
    /// The box of the triangle, widened by the margin on every side.
    pub open spec fn padded_box(self) -> Bbox {
        let margin = Vector3::splat(Scalar { bits: MARGIN_BITS });
        Bbox {
            min: self.position_a.lower(self.position_b).lower(self.position_c).minus(margin),
            max: self.position_a.upper(self.position_b).upper(self.position_c).plus(margin),
        }
    }

    /// The box of the triangle, widened by the margin on every side, so that
    /// a ray that runs within the triangle's plane does not slip past it.
    pub fn aabb(&self) -> (b: Bbox)
        ensures
            b == self.padded_box(),
    {
        let margin = Vector3::repeat(MARGIN_BITS);
        Bbox {
            min: self.position_a.inf(&self.position_b).inf(&self.position_c).sub(&margin),
            max: self.position_a.sup(&self.position_b).sup(&self.position_c).add(&margin),
        }
    }
}

/// The corners of the triangles, in order: `a`, `b`, `c` of the first, then of
/// the second, and so on.
pub open spec fn corners_of(triangles: Seq<Triangle>) -> Seq<Vector3> {
    Seq::new(3 * triangles.len(), |i: int| triangles[i / 3].corner(i % 3))
}

/// The bits of the tolerance of the hit test: the binary32 number nearest to
/// `1e-5`.
pub const EPSILON_BITS: u32 = 0x3727_c5ac;

/// The bits of the tolerance, negated.
pub const MINUS_EPSILON_BITS: u32 = 0xb727_c5ac;

/// The bits of one plus the tolerance, as binary32 addition gives it.
pub const ONE_PLUS_EPSILON_BITS: u32 = 0x3f80_0054;

/// What a ray-triangle test reports: the distance along the ray, and where in
/// the triangle the ray passes, as the weights `u` of the second corner and
/// `v` of the third.
#[derive(Clone, Copy, Debug, PartialEq, Eq, Structural)]
pub struct Intersection {
    pub distance: Scalar,
    pub u: Scalar,
    pub v: Scalar,
}

impl Intersection {
    /// The report counts as a hit: the distance is finite and at least `-e`,
    /// `u` and `v` lie between `-e` and `1 + e`, and `u + v` is at most
    /// `1 + e`, for the tolerance `e`.
    pub open spec fn accepted(self) -> bool {
        let low = Scalar { bits: MINUS_EPSILON_BITS };
        let high = Scalar { bits: ONE_PLUS_EPSILON_BITS };
        &&& self.distance.is_finite()
        &&& low.le(self.distance)
        &&& low.le(self.u) && self.u.le(high)
        &&& low.le(self.v) && self.v.le(high)
        &&& self.u.plus(self.v).le(high)
    }

    /// An accepted report with the tolerance taken out: the distance raised to
    /// zero, `u` and `v` brought into the range from zero to one.
    pub open spec fn settled(self) -> Intersection {
        let zero = Scalar { bits: 0 };
        let one = Scalar { bits: ONE_BITS };
        Intersection {
            distance: if self.distance.lt(zero) {
                zero
            } else {
                self.distance
            },
            u: self.u.clamped(zero, one),
            v: self.v.clamped(zero, one),
        }
    }

    /// The same hit with `u` and `v` exchanged: the hit as the triangle with
    /// its second and third corner exchanged sees it.
    pub open spec fn swapped(self) -> Intersection {
        Intersection { distance: self.distance, u: self.v, v: self.u }
    }

    /// Whether the report counts as a hit.
    pub fn accept(&self) -> (b: bool)
        ensures
            b == self.accepted(),
    {
        let low = Scalar { bits: MINUS_EPSILON_BITS };
        let high = Scalar { bits: ONE_PLUS_EPSILON_BITS };
        self.distance.finite() && low.less_or_equal(self.distance) && low.less_or_equal(self.u)
            && self.u.less_or_equal(high) && low.less_or_equal(self.v) && self.v.less_or_equal(
            high,
        ) && self.u.add(self.v).less_or_equal(high)
    }

    /// Takes the tolerance out of an accepted report.
    pub fn settle(&self) -> (hit: Intersection)
        ensures
            hit == self.settled(),
    {
        let zero = Scalar { bits: 0 };
        let one = Scalar { bits: ONE_BITS };
        Intersection {
            distance: if self.distance.less_than(zero) {
                zero
            } else {
                self.distance
            },
            u: self.u.clamp(zero, one),
            v: self.v.clamp(zero, one),
        }
    }
}

/// The hit of a ray on a triangle, told from the report of the test on the
/// triangle as it stands, `forward`, and of the test on the triangle with its
/// second and third corner exchanged, `reversed`: the first where it is
/// accepted, else the second where that is accepted, with `u` and `v` brought
/// back to the corners as they stand.
pub open spec fn resolved(forward: Intersection, reversed: Intersection) -> Option<Intersection> {
    if forward.accepted() {
        Some(forward.settled())
    } else if reversed.accepted() {
        Some(reversed.settled().swapped())
    } else {
        None
    }
}

/// The weighted sum `wa * a + wb * b + wc * c`, added up from the left.
pub open spec fn blend(wa: Scalar, a: Scalar, wb: Scalar, b: Scalar, wc: Scalar, c: Scalar) -> Scalar {
    wa.times(a).plus(wb.times(b)).plus(wc.times(c))
}

impl Triangle {
    /// The texture coordinate of a hit: the texture coordinates of the three
    /// corners, weighted with `1 - u - v`, `u` and `v`.
    pub open spec fn uv_at(self, hit: Intersection) -> Vector2 {
        let alpha = (Scalar { bits: ONE_BITS }).minus(hit.u).minus(hit.v);
        Vector2 {
            x: blend(alpha, self.texture_a.x, hit.u, self.texture_b.x, hit.v, self.texture_c.x),
            y: blend(alpha, self.texture_a.y, hit.u, self.texture_b.y, hit.v, self.texture_c.y),
        }
    }

    /// The texture coordinate of a hit.
    pub fn intersection_to_uv(&self, intersection: &Intersection) -> (uv: Vector2)
        ensures
            uv == self.uv_at(*intersection),
    {
        let alpha = Scalar { bits: ONE_BITS }.sub(intersection.u).sub(intersection.v);
        let beta = intersection.u;
        let gamma = intersection.v;
        Vector2 {
            x: alpha.mul(self.texture_a.x).add(beta.mul(self.texture_b.x)).add(
                gamma.mul(self.texture_c.x),
            ),
            y: alpha.mul(self.texture_a.y).add(beta.mul(self.texture_b.y)).add(
                gamma.mul(self.texture_c.y),
            ),
        }
    }

    /// The hit of a ray on the triangle, whichever way the triangle winds.
    /// `forward` is the report of the test on the corners `a`, `b`, `c`,
    /// `reversed` that of the test on `a`, `c`, `b`.
    pub fn intersects(forward: &Intersection, reversed: &Intersection) -> (hit: Option<
        Intersection,
    >)
        ensures
            hit == resolved(*forward, *reversed),
    {
        if forward.accept() {
            Some(forward.settle())
        } else if reversed.accept() {
            let hit = reversed.settle();
            Some(Intersection { distance: hit.distance, u: hit.v, v: hit.u })
        } else {
            None
        }
    }
}

/// The hit that the triangle with its second and third corner exchanged
/// should see where the triangle as it stands sees `hit`: the same hit with
/// `u` and `v` exchanged, and none where there is none.
pub open spec fn seen_reversed(hit: Option<Intersection>) -> Option<Intersection> {
    match hit {
        Some(h) => Some(h.swapped()),
        None => None,
    }
}

/// The hit test does not depend on the winding. Exchanging the second and
/// third corner exchanges the two reports. A hit is then found exactly when
/// one was found before, whatever the reports are. And it is the same hit,
/// seen from the exchanged corners, wherever the two reports do not both
/// hold a hit of their own: where at most one of them is accepted, which is
/// so where at most one distance is finite, as it is where a ray meets a
/// triangle from one side only; and where the second report is the first
/// with `u` and `v` exchanged.
pub proof fn lemma_winding_independent(forward: Intersection, reversed: Intersection)
    ensures
        resolved(reversed, forward) is Some <==> resolved(forward, reversed) is Some,
        !(forward.accepted() && reversed.accepted()) ==> resolved(reversed, forward)
            == seen_reversed(resolved(forward, reversed)),
        !(forward.distance.is_finite() && reversed.distance.is_finite()) ==> resolved(
            reversed,
            forward,
        ) == seen_reversed(resolved(forward, reversed)),
        reversed == forward.swapped() ==> resolved(reversed, forward) == seen_reversed(
            resolved(forward, reversed),
        ),
{
    if reversed == forward.swapped() {
        lemma_plus_commutes(forward.u, forward.v);
    }
}

/// A report on the border of the triangle is accepted: with a finite distance
/// that is not negative, `u` and `v` from zero to one and their sum at most
/// one, equality included in each, the report counts as a hit, and the hit is
/// the report itself.
pub proof fn lemma_border_is_accepted(hit: Intersection)
    requires
        hit.distance.is_finite(),
        hit.distance.units() >= 0,
        hit.u.units() >= 0,
        hit.v.units() >= 0,
        hit.u.le(Scalar { bits: ONE_BITS }),
        hit.v.le(Scalar { bits: ONE_BITS }),
        hit.u.plus(hit.v).le(Scalar { bits: ONE_BITS }),
    ensures
        hit.accepted(),
        hit.settled() == hit,
{
    let zero = Scalar { bits: 0 };
    let low = Scalar { bits: MINUS_EPSILON_BITS };
    let one = Scalar { bits: ONE_BITS };
    let high = Scalar { bits: ONE_PLUS_EPSILON_BITS };
    lemma_order_by_bits(low, zero);
    lemma_order_by_bits(zero, hit.distance);
    lemma_order_by_bits(zero, hit.u);
    lemma_order_by_bits(zero, hit.v);
    lemma_order_by_bits(zero, one);
    lemma_order_by_bits(one, high);
    lemma_order_by_bits(hit.u.plus(hit.v), one);
    lemma_order_by_bits(hit.u.plus(hit.v), high);
    lemma_order_by_bits(hit.u, one);
    lemma_order_by_bits(hit.v, one);
    lemma_order_by_bits(hit.u, high);
    lemma_order_by_bits(hit.v, high);
    lemma_zero_magnitude(zero);
}

} // verus!
