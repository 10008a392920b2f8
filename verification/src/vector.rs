//! Points in space and texture coordinates.
use crate::arithmetic::same_number;
use crate::scalar::Scalar;
use vstd::prelude::*;

verus! {

/// A point or a direction in space.
#[derive(Clone, Copy, Debug, PartialEq, Eq, Structural)]
pub struct Vector3 {
    pub x: Scalar,
    pub y: Scalar,
    pub z: Scalar,
}

/// A texture coordinate.
#[derive(Clone, Copy, Debug, PartialEq, Eq, Structural)]
pub struct Vector2 {
    pub x: Scalar,
    pub y: Scalar,
}

impl Vector3 {
    /// The smaller of the two on each axis.
    pub open spec fn lower(self, other: Vector3) -> Vector3 {
        Vector3 {
            x: self.x.lower(other.x),
            y: self.y.lower(other.y),
            z: self.z.lower(other.z),
        }
    }

    /// The larger of the two on each axis.
    pub open spec fn upper(self, other: Vector3) -> Vector3 {
        Vector3 {
            x: self.x.upper(other.x),
            y: self.y.upper(other.y),
            z: self.z.upper(other.z),
        }
    }

    /// The point whose three coordinates are all `s`.
    pub open spec fn splat(s: Scalar) -> Vector3 {
        Vector3 { x: s, y: s, z: s }
    }

    /// Each of the three coordinates is finite.
    pub open spec fn is_finite(self) -> bool {
        self.x.is_finite() && self.y.is_finite() && self.z.is_finite()
    }

    /// Whether each of the three coordinates is finite.
    pub fn finite(&self) -> (b: bool)
        ensures
            b == self.is_finite(),
    {
        self.x.finite() && self.y.finite() && self.z.finite()
    }

    /// The point whose three coordinates all have the given bits.
    pub fn repeat(bits: u32) -> (v: Vector3)
        ensures
            v == Vector3::splat(Scalar { bits }),
    {
        let s = Scalar { bits };
        Vector3 { x: s, y: s, z: s }
    }

    /// The smaller of the two on each axis.
    pub fn inf(&self, other: &Vector3) -> (v: Vector3)
        ensures
            v == self.lower(*other),
    {
        Vector3 { x: self.x.min(other.x), y: self.y.min(other.y), z: self.z.min(other.z) }
    }

    /// The larger of the two on each axis.
    pub fn sup(&self, other: &Vector3) -> (v: Vector3)
        ensures
            v == self.upper(*other),
    {
        Vector3 { x: self.x.max(other.x), y: self.y.max(other.y), z: self.z.max(other.z) }
    }
}

impl Vector3 {
    /// The sum, coordinate by coordinate.
    pub open spec fn plus(self, other: Vector3) -> Vector3 {
        Vector3 { x: self.x.plus(other.x), y: self.y.plus(other.y), z: self.z.plus(other.z) }
    }

    /// The difference, coordinate by coordinate.
    pub open spec fn minus(self, other: Vector3) -> Vector3 {
        Vector3 { x: self.x.minus(other.x), y: self.y.minus(other.y), z: self.z.minus(other.z) }
    }

    /// Each coordinate times the factor.
    pub open spec fn scaled(self, factor: Scalar) -> Vector3 {
        Vector3 { x: self.x.times(factor), y: self.y.times(factor), z: self.z.times(factor) }
    }

    /// The sum, coordinate by coordinate.
    pub fn add(&self, other: &Vector3) -> (v: Vector3)
        ensures
            v == self.plus(*other),
    {
        Vector3 { x: self.x.add(other.x), y: self.y.add(other.y), z: self.z.add(other.z) }
    }

    /// The difference, coordinate by coordinate.
    pub fn sub(&self, other: &Vector3) -> (v: Vector3)
        ensures
            v == self.minus(*other),
    {
        Vector3 { x: self.x.sub(other.x), y: self.y.sub(other.y), z: self.z.sub(other.z) }
    }

    /// Each coordinate times the factor.
    pub fn scale(&self, factor: Scalar) -> (v: Vector3)
        ensures
            v == self.scaled(factor),
    {
        Vector3 { x: self.x.mul(factor), y: self.y.mul(factor), z: self.z.mul(factor) }
    }
}

/// Two positions that are one position: their coordinates are the same
/// numbers.
pub open spec fn same_point(p: Vector3, q: Vector3) -> bool {
    same_number(p.x, q.x) && same_number(p.y, q.y) && same_number(p.z, q.z)
}

} // verus!
