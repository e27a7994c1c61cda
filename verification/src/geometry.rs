//! Points, capsules and poses, by their coordinates.
//!
//! The operations round after every step, in the order in which their
//! descriptions name the steps.
use vstd::prelude::*;

use crate::double::Double;

verus! {

/// A point or a direction in space.
#[derive(Clone, Copy, Debug, PartialEq, Eq, Structural)]
pub struct Vector {
    pub x: Double,
    pub y: Double,
    pub z: Double,
}

/// Three column vectors.
#[derive(Clone, Copy, Debug, PartialEq, Eq, Structural)]
pub struct Matrix {
    pub first: Vector,
    pub second: Vector,
    pub third: Vector,
}

/// A line-swept sphere: every point within `radius` of the segment `a` to `b`.
#[derive(Clone, Copy, Debug, PartialEq, Eq, Structural)]
pub struct Capsule {
    pub a: Vector,
    pub b: Vector,
    pub radius: Double,
}

/// What measuring two capsules gives: the distance of their surfaces, negative
/// where they interpenetrate, and a witness point on each.
#[derive(Clone, Copy, Debug, PartialEq, Eq, Structural)]
pub struct CapsuleDistance {
    pub distance: Double,
    pub on_a: Vector,
    pub on_b: Vector,
}

/// A rotation (a unit quaternion: its vector part, then its scalar part) and
/// the translation that follows it.
#[derive(Clone, Copy, Debug, PartialEq, Eq, Structural)]
pub struct Pose {
    pub imaginary: Vector,
    pub scalar: Double,
    pub translation: Vector,
}

impl Vector {
    /// The origin.
    pub open spec fn origin() -> Self {
        Vector { x: Double { bits: 0 }, y: Double { bits: 0 }, z: Double { bits: 0 } }
    }

    /// Whether no coordinate is infinite or no number.
    pub open spec fn is_finite(self) -> bool {
        self.x.is_finite() && self.y.is_finite() && self.z.is_finite()
    }

    /// `self + other`, by coordinates.
    pub open spec fn sum(self, other: Self) -> Self {
        Vector { x: self.x.sum(other.x), y: self.y.sum(other.y), z: self.z.sum(other.z) }
    }

    /// `self - other`, by coordinates.
    pub open spec fn difference(self, other: Self) -> Self {
        Vector {
            x: self.x.difference(other.x),
            y: self.y.difference(other.y),
            z: self.z.difference(other.z),
        }
    }

    /// `self * t`, by coordinates.
    pub open spec fn scaled(self, t: Double) -> Self {
        Vector { x: self.x.product(t), y: self.y.product(t), z: self.z.product(t) }
    }

    /// `self / t`, by coordinates.
    pub open spec fn over(self, t: Double) -> Self {
        Vector { x: self.x.quotient(t), y: self.y.quotient(t), z: self.z.quotient(t) }
    }

    /// The scalar product: the three products added up from the first.
    pub open spec fn inner(self, other: Self) -> Double {
        self.x.product(other.x).sum(self.y.product(other.y)).sum(self.z.product(other.z))
    }

    /// The length.
    pub open spec fn length(self) -> Double {
        self.inner(self).root()
    }

    /// Whether no coordinate is infinite or no number.
    pub fn finite(self) -> (r: bool)
        ensures
            r == self.is_finite(),
    {
        self.x.finite() && self.y.finite() && self.z.finite()
    }

    /// `self + other`.
    pub fn add(self, other: Self) -> (r: Self)
        ensures
            r == self.sum(other),
    {
        Vector { x: self.x.add(other.x), y: self.y.add(other.y), z: self.z.add(other.z) }
    }

    /// `self - other`.
    pub fn sub(self, other: Self) -> (r: Self)
        ensures
            r == self.difference(other),
    {
        Vector { x: self.x.sub(other.x), y: self.y.sub(other.y), z: self.z.sub(other.z) }
    }

    /// `self * t`.
    pub fn scale(self, t: Double) -> (r: Self)
        ensures
            r == self.scaled(t),
    {
        Vector { x: self.x.mul(t), y: self.y.mul(t), z: self.z.mul(t) }
    }

    /// `self / t`.
    pub fn unscale(self, t: Double) -> (r: Self)
        ensures
            r == self.over(t),
    {
        Vector { x: self.x.div(t), y: self.y.div(t), z: self.z.div(t) }
    }

    /// The scalar product.
    pub fn dot(self, other: Self) -> (r: Double)
        ensures
            r == self.inner(other),
    {
        self.x.mul(other.x).add(self.y.mul(other.y)).add(self.z.mul(other.z))
    }

    /// The length.
    pub fn norm(self) -> (r: Double)
        ensures
            r == self.length(),
    {
        self.dot(self).sqrt()
    }
}

impl Matrix {
    /// The matrix of zeros.
    pub open spec fn zeros() -> Self {
        Matrix { first: Vector::origin(), second: Vector::origin(), third: Vector::origin() }
    }

    /// `self + other`, by entries.
    pub open spec fn sum(self, other: Self) -> Self {
        Matrix {
            first: self.first.sum(other.first),
            second: self.second.sum(other.second),
            third: self.third.sum(other.third),
        }
    }

    /// `self / t`, by entries.
    pub open spec fn over(self, t: Double) -> Self {
        Matrix {
            first: self.first.over(t),
            second: self.second.over(t),
            third: self.third.over(t),
        }
    }

    /// The product of a vector with its own transpose.
    pub open spec fn outer(v: Vector) -> Self {
        Matrix { first: v.scaled(v.x), second: v.scaled(v.y), third: v.scaled(v.z) }
    }

    /// `self + other`.
    pub fn add(self, other: Self) -> (r: Self)
        ensures
            r == self.sum(other),
    {
        Matrix {
            first: self.first.add(other.first),
            second: self.second.add(other.second),
            third: self.third.add(other.third),
        }
    }

    /// `self / t`.
    pub fn unscale(self, t: Double) -> (r: Self)
        ensures
            r == self.over(t),
    {
        Matrix {
            first: self.first.unscale(t),
            second: self.second.unscale(t),
            third: self.third.unscale(t),
        }
    }

    /// The product of a vector with its own transpose.
    pub fn square_of(v: Vector) -> (r: Self)
        ensures
            r == Matrix::outer(v),
    {
        Matrix { first: v.scale(v.x), second: v.scale(v.y), third: v.scale(v.z) }
    }
}

/// A vector is finite exactly where all three coordinates are.
pub proof fn law_vectors_are_finite_by_coordinates(v: Vector)
    ensures
        v.is_finite() <==> {
            &&& v.x.magnitude() < crate::double::INFINITE
            &&& v.y.magnitude() < crate::double::INFINITE
            &&& v.z.magnitude() < crate::double::INFINITE
        },
{
}

} // verus!
