//! Three-component integer vectors and coordinate axes.

use vstd::prelude::*;

verus! {

/// One of the three coordinate axes.
#[derive(Clone, Copy, PartialEq, Eq, Structural, Debug)]
pub enum Axis {
    X,
    Y,
    Z,
}

/// A three-component vector of fixed-point coordinates.  Positions,
/// velocities and half-extents are all stored in the same caller-chosen
/// unit (for example thousandths of a metre).
#[derive(Clone, Copy, PartialEq, Eq, Structural, Debug)]
pub struct Vec3i {
    pub x: i64,
    pub y: i64,
    pub z: i64,
}

impl Vec3i {
    /// The component of `self` along axis `a`.
    pub open spec fn spec_axis(self, a: Axis) -> i64 {
        match a {
            Axis::X => self.x,
            Axis::Y => self.y,
            Axis::Z => self.z,
        }
    }

    pub open spec fn spec_with_axis(self, a: Axis, v: i64) -> Vec3i {
        match a {
            Axis::X => Vec3i { x: v, ..self },
            Axis::Y => Vec3i { y: v, ..self },
            Axis::Z => Vec3i { z: v, ..self },
        }
    }

    pub fn new(x: i64, y: i64, z: i64) -> (r: Vec3i)
        ensures
            r == (Vec3i { x, y, z }),
    {
        Vec3i { x, y, z }
    }

    pub fn zero() -> (r: Vec3i)
        ensures
            r == (Vec3i { x: 0, y: 0, z: 0 }),
    {
        Vec3i { x: 0, y: 0, z: 0 }
    }

    pub fn axis_value(&self, a: Axis) -> (r: i64)
        ensures
            r == self.spec_axis(a),
    {
        match a {
            Axis::X => self.x,
            Axis::Y => self.y,
            Axis::Z => self.z,
        }
    }

    /// `self` with the component along `a` replaced by `v`.
    pub fn with_axis(&self, a: Axis, v: i64) -> (r: Vec3i)
        ensures
            r == self.spec_with_axis(a, v),
            r.spec_axis(a) == v,
            forall|b: Axis| b != a ==> r.spec_axis(b) == self.spec_axis(b),
    {
        match a {
            Axis::X => Vec3i { x: v, y: self.y, z: self.z },
            Axis::Y => Vec3i { x: self.x, y: v, z: self.z },
            Axis::Z => Vec3i { x: self.x, y: self.y, z: v },
        }
    }
}

/// A body's world transform.  This core tracks translation only; the
/// rendering shell owns orientation, which never reaches the integer
/// collision model.
#[derive(Clone, Copy, PartialEq, Eq, Structural, Debug)]
pub struct Transform {
    pub translation: Vec3i,
}

impl Transform {
    pub fn from_translation(translation: Vec3i) -> (r: Transform)
        ensures
            r == (Transform { translation }),
    {
        Transform { translation }
    }
}

} // verus!
