//! Exact contact queries between shapes.
//!
//! Boxes in this core are axis-aligned, so a box-box contact always has
//! an axis-aligned normal: the axis of least overlap, oriented from the
//! first shape toward the second.  Pairs involving a triangle mesh are
//! reported as having no contact here; an outside narrow phase may
//! compute such contacts and hand them to the resolution functions.

use vstd::prelude::*;
use crate::aabb::{overlap_width, Aabb};
use crate::shape::{vec3i_in_range, Shape};
use crate::fixed::COORD_LIMIT;
use crate::vecmath::{Axis, Transform, Vec3i};

verus! {

/// A unit contact normal along a coordinate axis, pointing in the
/// positive or negative direction of that axis.
#[derive(Clone, Copy, PartialEq, Eq, Structural, Debug)]
pub struct ContactNormal {
    pub axis: Axis,
    pub positive: bool,
}

impl ContactNormal {
    /// The normal's component along its own axis: `1` or `-1`.
    pub open spec fn spec_sign(self) -> int {
        if self.positive {
            1
        } else {
            -1
        }
    }

    /// The opposite direction.
    pub open spec fn spec_flip(self) -> ContactNormal {
        ContactNormal { axis: self.axis, positive: !self.positive }
    }

    pub fn flip(&self) -> (r: ContactNormal)
        ensures
            r == self.spec_flip(),
    {
        ContactNormal { axis: self.axis, positive: !self.positive }
    }

    /// The inner product of a vector with the normal.
    pub open spec fn spec_dot(self, v: Vec3i) -> int {
        v.spec_axis(self.axis) * self.spec_sign()
    }

    pub fn dot(&self, v: &Vec3i) -> (r: i64)
        requires
            i64::MIN < v.spec_axis(self.axis),
        ensures
            r == self.spec_dot(*v),
    {
        let c = v.axis_value(self.axis);
        if self.positive {
            c
        } else {
            -c
        }
    }
}

/// The result of an exact contact query: a unit normal pointing from
/// the first body toward the second, and the signed distance along it.
/// A distance of zero or less means the bodies overlap.
#[derive(Clone, Copy, PartialEq, Eq, Structural, Debug)]
pub struct Contact {
    pub normal: ContactNormal,
    pub dist: i64,
}

/// The least of the three overlap widths between two boxes.
pub open spec fn min_overlap(a: Aabb, b: Aabb) -> int {
    let wx = overlap_width(a, b, Axis::X);
    let wy = overlap_width(a, b, Axis::Y);
    let wz = overlap_width(a, b, Axis::Z);
    if wy < wx {
        if wz < wy {
            wz
        } else {
            wy
        }
    } else {
        if wz < wx {
            wz
        } else {
            wx
        }
    }
}

/// The axis of least overlap; the earlier axis (x before y before z)
/// wins a tie.
pub open spec fn min_overlap_axis(a: Aabb, b: Aabb) -> Axis {
    let wx = overlap_width(a, b, Axis::X);
    let wy = overlap_width(a, b, Axis::Y);
    let wz = overlap_width(a, b, Axis::Z);
    if wy < wx {
        if wz < wy {
            Axis::Z
        } else {
            Axis::Y
        }
    } else {
        if wz < wx {
            Axis::Z
        } else {
            Axis::X
        }
    }
}

/// The contact between two axis-aligned boxes, if their separation
/// along the axis of least overlap is within the tolerance.  The
/// normal points from box `a` toward box `b`; when the centers agree
/// it points in the positive direction.
pub open spec fn spec_box_contact(a: Aabb, b: Aabb, tol: int) -> Option<Contact> {
    let m = min_overlap(a, b);
    let ax = min_overlap_axis(a, b);
    if -m <= tol {
        Some(
            Contact {
                normal: ContactNormal {
                    axis: ax,
                    positive: b.spec_center().spec_axis(ax) >= a.spec_center().spec_axis(ax),
                },
                dist: (-m) as i64,
            },
        )
    } else {
        None
    }
}

/// The exact contact between two shapes under their transforms.  Only
/// box pairs produce a contact in this core; any pair involving a
/// triangle mesh reports no contact.
pub open spec fn spec_contact(sa: Shape, ta: Transform, sb: Shape, tb: Transform, tol: int) -> Option<
    Contact,
> {
    match (sa, sb) {
        (Shape::BoxShape { half_extents: _ }, Shape::BoxShape { half_extents: _ }) => {
            spec_box_contact(sa.spec_aabb(ta.translation), sb.spec_aabb(tb.translation), tol)
        },
        _ => None,
    }
}

/// Exact geometric contact query between two shapes.
pub fn contact(
    shape_a: &Shape,
    transform_a: &Transform,
    shape_b: &Shape,
    transform_b: &Transform,
    tolerance: i64,
) -> (r: Option<Contact>)
    requires
        shape_a.wf(),
        shape_b.wf(),
        vec3i_in_range(transform_a.translation, COORD_LIMIT as int),
        vec3i_in_range(transform_b.translation, COORD_LIMIT as int),
        tolerance >= 0,
    ensures
        r == spec_contact(*shape_a, *transform_a, *shape_b, *transform_b, tolerance as int),
        r matches Some(c) ==> -4 * (COORD_LIMIT as int) <= c.dist <= 4 * (COORD_LIMIT as int),
{
    match (shape_a, shape_b) {
        (Shape::BoxShape { half_extents: _ }, Shape::BoxShape { half_extents: _ }) => {
            let aabb_a = shape_a.compute_aabb(transform_a);
            let aabb_b = shape_b.compute_aabb(transform_b);
            box_contact(&aabb_a, &aabb_b, tolerance)
        },
        _ => None,
    }
}

/// Contact query on two well-formed boxes with bounded coordinates.
fn box_contact(a: &Aabb, b: &Aabb, tolerance: i64) -> (r: Option<Contact>)
    requires
        a.wf(),
        b.wf(),
        vec3i_in_range(a.mins, 2 * COORD_LIMIT as int),
        vec3i_in_range(a.maxs, 2 * COORD_LIMIT as int),
        vec3i_in_range(b.mins, 2 * COORD_LIMIT as int),
        vec3i_in_range(b.maxs, 2 * COORD_LIMIT as int),
        tolerance >= 0,
    ensures
        r == spec_box_contact(*a, *b, tolerance as int),
        r matches Some(c) ==> -4 * (COORD_LIMIT as int) <= c.dist <= 4 * (COORD_LIMIT as int),
{
    let wx = axis_width(a, b, Axis::X);
    let wy = axis_width(a, b, Axis::Y);
    let wz = axis_width(a, b, Axis::Z);
    let (m, ax) = if wy < wx {
        if wz < wy {
            (wz, Axis::Z)
        } else {
            (wy, Axis::Y)
        }
    } else {
        if wz < wx {
            (wz, Axis::Z)
        } else {
            (wx, Axis::X)
        }
    };
    if -m <= tolerance {
        let ca = a.center();
        let cb = b.center();
        let positive = cb.axis_value(ax) >= ca.axis_value(ax);
        Some(Contact { normal: ContactNormal { axis: ax, positive }, dist: -m })
    } else {
        None
    }
}

/// Overlap width of two bounded boxes along one axis.
fn axis_width(a: &Aabb, b: &Aabb, ax: Axis) -> (r: i64)
    requires
        vec3i_in_range(a.mins, 2 * COORD_LIMIT as int),
        vec3i_in_range(a.maxs, 2 * COORD_LIMIT as int),
        vec3i_in_range(b.mins, 2 * COORD_LIMIT as int),
        vec3i_in_range(b.maxs, 2 * COORD_LIMIT as int),
    ensures
        r == overlap_width(*a, *b, ax),
{
    let alo = a.mins.axis_value(ax);
    let ahi = a.maxs.axis_value(ax);
    let blo = b.mins.axis_value(ax);
    let bhi = b.maxs.axis_value(ax);
    let lo = if alo >= blo {
        alo
    } else {
        blo
    };
    let hi = if ahi <= bhi {
        ahi
    } else {
        bhi
    };
    hi - lo
}

/// A box-box contact at zero tolerance exists exactly when the two
/// bounding boxes intersect, and then the signed distance is the
/// negated least overlap.
pub proof fn lemma_box_contact_intersects(a: Aabb, b: Aabb)
    requires
        a.wf(),
        b.wf(),
        vec3i_in_range(a.mins, 2 * COORD_LIMIT as int),
        vec3i_in_range(a.maxs, 2 * COORD_LIMIT as int),
        vec3i_in_range(b.mins, 2 * COORD_LIMIT as int),
        vec3i_in_range(b.maxs, 2 * COORD_LIMIT as int),
    ensures
        spec_box_contact(a, b, 0) is Some <==> a.spec_intersects(b),
        spec_box_contact(a, b, 0) matches Some(c) ==> c.dist == -min_overlap(a, b) && c.dist <= 0,
{
}

} // verus!
