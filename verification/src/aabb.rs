//! Axis-aligned bounding boxes and their subdivision into octants.

use vstd::prelude::*;
use crate::vecmath::{Axis, Vec3i};

verus! {

/// An axis-aligned bounding box, stored as its two extreme corners.
/// A box is well formed when `mins` is componentwise no greater than
/// `maxs`; boxes are closed, so a point on a face is inside.
#[derive(Clone, Copy, PartialEq, Eq, Structural, Debug)]
pub struct Aabb {
    pub mins: Vec3i,
    pub maxs: Vec3i,
}

/// The midpoint of the closed interval `[lo, hi]`, rounded down.
pub open spec fn axis_center(lo: int, hi: int) -> int {
    lo + (hi - lo) / 2
}

impl Aabb {
    pub open spec fn wf(self) -> bool {
        &&& self.mins.x <= self.maxs.x
        &&& self.mins.y <= self.maxs.y
        &&& self.mins.z <= self.maxs.z
    }

    pub open spec fn spec_contains(self, p: Vec3i) -> bool {
        &&& self.mins.x <= p.x <= self.maxs.x
        &&& self.mins.y <= p.y <= self.maxs.y
        &&& self.mins.z <= p.z <= self.maxs.z
    }

    /// Two closed boxes intersect when their coordinate ranges meet on
    /// every axis; touching faces count as intersecting.
    pub open spec fn spec_intersects(self, other: Aabb) -> bool {
        &&& self.mins.x <= other.maxs.x && other.mins.x <= self.maxs.x
        &&& self.mins.y <= other.maxs.y && other.mins.y <= self.maxs.y
        &&& self.mins.z <= other.maxs.z && other.mins.z <= self.maxs.z
    }

    /// The geometric center, each coordinate rounded toward the low corner.
    pub open spec fn spec_center(self) -> Vec3i {
        Vec3i {
            x: axis_center(self.mins.x as int, self.maxs.x as int) as i64,
            y: axis_center(self.mins.y as int, self.maxs.y as int) as i64,
            z: axis_center(self.mins.z as int, self.maxs.z as int) as i64,
        }
    }

    pub fn new(mins: Vec3i, maxs: Vec3i) -> (r: Aabb)
        ensures
            r == (Aabb { mins, maxs }),
    {
        Aabb { mins, maxs }
    }

    pub fn intersects(&self, other: &Aabb) -> (r: bool)
        ensures
            r == self.spec_intersects(*other),
    {
        self.mins.x <= other.maxs.x && other.mins.x <= self.maxs.x
            && self.mins.y <= other.maxs.y && other.mins.y <= self.maxs.y
            && self.mins.z <= other.maxs.z && other.mins.z <= self.maxs.z
    }

    pub fn contains_point(&self, p: &Vec3i) -> (r: bool)
        ensures
            r == self.spec_contains(*p),
    {
        self.mins.x <= p.x && p.x <= self.maxs.x
            && self.mins.y <= p.y && p.y <= self.maxs.y
            && self.mins.z <= p.z && p.z <= self.maxs.z
    }

    pub fn center(&self) -> (r: Vec3i)
        requires
            self.wf(),
        ensures
            r == self.spec_center(),
    {
        Vec3i {
            x: center_coord(self.mins.x, self.maxs.x),
            y: center_coord(self.mins.y, self.maxs.y),
            z: center_coord(self.mins.z, self.maxs.z),
        }
    }
}

/// Midpoint of `[lo, hi]` computed in wide arithmetic so that extreme
/// coordinates cannot overflow.
fn center_coord(lo: i64, hi: i64) -> (r: i64)
    requires
        lo <= hi,
    ensures
        r == axis_center(lo as int, hi as int),
        lo <= r <= hi,
{
    let w: i128 = (hi as i128) - (lo as i128);
    let c: i128 = (lo as i128) + w / 2;
    c as i64
}

/// Which half of the parent's range octant `i` spans on each axis:
/// the low half `[lo, center]` or the high half `[center, hi]`.
pub open spec fn octant_high(i: int, a: Axis) -> bool {
    match a {
        Axis::X => i % 2 == 1,
        Axis::Z => (i / 2) % 2 == 1,
        Axis::Y => (i / 4) % 2 == 1,
    }
}

/// Octant `i` (for `0 <= i < 8`) of a box: one of the eight sub-boxes
/// spanning, on each axis, either from the low corner to the center or
/// from the center to the high corner.
pub open spec fn spec_octant(b: Aabb, i: int) -> Aabb {
    let c = b.spec_center();
    Aabb {
        mins: Vec3i {
            x: if octant_high(i, Axis::X) { c.x } else { b.mins.x },
            y: if octant_high(i, Axis::Y) { c.y } else { b.mins.y },
            z: if octant_high(i, Axis::Z) { c.z } else { b.mins.z },
        },
        maxs: Vec3i {
            x: if octant_high(i, Axis::X) { b.maxs.x } else { c.x },
            y: if octant_high(i, Axis::Y) { b.maxs.y } else { c.y },
            z: if octant_high(i, Axis::Z) { b.maxs.z } else { c.z },
        },
    }
}

/// Subdivide a box into its eight octants by the geometric center.
/// The octants are ordered with the x side in the lowest bit of the
/// index, then the z side, then the y side.
pub fn subdivide_aabb(bounding_box: Aabb) -> (r: [Aabb; 8])
    requires
        bounding_box.wf(),
    ensures
        forall|i: int| 0 <= i < 8 ==> r@[i] == spec_octant(bounding_box, i),
{
    let mins = bounding_box.mins;
    let maxs = bounding_box.maxs;
    let c = bounding_box.center();
    let r = [
        // low x, low y, low z
        Aabb { mins, maxs: c },
        // high x, low y, low z
        Aabb {
            mins: Vec3i { x: c.x, y: mins.y, z: mins.z },
            maxs: Vec3i { x: maxs.x, y: c.y, z: c.z },
        },
        // low x, low y, high z
        Aabb {
            mins: Vec3i { x: mins.x, y: mins.y, z: c.z },
            maxs: Vec3i { x: c.x, y: c.y, z: maxs.z },
        },
        // high x, low y, high z
        Aabb {
            mins: Vec3i { x: c.x, y: mins.y, z: c.z },
            maxs: Vec3i { x: maxs.x, y: c.y, z: maxs.z },
        },
        // low x, high y, low z
        Aabb {
            mins: Vec3i { x: mins.x, y: c.y, z: mins.z },
            maxs: Vec3i { x: c.x, y: maxs.y, z: c.z },
        },
        // high x, high y, low z
        Aabb {
            mins: Vec3i { x: c.x, y: c.y, z: mins.z },
            maxs: Vec3i { x: maxs.x, y: maxs.y, z: c.z },
        },
        // low x, high y, high z
        Aabb {
            mins: Vec3i { x: mins.x, y: c.y, z: c.z },
            maxs: Vec3i { x: c.x, y: maxs.y, z: maxs.z },
        },
        // high x, high y, high z
        Aabb { mins: c, maxs },
    ];
    r
}

/// Whether point `p` lies in octant `i` of box `b`.
pub open spec fn octant_contains(b: Aabb, i: int, p: Vec3i) -> bool {
    spec_octant(b, i).spec_contains(p)
}

/// Width of the intersection of two boxes along one axis; zero or
/// negative when the ranges only touch or are disjoint.
pub open spec fn overlap_width(a: Aabb, b: Aabb, ax: Axis) -> int {
    let lo = if a.mins.spec_axis(ax) >= b.mins.spec_axis(ax) {
        a.mins.spec_axis(ax) as int
    } else {
        b.mins.spec_axis(ax) as int
    };
    let hi = if a.maxs.spec_axis(ax) <= b.maxs.spec_axis(ax) {
        a.maxs.spec_axis(ax) as int
    } else {
        b.maxs.spec_axis(ax) as int
    };
    hi - lo
}

/// Volume of the intersection of two boxes: the product of the three
/// overlap widths, or zero if the boxes do not intersect at all.
pub open spec fn overlap_volume(a: Aabb, b: Aabb) -> int {
    let wx = overlap_width(a, b, Axis::X);
    let wy = overlap_width(a, b, Axis::Y);
    let wz = overlap_width(a, b, Axis::Z);
    if wx >= 0 && wy >= 0 && wz >= 0 {
        wx * wy * wz
    } else {
        0
    }
}

/// Every octant is a well-formed box lying inside its parent.
pub proof fn lemma_octant_wf(b: Aabb, i: int)
    requires
        b.wf(),
        0 <= i < 8,
    ensures
        spec_octant(b, i).wf(),
        forall|p: Vec3i| spec_octant(b, i).spec_contains(p) ==> b.spec_contains(p),
{
}

/// Anything intersecting an octant intersects the parent box.
pub proof fn lemma_octant_intersects_parent(b: Aabb, i: int, a: Aabb)
    requires
        b.wf(),
        0 <= i < 8,
        spec_octant(b, i).spec_intersects(a),
    ensures
        b.spec_intersects(a),
{
}

/// Subdividing a box into eight octants exactly reconstructs it: a
/// point is in the box if and only if it is in some octant.
pub proof fn lemma_octants_cover(b: Aabb)
    requires
        b.wf(),
    ensures
        forall|p: Vec3i|
            b.spec_contains(p) <==> exists|i: int| 0 <= i < 8 && #[trigger] octant_contains(b, i, p),
{
    assert forall|p: Vec3i| b.spec_contains(p) implies exists|i: int|
        0 <= i < 8 && #[trigger] octant_contains(b, i, p) by {
        let c = b.spec_center();
        let ix: int = if p.x > c.x {
            1
        } else {
            0
        };
        let iz: int = if p.z > c.z {
            1
        } else {
            0
        };
        let iy: int = if p.y > c.y {
            1
        } else {
            0
        };
        let i = ix + 2 * iz + 4 * iy;
        assert(octant_contains(b, i, p));
    }
    assert forall|p: Vec3i|
        (exists|i: int| 0 <= i < 8 && #[trigger] octant_contains(b, i, p)) implies b.spec_contains(
        p,
    ) by {
        let i = choose|i: int| 0 <= i < 8 && #[trigger] octant_contains(b, i, p);
        lemma_octant_wf(b, i);
    }
}

/// Two distinct octants share at most a boundary face: the volume of
/// their intersection is zero.
pub proof fn lemma_octants_disjoint(b: Aabb, i: int, j: int)
    requires
        b.wf(),
        0 <= i < 8,
        0 <= j < 8,
        i != j,
    ensures
        overlap_volume(spec_octant(b, i), spec_octant(b, j)) == 0,
{
    let oi = spec_octant(b, i);
    let oj = spec_octant(b, j);
    let wx = overlap_width(oi, oj, Axis::X);
    let wy = overlap_width(oi, oj, Axis::Y);
    let wz = overlap_width(oi, oj, Axis::Z);
    if octant_high(i, Axis::X) != octant_high(j, Axis::X) {
        assert(wx <= 0);
    } else if octant_high(i, Axis::Z) != octant_high(j, Axis::Z) {
        assert(wz <= 0);
    } else {
        assert(octant_high(i, Axis::Y) != octant_high(j, Axis::Y));
        assert(wy <= 0);
    }
    if wx >= 0 && wy >= 0 && wz >= 0 {
        assert(wx == 0 || wy == 0 || wz == 0);
        assert(wx * wy * wz == 0) by (nonlinear_arith)
            requires
                wx >= 0 && wy >= 0 && wz >= 0 && (wx == 0 || wy == 0 || wz == 0),
        ;
    }
}

} // verus!
