//! Shapes, colliders and the conversion of raw mesh data into a
//! collider shape.

use vstd::prelude::*;
use crate::aabb::Aabb;
use crate::fixed::COORD_LIMIT;
use crate::vecmath::{Axis, Transform, Vec3i};

verus! {

/// One triangle of a mesh, as three indices into the vertex table.
#[derive(Clone, Copy, PartialEq, Eq, Structural, Debug)]
pub struct Triangle {
    pub i0: u32,
    pub i1: u32,
    pub i2: u32,
}

/// The geometric representation of a body: either a box given by its
/// half-extents, or a triangle mesh.  Shapes are immutable once built.
#[derive(Clone, Debug)]
pub enum Shape {
    BoxShape { half_extents: Vec3i },
    TriangleMesh { vertices: Vec<Vec3i>, triangles: Vec<Triangle> },
}

/// Raw mesh data as extracted from an asset: vertex positions in
/// fixed-point coordinates and triangles as index triples.
#[derive(Clone, Debug)]
pub struct VerticesIndices {
    pub verts: Vec<Vec3i>,
    pub indices: Vec<Triangle>,
}

/// Why raw mesh data could not be turned into a shape.  None of these
/// is fatal: the body simply stays outside the physics stages.
#[derive(Clone, Copy, PartialEq, Eq, Structural, Debug)]
pub enum MeshError {
    /// The asset carried no vertex positions.
    MissingPositions,
    /// The asset carried no index data.
    MissingIndices,
    /// A vertex coordinate exceeds the representable coordinate range.
    PositionOutOfRange,
    /// A triangle refers to a vertex that does not exist.
    IndexOutOfRange,
}

/// The association of a body with its shape.
#[derive(Clone, Debug)]
pub struct Collider {
    pub shape: Shape,
}

pub open spec fn vec3i_in_range(v: Vec3i, lim: int) -> bool {
    &&& -lim <= v.x <= lim
    &&& -lim <= v.y <= lim
    &&& -lim <= v.z <= lim
}

pub open spec fn triangle_in_range(t: Triangle, n: int) -> bool {
    t.i0 < n && t.i1 < n && t.i2 < n
}

impl Shape {
    pub open spec fn wf(self) -> bool {
        match self {
            Shape::BoxShape { half_extents: h } => {
                0 <= h.x <= COORD_LIMIT && 0 <= h.y <= COORD_LIMIT && 0 <= h.z <= COORD_LIMIT
            },
            Shape::TriangleMesh { vertices, triangles } => {
                &&& vertices@.len() >= 1
                &&& forall|k: int|
                    0 <= k < vertices@.len() ==> vec3i_in_range(#[trigger] vertices@[k], COORD_LIMIT as int)
                &&& forall|k: int|
                    0 <= k < triangles@.len() ==> triangle_in_range(
                        #[trigger] triangles@[k],
                        vertices@.len() as int,
                    )
            },
        }
    }
}

/// World coordinate of vertex `v` translated by `pos`, along axis `a`.
pub open spec fn world_coord(pos: Vec3i, v: Vec3i, a: Axis) -> int {
    pos.spec_axis(a) + v.spec_axis(a)
}

/// Least world coordinate along `a` among the vertices, translated by `pos`.
pub open spec fn mesh_lo(pos: Vec3i, verts: Seq<Vec3i>, a: Axis) -> int
    recommends
        verts.len() >= 1,
    decreases verts.len(),
{
    if verts.len() <= 1 {
        world_coord(pos, verts[0], a)
    } else {
        let rest = mesh_lo(pos, verts.drop_last(), a);
        let lastc = world_coord(pos, verts.last(), a);
        if lastc < rest {
            lastc
        } else {
            rest
        }
    }
}

/// Greatest world coordinate along `a` among the vertices, translated by `pos`.
pub open spec fn mesh_hi(pos: Vec3i, verts: Seq<Vec3i>, a: Axis) -> int
    recommends
        verts.len() >= 1,
    decreases verts.len(),
{
    if verts.len() <= 1 {
        world_coord(pos, verts[0], a)
    } else {
        let rest = mesh_hi(pos, verts.drop_last(), a);
        let lastc = world_coord(pos, verts.last(), a);
        if lastc > rest {
            lastc
        } else {
            rest
        }
    }
}

impl Shape {
    /// The bounding box of the shape under the given translation.
    pub open spec fn spec_aabb(self, pos: Vec3i) -> Aabb {
        match self {
            Shape::BoxShape { half_extents: h } => Aabb {
                mins: Vec3i {
                    x: (pos.x - h.x) as i64,
                    y: (pos.y - h.y) as i64,
                    z: (pos.z - h.z) as i64,
                },
                maxs: Vec3i {
                    x: (pos.x + h.x) as i64,
                    y: (pos.y + h.y) as i64,
                    z: (pos.z + h.z) as i64,
                },
            },
            Shape::TriangleMesh { vertices, triangles } => Aabb {
                mins: Vec3i {
                    x: mesh_lo(pos, vertices@, Axis::X) as i64,
                    y: mesh_lo(pos, vertices@, Axis::Y) as i64,
                    z: mesh_lo(pos, vertices@, Axis::Z) as i64,
                },
                maxs: Vec3i {
                    x: mesh_hi(pos, vertices@, Axis::X) as i64,
                    y: mesh_hi(pos, vertices@, Axis::Y) as i64,
                    z: mesh_hi(pos, vertices@, Axis::Z) as i64,
                },
            },
        }
    }

    /// Compute the axis-aligned bounding box of the shape under a world
    /// transform.  Pure: depends only on the shape and the transform.
    pub fn compute_aabb(&self, transform: &Transform) -> (r: Aabb)
        requires
            self.wf(),
            vec3i_in_range(transform.translation, COORD_LIMIT as int),
        ensures
            r == self.spec_aabb(transform.translation),
            r.wf(),
    {
        let pos = transform.translation;
        match self {
            Shape::BoxShape { half_extents: h } => {
                Aabb {
                    mins: Vec3i { x: pos.x - h.x, y: pos.y - h.y, z: pos.z - h.z },
                    maxs: Vec3i { x: pos.x + h.x, y: pos.y + h.y, z: pos.z + h.z },
                }
            },
            Shape::TriangleMesh { vertices, triangles } => {
                let v0 = vertices[0];
                let mut mins = Vec3i { x: pos.x + v0.x, y: pos.y + v0.y, z: pos.z + v0.z };
                let mut maxs = mins;
                let mut k: usize = 1;
                while k < vertices.len()
                    invariant
                        1 <= k <= vertices@.len(),
                        vec3i_in_range(pos, COORD_LIMIT as int),
                        forall|j: int|
                            0 <= j < vertices@.len() ==> vec3i_in_range(
                                #[trigger] vertices@[j],
                                COORD_LIMIT as int,
                            ),
                        mins.x == mesh_lo(pos, vertices@.subrange(0, k as int), Axis::X),
                        mins.y == mesh_lo(pos, vertices@.subrange(0, k as int), Axis::Y),
                        mins.z == mesh_lo(pos, vertices@.subrange(0, k as int), Axis::Z),
                        maxs.x == mesh_hi(pos, vertices@.subrange(0, k as int), Axis::X),
                        maxs.y == mesh_hi(pos, vertices@.subrange(0, k as int), Axis::Y),
                        maxs.z == mesh_hi(pos, vertices@.subrange(0, k as int), Axis::Z),
                    decreases vertices@.len() - k,
                {
                    let v = vertices[k];
                    let wx = pos.x + v.x;
                    let wy = pos.y + v.y;
                    let wz = pos.z + v.z;
                    proof {
                        let pre = vertices@.subrange(0, k as int);
                        let cur = vertices@.subrange(0, k as int + 1);
                        assert(cur.drop_last() =~= pre);
                        assert(cur.last() == vertices@[k as int]);
                    }
                    if wx < mins.x {
                        mins.x = wx;
                    }
                    if wy < mins.y {
                        mins.y = wy;
                    }
                    if wz < mins.z {
                        mins.z = wz;
                    }
                    if wx > maxs.x {
                        maxs.x = wx;
                    }
                    if wy > maxs.y {
                        maxs.y = wy;
                    }
                    if wz > maxs.z {
                        maxs.z = wz;
                    }
                    k = k + 1;
                }
                proof {
                    assert(vertices@.subrange(0, vertices@.len() as int) =~= vertices@);
                    lemma_mesh_bounds_wf(pos, vertices@, Axis::X);
                    lemma_mesh_bounds_wf(pos, vertices@, Axis::Y);
                    lemma_mesh_bounds_wf(pos, vertices@, Axis::Z);
                }
                Aabb { mins, maxs }
            },
        }
    }
}

/// Along each axis the least vertex coordinate is no greater than the
/// greatest, so a mesh bounding box is well formed.
proof fn lemma_mesh_bounds_wf(pos: Vec3i, verts: Seq<Vec3i>, a: Axis)
    requires
        verts.len() >= 1,
    ensures
        mesh_lo(pos, verts, a) <= mesh_hi(pos, verts, a),
    decreases verts.len(),
{
    if verts.len() > 1 {
        lemma_mesh_bounds_wf(pos, verts.drop_last(), a);
    }
}

impl Collider {
    pub open spec fn wf(self) -> bool {
        self.shape.wf()
    }

    /// Conversion step of the mesh-collider contract: given resolved
    /// vertex and index arrays, build a triangle-mesh collider.  Fails,
    /// without being fatal, when the data is absent or out of range.
    pub fn from_mesh(data: VerticesIndices) -> (r: Result<Collider, MeshError>)
        ensures
            r == Err::<Collider, MeshError>(MeshError::MissingPositions) <==> data.verts@.len()
                == 0,
            r == Err::<Collider, MeshError>(MeshError::MissingIndices) <==> data.verts@.len() > 0
                && data.indices@.len() == 0,
            r == Err::<Collider, MeshError>(MeshError::PositionOutOfRange) <==> data.verts@.len()
                > 0 && data.indices@.len() > 0 && !(forall|k: int|
                0 <= k < data.verts@.len() ==> vec3i_in_range(
                    #[trigger] data.verts@[k],
                    COORD_LIMIT as int,
                )),
            r == Err::<Collider, MeshError>(MeshError::IndexOutOfRange) <==> data.verts@.len() > 0
                && data.indices@.len() > 0 && (forall|k: int|
                0 <= k < data.verts@.len() ==> vec3i_in_range(
                    #[trigger] data.verts@[k],
                    COORD_LIMIT as int,
                )) && !(forall|k: int|
                0 <= k < data.indices@.len() ==> triangle_in_range(
                    #[trigger] data.indices@[k],
                    data.verts@.len() as int,
                )),
            r matches Ok(c) ==> {
                &&& c.wf()
                &&& c.shape matches Shape::TriangleMesh { vertices, triangles }
                    && vertices@ == data.verts@ && triangles@ == data.indices@
            },
            r is Ok <==> data.verts@.len() > 0 && data.indices@.len() > 0 && (forall|k: int|
                0 <= k < data.verts@.len() ==> vec3i_in_range(
                    #[trigger] data.verts@[k],
                    COORD_LIMIT as int,
                )) && (forall|k: int|
                0 <= k < data.indices@.len() ==> triangle_in_range(
                    #[trigger] data.indices@[k],
                    data.verts@.len() as int,
                )),
    {
        if data.verts.len() == 0 {
            return Err(MeshError::MissingPositions);
        }
        if data.indices.len() == 0 {
            return Err(MeshError::MissingIndices);
        }
        let mut k: usize = 0;
        while k < data.verts.len()
            invariant
                0 <= k <= data.verts@.len(),
                data.verts@.len() > 0,
                data.indices@.len() > 0,
                forall|j: int|
                    0 <= j < k ==> vec3i_in_range(#[trigger] data.verts@[j], COORD_LIMIT as int),
            decreases data.verts@.len() - k,
        {
            let v = data.verts[k];
            if v.x < -COORD_LIMIT || v.x > COORD_LIMIT || v.y < -COORD_LIMIT || v.y > COORD_LIMIT
                || v.z < -COORD_LIMIT || v.z > COORD_LIMIT {
                return Err(MeshError::PositionOutOfRange);
            }
            k = k + 1;
        }
        let n = data.verts.len();
        let mut k: usize = 0;
        while k < data.indices.len()
            invariant
                0 <= k <= data.indices@.len(),
                n == data.verts@.len(),
                data.verts@.len() > 0,
                data.indices@.len() > 0,
                forall|j: int|
                    0 <= j < data.verts@.len() ==> vec3i_in_range(
                        #[trigger] data.verts@[j],
                        COORD_LIMIT as int,
                    ),
                forall|j: int|
                    0 <= j < k ==> triangle_in_range(#[trigger] data.indices@[j], n as int),
            decreases data.indices@.len() - k,
        {
            let t = data.indices[k];
            if t.i0 as usize >= n || t.i1 as usize >= n || t.i2 as usize >= n {
                return Err(MeshError::IndexOutOfRange);
            }
            k = k + 1;
        }
        Ok(Collider { shape: Shape::TriangleMesh { vertices: data.verts, triangles: data.indices } })
    }
}

} // verus!
