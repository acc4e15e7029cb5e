//! Bounding boxes, octant subdivision, contact queries and the
//! broad-phase chunk assignment.

use physics_core::aabb::{subdivide_aabb, Aabb};
use physics_core::body::{Body, Config, Mass, Velocity, World};
use physics_core::broad::broad_phase;
use physics_core::contact::contact;
use physics_core::shape::{Collider, MeshError, Shape, Triangle, VerticesIndices};
use physics_core::vecmath::{Transform, Vec3i};

fn aabb(min: (i64, i64, i64), max: (i64, i64, i64)) -> Aabb {
    Aabb::new(Vec3i::new(min.0, min.1, min.2), Vec3i::new(max.0, max.1, max.2))
}

fn unit_cube() -> Collider {
    Collider { shape: Shape::BoxShape { half_extents: Vec3i::new(500, 500, 500) } }
}

fn dynamic_cube(x: i64, y: i64, z: i64, mass: i64) -> Body {
    Body::new_dynamic(
        Transform::from_translation(Vec3i::new(x, y, z)),
        Velocity(Vec3i::new(0, 0, 0)),
        Mass(mass),
        Some(unit_cube()),
    )
}

#[test]
fn octants_partition_the_box() {
    // The eight octants cover the original bounds exactly: their union
    // reconstructs it and any two share at most a boundary face.
    let b = aabb((0, 0, 0), (10, 10, 10));
    let parts = subdivide_aabb(b);
    // First octant spans the low corner to the center, last octant the
    // center to the high corner.
    assert_eq!(parts[0], aabb((0, 0, 0), (5, 5, 5)));
    assert_eq!(parts[7], aabb((5, 5, 5), (10, 10, 10)));
    for p in parts.iter() {
        // Each octant is inside the parent.
        assert!(b.mins.x <= p.mins.x && p.maxs.x <= b.maxs.x);
        assert!(b.mins.y <= p.mins.y && p.maxs.y <= b.maxs.y);
        assert!(b.mins.z <= p.mins.z && p.maxs.z <= b.maxs.z);
        // Each octant spans exactly half the parent on every axis.
        assert_eq!(p.maxs.x - p.mins.x, 5);
        assert_eq!(p.maxs.y - p.mins.y, 5);
        assert_eq!(p.maxs.z - p.mins.z, 5);
    }
    // Every corner cell of the parent is covered by some octant.
    for &px in &[0i64, 4, 5, 10] {
        for &py in &[0i64, 4, 5, 10] {
            for &pz in &[0i64, 4, 5, 10] {
                let covered = parts.iter().any(|p| {
                    p.mins.x <= px && px <= p.maxs.x && p.mins.y <= py && py <= p.maxs.y
                        && p.mins.z <= pz && pz <= p.maxs.z
                });
                assert!(covered);
            }
        }
    }
    // Distinct octants only meet on faces: their interiors are disjoint.
    for i in 0..8 {
        for j in 0..8 {
            if i != j {
                let (a, b2) = (&parts[i], &parts[j]);
                let wx = a.maxs.x.min(b2.maxs.x) - a.mins.x.max(b2.mins.x);
                let wy = a.maxs.y.min(b2.maxs.y) - a.mins.y.max(b2.mins.y);
                let wz = a.maxs.z.min(b2.maxs.z) - a.mins.z.max(b2.mins.z);
                assert!(wx.min(wy).min(wz) <= 0);
            }
        }
    }
}

#[test]
fn box_contact_reports_least_overlap_axis() {
    // Two unit cubes overlapping by 200 along x and fully along y, z:
    // the contact normal is +x (from the first toward the second) and
    // the distance is minus the overlap.
    let a = unit_cube();
    let b = unit_cube();
    let ta = Transform::from_translation(Vec3i::new(0, 0, 0));
    let tb = Transform::from_translation(Vec3i::new(800, 0, 0));
    let c = contact(&a.shape, &ta, &b.shape, &tb, 0).unwrap();
    assert_eq!(c.dist, -200);
    assert!(matches!(c.normal.axis, physics_core::vecmath::Axis::X));
    assert!(c.normal.positive);
    // Reversed order flips the normal's direction.
    let c2 = contact(&b.shape, &tb, &a.shape, &ta, 0).unwrap();
    assert_eq!(c2.dist, -200);
    assert!(!c2.normal.positive);
}

#[test]
fn separated_boxes_have_no_contact() {
    let a = unit_cube();
    let b = unit_cube();
    let ta = Transform::from_translation(Vec3i::new(0, 0, 0));
    let tb = Transform::from_translation(Vec3i::new(5_000, 0, 0));
    assert!(contact(&a.shape, &ta, &b.shape, &tb, 0).is_none());
    // Touching faces count as contact at distance zero.
    let tc = Transform::from_translation(Vec3i::new(1_000, 0, 0));
    let c = contact(&a.shape, &ta, &b.shape, &tc, 0).unwrap();
    assert_eq!(c.dist, 0);
}

#[test]
fn mesh_pairs_report_no_contact_here() {
    // Pairs involving a triangle mesh are left to an outside narrow
    // phase; the integer core reports no contact for them.
    let verts = vec![Vec3i::new(0, 0, 0), Vec3i::new(1_000, 0, 0), Vec3i::new(0, 1_000, 0)];
    let tris = vec![Triangle { i0: 0, i1: 1, i2: 2 }];
    let mesh = Collider::from_mesh(VerticesIndices { verts, indices: tris }).unwrap();
    let cube = unit_cube();
    let t = Transform::from_translation(Vec3i::new(0, 0, 0));
    assert!(contact(&mesh.shape, &t, &cube.shape, &t, 0).is_none());
}

#[test]
fn mesh_construction_validates_its_inputs() {
    let verts = vec![Vec3i::new(0, 0, 0), Vec3i::new(1_000, 0, 0), Vec3i::new(0, 1_000, 0)];
    let tris = vec![Triangle { i0: 0, i1: 1, i2: 2 }];
    // Missing vertex positions.
    let r = Collider::from_mesh(VerticesIndices { verts: vec![], indices: tris.clone() });
    assert_eq!(r.unwrap_err(), MeshError::MissingPositions);
    // Missing index data.
    let r = Collider::from_mesh(VerticesIndices { verts: verts.clone(), indices: vec![] });
    assert_eq!(r.unwrap_err(), MeshError::MissingIndices);
    // A vertex outside the representable coordinate range.
    let far = vec![Vec3i::new(2_000_000_000_000_000_000, 0, 0)];
    let r = Collider::from_mesh(
        VerticesIndices { verts: far, indices: vec![Triangle { i0: 0, i1: 0, i2: 0 }] },
    );
    assert_eq!(r.unwrap_err(), MeshError::PositionOutOfRange);
    // A triangle referring to a vertex that does not exist.
    let r = Collider::from_mesh(
        VerticesIndices { verts: verts.clone(), indices: vec![Triangle { i0: 0, i1: 1, i2: 3 }] },
    );
    assert_eq!(r.unwrap_err(), MeshError::IndexOutOfRange);
    // Well-formed data yields a mesh shape carrying it unchanged.
    let c = Collider::from_mesh(VerticesIndices { verts: verts.clone(), indices: tris }).unwrap();
    match c.shape {
        Shape::TriangleMesh { vertices, triangles } => {
            assert_eq!(vertices, verts);
            assert_eq!(triangles.len(), 1);
        },
        _ => panic!("expected a triangle mesh"),
    }
}

#[test]
fn mesh_aabb_is_tight_over_translated_vertices() {
    let verts = vec![
        Vec3i::new(-100, 0, 50),
        Vec3i::new(200, -300, 0),
        Vec3i::new(0, 80, -20),
    ];
    let tris = vec![Triangle { i0: 0, i1: 1, i2: 2 }];
    let c = Collider::from_mesh(VerticesIndices { verts, indices: tris }).unwrap();
    let t = Transform::from_translation(Vec3i::new(1_000, 1_000, 1_000));
    let bb = c.shape.compute_aabb(&t);
    assert_eq!(bb, aabb((900, 700, 980), (1_200, 1_080, 1_050)));
}

#[test]
fn broad_phase_assigns_shared_chunk_to_overlapping_bodies() {
    let cfg = Config::default();
    let mut world = World::new();
    world.add_body(dynamic_cube(0, 0, 0, 1));
    world.add_body(dynamic_cube(800, 0, 0, 1));
    let (_tree, chunks, counter) = broad_phase(&world, &cfg);
    assert_eq!(chunks.len(), 2);
    // Two bodies fit in one leaf: both live in the root chunk, and no
    // split happened, so the counter never moved.
    assert_eq!(chunks[0].0, vec![0u64]);
    assert_eq!(chunks[1].0, vec![0u64]);
    assert_eq!(counter, 0);
}

#[test]
fn broad_phase_twice_yields_identical_assignment() {
    // Determinism and pass-locality: with unmoved bodies a second pass
    // computes exactly the same chunk-membership sets.
    let mut cfg = Config::default();
    cfg.max_objects = 2;
    let mut world = World::new();
    for i in 0..6 {
        world.add_body(dynamic_cube(-3_000 + i * 1_200, 0, 0, 1));
    }
    let (_t1, chunks_a, ctr_a) = broad_phase(&world, &cfg);
    let (_t2, chunks_b, ctr_b) = broad_phase(&world, &cfg);
    assert_eq!(ctr_a, ctr_b);
    assert_eq!(chunks_a.len(), chunks_b.len());
    for (a, b) in chunks_a.iter().zip(chunks_b.iter()) {
        assert_eq!(a.0, b.0);
    }
}

#[test]
fn broad_phase_splits_an_overfull_leaf() {
    // With max_objects 1, the second insertion splits the root: the
    // counter advances by eight per split and the root chunk vanishes
    // from the membership sets.
    let mut cfg = Config::default();
    cfg.max_objects = 1;
    let mut world = World::new();
    world.add_body(dynamic_cube(-10_000, -10_000, -10_000, 1));
    world.add_body(dynamic_cube(10_000, 10_000, 10_000, 1));
    let (_tree, chunks, counter) = broad_phase(&world, &cfg);
    // Exactly one split: the eight children take chunks 1 through 8,
    // the superseded root chunk 0 disappears from both sets, and the
    // far-apart cubes land in opposite corner octants.
    assert_eq!(counter, 8);
    assert_eq!(chunks[0].0, vec![1u64]);
    assert_eq!(chunks[1].0, vec![8u64]);
}

#[test]
fn straddling_body_lands_in_several_chunks() {
    // A body across the center of the world is registered in every
    // octant it touches rather than being dropped.
    let mut cfg = Config::default();
    cfg.max_objects = 2;
    let mut world = World::new();
    world.add_body(dynamic_cube(-10_000, -10_000, -10_000, 1));
    world.add_body(dynamic_cube(10_000, 10_000, 10_000, 1));
    world.add_body(dynamic_cube(0, 0, 0, 1));
    let (_tree, chunks, _counter) = broad_phase(&world, &cfg);
    // The third insertion splits the root once; the centered cube
    // touches every octant and is registered in all eight chunks,
    // while the corner cubes each keep a single chunk.
    assert_eq!(chunks[0].0, vec![1u64]);
    assert_eq!(chunks[1].0, vec![8u64]);
    assert_eq!(chunks[2].0, vec![1u64, 2, 3, 4, 5, 6, 7, 8]);
}

#[test]
fn depth_budget_stops_splitting() {
    // Three coincident cubes with a leaf capacity of one and a depth
    // budget of two: the root splits, every child (still at positive
    // budget) splits again when its second member arrives, and the
    // grandchildren sit at budget zero, so they accept unbounded
    // members instead of splitting further.
    let mut cfg = Config::default();
    cfg.max_objects = 1;
    cfg.max_depth = 2;
    let mut world = World::new();
    world.add_body(dynamic_cube(0, 0, 0, 1));
    world.add_body(dynamic_cube(0, 0, 0, 1));
    world.add_body(dynamic_cube(0, 0, 0, 1));
    let (_tree, chunks, counter) = broad_phase(&world, &cfg);
    // Nine splits in all: the root plus its eight children.
    assert_eq!(counter, 72);
    // Each cube straddles the world center, so within each child it
    // lands in exactly the grandchild octant adjacent to the center;
    // child `i` splits at counter `8 + 8 * i`, and that grandchild's
    // identifier works out to `16 + 7 * i`.
    for c in chunks.iter() {
        assert_eq!(c.0, vec![16u64, 23, 30, 37, 44, 51, 58, 65]);
    }
}

#[test]
fn stock_configuration_values() {
    let cfg = Config::default();
    assert_eq!((cfg.dt_num, cfg.dt_den), (1, 30));
    assert_eq!((cfg.gravity_num, cfg.gravity_den), (10, 98));
    assert_eq!(cfg.terminal_velocity, 100_000);
    assert_eq!((cfg.restitution_num, cfg.restitution_den), (3, 10));
    assert_eq!(cfg.max_objects, 50);
    assert_eq!(cfg.max_depth, 5);
    assert_eq!(cfg.tolerance, 0);
    assert_eq!(cfg.world_bounds.mins, Vec3i::new(-50_000, -50_000, -50_000));
    assert_eq!(cfg.world_bounds.maxs, Vec3i::new(50_000, 50_000, 50_000));
}

#[test]
fn body_without_collider_gets_no_chunks() {
    let cfg = Config::default();
    let mut world = World::new();
    world.add_body(Body::new_dynamic(
        Transform::from_translation(Vec3i::new(0, 0, 0)),
        Velocity(Vec3i::new(0, 0, 0)),
        Mass(1),
        None,
    ));
    world.add_body(dynamic_cube(0, 0, 0, 1));
    let (_tree, chunks, _counter) = broad_phase(&world, &cfg);
    assert!(chunks[0].0.is_empty());
    assert_eq!(chunks[1].0, vec![0u64]);
}
