//! Whole-tick behaviour: gravity and terminal velocity, the narrow
//! phase's pruning, and bodies with unresolved mesh assets.

use physics_core::body::{Body, Config, Mass, Velocity, World};
use physics_core::broad::broad_phase;
use physics_core::integrate::apply_gravity;
use physics_core::narrow::narrow_phase;
use physics_core::pipeline::step;
use physics_core::shape::{Collider, Shape};
use physics_core::vecmath::{Transform, Vec3i};

fn unit_cube() -> Collider {
    Collider { shape: Shape::BoxShape { half_extents: Vec3i::new(500, 500, 500) } }
}

fn dynamic_cube(x: i64, y: i64, z: i64, mass: i64) -> Body {
    Body::new_dynamic(
        Transform::from_translation(Vec3i::new(x, y, z)),
        Velocity(Vec3i::new(0, 0, 0)),
        Mass(mass),
        Some(unit_cube()),
    )
}

#[test]
fn shared_chunk_without_aabb_overlap_is_never_resolved() {
    // Both cubes sit in the root chunk, but their bounding boxes are
    // disjoint: the narrow phase must leave them untouched.
    let cfg = Config::default();
    let mut world = World::new();
    let mut a = dynamic_cube(0, 0, 0, 1);
    a.velocity = Some(Velocity(Vec3i::new(7, 8, 9)));
    let mut b = dynamic_cube(3_000, 0, 0, 1);
    b.velocity = Some(Velocity(Vec3i::new(-1, -2, -3)));
    world.add_body(a);
    world.add_body(b);
    let (_tree, chunks, _ctr) = broad_phase(&world, &cfg);
    assert_eq!(chunks[0].0, vec![0u64]);
    assert_eq!(chunks[1].0, vec![0u64]);
    narrow_phase(&mut world, &chunks, &cfg);
    assert_eq!(world.bodies[0].transform.translation, Vec3i::new(0, 0, 0));
    assert_eq!(world.bodies[1].transform.translation, Vec3i::new(3_000, 0, 0));
    assert_eq!(world.bodies[0].velocity.unwrap().0, Vec3i::new(7, 8, 9));
    assert_eq!(world.bodies[1].velocity.unwrap().0, Vec3i::new(-1, -2, -3));
}

#[test]
fn gravity_strictly_decreases_then_clamps_at_terminal() {
    // A body of mass 2 (stored as 2000 thousandths) at rest: each tick
    // lowers the vertical velocity by 2000 * 10 / 98 = 204, until it
    // clamps exactly at the terminal fall speed and stays there.
    let cfg = Config::default();
    let mut world = World::new();
    world.add_body(Body::new_dynamic(
        Transform::from_translation(Vec3i::new(0, 0, 0)),
        Velocity(Vec3i::new(0, 0, 0)),
        Mass(2_000),
        None,
    ));
    apply_gravity(&mut world, &cfg);
    let v1 = world.bodies[0].velocity.unwrap().0.y;
    assert_eq!(v1, -204);
    let mut prev = v1;
    let mut ticks = 1;
    loop {
        apply_gravity(&mut world, &cfg);
        let v = world.bodies[0].velocity.unwrap().0.y;
        assert!(v >= -cfg.terminal_velocity);
        assert!(v < prev || v == -cfg.terminal_velocity);
        prev = v;
        ticks += 1;
        if v == -cfg.terminal_velocity {
            break;
        }
        assert!(ticks < 1_000);
    }
    // 490 ticks reach -99960; the 491st would pass -100164 and clamps.
    assert_eq!(ticks, 491);
    for _ in 0..10 {
        apply_gravity(&mut world, &cfg);
        assert_eq!(world.bodies[0].velocity.unwrap().0.y, -cfg.terminal_velocity);
    }
}

#[test]
fn one_tick_moves_a_resting_body_down() {
    // One full tick at 30 ticks per second: gravity first, then the
    // position advances by a thirtieth of the new velocity.
    let cfg = Config::default();
    let mut world = World::new();
    world.add_body(dynamic_cube(0, 20_000, 0, 2_000));
    step(&mut world, &cfg);
    let b = &world.bodies[0];
    assert_eq!(b.velocity.unwrap().0.y, -204);
    assert_eq!(b.transform.translation.y, 20_000 - 6);
}

#[test]
fn falling_cube_bounces_off_static_cube() {
    // A dynamic cube already overlapping a static one: after one tick
    // the penetration is fully corrected and the approach velocity is
    // reflected with restitution three tenths.
    let cfg = Config::default();
    let mut world = World::new();
    world.add_body(Body::new_static(
        Transform::from_translation(Vec3i::new(0, 0, 0)),
        Some(unit_cube()),
    ));
    world.add_body(dynamic_cube(0, 900, 0, 1_000));
    step(&mut world, &cfg);
    let b = &world.bodies[1];
    // Gravity: velocity -102; integration: down 3 to 897 (overlap 103);
    // correction pushes back to exactly touching at 1000; reflection
    // turns -102 into 30 (truncated three-tenths bounce).
    assert_eq!(b.transform.translation.y, 1_000);
    assert_eq!(b.velocity.unwrap().0.y, 30);
    // The static body never moves.
    assert_eq!(world.bodies[0].transform.translation, Vec3i::new(0, 0, 0));
    assert!(world.bodies[0].velocity.is_none());
}

#[test]
fn pending_mesh_body_stays_outside_physics() {
    // A body whose mesh asset never resolves has no collider: over many
    // ticks it never appears in any chunk-membership set and never
    // takes part in a resolution; only gravity and integration act.
    let cfg = Config::default();
    let mut world = World::new();
    world.add_body(Body::new_dynamic(
        Transform::from_translation(Vec3i::new(0, 5_000, 0)),
        Velocity(Vec3i::new(0, 0, 0)),
        Mass(1_000),
        None,
    ));
    world.add_body(Body::new_static(
        Transform::from_translation(Vec3i::new(0, 4_000, 0)),
        Some(unit_cube()),
    ));
    let mut expected_vy: i64 = 0;
    let mut expected_y: i64 = 5_000;
    for _ in 0..50 {
        let (_tree, chunks, _ctr) = step(&mut world, &cfg);
        assert!(chunks[0].0.is_empty());
        assert_eq!(chunks[1].0, vec![0u64]);
        // The pending body follows pure gravity plus integration, even
        // while falling straight through the static platform.
        expected_vy = expected_vy - 1_000 * 10 / 98;
        if expected_vy < -cfg.terminal_velocity {
            expected_vy = -cfg.terminal_velocity;
        }
        expected_y = expected_y + expected_vy / 30;
        assert_eq!(world.bodies[0].velocity.unwrap().0.y, expected_vy);
        assert_eq!(world.bodies[0].transform.translation.y, expected_y);
    }
}
