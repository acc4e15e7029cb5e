//! Narrow-phase resolution math on concrete values.

use physics_core::body::{Config, Mass, Velocity};
use physics_core::contact::{Contact, ContactNormal};
use physics_core::resolve::{separate_dynamic, separate_objects};
use physics_core::vecmath::{Axis, Transform, Vec3i};

fn config_with_restitution(num: i64, den: i64) -> Config {
    let mut cfg = Config::default();
    cfg.restitution_num = num;
    cfg.restitution_den = den;
    cfg
}

#[test]
fn inelastic_static_contact_stops_normal_velocity() {
    // Restitution 0: after reflection the velocity component along the
    // separation normal is exactly zero; tangential components survive.
    let cfg = config_with_restitution(0, 1);
    let mut transform = Transform::from_translation(Vec3i::new(0, 1_000, 0));
    let mut velocity = Velocity(Vec3i::new(3, -500, 7));
    let contact = Contact {
        normal: ContactNormal { axis: Axis::Y, positive: true },
        dist: -200,
    };
    separate_objects(&mut transform, &mut velocity, contact, &cfg);
    assert_eq!(transform.translation, Vec3i::new(0, 1_200, 0));
    assert_eq!(velocity.0, Vec3i::new(3, 0, 7));
}

#[test]
fn restitution_three_tenths_reflects_partially() {
    // v' = v - (1 + 3/10) * v along the normal: -500 becomes +150.
    let cfg = config_with_restitution(3, 10);
    let mut transform = Transform::from_translation(Vec3i::new(0, 0, 0));
    let mut velocity = Velocity(Vec3i::new(0, -500, 0));
    let contact = Contact {
        normal: ContactNormal { axis: Axis::Y, positive: true },
        dist: -40,
    };
    separate_objects(&mut transform, &mut velocity, contact, &cfg);
    assert_eq!(transform.translation, Vec3i::new(0, 40, 0));
    assert_eq!(velocity.0, Vec3i::new(0, 150, 0));
}

#[test]
fn separating_body_keeps_velocity() {
    // The normal component is non-negative: only position is corrected.
    let cfg = config_with_restitution(3, 10);
    let mut transform = Transform::from_translation(Vec3i::new(0, 0, 0));
    let mut velocity = Velocity(Vec3i::new(0, 250, 0));
    let contact = Contact {
        normal: ContactNormal { axis: Axis::Y, positive: true },
        dist: -10,
    };
    separate_objects(&mut transform, &mut velocity, contact, &cfg);
    assert_eq!(transform.translation, Vec3i::new(0, 10, 0));
    assert_eq!(velocity.0, Vec3i::new(0, 250, 0));
}

#[test]
fn contact_beyond_tolerance_is_ignored() {
    let cfg = config_with_restitution(0, 1);
    let mut transform = Transform::from_translation(Vec3i::new(1, 2, 3));
    let mut velocity = Velocity(Vec3i::new(-4, -5, -6));
    let contact = Contact {
        normal: ContactNormal { axis: Axis::X, positive: true },
        dist: 5,
    };
    separate_objects(&mut transform, &mut velocity, contact, &cfg);
    assert_eq!(transform.translation, Vec3i::new(1, 2, 3));
    assert_eq!(velocity.0, Vec3i::new(-4, -5, -6));
}

#[test]
fn elastic_equal_masses_swap_normal_velocities() {
    // Restitution 1 with equal masses: the normal velocity components
    // swap, so total momentum along the normal is conserved exactly.
    let cfg = config_with_restitution(1, 1);
    let mut t1 = Transform::from_translation(Vec3i::new(0, 0, 0));
    let mut v1 = Velocity(Vec3i::new(100, 0, 0));
    let mut t2 = Transform::from_translation(Vec3i::new(900, 0, 0));
    let mut v2 = Velocity(Vec3i::new(-100, 0, 0));
    let contact = Contact {
        normal: ContactNormal { axis: Axis::X, positive: true },
        dist: -100,
    };
    let before = 1 * v1.0.x + 1 * v2.0.x;
    separate_dynamic(&mut t1, &mut v1, Mass(1), &mut t2, &mut v2, Mass(1), contact, &cfg);
    assert_eq!(v1.0.x, -100);
    assert_eq!(v2.0.x, 100);
    assert_eq!(1 * v1.0.x + 1 * v2.0.x, before);
    // The positional correction splits the 100-unit overlap evenly.
    assert_eq!(t1.translation.x, -50);
    assert_eq!(t2.translation.x, 950);
}

#[test]
fn elastic_unequal_masses_conserve_momentum() {
    // Masses 1 and 3, approach speed 400 along x, restitution 1; the
    // per-body quotients divide exactly, so momentum is conserved.
    let cfg = config_with_restitution(1, 1);
    let mut t1 = Transform::from_translation(Vec3i::new(0, 0, 0));
    let mut v1 = Velocity(Vec3i::new(400, 0, 0));
    let mut t2 = Transform::from_translation(Vec3i::new(1_000, 0, 0));
    let mut v2 = Velocity(Vec3i::new(0, 0, 0));
    let contact = Contact {
        normal: ContactNormal { axis: Axis::X, positive: true },
        dist: 0,
    };
    let before = 1 * v1.0.x + 3 * v2.0.x;
    separate_dynamic(&mut t1, &mut v1, Mass(1), &mut t2, &mut v2, Mass(3), contact, &cfg);
    // q1 = 2 * 400 * 3 / 4 = 600, q2 = 2 * 400 * 1 / 4 = 200.
    assert_eq!(v1.0.x, -200);
    assert_eq!(v2.0.x, 200);
    assert_eq!(1 * v1.0.x + 3 * v2.0.x, before);
}

#[test]
fn overlap_split_three_quarters_to_lighter_body() {
    // Two unit cubes (half extent 500), masses 1 and 3, overlapping by
    // 200 along x, both at rest: the lighter body takes three quarters
    // of the correction, the heavier one quarter, and no velocity
    // changes.
    let cfg = Config::default();
    let mut t1 = Transform::from_translation(Vec3i::new(0, 0, 0));
    let mut v1 = Velocity(Vec3i::new(0, 0, 0));
    let mut t2 = Transform::from_translation(Vec3i::new(800, 0, 0));
    let mut v2 = Velocity(Vec3i::new(0, 0, 0));
    let contact = Contact {
        normal: ContactNormal { axis: Axis::X, positive: true },
        dist: -200,
    };
    separate_dynamic(&mut t1, &mut v1, Mass(1), &mut t2, &mut v2, Mass(3), contact, &cfg);
    assert_eq!(t1.translation.x, -150);
    assert_eq!(t2.translation.x, 850);
    assert_eq!(v1.0, Vec3i::new(0, 0, 0));
    assert_eq!(v2.0, Vec3i::new(0, 0, 0));
}
