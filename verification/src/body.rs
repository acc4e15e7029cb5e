//! Simulated bodies, the world that holds them, and the tunable
//! configuration fixed at startup.

use vstd::prelude::*;
use crate::aabb::Aabb;
use crate::fixed::{COORD_LIMIT, MASS_LIMIT, RATIO_LIMIT, VEL_LIMIT};
use crate::shape::{vec3i_in_range, Collider};
use crate::vecmath::{Transform, Vec3i};

verus! {

/// Whether a body is immovable scenery or a moving object.
#[derive(Clone, Copy, PartialEq, Eq, Structural, Debug)]
pub enum RigidBody {
    Static,
    Dynamic,
}

/// Linear velocity of a dynamic body, in coordinate units per second.
#[derive(Clone, Copy, PartialEq, Eq, Structural, Debug)]
pub struct Velocity(pub Vec3i);

/// Mass of a dynamic body, in caller-chosen units; always positive.
#[derive(Clone, Copy, PartialEq, Eq, Structural, Debug)]
pub struct Mass(pub i64);

/// One simulated object.  Dynamic bodies carry a velocity and a mass;
/// static bodies carry neither and are never moved by resolution.  A
/// body without a collider (its mesh asset has not resolved yet) is
/// invisible to the broad and narrow phases.
#[derive(Clone, Debug)]
pub struct Body {
    pub transform: Transform,
    pub kind: RigidBody,
    pub velocity: Option<Velocity>,
    pub mass: Option<Mass>,
    pub collider: Option<Collider>,
}

impl Body {
    pub open spec fn wf(self) -> bool {
        &&& vec3i_in_range(self.transform.translation, COORD_LIMIT as int)
        &&& (self.kind is Dynamic <==> self.velocity is Some)
        &&& (self.kind is Dynamic <==> self.mass is Some)
        &&& (self.velocity matches Some(v) ==> vec3i_in_range(v.0, VEL_LIMIT as int))
        &&& (self.mass matches Some(m) ==> 1 <= m.0 <= MASS_LIMIT)
        &&& (self.collider matches Some(c) ==> c.wf())
    }

    /// The body's bounding box under its current transform; meaningful
    /// only when the body has a collider.
    pub open spec fn spec_aabb(self) -> Aabb
        recommends
            self.collider is Some,
    {
        self.collider->Some_0.shape.spec_aabb(self.transform.translation)
    }

    pub fn new_static(transform: Transform, collider: Option<Collider>) -> (r: Body)
        requires
            vec3i_in_range(transform.translation, COORD_LIMIT as int),
            collider matches Some(c) ==> c.wf(),
        ensures
            r == (Body { transform, kind: RigidBody::Static, velocity: None, mass: None, collider }),
            r.wf(),
    {
        Body { transform, kind: RigidBody::Static, velocity: None, mass: None, collider }
    }

    pub fn new_dynamic(
        transform: Transform,
        velocity: Velocity,
        mass: Mass,
        collider: Option<Collider>,
    ) -> (r: Body)
        requires
            vec3i_in_range(transform.translation, COORD_LIMIT as int),
            vec3i_in_range(velocity.0, VEL_LIMIT as int),
            1 <= mass.0 <= MASS_LIMIT,
            collider matches Some(c) ==> c.wf(),
        ensures
            r == (Body {
                transform,
                kind: RigidBody::Dynamic,
                velocity: Some(velocity),
                mass: Some(mass),
                collider,
            }),
            r.wf(),
    {
        Body {
            transform,
            kind: RigidBody::Dynamic,
            velocity: Some(velocity),
            mass: Some(mass),
            collider,
        }
    }
}

/// The simulation state: a flat table of bodies addressed by index.
#[derive(Clone, Debug)]
pub struct World {
    pub bodies: Vec<Body>,
}

impl World {
    pub open spec fn wf(self) -> bool {
        forall|i: int| 0 <= i < self.bodies@.len() ==> (#[trigger] self.bodies@[i]).wf()
    }

    pub fn new() -> (r: World)
        ensures
            r.bodies@.len() == 0,
            r.wf(),
    {
        World { bodies: Vec::new() }
    }

    pub fn add_body(&mut self, body: Body) -> (idx: usize)
        requires
            body.wf(),
        ensures
            final(self).bodies@ == old(self).bodies@.push(body),
            idx == old(self).bodies@.len(),
            old(self).wf() ==> final(self).wf(),
    {
        let idx = self.bodies.len();
        self.bodies.push(body);
        idx
    }
}

/// Process-wide tunables, fixed at startup.  Ratios are stored as
/// integer numerator/denominator pairs.
#[derive(Clone, Copy, PartialEq, Eq, Structural, Debug)]
pub struct Config {
    /// Length of one fixed simulation tick, in seconds, as `dt_num / dt_den`.
    pub dt_num: i64,
    pub dt_den: i64,
    /// Per-tick downward velocity increment is `mass * gravity_num / gravity_den`.
    pub gravity_num: i64,
    pub gravity_den: i64,
    /// Greatest downward fall speed; vertical velocity never drops below its negation.
    pub terminal_velocity: i64,
    /// Restitution coefficient in `[0, 1]`, as `restitution_num / restitution_den`.
    pub restitution_num: i64,
    pub restitution_den: i64,
    /// A spatial-index leaf splits when it holds more than this many bodies.
    pub max_objects: usize,
    /// Depth budget of the spatial index.
    pub max_depth: usize,
    /// The volume covered by the spatial index.
    pub world_bounds: Aabb,
    /// Contacts with separation distance at most this value are resolved.
    pub tolerance: i64,
}

impl Config {
    pub open spec fn wf(self) -> bool {
        &&& 0 <= self.dt_num <= RATIO_LIMIT
        &&& 1 <= self.dt_den <= RATIO_LIMIT
        &&& 0 <= self.gravity_num <= RATIO_LIMIT
        &&& 1 <= self.gravity_den <= RATIO_LIMIT
        &&& 0 <= self.terminal_velocity <= VEL_LIMIT
        &&& 0 <= self.restitution_num <= self.restitution_den
        &&& 1 <= self.restitution_den <= RATIO_LIMIT
        &&& self.world_bounds.wf()
        &&& vec3i_in_range(self.world_bounds.mins, COORD_LIMIT as int)
        &&& vec3i_in_range(self.world_bounds.maxs, COORD_LIMIT as int)
        &&& self.tolerance >= 0
    }
}

impl Default for Config {
    /// The stock tuning: 30 ticks per second, gravity increment
    /// `mass / 9.8` per tick, terminal fall speed and world bounds in
    /// thousandths of a unit, restitution `0.3`, leaves split above 50
    /// bodies, depth budget 5, zero contact tolerance.
    fn default() -> (r: Config)
        ensures
            r == (Config {
                dt_num: 1,
                dt_den: 30,
                gravity_num: 10,
                gravity_den: 98,
                terminal_velocity: 100_000,
                restitution_num: 3,
                restitution_den: 10,
                max_objects: 50,
                max_depth: 5,
                world_bounds: Aabb {
                    mins: Vec3i { x: -50_000i64, y: -50_000i64, z: -50_000i64 },
                    maxs: Vec3i { x: 50_000, y: 50_000, z: 50_000 },
                },
                tolerance: 0,
            }),
            r.wf(),
    {
        Config {
            dt_num: 1,
            dt_den: 30,
            gravity_num: 10,
            gravity_den: 98,
            terminal_velocity: 100_000,
            restitution_num: 3,
            restitution_den: 10,
            max_objects: 50,
            max_depth: 5,
            world_bounds: Aabb {
                mins: Vec3i { x: -50_000, y: -50_000, z: -50_000 },
                maxs: Vec3i { x: 50_000, y: 50_000, z: 50_000 },
            },
            tolerance: 0,
        }
    }
}

} // verus!
