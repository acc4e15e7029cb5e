//! The integrator: applies gravity to every dynamic body, then advances
//! positions by velocity.  Runs before the broad phase each tick.

use vstd::prelude::*;
use crate::body::{Body, Config, RigidBody, Velocity, World};
use crate::fixed::{div_trunc, spec_clamp, tdiv, COORD_LIMIT, MASS_LIMIT, VEL_LIMIT};
use crate::vecmath::{Transform, Vec3i};

verus! {

/// Per-tick downward velocity increment of a body of mass `m`.
pub open spec fn gravity_term(cfg: Config, m: int) -> int {
    tdiv(m * cfg.gravity_num, cfg.gravity_den as int)
}

/// Vertical velocity after one gravity application: decremented by the
/// gravity term, clamped so it never ends below the terminal fall speed.
pub open spec fn spec_gravity_y(cfg: Config, m: int, vy: int) -> int {
    if vy - gravity_term(cfg, m) <= -cfg.terminal_velocity {
        -cfg.terminal_velocity as int
    } else {
        vy - gravity_term(cfg, m)
    }
}

/// One gravity application to a single body; static bodies and bodies
/// without velocity or mass are untouched.
pub open spec fn spec_gravity_body(cfg: Config, b: Body) -> Body {
    match (b.kind, b.velocity, b.mass) {
        (RigidBody::Dynamic, Some(v), Some(m)) => Body {
            velocity: Some(
                Velocity(
                    Vec3i { y: spec_gravity_y(cfg, m.0 as int, v.0.y as int) as i64, ..v.0 },
                ),
            ),
            ..b
        },
        _ => b,
    }
}

/// One position coordinate advanced by one tick of its velocity
/// component, saturating at the representable coordinate range.
pub open spec fn spec_move_coord(cfg: Config, p: int, v: int) -> int {
    spec_clamp(p + tdiv(v * cfg.dt_num, cfg.dt_den as int), COORD_LIMIT as int)
}

/// One integration step of a single body's position; static bodies are
/// untouched.
pub open spec fn spec_move_body(cfg: Config, b: Body) -> Body {
    match (b.kind, b.velocity) {
        (RigidBody::Dynamic, Some(v)) => Body {
            transform: Transform {
                translation: Vec3i {
                    x: spec_move_coord(cfg, b.transform.translation.x as int, v.0.x as int) as i64,
                    y: spec_move_coord(cfg, b.transform.translation.y as int, v.0.y as int) as i64,
                    z: spec_move_coord(cfg, b.transform.translation.z as int, v.0.z as int) as i64,
                },
            },
            ..b
        },
        _ => b,
    }
}

/// Apply gravity to every dynamic body: `velocity.y` decreases by the
/// gravity term and never ends below `-terminal_velocity`.
pub fn apply_gravity(world: &mut World, cfg: &Config)
    requires
        old(world).wf(),
        cfg.wf(),
    ensures
        final(world).bodies@.len() == old(world).bodies@.len(),
        forall|i: int|
            0 <= i < old(world).bodies@.len() ==> final(world).bodies@[i] == spec_gravity_body(
                *cfg,
                old(world).bodies@[i],
            ),
        final(world).wf(),
{
    let ghost orig: World = *world;
    let n = world.bodies.len();
    let mut i: usize = 0;
    while i < n
        invariant
            cfg.wf(),
            orig.wf(),
            n == orig.bodies@.len(),
            0 <= i <= n,
            world.bodies@.len() == n,
            forall|j: int|
                0 <= j < i ==> world.bodies@[j] == spec_gravity_body(*cfg, orig.bodies@[j]),
            forall|j: int| i <= j < n ==> world.bodies@[j] == orig.bodies@[j],
        decreases n - i,
    {
        let kind = world.bodies[i].kind;
        let vel = world.bodies[i].velocity;
        let mass = world.bodies[i].mass;
        match (kind, vel, mass) {
            (RigidBody::Dynamic, Some(v), Some(m)) => {
                proof {
                    assert(orig.bodies@[i as int].wf());
                }
                let newy = gravity_y(cfg, m.0, v.0.y);
                world.bodies[i].velocity = Some(Velocity(Vec3i { x: v.0.x, y: newy, z: v.0.z }));
            },
            _ => {},
        }
        i = i + 1;
    }
}

/// Advance every dynamic body's position by one tick of its velocity.
pub fn apply_velocity(world: &mut World, cfg: &Config)
    requires
        old(world).wf(),
        cfg.wf(),
    ensures
        final(world).bodies@.len() == old(world).bodies@.len(),
        forall|i: int|
            0 <= i < old(world).bodies@.len() ==> final(world).bodies@[i] == spec_move_body(
                *cfg,
                old(world).bodies@[i],
            ),
        final(world).wf(),
{
    let ghost orig: World = *world;
    let n = world.bodies.len();
    let mut i: usize = 0;
    while i < n
        invariant
            cfg.wf(),
            orig.wf(),
            n == orig.bodies@.len(),
            0 <= i <= n,
            world.bodies@.len() == n,
            forall|j: int|
                0 <= j < i ==> world.bodies@[j] == spec_move_body(*cfg, orig.bodies@[j]),
            forall|j: int| i <= j < n ==> world.bodies@[j] == orig.bodies@[j],
        decreases n - i,
    {
        let kind = world.bodies[i].kind;
        let vel = world.bodies[i].velocity;
        match (kind, vel) {
            (RigidBody::Dynamic, Some(v)) => {
                proof {
                    assert(orig.bodies@[i as int].wf());
                }
                let p = world.bodies[i].transform.translation;
                let nx = move_coord(cfg, p.x, v.0.x);
                let ny = move_coord(cfg, p.y, v.0.y);
                let nz = move_coord(cfg, p.z, v.0.z);
                world.bodies[i].transform = Transform {
                    translation: Vec3i { x: nx, y: ny, z: nz },
                };
            },
            _ => {},
        }
        i = i + 1;
    }
}

/// The new vertical velocity of a dynamic body of mass `m` after one
/// gravity application.
fn gravity_y(cfg: &Config, m: i64, vy: i64) -> (r: i64)
    requires
        cfg.wf(),
        1 <= m <= MASS_LIMIT,
        -VEL_LIMIT <= vy <= VEL_LIMIT,
    ensures
        r == spec_gravity_y(*cfg, m as int, vy as int),
        -VEL_LIMIT <= r <= VEL_LIMIT,
{
    proof {
        assert(0 <= m * cfg.gravity_num <= 1_000_000_000_000int) by (nonlinear_arith)
            requires
                1 <= m <= 1_000_000 && 0 <= cfg.gravity_num <= 1_000_000,
        ;
        crate::fixed::lemma_tdiv_bound(m as int * cfg.gravity_num as int, cfg.gravity_den as int);
    }
    let term = div_trunc((m as i128) * (cfg.gravity_num as i128), cfg.gravity_den as i128);
    let lowered = (vy as i128) - term;
    if lowered <= -(cfg.terminal_velocity as i128) {
        -cfg.terminal_velocity
    } else {
        lowered as i64
    }
}

/// One position coordinate advanced by one tick.
fn move_coord(cfg: &Config, p: i64, v: i64) -> (r: i64)
    requires
        cfg.wf(),
        -COORD_LIMIT <= p <= COORD_LIMIT,
        -VEL_LIMIT <= v <= VEL_LIMIT,
    ensures
        r == spec_move_coord(*cfg, p as int, v as int),
        -COORD_LIMIT <= r <= COORD_LIMIT,
{
    proof {
        assert(-1_000_000_000_000_000_000int <= v * cfg.dt_num <= 1_000_000_000_000_000_000int)
            by (nonlinear_arith)
            requires
                -1_000_000_000_000int <= v <= 1_000_000_000_000int && 0 <= cfg.dt_num
                    <= 1_000_000,
        ;
        crate::fixed::lemma_tdiv_bound(v as int * cfg.dt_num as int, cfg.dt_den as int);
    }
    let delta = div_trunc((v as i128) * (cfg.dt_num as i128), cfg.dt_den as i128);
    crate::fixed::clamp_to((p as i128) + delta, COORD_LIMIT)
}

/// Gravity strictly lowers the vertical velocity of any body whose
/// gravity term is at least one unit, as long as the body has not yet
/// reached the terminal fall speed.
pub proof fn lemma_gravity_strictly_decreases(cfg: Config, m: int, vy: int)
    requires
        cfg.wf(),
        1 <= m <= MASS_LIMIT,
        m * cfg.gravity_num >= cfg.gravity_den,
        vy > -cfg.terminal_velocity,
    ensures
        spec_gravity_y(cfg, m, vy) < vy,
{
    vstd::arithmetic::div_mod::lemma_div_is_ordered(
        cfg.gravity_den as int,
        m * cfg.gravity_num,
        cfg.gravity_den as int,
    );
    assert(cfg.gravity_den as int / cfg.gravity_den as int == 1);
    assert(gravity_term(cfg, m) >= 1);
}

/// The terminal fall speed is an exact, absorbing bound: the vertical
/// velocity never ends a gravity application below `-terminal_velocity`,
/// and once there it stays there.
pub proof fn lemma_terminal_clamp(cfg: Config, m: int, vy: int)
    requires
        cfg.wf(),
        1 <= m <= MASS_LIMIT,
    ensures
        spec_gravity_y(cfg, m, vy) >= -cfg.terminal_velocity,
        vy == -cfg.terminal_velocity ==> spec_gravity_y(cfg, m, vy) == -cfg.terminal_velocity,
{
    crate::fixed::lemma_tdiv_bound(m * cfg.gravity_num, cfg.gravity_den as int);
    assert(m * cfg.gravity_num >= 0) by (nonlinear_arith)
        requires
            m >= 1 && cfg.gravity_num >= 0,
    ;
}

} // verus!
