//! The per-tick pipeline: gravity, integration, broad phase, narrow
//! phase, strictly in that order, once per fixed simulation tick.

use vstd::prelude::*;
use crate::body::{Body, Config, World};
use crate::broad::{broad_phase, spec_broad_phase};
use crate::integrate::{apply_gravity, apply_velocity, spec_gravity_body, spec_move_body};
use crate::narrow::{narrow_phase, spec_narrow_from};
use crate::octree::{chunk_sets, Chunk, OctreeNode};

verus! {

/// All bodies after one gravity application.
pub open spec fn spec_gravity_all(bodies: Seq<Body>, cfg: Config) -> Seq<Body> {
    Seq::new(bodies.len(), |i: int| spec_gravity_body(cfg, bodies[i]))
}

/// All bodies after one position-integration step.
pub open spec fn spec_move_all(bodies: Seq<Body>, cfg: Config) -> Seq<Body> {
    Seq::new(bodies.len(), |i: int| spec_move_body(cfg, bodies[i]))
}

/// Advance the simulation by one tick: apply gravity, advance
/// positions, rebuild the spatial index and chunk memberships, and
/// resolve contacts pair by pair.  Returns the rebuilt index, the
/// membership sets and the final chunk counter of the pass.
pub fn step(world: &mut World, cfg: &Config) -> (r: (OctreeNode, Vec<Chunk>, u64))
    requires
        old(world).wf(),
        cfg.wf(),
    ensures
        ({
            let after_g = spec_gravity_all(old(world).bodies@, *cfg);
            let after_v = spec_move_all(after_g, *cfg);
            let bp = spec_broad_phase(after_v, *cfg);
            &&& r.0.model() == bp.0
            &&& chunk_sets(r.1@) == bp.1
            &&& r.2 == bp.2
            &&& final(world).bodies@ == spec_narrow_from(after_v, bp.1, 0, 1, *cfg)
        }),
        final(world).wf(),
        final(world).bodies@.len() == old(world).bodies@.len(),
        r.1@.len() == old(world).bodies@.len(),
{
    let ghost b0 = world.bodies@;
    apply_gravity(world, cfg);
    proof {
        assert(world.bodies@ =~= spec_gravity_all(b0, *cfg));
    }
    apply_velocity(world, cfg);
    proof {
        assert(world.bodies@ =~= spec_move_all(spec_gravity_all(b0, *cfg), *cfg));
    }
    let bp = broad_phase(world, cfg);
    let (tree, chunks, counter) = bp;
    narrow_phase(world, &chunks, cfg);
    (tree, chunks, counter)
}

/// A body whose mesh asset never resolves has no collider, so in every
/// tick its chunk-membership set comes out empty, the narrow phase
/// leaves it exactly as the integrator left it, and it still has no
/// collider afterwards — so the same holds for every later tick.
pub proof fn lemma_step_pending_mesh(bodies: Seq<Body>, cfg: Config, j: int)
    requires
        bodies.len() <= usize::MAX,
        0 <= j < bodies.len(),
        bodies[j].collider is None,
    ensures
        ({
            let after_v = spec_move_all(spec_gravity_all(bodies, cfg), cfg);
            let bp = spec_broad_phase(after_v, cfg);
            let after_n = spec_narrow_from(after_v, bp.1, 0, 1, cfg);
            &&& bp.1[j] =~= Seq::<u64>::empty()
            &&& after_n[j] == after_v[j]
            &&& after_n[j].collider is None
        }),
{
    let after_g = spec_gravity_all(bodies, cfg);
    let after_v = spec_move_all(after_g, cfg);
    assert(after_g[j].collider == bodies[j].collider);
    assert(after_v[j].collider == bodies[j].collider);
    crate::broad::lemma_broad_phase_no_collider(after_v, cfg, j);
    let bp = spec_broad_phase(after_v, cfg);
    crate::narrow::lemma_narrow_ignores_colliderless(after_v, bp.1, 0, 1, cfg, j);
}

} // verus!
