//! The narrow phase: for every unordered pair of bodies with
//! colliders, skip the pair unless their chunk-membership sets
//! overlap, then unless their bounding boxes overlap, then run the
//! exact contact query and resolve the contact.  Pairs are processed
//! strictly in table order, each seeing the state the previous pairs
//! produced.

use vstd::prelude::*;
use crate::body::{Body, Config, World};
use crate::contact::spec_contact;
use crate::octree::{chunk_sets, contains_u64, Chunk};
use crate::resolve::{contact_handling, spec_contact_handling, DIST_LIMIT};
use crate::vecmath::Transform;

verus! {

/// Whether two membership lists share a chunk identifier.
pub open spec fn seqs_share(a: Seq<u64>, b: Seq<u64>) -> bool {
    exists|x: u64| a.contains(x) && b.contains(x)
}

/// Whether two bodies' chunk-membership sets overlap.
pub fn shares_chunk(a: &Chunk, b: &Chunk) -> (r: bool)
    ensures
        r == seqs_share(a.0@, b.0@),
{
    let mut i: usize = 0;
    while i < a.0.len()
        invariant
            0 <= i <= a.0@.len(),
            forall|k: int| 0 <= k < i ==> !b.0@.contains(#[trigger] a.0@[k]),
        decreases a.0@.len() - i,
    {
        if contains_u64(&b.0, a.0[i]) {
            proof {
                assert(a.0@.contains(a.0@[i as int]));
            }
            return true;
        }
        i = i + 1;
    }
    proof {
        if seqs_share(a.0@, b.0@) {
            let x = choose|x: u64| a.0@.contains(x) && b.0@.contains(x);
            let k = choose|k: int| 0 <= k < a.0@.len() && a.0@[k] == x;
            assert(!b.0@.contains(a.0@[k]));
        }
    }
    false
}

/// One candidate pair: if both bodies have colliders, share a chunk,
/// and their bounding boxes overlap, run the exact contact query and,
/// on contact, resolve it; otherwise the bodies are untouched.
pub open spec fn spec_pair_step(
    bodies: Seq<Body>,
    chunks: Seq<Seq<u64>>,
    i: int,
    j: int,
    cfg: Config,
) -> Seq<Body> {
    let b1 = bodies[i];
    let b2 = bodies[j];
    if b1.collider is Some && b2.collider is Some && seqs_share(chunks[i], chunks[j])
        && b1.spec_aabb().spec_intersects(b2.spec_aabb()) {
        match spec_contact(
            b1.collider->Some_0.shape,
            b1.transform,
            b2.collider->Some_0.shape,
            b2.transform,
            cfg.tolerance as int,
        ) {
            Some(c) => {
                let r = spec_contact_handling(
                    c,
                    b1.kind,
                    b1.transform.translation,
                    b1.velocity,
                    b1.mass,
                    b2.kind,
                    b2.transform.translation,
                    b2.velocity,
                    b2.mass,
                    cfg,
                );
                bodies.update(
                    i,
                    Body { transform: Transform { translation: r.0 }, velocity: r.1, ..b1 },
                ).update(j, Body { transform: Transform { translation: r.2 }, velocity: r.3, ..b2 })
            },
            None => bodies,
        }
    } else {
        bodies
    }
}

/// The narrow phase from pair `(i, j)` on, in table order: all pairs
/// `(i, j), (i, j + 1), ..., (i + 1, i + 2), ...` processed
/// sequentially, each seeing the previous pair's output.
pub open spec fn spec_narrow_from(
    bodies: Seq<Body>,
    chunks: Seq<Seq<u64>>,
    i: int,
    j: int,
    cfg: Config,
) -> Seq<Body>
    decreases bodies.len() - i, bodies.len() - j,
{
    if i < 0 || j < i + 1 {
        bodies
    } else if i >= bodies.len() {
        bodies
    } else if j >= bodies.len() {
        spec_narrow_from(bodies, chunks, i + 1, i + 2, cfg)
    } else {
        spec_narrow_from(spec_pair_step(bodies, chunks, i, j, cfg), chunks, i, j + 1, cfg)
    }
}

/// Process one candidate pair of the narrow phase.
fn pair_step(world: &mut World, chunks: &Vec<Chunk>, i: usize, j: usize, cfg: &Config)
    requires
        old(world).wf(),
        cfg.wf(),
        i < j,
        j < old(world).bodies@.len(),
        chunks@.len() == old(world).bodies@.len(),
    ensures
        final(world).bodies@ == spec_pair_step(
            old(world).bodies@,
            chunk_sets(chunks@),
            i as int,
            j as int,
            *cfg,
        ),
        final(world).bodies@.len() == old(world).bodies@.len(),
        final(world).wf(),
{
    proof {
        assert(old(world).bodies@[i as int].wf());
        assert(old(world).bodies@[j as int].wf());
    }
    let share = shares_chunk(&chunks[i], &chunks[j]);
    if !share {
        return ;
    }
    let kind_1 = world.bodies[i].kind;
    let mut transform_1 = world.bodies[i].transform;
    let mut velocity_1 = world.bodies[i].velocity;
    let mass_1 = world.bodies[i].mass;
    let kind_2 = world.bodies[j].kind;
    let mut transform_2 = world.bodies[j].transform;
    let mut velocity_2 = world.bodies[j].velocity;
    let mass_2 = world.bodies[j].mass;
    let found = match (&world.bodies[i].collider, &world.bodies[j].collider) {
        (Some(c1), Some(c2)) => {
            let aabb_1 = c1.shape.compute_aabb(&transform_1);
            let aabb_2 = c2.shape.compute_aabb(&transform_2);
            if aabb_1.intersects(&aabb_2) {
                crate::contact::contact(
                    &c1.shape,
                    &transform_1,
                    &c2.shape,
                    &transform_2,
                    cfg.tolerance,
                )
            } else {
                None
            }
        },
        _ => None,
    };
    match found {
        Some(c) => {
            contact_handling(
                c,
                kind_1,
                &mut transform_1,
                &mut velocity_1,
                mass_1,
                kind_2,
                &mut transform_2,
                &mut velocity_2,
                mass_2,
                cfg,
            );
            let ghost pre = world.bodies@;
            world.bodies[i].transform = transform_1;
            world.bodies[i].velocity = velocity_1;
            world.bodies[j].transform = transform_2;
            world.bodies[j].velocity = velocity_2;
            proof {
                let b1 = pre[i as int];
                let b2 = pre[j as int];
                let r = spec_contact_handling(
                    c,
                    b1.kind,
                    b1.transform.translation,
                    b1.velocity,
                    b1.mass,
                    b2.kind,
                    b2.transform.translation,
                    b2.velocity,
                    b2.mass,
                    *cfg,
                );
                assert(world.bodies@ =~= pre.update(
                    i as int,
                    Body { transform: Transform { translation: r.0 }, velocity: r.1, ..b1 },
                ).update(
                    j as int,
                    Body { transform: Transform { translation: r.2 }, velocity: r.3, ..b2 },
                ));
            }
        },
        None => {},
    }
}

/// Run the narrow phase over every unordered pair of distinct bodies.
pub fn narrow_phase(world: &mut World, chunks: &Vec<Chunk>, cfg: &Config)
    requires
        old(world).wf(),
        cfg.wf(),
        chunks@.len() == old(world).bodies@.len(),
    ensures
        final(world).bodies@ == spec_narrow_from(
            old(world).bodies@,
            chunk_sets(chunks@),
            0,
            1,
            *cfg,
        ),
        final(world).bodies@.len() == old(world).bodies@.len(),
        final(world).wf(),
{
    let ghost b0 = world.bodies@;
    let ghost cv = chunk_sets(chunks@);
    let n = world.bodies.len();
    let mut i: usize = 0;
    while i < n
        invariant
            0 <= i <= n,
            n == world.bodies@.len(),
            chunks@.len() == n,
            cv == chunk_sets(chunks@),
            cfg.wf(),
            world.wf(),
            spec_narrow_from(world.bodies@, cv, i as int, i as int + 1, *cfg) == spec_narrow_from(
                b0,
                cv,
                0,
                1,
                *cfg,
            ),
        decreases n - i,
    {
        let mut j: usize = i + 1;
        while j < n
            invariant
                0 <= i < n,
                i + 1 <= j <= n,
                n == world.bodies@.len(),
                chunks@.len() == n,
                cv == chunk_sets(chunks@),
                cfg.wf(),
                world.wf(),
                spec_narrow_from(world.bodies@, cv, i as int, j as int, *cfg) == spec_narrow_from(
                    b0,
                    cv,
                    0,
                    1,
                    *cfg,
                ),
            decreases n - j,
        {
            pair_step(world, chunks, i, j, cfg);
            j = j + 1;
        }
        i = i + 1;
    }
}

/// Two bodies whose bounding boxes do not overlap are never resolved,
/// even if they share a chunk identifier: the pair step leaves every
/// body exactly as it was.
pub proof fn lemma_disjoint_aabbs_never_resolved(
    bodies: Seq<Body>,
    chunks: Seq<Seq<u64>>,
    i: int,
    j: int,
    cfg: Config,
)
    requires
        0 <= i < bodies.len(),
        0 <= j < bodies.len(),
        !bodies[i].spec_aabb().spec_intersects(bodies[j].spec_aabb()),
    ensures
        spec_pair_step(bodies, chunks, i, j, cfg) == bodies,
{
}

/// A body without a collider is never touched by the narrow phase:
/// no pair it occurs in is ever resolved.
pub proof fn lemma_narrow_ignores_colliderless(
    bodies: Seq<Body>,
    chunks: Seq<Seq<u64>>,
    i: int,
    j: int,
    cfg: Config,
    t: int,
)
    requires
        0 <= t < bodies.len(),
        bodies[t].collider is None,
    ensures
        spec_narrow_from(bodies, chunks, i, j, cfg).len() == bodies.len(),
        spec_narrow_from(bodies, chunks, i, j, cfg)[t] == bodies[t],
    decreases bodies.len() - i, bodies.len() - j,
{
    if i < 0 || j < i + 1 {
    } else if i >= bodies.len() {
    } else if j >= bodies.len() {
        lemma_narrow_ignores_colliderless(bodies, chunks, i + 1, i + 2, cfg, t);
    } else {
        let stepped = spec_pair_step(bodies, chunks, i, j, cfg);
        assert(stepped.len() == bodies.len() && stepped[t] == bodies[t] && stepped[t].collider
            is None);
        lemma_narrow_ignores_colliderless(stepped, chunks, i, j + 1, cfg, t);
    }
}

} // verus!
