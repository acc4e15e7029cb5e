//! The broad phase: once per tick, build a fresh octree over the world
//! bounds and assign every body with a collider its chunk-membership
//! set.  Previous memberships are discarded; the pass-local chunk
//! counter starts at zero and is returned alongside the rebuilt index,
//! so a pass is a mathematical function of the bodies and the
//! configuration alone.

use vstd::prelude::*;
use crate::body::{Body, Config, World};
use crate::octree::{chunk_sets, model_height, model_wf, spec_insert, Chunk, NodeModel, OctreeNode,
    PhysicsEntity};

verus! {

/// The broad-phase pass from body `i` on: each body with a collider is
/// inserted into the index under its current bounding box.
pub open spec fn spec_broad_phase_loop(
    bodies: Seq<Body>,
    i: int,
    node: NodeModel,
    chunks: Seq<Seq<u64>>,
    ctr: u64,
    maxo: int,
    depth: nat,
) -> (NodeModel, Seq<Seq<u64>>, u64)
    decreases bodies.len() - i,
{
    if i < 0 || i >= bodies.len() {
        (node, chunks, ctr)
    } else if bodies[i].collider is Some {
        let e = PhysicsEntity { body: i as usize, aabb: bodies[i].spec_aabb() };
        let r = spec_insert(node, e, maxo, depth, chunks, ctr);
        spec_broad_phase_loop(bodies, i + 1, r.0, r.1, r.2, maxo, depth)
    } else {
        spec_broad_phase_loop(bodies, i + 1, node, chunks, ctr, maxo, depth)
    }
}

/// One whole broad-phase pass: a fresh root over the world bounds, all
/// membership sets empty, the chunk counter at zero, then every body
/// with a collider inserted in table order.
pub open spec fn spec_broad_phase(bodies: Seq<Body>, cfg: Config) -> (
    NodeModel,
    Seq<Seq<u64>>,
    u64,
) {
    let root = NodeModel {
        bounding_box: cfg.world_bounds,
        chunk_num: 0,
        objects: Seq::<PhysicsEntity>::empty(),
        children: Seq::<NodeModel>::empty(),
    };
    let empty_chunks = Seq::new(bodies.len(), |k: int| Seq::<u64>::empty());
    spec_broad_phase_loop(bodies, 0, root, empty_chunks, 0, cfg.max_objects as int, cfg.max_depth as nat)
}

/// Rebuild the spatial index from current body state and compute every
/// body's chunk-membership set.  Returns the index, the membership
/// sets (indexed like the body table), and the final chunk counter.
pub fn broad_phase(world: &World, cfg: &Config) -> (r: (OctreeNode, Vec<Chunk>, u64))
    requires
        world.wf(),
        cfg.wf(),
    ensures
        ({
            let s = spec_broad_phase(world.bodies@, *cfg);
            &&& r.0.model() == s.0
            &&& chunk_sets(r.1@) == s.1
            &&& r.2 == s.2
        }),
        r.1@.len() == world.bodies@.len(),
        model_wf(r.0.model()),
{
    let n = world.bodies.len();
    let mut chunks: Vec<Chunk> = Vec::new();
    let mut i: usize = 0;
    while i < n
        invariant
            0 <= i <= n,
            chunks@.len() == i,
            forall|j: int| 0 <= j < i ==> (#[trigger] chunks@[j]).0@.len() == 0,
        decreases n - i,
    {
        chunks.push(Chunk(Vec::new()));
        i = i + 1;
    }
    proof {
        assert(chunk_sets(chunks@) =~~= Seq::new(n as nat, |k: int| Seq::<u64>::empty()));
    }
    let mut root = OctreeNode::new(cfg.world_bounds);
    let mut counter: u64 = 0;
    let mut i: usize = 0;
    while i < n
        invariant
            0 <= i <= n,
            n == world.bodies@.len(),
            world.wf(),
            cfg.wf(),
            model_wf(root.model()),
            model_height(root.model()) <= cfg.max_depth,
            chunks@.len() == n,
            spec_broad_phase_loop(
                world.bodies@,
                i as int,
                root.model(),
                chunk_sets(chunks@),
                counter,
                cfg.max_objects as int,
                cfg.max_depth as nat,
            ) == spec_broad_phase(world.bodies@, *cfg),
        decreases n - i,
    {
        proof {
            assert(world.bodies@[i as int].wf());
        }
        match &world.bodies[i].collider {
            Some(col) => {
                let aabb = col.shape.compute_aabb(&world.bodies[i].transform);
                let e = PhysicsEntity { body: i, aabb };
                proof {
                    assert(e.aabb == world.bodies@[i as int].spec_aabb());
                }
                root.insert(e, cfg.max_objects, cfg.max_depth, &mut chunks, &mut counter);
            },
            None => {},
        }
        i = i + 1;
    }
    (root, chunks, counter)
}

/// Broad phase is deterministic and pass-local: it reads nothing but
/// the bodies and the configuration, so two passes over unchanged
/// bodies yield identical chunk-membership assignments.
pub proof fn lemma_broad_phase_deterministic(b1: Seq<Body>, b2: Seq<Body>, cfg: Config)
    requires
        b1 == b2,
    ensures
        spec_broad_phase(b1, cfg) == spec_broad_phase(b2, cfg),
{
}

proof fn lemma_broad_loop_chunks(
    bodies: Seq<Body>,
    i: int,
    node: NodeModel,
    chunks: Seq<Seq<u64>>,
    ctr: u64,
    maxo: int,
    depth: nat,
)
    requires
        crate::octree::chunks_le(node, ctr),
        crate::octree::chunks_distinct(node),
    ensures
        spec_broad_phase_loop(bodies, i, node, chunks, ctr, maxo, depth).2 >= ctr,
        crate::octree::chunks_le(
            spec_broad_phase_loop(bodies, i, node, chunks, ctr, maxo, depth).0,
            spec_broad_phase_loop(bodies, i, node, chunks, ctr, maxo, depth).2,
        ),
        crate::octree::chunks_distinct(
            spec_broad_phase_loop(bodies, i, node, chunks, ctr, maxo, depth).0,
        ),
    decreases bodies.len() - i,
{
    if i < 0 || i >= bodies.len() {
    } else if bodies[i].collider is Some {
        let e = PhysicsEntity { body: i as usize, aabb: bodies[i].spec_aabb() };
        crate::octree::lemma_spec_insert_chunks(node, e, maxo, depth, chunks, ctr);
        let r = spec_insert(node, e, maxo, depth, chunks, ctr);
        lemma_broad_loop_chunks(bodies, i + 1, r.0, r.1, r.2, maxo, depth);
    } else {
        lemma_broad_loop_chunks(bodies, i + 1, node, chunks, ctr, maxo, depth);
    }
}

/// Chunk identifiers are pass-unique: after a broad-phase pass, no two
/// nodes of the rebuilt index share an identifier, and every identifier
/// is at most the returned counter.
pub proof fn lemma_broad_phase_unique_chunks(bodies: Seq<Body>, cfg: Config)
    ensures
        crate::octree::chunks_distinct(spec_broad_phase(bodies, cfg).0),
        crate::octree::chunks_le(spec_broad_phase(bodies, cfg).0, spec_broad_phase(bodies, cfg).2),
{
    let root = NodeModel {
        bounding_box: cfg.world_bounds,
        chunk_num: 0,
        objects: Seq::<PhysicsEntity>::empty(),
        children: Seq::<NodeModel>::empty(),
    };
    let empty_chunks = Seq::new(bodies.len(), |k: int| Seq::<u64>::empty());
    assert(crate::octree::forest_chunk_set(root.children) =~= Set::<u64>::empty());
    assert(crate::octree::chunk_set(root) =~= Set::<u64>::empty().insert(0));
    lemma_broad_loop_chunks(bodies, 0, root, empty_chunks, 0, cfg.max_objects as int, cfg.max_depth as nat);
}

proof fn lemma_broad_loop_tracks(
    bodies: Seq<Body>,
    i: int,
    node: NodeModel,
    chunks: Seq<Seq<u64>>,
    ctr: u64,
    maxo: int,
    depth: nat,
    t: int,
)
    requires
        bodies.len() <= usize::MAX,
        chunks.len() == bodies.len(),
        crate::octree::model_wf(node),
        crate::octree::model_height(node) <= depth,
        crate::octree::chunks_le(node, ctr),
        crate::octree::chunks_distinct(node),
        0 <= t < bodies.len(),
        bodies[t].collider is Some,
        0 <= i,
        t < i ==> crate::octree::tracked_in(
            node,
            t as usize,
            bodies[t].spec_aabb(),
            chunks[t],
        ),
    ensures
        spec_broad_phase_loop(bodies, i, node, chunks, ctr, maxo, depth).1.len() == chunks.len(),
        crate::octree::model_wf(spec_broad_phase_loop(bodies, i, node, chunks, ctr, maxo, depth).0),
        spec_broad_phase_loop(bodies, i, node, chunks, ctr, maxo, depth).0.bounding_box
            == node.bounding_box,
        crate::octree::tracked_in(
            spec_broad_phase_loop(bodies, i, node, chunks, ctr, maxo, depth).0,
            t as usize,
            bodies[t].spec_aabb(),
            spec_broad_phase_loop(bodies, i, node, chunks, ctr, maxo, depth).1[t],
        ),
    decreases bodies.len() - i,
{
    if i >= bodies.len() {
    } else if bodies[i].collider is Some {
        let e = PhysicsEntity { body: i as usize, aabb: bodies[i].spec_aabb() };
        crate::octree::lemma_spec_insert_wf(node, e, maxo, depth, chunks, ctr);
        crate::octree::lemma_spec_insert_chunks(node, e, maxo, depth, chunks, ctr);
        crate::octree::lemma_spec_insert_tracks(node, e, maxo, depth, chunks, ctr);
        let r = spec_insert(node, e, maxo, depth, chunks, ctr);
        if i == t {
            assert(crate::octree::tracked_in(r.0, t as usize, bodies[t].spec_aabb(), r.1[t]));
        } else if t < i {
            assert(crate::octree::tracked_in(
                node,
                t as usize,
                bodies[t].spec_aabb(),
                chunks[t],
            ));
            assert(crate::octree::tracked_in(r.0, t as usize, bodies[t].spec_aabb(), r.1[t]));
        }
        lemma_broad_loop_tracks(bodies, i + 1, r.0, r.1, r.2, maxo, depth, t);
    } else {
        lemma_broad_loop_tracks(bodies, i + 1, node, chunks, ctr, maxo, depth, t);
    }
}

/// Detection completeness of the broad phase: two bodies with
/// colliders whose bounding boxes share a common point inside the
/// world bounds always end up sharing a chunk identifier, so the
/// narrow phase will consider the pair.  No body straddling chunk
/// boundaries is ever dropped from the index.
pub proof fn lemma_broad_phase_completeness(
    bodies: Seq<Body>,
    cfg: Config,
    i: int,
    j: int,
    p: crate::vecmath::Vec3i,
)
    requires
        bodies.len() <= usize::MAX,
        0 <= i < bodies.len(),
        0 <= j < bodies.len(),
        bodies[i].collider is Some,
        bodies[j].collider is Some,
        cfg.world_bounds.wf(),
        cfg.world_bounds.spec_contains(p),
        bodies[i].spec_aabb().spec_contains(p),
        bodies[j].spec_aabb().spec_contains(p),
    ensures
        exists|c: u64|
            #[trigger] spec_broad_phase(bodies, cfg).1[i].contains(c) && spec_broad_phase(
                bodies,
                cfg,
            ).1[j].contains(c),
        crate::narrow::seqs_share(spec_broad_phase(bodies, cfg).1[i], spec_broad_phase(bodies, cfg).1[j]),
{
    let root = NodeModel {
        bounding_box: cfg.world_bounds,
        chunk_num: 0,
        objects: Seq::<PhysicsEntity>::empty(),
        children: Seq::<NodeModel>::empty(),
    };
    let empty_chunks = Seq::new(bodies.len(), |k: int| Seq::<u64>::empty());
    assert(crate::octree::forest_wf(root.children));
    assert(crate::octree::forest_chunk_set(root.children) =~= Set::<u64>::empty());
    assert(crate::octree::chunk_set(root) =~= Set::<u64>::empty().insert(0));
    let maxo = cfg.max_objects as int;
    let depth = cfg.max_depth as nat;
    lemma_broad_loop_tracks(bodies, 0, root, empty_chunks, 0, maxo, depth, i);
    lemma_broad_loop_tracks(bodies, 0, root, empty_chunks, 0, maxo, depth, j);
    let r = spec_broad_phase_loop(bodies, 0, root, empty_chunks, 0, maxo, depth);
    crate::octree::lemma_tracked_common_chunk(
        r.0,
        i as usize,
        bodies[i].spec_aabb(),
        r.1[i],
        j as usize,
        bodies[j].spec_aabb(),
        r.1[j],
        p,
    );
    let c = choose|c: u64| #[trigger] r.1[i].contains(c) && r.1[j].contains(c);
    assert(spec_broad_phase(bodies, cfg).1[i].contains(c) && spec_broad_phase(
        bodies,
        cfg,
    ).1[j].contains(c));
}

proof fn lemma_broad_loop_no_collider(
    bodies: Seq<Body>,
    i: int,
    node: NodeModel,
    chunks: Seq<Seq<u64>>,
    ctr: u64,
    maxo: int,
    depth: nat,
    j: int,
)
    requires
        bodies.len() <= usize::MAX,
        0 <= j < bodies.len(),
        bodies[j].collider is None,
        !crate::octree::model_members(node).contains(j),
    ensures
        spec_broad_phase_loop(bodies, i, node, chunks, ctr, maxo, depth).1.len() == chunks.len(),
        0 <= j < chunks.len() ==> spec_broad_phase_loop(
            bodies,
            i,
            node,
            chunks,
            ctr,
            maxo,
            depth,
        ).1[j] == chunks[j],
    decreases bodies.len() - i,
{
    if i < 0 || i >= bodies.len() {
    } else if bodies[i].collider is Some {
        let e = PhysicsEntity { body: i as usize, aabb: bodies[i].spec_aabb() };
        assert(i != j);
        crate::octree::lemma_spec_insert_untouched(node, e, maxo, depth, chunks, ctr, j);
        let r = spec_insert(node, e, maxo, depth, chunks, ctr);
        lemma_broad_loop_no_collider(bodies, i + 1, r.0, r.1, r.2, maxo, depth, j);
    } else {
        lemma_broad_loop_no_collider(bodies, i + 1, node, chunks, ctr, maxo, depth, j);
    }
}

/// A body without a collider (its mesh asset has not resolved) never
/// appears in any chunk-membership set a broad-phase pass produces: its
/// set comes out empty, in every pass, whatever the other bodies do.
pub proof fn lemma_broad_phase_no_collider(bodies: Seq<Body>, cfg: Config, j: int)
    requires
        bodies.len() <= usize::MAX,
        0 <= j < bodies.len(),
        bodies[j].collider is None,
    ensures
        spec_broad_phase(bodies, cfg).1.len() == bodies.len(),
        spec_broad_phase(bodies, cfg).1[j] =~= Seq::<u64>::empty(),
{
    let root = NodeModel {
        bounding_box: cfg.world_bounds,
        chunk_num: 0,
        objects: Seq::<PhysicsEntity>::empty(),
        children: Seq::<NodeModel>::empty(),
    };
    let empty_chunks = Seq::new(bodies.len(), |k: int| Seq::<u64>::empty());
    assert(!crate::octree::model_members(root).contains(j));
    lemma_broad_loop_no_collider(
        bodies,
        0,
        root,
        empty_chunks,
        0,
        cfg.max_objects as int,
        cfg.max_depth as nat,
        j,
    );
}

} // verus!
