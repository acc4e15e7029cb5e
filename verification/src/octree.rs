//! The spatial index: an octree over the world bounds, rebuilt from
//! scratch every broad-phase pass.
//!
//! A node is either a leaf holding member bodies, or an internal node
//! with exactly eight children and no members of its own.  A body is
//! routed into every child whose bounds intersect the body's bounding
//! box, so a body straddling a boundary is registered in more than one
//! chunk; this trades extra narrow-phase candidates for detection
//! completeness.  Every mutation is mirrored by a ghost model, so the
//! whole pass is a mathematical function of its inputs.

use vstd::prelude::*;
use crate::aabb::Aabb;

verus! {

/// A body reference inserted into the index: the body's table index
/// and its bounding box under its current transform.
#[derive(Clone, Copy, PartialEq, Eq, Structural, Debug)]
pub struct PhysicsEntity {
    pub body: usize,
    pub aabb: Aabb,
}

/// The set of chunk identifiers one body currently overlaps, without
/// duplicates; recomputed from scratch every tick.
#[derive(Debug)]
pub struct Chunk(pub Vec<u64>);

/// One node of the octree.  Invariant: a node either is a leaf holding
/// members, or has exactly eight children and no direct members.
#[derive(Debug)]
pub struct OctreeNode {
    pub bounding_box: Aabb,
    pub chunk_num: u64,
    pub objects: Vec<PhysicsEntity>,
    pub children: Vec<OctreeNode>,
}

/// Ghost mirror of a node, with sequences in place of vectors.
pub ghost struct NodeModel {
    pub bounding_box: Aabb,
    pub chunk_num: u64,
    pub objects: Seq<PhysicsEntity>,
    pub children: Seq<NodeModel>,
}

impl OctreeNode {
    /// The ghost value this node stands for.
    pub open spec fn model(self) -> NodeModel
        decreases self, 0int,
    {
        NodeModel {
            bounding_box: self.bounding_box,
            chunk_num: self.chunk_num,
            objects: self.objects@,
            children: forest_model(self.children@),
        }
    }
}

/// The ghost values of a sequence of nodes.
pub open spec fn forest_model(s: Seq<OctreeNode>) -> Seq<NodeModel>
    decreases s, 1int,
{
    if s.len() == 0 {
        Seq::empty()
    } else {
        forest_model(s.drop_last()).push(s.last().model())
    }
}

/// The chunk-membership sets as a sequence of sequences.
pub open spec fn chunk_sets(cs: Seq<Chunk>) -> Seq<Seq<u64>> {
    Seq::new(cs.len(), |i: int| cs[i].0@)
}

/// Structural well-formedness of a model: sane bounds everywhere,
/// each node either a leaf or an internal node with eight children
/// (spanning exactly the octants of its bounds) and no direct members.
pub open spec fn model_wf(m: NodeModel) -> bool
    decreases m, 0int,
{
    &&& m.bounding_box.wf()
    &&& (m.children.len() == 0 || m.children.len() == 8)
    &&& (m.children.len() > 0 ==> m.objects.len() == 0)
    &&& (m.children.len() == 8 ==> forall|i: int|
        0 <= i < 8 ==> (#[trigger] m.children[i]).bounding_box == crate::aabb::spec_octant(
            m.bounding_box,
            i,
        ))
    &&& forest_wf(m.children)
}

pub open spec fn forest_wf(s: Seq<NodeModel>) -> bool
    decreases s, 1int,
{
    if s.len() == 0 {
        true
    } else {
        forest_wf(s.drop_last()) && model_wf(s.last())
    }
}

/// Height of a model tree: zero for a leaf.
pub open spec fn model_height(m: NodeModel) -> nat
    decreases m, 0int,
{
    if m.children.len() == 0 {
        0
    } else {
        1 + forest_height(m.children)
    }
}

pub open spec fn forest_height(s: Seq<NodeModel>) -> nat
    decreases s, 1int,
{
    if s.len() == 0 {
        0
    } else {
        let rest = forest_height(s.drop_last());
        let lastv = model_height(s.last());
        if lastv > rest {
            lastv
        } else {
            rest
        }
    }
}

proof fn lemma_forest_model_len(s: Seq<OctreeNode>)
    ensures
        forest_model(s).len() == s.len(),
    decreases s.len(),
{
    if s.len() > 0 {
        lemma_forest_model_len(s.drop_last());
    }
}

proof fn lemma_forest_model_index(s: Seq<OctreeNode>, i: int)
    requires
        0 <= i < s.len(),
    ensures
        forest_model(s).len() == s.len(),
        forest_model(s)[i] == s[i].model(),
    decreases s.len(),
{
    lemma_forest_model_len(s);
    if i < s.len() - 1 {
        lemma_forest_model_index(s.drop_last(), i);
    }
}

proof fn lemma_forest_model_update(s: Seq<OctreeNode>, i: int, x: OctreeNode)
    requires
        0 <= i < s.len(),
    ensures
        forest_model(s.update(i, x)) =~= forest_model(s).update(i, x.model()),
    decreases s.len(),
{
    lemma_forest_model_len(s);
    lemma_forest_model_len(s.update(i, x));
    if i < s.len() - 1 {
        assert(s.update(i, x).drop_last() =~= s.drop_last().update(i, x));
        assert(s.update(i, x).last() == s.last());
        lemma_forest_model_update(s.drop_last(), i, x);
        assert forall|j: int| 0 <= j < s.len() implies forest_model(s.update(i, x))[j]
            == forest_model(s).update(i, x.model())[j] by {
            lemma_forest_model_index(s.update(i, x), j);
            lemma_forest_model_index(s, j);
        }
    } else {
        assert(s.update(i, x).drop_last() =~= s.drop_last());
        assert(s.update(i, x).last() == x);
        assert forall|j: int| 0 <= j < s.len() implies forest_model(s.update(i, x))[j]
            == forest_model(s).update(i, x.model())[j] by {
            lemma_forest_model_index(s.update(i, x), j);
            if j < s.len() - 1 {
                lemma_forest_model_index(s, j);
            }
        }
    }
}

proof fn lemma_forest_model_push(s: Seq<OctreeNode>, x: OctreeNode)
    ensures
        forest_model(s.push(x)) =~= forest_model(s).push(x.model()),
{
    assert(s.push(x).drop_last() =~= s);
    assert(s.push(x).last() == x);
}

/// Every member of a well-formed forest is well formed.
proof fn lemma_forest_wf_index(s: Seq<NodeModel>, i: int)
    requires
        forest_wf(s),
        0 <= i < s.len(),
    ensures
        model_wf(s[i]),
    decreases s.len(),
{
    if i < s.len() - 1 {
        lemma_forest_wf_index(s.drop_last(), i);
    }
}

/// Replacing a member of a well-formed forest with a well-formed node
/// keeps the forest well formed.
proof fn lemma_forest_wf_update(s: Seq<NodeModel>, i: int, x: NodeModel)
    requires
        forest_wf(s),
        model_wf(x),
        0 <= i < s.len(),
    ensures
        forest_wf(s.update(i, x)),
    decreases s.len(),
{
    if i < s.len() - 1 {
        assert(s.update(i, x).drop_last() =~= s.drop_last().update(i, x));
        assert(s.update(i, x).last() == s.last());
        lemma_forest_wf_update(s.drop_last(), i, x);
    } else {
        assert(s.update(i, x).drop_last() =~= s.drop_last());
        assert(s.update(i, x).last() == x);
    }
}

/// The height of a forest bounds the height of each member.
proof fn lemma_forest_height_index(s: Seq<NodeModel>, i: int)
    requires
        0 <= i < s.len(),
    ensures
        model_height(s[i]) <= forest_height(s),
    decreases s.len(),
{
    if i < s.len() - 1 {
        lemma_forest_height_index(s.drop_last(), i);
        assert(forest_height(s.drop_last()) <= forest_height(s));
    }
}

/// A forest whose members all have height at most `h` has height at
/// most `h`.
proof fn lemma_forest_height_bound(s: Seq<NodeModel>, h: nat)
    requires
        forall|j: int| 0 <= j < s.len() ==> model_height(#[trigger] s[j]) <= h,
    ensures
        forest_height(s) <= h,
    decreases s.len(),
{
    if s.len() > 0 {
        lemma_forest_height_bound(s.drop_last(), h);
        assert(model_height(s.last()) <= h);
    }
}

/// Greatest counter value at which a leaf may still split; keeps the
/// eight freshly allocated chunk identifiers below the counter range.
pub const CHUNK_CEILING: u64 = u64::MAX - 8;

/// `s` with the first occurrence of `v` removed, if any.
pub open spec fn seq_remove_first(s: Seq<u64>, v: u64) -> Seq<u64>
    decreases s.len(),
{
    if s.len() == 0 {
        s
    } else if s[0] == v {
        s.drop_first()
    } else {
        seq![s[0]] + seq_remove_first(s.drop_first(), v)
    }
}

/// Insertion into a model node.  At an internal node the entity is
/// routed into every child whose bounds intersect its bounding box; at
/// a leaf the entity is recorded, the leaf's chunk is added to the
/// entity's membership set, and the leaf splits when it now holds more
/// than `maxo` members and the remaining depth budget is still
/// positive; only a leaf at budget zero never splits.
pub open spec fn spec_insert(
    m: NodeModel,
    e: PhysicsEntity,
    maxo: int,
    depth: nat,
    chunks: Seq<Seq<u64>>,
    ctr: u64,
) -> (NodeModel, Seq<Seq<u64>>, u64)
    decreases depth, 4int, 0int,
{
    if m.children.len() > 0 {
        let r = spec_route(m.children, e, maxo, depth, 0, chunks, ctr);
        (NodeModel { children: r.0, ..m }, r.1, r.2)
    } else {
        let b = e.body as int;
        let withchunk = if 0 <= b < chunks.len() && !chunks[b].contains(m.chunk_num) {
            chunks.update(b, chunks[b].push(m.chunk_num))
        } else {
            chunks
        };
        let m2 = NodeModel { objects: m.objects.push(e), ..m };
        if m2.objects.len() > maxo && depth > 0 && ctr <= CHUNK_CEILING {
            spec_split(m2, maxo, depth, withchunk, ctr)
        } else {
            (m2, withchunk, ctr)
        }
    }
}

/// Route an entity into the children from index `i` on: every child
/// whose bounds intersect the entity's box receives it with one unit
/// less depth budget.
pub open spec fn spec_route(
    cs: Seq<NodeModel>,
    e: PhysicsEntity,
    maxo: int,
    depth: nat,
    i: int,
    chunks: Seq<Seq<u64>>,
    ctr: u64,
) -> (Seq<NodeModel>, Seq<Seq<u64>>, u64)
    decreases depth, 1int, cs.len() - i,
{
    if i < 0 || i >= cs.len() {
        (cs, chunks, ctr)
    } else if cs[i].bounding_box.spec_intersects(e.aabb) && depth > 0 {
        let r = spec_insert(cs[i], e, maxo, (depth - 1) as nat, chunks, ctr);
        spec_route(cs.update(i, r.0), e, maxo, depth, i + 1, r.1, r.2)
    } else {
        spec_route(cs, e, maxo, depth, i + 1, chunks, ctr)
    }
}

/// Split a leaf: eight children over the octants of its bounds, each
/// with a freshly allocated chunk identifier, and every stored member
/// re-routed into the intersecting children, at one unit less depth
/// budget, after the parent's chunk is removed from its membership
/// set.
pub open spec fn spec_split(
    m: NodeModel,
    maxo: int,
    depth: nat,
    chunks: Seq<Seq<u64>>,
    ctr: u64,
) -> (NodeModel, Seq<Seq<u64>>, u64)
    decreases depth, 3int, 0int,
{
    let kids = Seq::new(
        8,
        |i: int|
            NodeModel {
                bounding_box: crate::aabb::spec_octant(m.bounding_box, i),
                chunk_num: (ctr + 1 + i) as u64,
                objects: Seq::empty(),
                children: Seq::empty(),
            },
    );
    let r = spec_redistribute(
        kids,
        m.objects,
        0,
        m.chunk_num,
        maxo,
        depth,
        chunks,
        (ctr + 8) as u64,
    );
    (NodeModel { objects: Seq::empty(), children: r.0, ..m }, r.1, r.2)
}

/// Re-route the stored members from index `j` on into the fresh
/// children, removing the superseded parent chunk from each member's
/// membership set first.
pub open spec fn spec_redistribute(
    cs: Seq<NodeModel>,
    members: Seq<PhysicsEntity>,
    j: int,
    parent_chunk: u64,
    maxo: int,
    depth: nat,
    chunks: Seq<Seq<u64>>,
    ctr: u64,
) -> (Seq<NodeModel>, Seq<Seq<u64>>, u64)
    decreases depth, 2int, members.len() - j,
{
    if j < 0 || j >= members.len() {
        (cs, chunks, ctr)
    } else {
        let e = members[j];
        let b = e.body as int;
        let ch1 = if 0 <= b < chunks.len() {
            chunks.update(b, seq_remove_first(chunks[b], parent_chunk))
        } else {
            chunks
        };
        let r = spec_route(cs, e, maxo, depth, 0, ch1, ctr);
        spec_redistribute(r.0, members, j + 1, parent_chunk, maxo, depth, r.1, r.2)
    }
}

/// A forest whose members are all well formed is well formed.
proof fn lemma_forest_wf_pointwise(s: Seq<NodeModel>)
    requires
        forall|j: int| 0 <= j < s.len() ==> model_wf(#[trigger] s[j]),
    ensures
        forest_wf(s),
    decreases s.len(),
{
    if s.len() > 0 {
        lemma_forest_wf_pointwise(s.drop_last());
    }
}

/// Insertion preserves structural well-formedness, respects the depth
/// budget, and never changes the number of membership sets.
pub proof fn lemma_spec_insert_wf(
    m: NodeModel,
    e: PhysicsEntity,
    maxo: int,
    depth: nat,
    chunks: Seq<Seq<u64>>,
    ctr: u64,
)
    requires
        model_wf(m),
        model_height(m) <= depth,
    ensures
        model_wf(spec_insert(m, e, maxo, depth, chunks, ctr).0),
        model_height(spec_insert(m, e, maxo, depth, chunks, ctr).0) <= depth,
        spec_insert(m, e, maxo, depth, chunks, ctr).1.len() == chunks.len(),
        spec_insert(m, e, maxo, depth, chunks, ctr).0.bounding_box == m.bounding_box,
        spec_insert(m, e, maxo, depth, chunks, ctr).0.chunk_num == m.chunk_num,
    decreases depth, 4int, 0int,
{
    if m.children.len() > 0 {
        lemma_spec_route_wf(m.children, e, maxo, depth, 0, chunks, ctr);
        let r = spec_route(m.children, e, maxo, depth, 0, chunks, ctr);
        assert(model_height(spec_insert(m, e, maxo, depth, chunks, ctr).0) == 1
            + forest_height(r.0));
    } else {
        let b = e.body as int;
        let withchunk = if 0 <= b < chunks.len() && !chunks[b].contains(m.chunk_num) {
            chunks.update(b, chunks[b].push(m.chunk_num))
        } else {
            chunks
        };
        let m2 = NodeModel { objects: m.objects.push(e), ..m };
        if m2.objects.len() > maxo && depth > 0 && ctr <= CHUNK_CEILING {
            lemma_spec_split_wf(m2, maxo, depth, withchunk, ctr);
        }
    }
}

/// Routing preserves the forest's well-formedness, length and height
/// bound, and the number of membership sets.
proof fn lemma_spec_route_wf(
    cs: Seq<NodeModel>,
    e: PhysicsEntity,
    maxo: int,
    depth: nat,
    i: int,
    chunks: Seq<Seq<u64>>,
    ctr: u64,
)
    requires
        forest_wf(cs),
        depth >= 1,
        forest_height(cs) <= depth - 1,
    ensures
        forest_wf(spec_route(cs, e, maxo, depth, i, chunks, ctr).0),
        spec_route(cs, e, maxo, depth, i, chunks, ctr).0.len() == cs.len(),
        forest_height(spec_route(cs, e, maxo, depth, i, chunks, ctr).0) <= depth - 1,
        spec_route(cs, e, maxo, depth, i, chunks, ctr).1.len() == chunks.len(),
        forall|k: int|
            0 <= k < cs.len() ==> (#[trigger] spec_route(cs, e, maxo, depth, i, chunks, ctr).0[k]).bounding_box
                == cs[k].bounding_box && spec_route(cs, e, maxo, depth, i, chunks, ctr).0[k].chunk_num
                == cs[k].chunk_num,
    decreases depth, 1int, cs.len() - i,
{
    if i < 0 || i >= cs.len() {
    } else if cs[i].bounding_box.spec_intersects(e.aabb) && depth > 0 {
        lemma_forest_wf_index(cs, i);
        lemma_forest_height_index(cs, i);
        lemma_spec_insert_wf(cs[i], e, maxo, (depth - 1) as nat, chunks, ctr);
        let r = spec_insert(cs[i], e, maxo, (depth - 1) as nat, chunks, ctr);
        lemma_forest_wf_update(cs, i, r.0);
        assert forall|j: int| 0 <= j < cs.len() implies model_height(
            #[trigger] cs.update(i, r.0)[j],
        ) <= depth - 1 by {
            if j != i {
                lemma_forest_height_index(cs, j);
            }
        }
        lemma_forest_height_bound(cs.update(i, r.0), (depth - 1) as nat);
        lemma_spec_route_wf(cs.update(i, r.0), e, maxo, depth, i + 1, r.1, r.2);
    } else {
        lemma_spec_route_wf(cs, e, maxo, depth, i + 1, chunks, ctr);
    }
}

/// Splitting a leaf yields a well-formed internal node within the
/// depth budget.
proof fn lemma_spec_split_wf(
    m: NodeModel,
    maxo: int,
    depth: nat,
    chunks: Seq<Seq<u64>>,
    ctr: u64,
)
    requires
        model_wf(m),
        m.children.len() == 0,
        depth >= 1,
        ctr <= CHUNK_CEILING,
    ensures
        model_wf(spec_split(m, maxo, depth, chunks, ctr).0),
        model_height(spec_split(m, maxo, depth, chunks, ctr).0) <= depth,
        spec_split(m, maxo, depth, chunks, ctr).1.len() == chunks.len(),
        spec_split(m, maxo, depth, chunks, ctr).0.bounding_box == m.bounding_box,
        spec_split(m, maxo, depth, chunks, ctr).0.chunk_num == m.chunk_num,
    decreases depth, 3int, 0int,
{
    let kids = Seq::new(
        8,
        |i: int|
            NodeModel {
                bounding_box: crate::aabb::spec_octant(m.bounding_box, i),
                chunk_num: (ctr + 1 + i) as u64,
                objects: Seq::empty(),
                children: Seq::empty(),
            },
    );
    assert forall|j: int| 0 <= j < kids.len() implies model_wf(#[trigger] kids[j]) by {
        crate::aabb::lemma_octant_wf(m.bounding_box, j);
    }
    lemma_forest_wf_pointwise(kids);
    assert forall|j: int| 0 <= j < kids.len() implies model_height(#[trigger] kids[j]) <= (depth
        - 1) as nat by {}
    lemma_forest_height_bound(kids, (depth - 1) as nat);
    lemma_spec_redistribute_wf(
        kids,
        m.objects,
        0,
        m.chunk_num,
        maxo,
        depth,
        chunks,
        (ctr + 8) as u64,
    );
    let r = spec_redistribute(
        kids,
        m.objects,
        0,
        m.chunk_num,
        maxo,
        depth,
        chunks,
        (ctr + 8) as u64,
    );
    assert(model_height(spec_split(m, maxo, depth, chunks, ctr).0) == 1 + forest_height(r.0));
}

/// Redistribution preserves the forest's well-formedness, length and
/// height bound, and the number of membership sets.
proof fn lemma_spec_redistribute_wf(
    cs: Seq<NodeModel>,
    members: Seq<PhysicsEntity>,
    j: int,
    parent_chunk: u64,
    maxo: int,
    depth: nat,
    chunks: Seq<Seq<u64>>,
    ctr: u64,
)
    requires
        forest_wf(cs),
        depth >= 1,
        forest_height(cs) <= depth - 1,
    ensures
        forest_wf(spec_redistribute(cs, members, j, parent_chunk, maxo, depth, chunks, ctr).0),
        spec_redistribute(cs, members, j, parent_chunk, maxo, depth, chunks, ctr).0.len()
            == cs.len(),
        forest_height(spec_redistribute(cs, members, j, parent_chunk, maxo, depth, chunks, ctr).0)
            <= depth - 1,
        spec_redistribute(cs, members, j, parent_chunk, maxo, depth, chunks, ctr).1.len()
            == chunks.len(),
        forall|k: int|
            0 <= k < cs.len() ==> (#[trigger] spec_redistribute(
                cs,
                members,
                j,
                parent_chunk,
                maxo,
                depth,
                chunks,
                ctr,
            ).0[k]).bounding_box == cs[k].bounding_box && spec_redistribute(
                cs,
                members,
                j,
                parent_chunk,
                maxo,
                depth,
                chunks,
                ctr,
            ).0[k].chunk_num == cs[k].chunk_num,
    decreases depth, 2int, members.len() - j,
{
    if j < 0 || j >= members.len() {
    } else {
        let e = members[j];
        let b = e.body as int;
        let ch1 = if 0 <= b < chunks.len() {
            chunks.update(b, seq_remove_first(chunks[b], parent_chunk))
        } else {
            chunks
        };
        lemma_spec_route_wf(cs, e, maxo, depth, 0, ch1, ctr);
        let r = spec_route(cs, e, maxo, depth, 0, ch1, ctr);
        lemma_spec_redistribute_wf(r.0, members, j + 1, parent_chunk, maxo, depth, r.1, r.2);
    }
}

/// The body indices occurring in a member list.
pub open spec fn objects_bodies(s: Seq<PhysicsEntity>) -> Set<int> {
    Set::new(|b: int| exists|k: int| 0 <= k < s.len() && (#[trigger] s[k]).body == b)
}

/// The body indices recorded anywhere in the subtree.
pub open spec fn model_members(m: NodeModel) -> Set<int>
    decreases m, 0int,
{
    objects_bodies(m.objects).union(forest_members(m.children))
}

pub open spec fn forest_members(s: Seq<NodeModel>) -> Set<int>
    decreases s, 1int,
{
    if s.len() == 0 {
        Set::empty()
    } else {
        forest_members(s.drop_last()).union(model_members(s.last()))
    }
}

proof fn lemma_forest_members_index(s: Seq<NodeModel>, i: int, j: int)
    requires
        0 <= i < s.len(),
        !forest_members(s).contains(j),
    ensures
        !model_members(s[i]).contains(j),
    decreases s.len(),
{
    if i < s.len() - 1 {
        lemma_forest_members_index(s.drop_last(), i, j);
    }
}

proof fn lemma_forest_members_update(s: Seq<NodeModel>, i: int, x: NodeModel, j: int)
    requires
        0 <= i < s.len(),
        !forest_members(s).contains(j),
        !model_members(x).contains(j),
    ensures
        !forest_members(s.update(i, x)).contains(j),
    decreases s.len(),
{
    if i < s.len() - 1 {
        assert(s.update(i, x).drop_last() =~= s.drop_last().update(i, x));
        assert(s.update(i, x).last() == s.last());
        lemma_forest_members_update(s.drop_last(), i, x, j);
    } else {
        assert(s.update(i, x).drop_last() =~= s.drop_last());
        assert(s.update(i, x).last() == x);
    }
}

/// Inserting a body never touches the membership set of a different
/// body that occurs nowhere in the subtree, and never makes it a
/// member.
pub proof fn lemma_spec_insert_untouched(
    m: NodeModel,
    e: PhysicsEntity,
    maxo: int,
    depth: nat,
    chunks: Seq<Seq<u64>>,
    ctr: u64,
    j: int,
)
    requires
        j != e.body as int,
        !model_members(m).contains(j),
    ensures
        spec_insert(m, e, maxo, depth, chunks, ctr).1.len() == chunks.len(),
        0 <= j < chunks.len() ==> spec_insert(m, e, maxo, depth, chunks, ctr).1[j] == chunks[j],
        !model_members(spec_insert(m, e, maxo, depth, chunks, ctr).0).contains(j),
    decreases depth, 4int, 0int,
{
    if m.children.len() > 0 {
        lemma_spec_route_untouched(m.children, e, maxo, depth, 0, chunks, ctr, j);
    } else {
        let b = e.body as int;
        let withchunk = if 0 <= b < chunks.len() && !chunks[b].contains(m.chunk_num) {
            chunks.update(b, chunks[b].push(m.chunk_num))
        } else {
            chunks
        };
        let m2 = NodeModel { objects: m.objects.push(e), ..m };
        assert(!model_members(m2).contains(j)) by {
            assert(forall|k: int|
                0 <= k < m2.objects.len() ==> (#[trigger] m2.objects[k]).body != j);
        }
        if m2.objects.len() > maxo && depth > 0 && ctr <= CHUNK_CEILING {
            lemma_spec_split_untouched(m2, maxo, depth, withchunk, ctr, j);
        }
    }
}

proof fn lemma_spec_route_untouched(
    cs: Seq<NodeModel>,
    e: PhysicsEntity,
    maxo: int,
    depth: nat,
    i: int,
    chunks: Seq<Seq<u64>>,
    ctr: u64,
    j: int,
)
    requires
        j != e.body as int,
        !forest_members(cs).contains(j),
    ensures
        spec_route(cs, e, maxo, depth, i, chunks, ctr).1.len() == chunks.len(),
        0 <= j < chunks.len() ==> spec_route(cs, e, maxo, depth, i, chunks, ctr).1[j] == chunks[j],
        !forest_members(spec_route(cs, e, maxo, depth, i, chunks, ctr).0).contains(j),
    decreases depth, 1int, cs.len() - i,
{
    if i < 0 || i >= cs.len() {
    } else if cs[i].bounding_box.spec_intersects(e.aabb) && depth > 0 {
        lemma_forest_members_index(cs, i, j);
        lemma_spec_insert_untouched(cs[i], e, maxo, (depth - 1) as nat, chunks, ctr, j);
        let r = spec_insert(cs[i], e, maxo, (depth - 1) as nat, chunks, ctr);
        lemma_forest_members_update(cs, i, r.0, j);
        lemma_spec_route_untouched(cs.update(i, r.0), e, maxo, depth, i + 1, r.1, r.2, j);
    } else {
        lemma_spec_route_untouched(cs, e, maxo, depth, i + 1, chunks, ctr, j);
    }
}

proof fn lemma_spec_split_untouched(
    m: NodeModel,
    maxo: int,
    depth: nat,
    chunks: Seq<Seq<u64>>,
    ctr: u64,
    j: int,
)
    requires
        !model_members(m).contains(j),
    ensures
        spec_split(m, maxo, depth, chunks, ctr).1.len() == chunks.len(),
        0 <= j < chunks.len() ==> spec_split(m, maxo, depth, chunks, ctr).1[j] == chunks[j],
        !model_members(spec_split(m, maxo, depth, chunks, ctr).0).contains(j),
    decreases depth, 3int, 0int,
{
    let kids = Seq::new(
        8,
        |i: int|
            NodeModel {
                bounding_box: crate::aabb::spec_octant(m.bounding_box, i),
                chunk_num: (ctr + 1 + i) as u64,
                objects: Seq::<PhysicsEntity>::empty(),
                children: Seq::<NodeModel>::empty(),
            },
    );
    lemma_forest_members_all_empty(kids, j);
    assert(!objects_bodies(m.objects).contains(j));
    lemma_spec_redistribute_untouched(
        kids,
        m.objects,
        0,
        m.chunk_num,
        maxo,
        depth,
        chunks,
        (ctr + 8) as u64,
        j,
    );
}

proof fn lemma_forest_members_all_empty(s: Seq<NodeModel>, j: int)
    requires
        forall|k: int|
            0 <= k < s.len() ==> (#[trigger] s[k]).objects.len() == 0 && s[k].children.len() == 0,
    ensures
        !forest_members(s).contains(j),
    decreases s.len(),
{
    if s.len() > 0 {
        lemma_forest_members_all_empty(s.drop_last(), j);
        assert(!model_members(s.last()).contains(j));
    }
}

proof fn lemma_spec_redistribute_untouched(
    cs: Seq<NodeModel>,
    members: Seq<PhysicsEntity>,
    k: int,
    parent_chunk: u64,
    maxo: int,
    depth: nat,
    chunks: Seq<Seq<u64>>,
    ctr: u64,
    j: int,
)
    requires
        !forest_members(cs).contains(j),
        !objects_bodies(members).contains(j),
    ensures
        spec_redistribute(cs, members, k, parent_chunk, maxo, depth, chunks, ctr).1.len()
            == chunks.len(),
        0 <= j < chunks.len() ==> spec_redistribute(
            cs,
            members,
            k,
            parent_chunk,
            maxo,
            depth,
            chunks,
            ctr,
        ).1[j] == chunks[j],
        !forest_members(
            spec_redistribute(cs, members, k, parent_chunk, maxo, depth, chunks, ctr).0,
        ).contains(j),
    decreases depth, 2int, members.len() - k,
{
    if k < 0 || k >= members.len() {
    } else {
        let e = members[k];
        assert(e.body as int != j);
        let b = e.body as int;
        let ch1 = if 0 <= b < chunks.len() {
            chunks.update(b, seq_remove_first(chunks[b], parent_chunk))
        } else {
            chunks
        };
        lemma_spec_route_untouched(cs, e, maxo, depth, 0, ch1, ctr, j);
        let r = spec_route(cs, e, maxo, depth, 0, ch1, ctr);
        lemma_spec_redistribute_untouched(
            r.0,
            members,
            k + 1,
            parent_chunk,
            maxo,
            depth,
            r.1,
            r.2,
            j,
        );
    }
}

/// All chunk identifiers occurring in the subtree.
pub open spec fn chunk_set(m: NodeModel) -> Set<u64>
    decreases m, 0int,
{
    forest_chunk_set(m.children).insert(m.chunk_num)
}

pub open spec fn forest_chunk_set(s: Seq<NodeModel>) -> Set<u64>
    decreases s, 1int,
{
    if s.len() == 0 {
        Set::empty()
    } else {
        forest_chunk_set(s.drop_last()).union(chunk_set(s.last()))
    }
}

/// Every chunk identifier in the subtree is at most `c`.
pub open spec fn chunks_le(m: NodeModel, c: u64) -> bool {
    forall|v: u64| chunk_set(m).contains(v) ==> v <= c
}

pub open spec fn forest_chunks_le(s: Seq<NodeModel>, c: u64) -> bool {
    forall|v: u64| forest_chunk_set(s).contains(v) ==> v <= c
}

/// The chunk identifiers of the subtree's nodes are pairwise distinct:
/// no node shares an identifier with any node below it, and the
/// children's subtrees carry disjoint identifier sets.
pub open spec fn chunks_distinct(m: NodeModel) -> bool
    decreases m, 0int,
{
    &&& !forest_chunk_set(m.children).contains(m.chunk_num)
    &&& forest_chunks_distinct(m.children)
}

pub open spec fn forest_chunks_distinct(s: Seq<NodeModel>) -> bool
    decreases s, 1int,
{
    if s.len() == 0 {
        true
    } else {
        &&& forest_chunks_distinct(s.drop_last())
        &&& chunks_distinct(s.last())
        &&& (forall|v: u64|
            !(forest_chunk_set(s.drop_last()).contains(v) && chunk_set(s.last()).contains(v)))
    }
}

proof fn lemma_forest_chunk_set_index(s: Seq<NodeModel>, i: int)
    requires
        0 <= i < s.len(),
    ensures
        forall|v: u64| chunk_set(s[i]).contains(v) ==> forest_chunk_set(s).contains(v),
    decreases s.len(),
{
    if i < s.len() - 1 {
        lemma_forest_chunk_set_index(s.drop_last(), i);
        assert(s.drop_last()[i] == s[i]);
        assert forall|v: u64| chunk_set(s[i]).contains(v) implies forest_chunk_set(s).contains(
            v,
        ) by {
            assert(forest_chunk_set(s.drop_last()).contains(v));
        }
    } else {
        assert(s.last() == s[i]);
        assert forall|v: u64| chunk_set(s[i]).contains(v) implies forest_chunk_set(s).contains(
            v,
        ) by {
            assert(chunk_set(s.last()).contains(v));
        }
    }
}

proof fn lemma_forest_distinct_index(s: Seq<NodeModel>, i: int)
    requires
        forest_chunks_distinct(s),
        0 <= i < s.len(),
    ensures
        chunks_distinct(s[i]),
    decreases s.len(),
{
    if i < s.len() - 1 {
        lemma_forest_distinct_index(s.drop_last(), i);
    }
}

/// Replacing one member with a node whose only new identifiers occur
/// nowhere else in the forest keeps the forest's identifier sets
/// disjoint.
proof fn lemma_forest_distinct_update(s: Seq<NodeModel>, i: int, x: NodeModel)
    requires
        forest_chunks_distinct(s),
        chunks_distinct(x),
        0 <= i < s.len(),
        forall|v: u64|
            chunk_set(x).contains(v) ==> chunk_set(s[i]).contains(v) || !forest_chunk_set(
                s,
            ).contains(v),
    ensures
        forest_chunks_distinct(s.update(i, x)),
        forall|v: u64|
            forest_chunk_set(s.update(i, x)).contains(v) ==> forest_chunk_set(s).contains(v)
                || chunk_set(x).contains(v),
    decreases s.len(),
{
    if i < s.len() - 1 {
        assert(s.update(i, x).drop_last() =~= s.drop_last().update(i, x));
        assert(s.update(i, x).last() == s.last());
        assert forall|v: u64|
            chunk_set(x).contains(v) implies chunk_set(s.drop_last()[i]).contains(v)
            || !forest_chunk_set(s.drop_last()).contains(v) by {
            if forest_chunk_set(s.drop_last()).contains(v) && !chunk_set(s[i]).contains(v) {
                lemma_forest_chunk_set_index(s, i);
            }
        }
        lemma_forest_distinct_update(s.drop_last(), i, x);
        assert forall|v: u64|
            forest_chunk_set(s.update(i, x).drop_last()).contains(v) implies !chunk_set(
            s.update(i, x).last(),
        ).contains(v) by {
            if chunk_set(s.last()).contains(v) {
                assert(forest_chunk_set(s.drop_last().update(i, x)).contains(v));
                if chunk_set(x).contains(v) {
                    if chunk_set(s[i]).contains(v) {
                        lemma_forest_chunk_set_index(s.drop_last(), i);
                        assert(forest_chunk_set(s.drop_last()).contains(v));
                    } else {
                        lemma_forest_chunk_set_index(s, s.len() - 1);
                        assert(chunk_set(s[s.len() - 1]).contains(v));
                        assert(forest_chunk_set(s).contains(v));
                        assert(false);
                    }
                }
                assert(forest_chunk_set(s.drop_last()).contains(v));
                assert(false);
            }
        }
    } else {
        assert(s.update(i, x).drop_last() =~= s.drop_last());
        assert(s.update(i, x).last() == x);
        assert forall|v: u64|
            forest_chunk_set(s.drop_last()).contains(v) implies !chunk_set(x).contains(v) by {
            if chunk_set(x).contains(v) {
                lemma_forest_chunk_set_index(s, i);
            }
        }
    }
}

/// Inserting a body allocates only fresh chunk identifiers: the
/// counter never moves backwards, every identifier in the new subtree
/// is either an old one or lies in the freshly allocated range, and
/// the subtree's identifiers stay pairwise distinct.
pub proof fn lemma_spec_insert_chunks(
    m: NodeModel,
    e: PhysicsEntity,
    maxo: int,
    depth: nat,
    chunks: Seq<Seq<u64>>,
    ctr: u64,
)
    requires
        chunks_le(m, ctr),
        chunks_distinct(m),
    ensures
        spec_insert(m, e, maxo, depth, chunks, ctr).2 >= ctr,
        chunks_le(spec_insert(m, e, maxo, depth, chunks, ctr).0, spec_insert(m, e, maxo, depth, chunks, ctr).2),
        chunks_distinct(spec_insert(m, e, maxo, depth, chunks, ctr).0),
        forall|v: u64|
            chunk_set(spec_insert(m, e, maxo, depth, chunks, ctr).0).contains(v) ==> chunk_set(
                m,
            ).contains(v) || (ctr < v <= spec_insert(m, e, maxo, depth, chunks, ctr).2),
    decreases depth, 4int, 0int,
{
    assert(chunk_set(m).contains(m.chunk_num));
    if m.children.len() > 0 {
        assert forall|v: u64| forest_chunk_set(m.children).contains(v) implies v <= ctr by {
            assert(chunk_set(m).contains(v));
        }
        lemma_spec_route_chunks(m.children, e, maxo, depth, 0, chunks, ctr);
        let r0 = spec_route(m.children, e, maxo, depth, 0, chunks, ctr);
        let out = spec_insert(m, e, maxo, depth, chunks, ctr).0;
        assert(chunk_set(out) =~= forest_chunk_set(r0.0).insert(m.chunk_num));
        assert forall|v: u64| chunk_set(out).contains(v) implies chunk_set(m).contains(v) || (ctr
            < v <= r0.2) by {
            if v != m.chunk_num {
                assert(forest_chunk_set(r0.0).contains(v));
                if forest_chunk_set(m.children).contains(v) {
                    assert(chunk_set(m).contains(v));
                }
            }
        }
        assert(!forest_chunk_set(r0.0).contains(m.chunk_num));
    } else {
        let b = e.body as int;
        let withchunk = if 0 <= b < chunks.len() && !chunks[b].contains(m.chunk_num) {
            chunks.update(b, chunks[b].push(m.chunk_num))
        } else {
            chunks
        };
        let m2 = NodeModel { objects: m.objects.push(e), ..m };
        assert(chunk_set(m2) =~= chunk_set(m));
        if m2.objects.len() > maxo && depth > 0 && ctr <= CHUNK_CEILING {
            lemma_spec_split_chunks(m2, maxo, depth, withchunk, ctr);
        }
    }
}

proof fn lemma_spec_route_chunks(
    cs: Seq<NodeModel>,
    e: PhysicsEntity,
    maxo: int,
    depth: nat,
    i: int,
    chunks: Seq<Seq<u64>>,
    ctr: u64,
)
    requires
        forest_chunks_le(cs, ctr),
        forest_chunks_distinct(cs),
    ensures
        spec_route(cs, e, maxo, depth, i, chunks, ctr).2 >= ctr,
        forest_chunks_le(
            spec_route(cs, e, maxo, depth, i, chunks, ctr).0,
            spec_route(cs, e, maxo, depth, i, chunks, ctr).2,
        ),
        forest_chunks_distinct(spec_route(cs, e, maxo, depth, i, chunks, ctr).0),
        forall|v: u64|
            forest_chunk_set(spec_route(cs, e, maxo, depth, i, chunks, ctr).0).contains(v)
                ==> forest_chunk_set(cs).contains(v) || (ctr < v <= spec_route(
                cs,
                e,
                maxo,
                depth,
                i,
                chunks,
                ctr,
            ).2),
    decreases depth, 1int, cs.len() - i,
{
    if i < 0 || i >= cs.len() {
    } else if cs[i].bounding_box.spec_intersects(e.aabb) && depth > 0 {
        lemma_forest_chunk_set_index(cs, i);
        lemma_forest_distinct_index(cs, i);
        assert forall|v: u64| chunk_set(cs[i]).contains(v) implies v <= ctr by {
            assert(forest_chunk_set(cs).contains(v));
        }
        lemma_spec_insert_chunks(cs[i], e, maxo, (depth - 1) as nat, chunks, ctr);
        let r = spec_insert(cs[i], e, maxo, (depth - 1) as nat, chunks, ctr);
        assert forall|v: u64|
            chunk_set(r.0).contains(v) implies chunk_set(cs[i]).contains(v)
            || !forest_chunk_set(cs).contains(v) by {
            if forest_chunk_set(cs).contains(v) {
                assert(v <= ctr);
            }
        }
        lemma_forest_distinct_update(cs, i, r.0);
        assert forall|v: u64| forest_chunk_set(cs.update(i, r.0)).contains(v) implies v
            <= r.2 by {
            if forest_chunk_set(cs).contains(v) {
                assert(v <= ctr);
            } else {
                assert(chunk_set(r.0).contains(v));
            }
        }
        lemma_spec_route_chunks(cs.update(i, r.0), e, maxo, depth, i + 1, r.1, r.2);
        let r2 = spec_route(cs.update(i, r.0), e, maxo, depth, i + 1, r.1, r.2);
        assert forall|v: u64|
            forest_chunk_set(r2.0).contains(v) implies forest_chunk_set(cs).contains(v) || (ctr
            < v <= r2.2) by {
            if forest_chunk_set(cs.update(i, r.0)).contains(v) {
                if !forest_chunk_set(cs).contains(v) {
                    assert(chunk_set(r.0).contains(v));
                }
            }
        }
    } else {
        lemma_spec_route_chunks(cs, e, maxo, depth, i + 1, chunks, ctr);
    }
}

proof fn lemma_spec_split_chunks(
    m: NodeModel,
    maxo: int,
    depth: nat,
    chunks: Seq<Seq<u64>>,
    ctr: u64,
)
    requires
        chunks_le(m, ctr),
        chunks_distinct(m),
        m.children.len() == 0,
        ctr <= CHUNK_CEILING,
    ensures
        spec_split(m, maxo, depth, chunks, ctr).2 >= ctr,
        chunks_le(spec_split(m, maxo, depth, chunks, ctr).0, spec_split(m, maxo, depth, chunks, ctr).2),
        chunks_distinct(spec_split(m, maxo, depth, chunks, ctr).0),
        forall|v: u64|
            chunk_set(spec_split(m, maxo, depth, chunks, ctr).0).contains(v) ==> chunk_set(
                m,
            ).contains(v) || (ctr < v <= spec_split(m, maxo, depth, chunks, ctr).2),
    decreases depth, 3int, 0int,
{
    let kids = Seq::new(
        8,
        |i: int|
            NodeModel {
                bounding_box: crate::aabb::spec_octant(m.bounding_box, i),
                chunk_num: (ctr + 1 + i) as u64,
                objects: Seq::<PhysicsEntity>::empty(),
                children: Seq::<NodeModel>::empty(),
            },
    );
    lemma_fresh_forest_chunks(kids, ctr);
    assert(chunk_set(m).contains(m.chunk_num));
    lemma_spec_redistribute_chunks(
        kids,
        m.objects,
        0,
        m.chunk_num,
        maxo,
        depth,
        chunks,
        (ctr + 8) as u64,
    );
    let r = spec_redistribute(
        kids,
        m.objects,
        0,
        m.chunk_num,
        maxo,
        depth,
        chunks,
        (ctr + 8) as u64,
    );
    let out = spec_split(m, maxo, depth, chunks, ctr).0;
    assert(chunk_set(out) =~= forest_chunk_set(r.0).insert(m.chunk_num));
    assert forall|v: u64| forest_chunk_set(r.0).contains(v) implies ctr < v <= r.2 by {
        if forest_chunk_set(kids).contains(v) {
        }
    }
    assert forall|v: u64| chunk_set(out).contains(v) implies chunk_set(m).contains(v) || (ctr < v
        <= r.2) by {
        if v != m.chunk_num {
            assert(forest_chunk_set(r.0).contains(v));
        }
    }
    assert(!forest_chunk_set(r.0).contains(m.chunk_num));
}

/// The eight fresh children of a split carry the eight identifiers
/// just above the counter, pairwise distinct and all new.
proof fn lemma_fresh_forest_chunks(kids: Seq<NodeModel>, ctr: u64)
    requires
        ctr <= CHUNK_CEILING,
        kids.len() == 8,
        forall|i: int|
            0 <= i < 8 ==> (#[trigger] kids[i]).chunk_num == (ctr + 1 + i) as u64
                && kids[i].children.len() == 0,
    ensures
        forest_chunks_le(kids, (ctr + 8) as u64),
        forest_chunks_distinct(kids),
        forall|v: u64| forest_chunk_set(kids).contains(v) ==> ctr < v <= ctr + 8,
    decreases kids.len(),
{
    lemma_fresh_forest_chunks_prefix(kids, ctr, 8);
    assert(kids.take(8) =~= kids);
}

proof fn lemma_fresh_forest_chunks_prefix(kids: Seq<NodeModel>, ctr: u64, k: int)
    requires
        ctr <= CHUNK_CEILING,
        kids.len() == 8,
        0 <= k <= 8,
        forall|i: int|
            0 <= i < 8 ==> (#[trigger] kids[i]).chunk_num == (ctr + 1 + i) as u64
                && kids[i].children.len() == 0,
    ensures
        forest_chunks_distinct(kids.take(k)),
        forall|v: u64| forest_chunk_set(kids.take(k)).contains(v) ==> ctr < v <= ctr + k,
    decreases k,
{
    if k > 0 {
        lemma_fresh_forest_chunks_prefix(kids, ctr, k - 1);
        assert(kids.take(k).drop_last() =~= kids.take(k - 1));
        assert(kids.take(k).last() == kids[k - 1]);
        assert(ctr + k <= u64::MAX);
        assert(kids[k - 1].chunk_num == ctr + k);
        assert(forest_chunk_set(kids[k - 1].children) =~= Set::<u64>::empty());
        assert(chunk_set(kids[k - 1]) =~= Set::<u64>::empty().insert((ctr + k) as u64));
        assert(chunks_distinct(kids[k - 1]));
        let pre = kids.take(k - 1);
        let lastk = kids[k - 1];
        assert forall|v: u64|
            forest_chunk_set(pre).contains(v) implies !chunk_set(lastk).contains(v) by {
            assert(ctr < v <= ctr + k - 1);
        }
        assert forall|v: u64| forest_chunk_set(kids.take(k)).contains(v) implies ctr < v <= ctr
            + k by {
            if forest_chunk_set(kids.take(k - 1)).contains(v) {
            } else {
                assert(chunk_set(kids[k - 1]).contains(v));
            }
        }
    } else {
        assert(kids.take(0) =~= Seq::<NodeModel>::empty());
    }
}

proof fn lemma_spec_redistribute_chunks(
    cs: Seq<NodeModel>,
    members: Seq<PhysicsEntity>,
    j: int,
    parent_chunk: u64,
    maxo: int,
    depth: nat,
    chunks: Seq<Seq<u64>>,
    ctr: u64,
)
    requires
        forest_chunks_le(cs, ctr),
        forest_chunks_distinct(cs),
    ensures
        spec_redistribute(cs, members, j, parent_chunk, maxo, depth, chunks, ctr).2 >= ctr,
        forest_chunks_le(
            spec_redistribute(cs, members, j, parent_chunk, maxo, depth, chunks, ctr).0,
            spec_redistribute(cs, members, j, parent_chunk, maxo, depth, chunks, ctr).2,
        ),
        forest_chunks_distinct(
            spec_redistribute(cs, members, j, parent_chunk, maxo, depth, chunks, ctr).0,
        ),
        forall|v: u64|
            forest_chunk_set(
                spec_redistribute(cs, members, j, parent_chunk, maxo, depth, chunks, ctr).0,
            ).contains(v) ==> forest_chunk_set(cs).contains(v) || (ctr < v <= spec_redistribute(
                cs,
                members,
                j,
                parent_chunk,
                maxo,
                depth,
                chunks,
                ctr,
            ).2),
    decreases depth, 2int, members.len() - j,
{
    if j < 0 || j >= members.len() {
    } else {
        let e = members[j];
        let b = e.body as int;
        let ch1 = if 0 <= b < chunks.len() {
            chunks.update(b, seq_remove_first(chunks[b], parent_chunk))
        } else {
            chunks
        };
        lemma_spec_route_chunks(cs, e, maxo, depth, 0, ch1, ctr);
        let r = spec_route(cs, e, maxo, depth, 0, ch1, ctr);
        lemma_spec_redistribute_chunks(r.0, members, j + 1, parent_chunk, maxo, depth, r.1, r.2);
    }
}

/// Body `b` with bounding box `a` is fully registered in the subtree:
/// every leaf whose bounds intersect `a` stores a member entry for it
/// and has its chunk identifier in the list `cs`.
pub open spec fn tracked_in(m: NodeModel, b: usize, a: Aabb, cs: Seq<u64>) -> bool
    decreases m, 0int,
{
    if m.children.len() == 0 {
        m.bounding_box.spec_intersects(a) ==> {
            &&& m.objects.contains(PhysicsEntity { body: b, aabb: a })
            &&& cs.contains(m.chunk_num)
        }
    } else {
        forest_tracked(m.children, b, a, cs)
    }
}

pub open spec fn forest_tracked(s: Seq<NodeModel>, b: usize, a: Aabb, cs: Seq<u64>) -> bool
    decreases s, 1int,
{
    if s.len() == 0 {
        true
    } else {
        forest_tracked(s.drop_last(), b, a, cs) && tracked_in(s.last(), b, a, cs)
    }
}

proof fn lemma_forest_tracked_index(s: Seq<NodeModel>, b: usize, a: Aabb, cs: Seq<u64>, i: int)
    requires
        forest_tracked(s, b, a, cs),
        0 <= i < s.len(),
    ensures
        tracked_in(s[i], b, a, cs),
    decreases s.len(),
{
    if i < s.len() - 1 {
        lemma_forest_tracked_index(s.drop_last(), b, a, cs, i);
    }
}

proof fn lemma_forest_tracked_update(
    s: Seq<NodeModel>,
    b: usize,
    a: Aabb,
    cs: Seq<u64>,
    i: int,
    x: NodeModel,
)
    requires
        forest_tracked(s, b, a, cs),
        tracked_in(x, b, a, cs),
        0 <= i < s.len(),
    ensures
        forest_tracked(s.update(i, x), b, a, cs),
    decreases s.len(),
{
    if i < s.len() - 1 {
        assert(s.update(i, x).drop_last() =~= s.drop_last().update(i, x));
        assert(s.update(i, x).last() == s.last());
        lemma_forest_tracked_update(s.drop_last(), b, a, cs, i, x);
    } else {
        assert(s.update(i, x).drop_last() =~= s.drop_last());
        assert(s.update(i, x).last() == x);
    }
}

/// Being tracked only reads the list's membership on the subtree's own
/// chunk identifiers, so any list that keeps those entries keeps the
/// body tracked.
proof fn lemma_tracked_monotone(m: NodeModel, b: usize, a: Aabb, cs: Seq<u64>, cs2: Seq<u64>)
    requires
        tracked_in(m, b, a, cs),
        forall|v: u64| cs.contains(v) && chunk_set(m).contains(v) ==> cs2.contains(v),
    ensures
        tracked_in(m, b, a, cs2),
    decreases m, 0int,
{
    if m.children.len() == 0 {
        if m.bounding_box.spec_intersects(a) {
            assert(chunk_set(m).contains(m.chunk_num));
        }
    } else {
        lemma_forest_tracked_monotone(m.children, b, a, cs, cs2);
    }
}

proof fn lemma_forest_tracked_monotone(
    s: Seq<NodeModel>,
    b: usize,
    a: Aabb,
    cs: Seq<u64>,
    cs2: Seq<u64>,
)
    requires
        forest_tracked(s, b, a, cs),
        forall|v: u64| cs.contains(v) && forest_chunk_set(s).contains(v) ==> cs2.contains(v),
    ensures
        forest_tracked(s, b, a, cs2),
    decreases s, 1int,
{
    if s.len() > 0 {
        assert forall|v: u64|
            cs.contains(v) && forest_chunk_set(s.drop_last()).contains(v) implies cs2.contains(
            v,
        ) by {
            assert(forest_chunk_set(s).contains(v));
        }
        lemma_forest_tracked_monotone(s.drop_last(), b, a, cs, cs2);
        assert forall|v: u64|
            cs.contains(v) && chunk_set(s.last()).contains(v) implies cs2.contains(v) by {
            assert(forest_chunk_set(s).contains(v));
        }
        lemma_tracked_monotone(s.last(), b, a, cs, cs2);
    }
}

/// A subtree whose bounds do not meet `a` tracks any body vacuously:
/// none of its leaves can intersect `a`.
proof fn lemma_tracked_vacuous(m: NodeModel, b: usize, a: Aabb, cs: Seq<u64>)
    requires
        model_wf(m),
        !m.bounding_box.spec_intersects(a),
    ensures
        tracked_in(m, b, a, cs),
    decreases m, 0int,
{
    if m.children.len() > 0 {
        assert forall|i: int| 0 <= i < m.children.len() implies tracked_in(
            #[trigger] m.children[i],
            b,
            a,
            cs,
        ) by {
            lemma_forest_wf_index(m.children, i);
            if m.children[i].bounding_box.spec_intersects(a) {
                crate::aabb::lemma_octant_intersects_parent(m.bounding_box, i, a);
            }
            lemma_tracked_vacuous(m.children[i], b, a, cs);
        }
        lemma_forest_tracked_pointwise(m.children, b, a, cs);
    }
}

proof fn lemma_forest_tracked_pointwise(s: Seq<NodeModel>, b: usize, a: Aabb, cs: Seq<u64>)
    requires
        forall|i: int| 0 <= i < s.len() ==> tracked_in(#[trigger] s[i], b, a, cs),
    ensures
        forest_tracked(s, b, a, cs),
    decreases s.len(),
{
    if s.len() > 0 {
        lemma_forest_tracked_pointwise(s.drop_last(), b, a, cs);
    }
}

/// Removing one value keeps every other value.
proof fn lemma_remove_first_keeps(s: Seq<u64>, c: u64, v: u64)
    requires
        v != c,
        s.contains(v),
    ensures
        seq_remove_first(s, c).contains(v),
    decreases s.len(),
{
    if s.len() > 0 {
        if s[0] == c {
            let k = choose|k: int| 0 <= k < s.len() && s[k] == v;
            assert(s.drop_first()[k - 1] == v);
        } else if s[0] == v {
            assert(seq_remove_first(s, c)[0] == v);
        } else {
            let k = choose|k: int| 0 <= k < s.len() && s[k] == v;
            assert(s.drop_first()[k - 1] == v);
            lemma_remove_first_keeps(s.drop_first(), c, v);
            let k2 = choose|k2: int|
                0 <= k2 < seq_remove_first(s.drop_first(), c).len() && seq_remove_first(
                    s.drop_first(),
                    c,
                )[k2] == v;
            assert(seq_remove_first(s, c)[k2 + 1] == v);
        }
    }
}

/// Two distinct members of a forest with pairwise-distinct identifier
/// sets share no identifier.
proof fn lemma_forest_distinct_pairwise(s: Seq<NodeModel>, k: int, i: int)
    requires
        forest_chunks_distinct(s),
        0 <= k < i < s.len(),
    ensures
        forall|v: u64| chunk_set(s[k]).contains(v) ==> !chunk_set(s[i]).contains(v),
    decreases s.len(),
{
    if i < s.len() - 1 {
        lemma_forest_distinct_pairwise(s.drop_last(), k, i);
        assert(s.drop_last()[k] == s[k] && s.drop_last()[i] == s[i]);
    } else {
        assert(s[i] == s.last());
        assert forall|v: u64| chunk_set(s[k]).contains(v) implies !chunk_set(s[i]).contains(
            v,
        ) by {
            lemma_forest_chunk_set_index(s.drop_last(), k);
            assert(forest_chunk_set(s.drop_last()).contains(v));
        }
    }
}

/// Inserting a body registers it in every leaf it reaches, preserves
/// every body already registered, and never deletes a membership entry
/// that refers to a chunk outside this subtree.
pub proof fn lemma_spec_insert_tracks(
    m: NodeModel,
    e: PhysicsEntity,
    maxo: int,
    depth: nat,
    chunks: Seq<Seq<u64>>,
    ctr: u64,
)
    requires
        model_wf(m),
        model_height(m) <= depth,
        chunks_le(m, ctr),
        chunks_distinct(m),
        (e.body as int) < chunks.len(),
    ensures
        tracked_in(
            spec_insert(m, e, maxo, depth, chunks, ctr).0,
            e.body,
            e.aabb,
            spec_insert(m, e, maxo, depth, chunks, ctr).1[e.body as int],
        ),
        forall|b: usize, a: Aabb|
            (b as int) < chunks.len() && tracked_in(m, b, a, chunks[b as int])
                ==> #[trigger] tracked_in(
                spec_insert(m, e, maxo, depth, chunks, ctr).0,
                b,
                a,
                spec_insert(m, e, maxo, depth, chunks, ctr).1[b as int],
            ),
        forall|idx: int, v: u64|
            0 <= idx < chunks.len() && #[trigger] chunks[idx].contains(v) && !chunk_set(
                m,
            ).contains(v) && v <= ctr ==> spec_insert(m, e, maxo, depth, chunks, ctr).1[idx].contains(v),
    decreases depth, 4int, 0int,
{
    lemma_spec_insert_chunks(m, e, maxo, depth, chunks, ctr);
    lemma_spec_insert_wf(m, e, maxo, depth, chunks, ctr);
    let r = spec_insert(m, e, maxo, depth, chunks, ctr);
    if m.children.len() > 0 {
        assert(model_height(m) == 1 + forest_height(m.children));
        assert forall|v: u64| forest_chunk_set(m.children).contains(v) implies v <= ctr by {
            assert(chunk_set(m).contains(v));
        }
        lemma_spec_route_tracks(m.children, e, maxo, depth, 0, chunks, ctr);
        let rr = spec_route(m.children, e, maxo, depth, 0, chunks, ctr);
        assert forall|k: int| 0 <= k < rr.0.len() implies tracked_in(
            #[trigger] rr.0[k],
            e.body,
            e.aabb,
            rr.1[e.body as int],
        ) by {}
        lemma_forest_tracked_pointwise(rr.0, e.body, e.aabb, rr.1[e.body as int]);
        assert forall|b: usize, a: Aabb|
            (b as int) < chunks.len() && tracked_in(m, b, a, chunks[b as int]) implies #[trigger] tracked_in(
            r.0,
            b,
            a,
            r.1[b as int],
        ) by {
            assert forall|k: int| 0 <= k < rr.0.len() implies tracked_in(
                #[trigger] rr.0[k],
                b,
                a,
                rr.1[b as int],
            ) by {
                lemma_forest_tracked_index(m.children, b, a, chunks[b as int], k);
            }
            lemma_forest_tracked_pointwise(rr.0, b, a, rr.1[b as int]);
        }
        assert forall|idx: int, v: u64|
            0 <= idx < chunks.len() && #[trigger] chunks[idx].contains(v) && !chunk_set(
                m,
            ).contains(v) && v <= ctr implies r.1[idx].contains(v) by {
            assert(!forest_chunk_set(m.children).contains(v)) by {
                if forest_chunk_set(m.children).contains(v) {
                    assert(chunk_set(m).contains(v));
                }
            }
        }
    } else {
        let b0 = e.body as int;
        let withchunk = if 0 <= b0 < chunks.len() && !chunks[b0].contains(m.chunk_num) {
            chunks.update(b0, chunks[b0].push(m.chunk_num))
        } else {
            chunks
        };
        assert(withchunk[b0].contains(m.chunk_num)) by {
            if !chunks[b0].contains(m.chunk_num) {
                assert(withchunk[b0] == chunks[b0].push(m.chunk_num));
                assert(withchunk[b0].last() == m.chunk_num);
            }
        }
        let m2 = NodeModel { objects: m.objects.push(e), ..m };
        assert(m2.objects.last() == e);
        assert(m2.objects.contains(PhysicsEntity { body: e.body, aabb: e.aabb }));
        assert(chunk_set(m2) =~= chunk_set(m));
        if m2.objects.len() > maxo && depth > 0 && ctr <= CHUNK_CEILING {
            lemma_spec_split_tracks(m2, maxo, depth, withchunk, ctr);
            lemma_spec_split_wf(m2, maxo, depth, withchunk, ctr);
            let rs = spec_split(m2, maxo, depth, withchunk, ctr);
            assert(tracked_in(r.0, e.body, e.aabb, r.1[e.body as int]));
            assert forall|b: usize, a: Aabb|
                (b as int) < chunks.len() && tracked_in(m, b, a, chunks[b as int]) implies #[trigger] tracked_in(
                r.0,
                b,
                a,
                r.1[b as int],
            ) by {
                if m.bounding_box.spec_intersects(a) {
                    assert(m.objects.contains(PhysicsEntity { body: b, aabb: a }));
                    let k = choose|k: int|
                        0 <= k < m.objects.len() && m.objects[k] == (PhysicsEntity {
                            body: b,
                            aabb: a,
                        });
                    assert(m2.objects[k] == (PhysicsEntity { body: b, aabb: a }));
                    assert(m2.objects.contains(PhysicsEntity { body: b, aabb: a }));
                } else {
                    lemma_tracked_vacuous(rs.0, b, a, rs.1[b as int]);
                }
            }
            assert forall|idx: int, v: u64|
                0 <= idx < chunks.len() && #[trigger] chunks[idx].contains(v) && !chunk_set(
                    m,
                ).contains(v) && v <= ctr implies r.1[idx].contains(v) by {
                assert(v != m.chunk_num) by {
                    assert(chunk_set(m).contains(m.chunk_num));
                }
                assert(withchunk[idx].contains(v)) by {
                    if idx == b0 && !chunks[b0].contains(m.chunk_num) {
                        let k = choose|k: int| 0 <= k < chunks[b0].len() && chunks[b0][k] == v;
                        assert(withchunk[b0][k] == v);
                    }
                }
            }
        } else {
            assert(r.0 == m2 && r.1 == withchunk);
            assert forall|b: usize, a: Aabb|
                (b as int) < chunks.len() && tracked_in(m, b, a, chunks[b as int]) implies #[trigger] tracked_in(
                r.0,
                b,
                a,
                r.1[b as int],
            ) by {
                if m.bounding_box.spec_intersects(a) {
                    let k = choose|k: int|
                        0 <= k < m.objects.len() && m.objects[k] == (PhysicsEntity {
                            body: b,
                            aabb: a,
                        });
                    assert(m2.objects[k] == (PhysicsEntity { body: b, aabb: a }));
                    assert(m2.objects.contains(PhysicsEntity { body: b, aabb: a }));
                    assert(withchunk[b as int].contains(chunks[b as int][choose|k2: int|
                        0 <= k2 < chunks[b as int].len() && chunks[b as int][k2]
                            == m.chunk_num])) by {
                        if (b as int) == b0 && !chunks[b0].contains(m.chunk_num) {
                        }
                    }
                    assert(withchunk[b as int].contains(m.chunk_num)) by {
                        if (b as int) != b0 || chunks[b0].contains(m.chunk_num) {
                            assert(withchunk[b as int] == chunks[b as int]
                                || withchunk[b as int] == chunks[b as int].push(m.chunk_num));
                            if withchunk[b as int] == chunks[b as int].push(m.chunk_num) {
                                let k3 = choose|k3: int|
                                    0 <= k3 < chunks[b as int].len() && chunks[b as int][k3]
                                        == m.chunk_num;
                                assert(withchunk[b as int][k3] == m.chunk_num);
                            }
                        }
                    }
                }
            }
            assert forall|idx: int, v: u64|
                0 <= idx < chunks.len() && #[trigger] chunks[idx].contains(v) && !chunk_set(
                    m,
                ).contains(v) && v <= ctr implies r.1[idx].contains(v) by {
                if idx == b0 && !chunks[b0].contains(m.chunk_num) {
                    let k = choose|k: int| 0 <= k < chunks[b0].len() && chunks[b0][k] == v;
                    assert(withchunk[b0][k] == v);
                }
            }
        }
    }
}

proof fn lemma_spec_route_tracks(
    cs: Seq<NodeModel>,
    e: PhysicsEntity,
    maxo: int,
    depth: nat,
    i: int,
    chunks: Seq<Seq<u64>>,
    ctr: u64,
)
    requires
        forest_wf(cs),
        depth >= 1,
        forest_height(cs) <= depth - 1,
        forest_chunks_le(cs, ctr),
        forest_chunks_distinct(cs),
        (e.body as int) < chunks.len(),
        0 <= i,
    ensures
        spec_route(cs, e, maxo, depth, i, chunks, ctr).0.len() == cs.len(),
        forall|k: int|
            i <= k < cs.len() ==> tracked_in(
                #[trigger] spec_route(cs, e, maxo, depth, i, chunks, ctr).0[k],
                e.body,
                e.aabb,
                spec_route(cs, e, maxo, depth, i, chunks, ctr).1[e.body as int],
            ),
        forall|b: usize, a: Aabb, k: int|
            (b as int) < chunks.len() && 0 <= k < cs.len() && #[trigger] tracked_in(
                cs[k],
                b,
                a,
                chunks[b as int],
            ) ==> tracked_in(
                #[trigger] spec_route(cs, e, maxo, depth, i, chunks, ctr).0[k],
                b,
                a,
                spec_route(cs, e, maxo, depth, i, chunks, ctr).1[b as int],
            ),
        forall|idx: int, v: u64|
            0 <= idx < chunks.len() && #[trigger] chunks[idx].contains(v) && !forest_chunk_set(
                cs,
            ).contains(v) && v <= ctr ==> spec_route(cs, e, maxo, depth, i, chunks, ctr).1[idx].contains(v),
    decreases depth, 1int, cs.len() - i,
{
    lemma_spec_route_chunks(cs, e, maxo, depth, i, chunks, ctr);
    lemma_spec_route_wf(cs, e, maxo, depth, i, chunks, ctr);
    let r = spec_route(cs, e, maxo, depth, i, chunks, ctr);
    if i < 0 || i >= cs.len() {
    } else if cs[i].bounding_box.spec_intersects(e.aabb) && depth > 0 {
        lemma_forest_wf_index(cs, i);
        lemma_forest_height_index(cs, i);
        lemma_forest_distinct_index(cs, i);
        assert forall|v: u64| chunk_set(cs[i]).contains(v) implies v <= ctr by {
            lemma_forest_chunk_set_index(cs, i);
            assert(forest_chunk_set(cs).contains(v));
        }
        lemma_spec_insert_tracks(cs[i], e, maxo, (depth - 1) as nat, chunks, ctr);
        lemma_spec_insert_chunks(cs[i], e, maxo, (depth - 1) as nat, chunks, ctr);
        lemma_spec_insert_wf(cs[i], e, maxo, (depth - 1) as nat, chunks, ctr);
        let ri = spec_insert(cs[i], e, maxo, (depth - 1) as nat, chunks, ctr);
        let cs2 = cs.update(i, ri.0);
        // the updated forest keeps the preconditions
        assert forall|v: u64|
            chunk_set(ri.0).contains(v) implies chunk_set(cs[i]).contains(v) || !forest_chunk_set(
            cs,
        ).contains(v) by {
            if forest_chunk_set(cs).contains(v) {
                assert(v <= ctr);
            }
        }
        lemma_forest_distinct_update(cs, i, ri.0);
        lemma_forest_wf_update(cs, i, ri.0);
        assert forall|q: int| 0 <= q < cs2.len() implies model_height(#[trigger] cs2[q]) <= (depth
            - 1) as nat by {
            if q != i {
                lemma_forest_height_index(cs, q);
            }
        }
        lemma_forest_height_bound(cs2, (depth - 1) as nat);
        assert forall|v: u64| forest_chunk_set(cs2).contains(v) implies v <= ri.2 by {
            if forest_chunk_set(cs).contains(v) {
                assert(v <= ctr);
            } else {
                assert(chunk_set(ri.0).contains(v));
            }
        }
        lemma_spec_route_tracks(cs2, e, maxo, depth, i + 1, ri.1, ri.2);
        let rrec = spec_route(cs2, e, maxo, depth, i + 1, ri.1, ri.2);
        assert(r == rrec);
        // establishment at child i, carried to the end by preservation
        assert(tracked_in(cs2[i], e.body, e.aabb, ri.1[e.body as int]));
        assert forall|k: int| i <= k < cs.len() implies tracked_in(
            #[trigger] r.0[k],
            e.body,
            e.aabb,
            r.1[e.body as int],
        ) by {
            if k == i {
                assert(tracked_in(cs2[k], e.body, e.aabb, ri.1[e.body as int]));
                assert(tracked_in(rrec.0[k], e.body, e.aabb, rrec.1[e.body as int]));
            } else {
                assert(tracked_in(rrec.0[k], e.body, e.aabb, rrec.1[e.body as int]));
            }
        }
        // preservation of every tracked body, child by child
        assert forall|b: usize, a: Aabb, k: int|
            (b as int) < chunks.len() && 0 <= k < cs.len() && #[trigger] tracked_in(
                cs[k],
                b,
                a,
                chunks[b as int],
            ) implies tracked_in(#[trigger] r.0[k], b, a, r.1[b as int]) by {
            if k == i {
                assert(tracked_in(cs2[i], b, a, ri.1[b as int]));
                assert(tracked_in(cs2[k], b, a, ri.1[b as int]));
                assert(tracked_in(
                    spec_route(cs2, e, maxo, depth, i + 1, ri.1, ri.2).0[k],
                    b,
                    a,
                    spec_route(cs2, e, maxo, depth, i + 1, ri.1, ri.2).1[b as int],
                ));
            } else {
                // the other children are untouched and their chunk
                // identifiers survive the sibling insertion
                assert forall|v: u64|
                    chunks[b as int].contains(v) && chunk_set(#[trigger] cs[k]).contains(
                        v,
                    ) implies ri.1[b as int].contains(v) by {
                    lemma_forest_chunk_set_index(cs, k);
                    assert(forest_chunk_set(cs).contains(v));
                    assert(v <= ctr);
                    if k < i {
                        lemma_forest_distinct_pairwise(cs, k, i);
                    } else {
                        lemma_forest_distinct_pairwise(cs, i, k);
                    }
                    assert(!chunk_set(cs[i]).contains(v));
                }
                lemma_tracked_monotone(cs[k], b, a, chunks[b as int], ri.1[b as int]);
                assert(cs2[k] == cs[k]);
                assert(tracked_in(cs2[k], b, a, ri.1[b as int]));
                assert(tracked_in(
                    spec_route(cs2, e, maxo, depth, i + 1, ri.1, ri.2).0[k],
                    b,
                    a,
                    spec_route(cs2, e, maxo, depth, i + 1, ri.1, ri.2).1[b as int],
                ));
            }
        }
        // the membership frame composes across the two steps
        assert forall|idx: int, v: u64|
            0 <= idx < chunks.len() && #[trigger] chunks[idx].contains(v) && !forest_chunk_set(
                cs,
            ).contains(v) && v <= ctr implies r.1[idx].contains(v) by {
            assert(!chunk_set(cs[i]).contains(v)) by {
                lemma_forest_chunk_set_index(cs, i);
            }
            assert(ri.1[idx].contains(v));
            assert(!forest_chunk_set(cs2).contains(v)) by {
                if forest_chunk_set(cs2).contains(v) {
                    assert(chunk_set(ri.0).contains(v) || forest_chunk_set(cs).contains(v));
                    if chunk_set(ri.0).contains(v) {
                        assert(chunk_set(cs[i]).contains(v) || ctr < v);
                    }
                }
            }
            assert(spec_route(cs2, e, maxo, depth, i + 1, ri.1, ri.2).1[idx].contains(v));
        }
    } else {
        lemma_spec_route_tracks(cs, e, maxo, depth, i + 1, chunks, ctr);
        assert forall|k: int| i <= k < cs.len() implies tracked_in(
            #[trigger] r.0[k],
            e.body,
            e.aabb,
            r.1[e.body as int],
        ) by {
            if k == i {
                lemma_forest_wf_index(cs, i);
                lemma_tracked_vacuous(cs[i], e.body, e.aabb, chunks[e.body as int]);
                assert(tracked_in(cs[i], e.body, e.aabb, chunks[e.body as int]));
            }
        }
    }
}

proof fn lemma_spec_split_tracks(
    m: NodeModel,
    maxo: int,
    depth: nat,
    chunks: Seq<Seq<u64>>,
    ctr: u64,
)
    requires
        model_wf(m),
        m.children.len() == 0,
        depth >= 1,
        chunks_le(m, ctr),
        chunks_distinct(m),
        ctr <= CHUNK_CEILING,
    ensures
        forall|b: usize, a: Aabb|
            (b as int) < chunks.len() && m.objects.contains(PhysicsEntity { body: b, aabb: a })
                ==> #[trigger] tracked_in(
                spec_split(m, maxo, depth, chunks, ctr).0,
                b,
                a,
                spec_split(m, maxo, depth, chunks, ctr).1[b as int],
            ),
        forall|idx: int, v: u64|
            0 <= idx < chunks.len() && #[trigger] chunks[idx].contains(v) && !chunk_set(
                m,
            ).contains(v) && v <= ctr ==> spec_split(m, maxo, depth, chunks, ctr).1[idx].contains(v),
    decreases depth, 3int, 0int,
{
    let kids = Seq::new(
        8,
        |i: int|
            NodeModel {
                bounding_box: crate::aabb::spec_octant(m.bounding_box, i),
                chunk_num: (ctr + 1 + i) as u64,
                objects: Seq::<PhysicsEntity>::empty(),
                children: Seq::<NodeModel>::empty(),
            },
    );
    lemma_fresh_forest_chunks(kids, ctr);
    assert forall|j: int| 0 <= j < kids.len() implies model_wf(#[trigger] kids[j]) by {
        crate::aabb::lemma_octant_wf(m.bounding_box, j);
        assert(forest_wf(kids[j].children));
    }
    lemma_forest_wf_pointwise(kids);
    assert forall|j: int| 0 <= j < kids.len() implies model_height(#[trigger] kids[j]) <= (depth
        - 1) as nat by {}
    lemma_forest_height_bound(kids, (depth - 1) as nat);
    assert(chunk_set(m).contains(m.chunk_num));
    lemma_spec_redistribute_tracks(kids, m.objects, 0, m.chunk_num, maxo, depth, chunks, (ctr + 8) as u64);
    let r = spec_redistribute(kids, m.objects, 0, m.chunk_num, maxo, depth, chunks, (ctr + 8) as u64);
    let out = spec_split(m, maxo, depth, chunks, ctr).0;
    assert forall|b: usize, a: Aabb|
        (b as int) < chunks.len() && m.objects.contains(PhysicsEntity { body: b, aabb: a })
            implies #[trigger] tracked_in(out, b, a, r.1[b as int]) by {
        let k0 = choose|k0: int|
            0 <= k0 < m.objects.len() && m.objects[k0] == (PhysicsEntity { body: b, aabb: a });
        assert forall|k: int| 0 <= k < r.0.len() implies tracked_in(
            #[trigger] r.0[k],
            b,
            a,
            r.1[b as int],
        ) by {}
        lemma_forest_tracked_pointwise(r.0, b, a, r.1[b as int]);
    }
    assert forall|idx: int, v: u64|
        0 <= idx < chunks.len() && #[trigger] chunks[idx].contains(v) && !chunk_set(m).contains(
            v,
        ) && v <= ctr implies spec_split(m, maxo, depth, chunks, ctr).1[idx].contains(v) by {
        assert(v != m.chunk_num);
        assert(!forest_chunk_set(kids).contains(v));
    }
}

proof fn lemma_spec_redistribute_tracks(
    cs: Seq<NodeModel>,
    members: Seq<PhysicsEntity>,
    j: int,
    parent_chunk: u64,
    maxo: int,
    depth: nat,
    chunks: Seq<Seq<u64>>,
    ctr: u64,
)
    requires
        forest_wf(cs),
        depth >= 1,
        forest_height(cs) <= depth - 1,
        forest_chunks_le(cs, ctr),
        forest_chunks_distinct(cs),
        !forest_chunk_set(cs).contains(parent_chunk),
        parent_chunk <= ctr,
        0 <= j,
    ensures
        spec_redistribute(cs, members, j, parent_chunk, maxo, depth, chunks, ctr).0.len()
            == cs.len(),
        forall|jm: int, k: int|
            j <= jm < members.len() && 0 <= k < cs.len() && (members[jm].body as int)
                < chunks.len() ==> tracked_in(
                #[trigger] spec_redistribute(
                    cs,
                    members,
                    j,
                    parent_chunk,
                    maxo,
                    depth,
                    chunks,
                    ctr,
                ).0[k],
                (#[trigger] members[jm]).body,
                members[jm].aabb,
                spec_redistribute(cs, members, j, parent_chunk, maxo, depth, chunks, ctr).1[members[jm].body as int],
            ),
        forall|b: usize, a: Aabb, k: int|
            (b as int) < chunks.len() && 0 <= k < cs.len() && #[trigger] tracked_in(
                cs[k],
                b,
                a,
                chunks[b as int],
            ) ==> tracked_in(
                #[trigger] spec_redistribute(
                    cs,
                    members,
                    j,
                    parent_chunk,
                    maxo,
                    depth,
                    chunks,
                    ctr,
                ).0[k],
                b,
                a,
                spec_redistribute(cs, members, j, parent_chunk, maxo, depth, chunks, ctr).1[b as int],
            ),
        forall|idx: int, v: u64|
            0 <= idx < chunks.len() && #[trigger] chunks[idx].contains(v) && !forest_chunk_set(
                cs,
            ).contains(v) && v <= ctr && v != parent_chunk ==> spec_redistribute(
                cs,
                members,
                j,
                parent_chunk,
                maxo,
                depth,
                chunks,
                ctr,
            ).1[idx].contains(v),
    decreases depth, 2int, members.len() - j,
{
    lemma_spec_redistribute_chunks(cs, members, j, parent_chunk, maxo, depth, chunks, ctr);
    lemma_spec_redistribute_wf(cs, members, j, parent_chunk, maxo, depth, chunks, ctr);
    let r = spec_redistribute(cs, members, j, parent_chunk, maxo, depth, chunks, ctr);
    if j < 0 || j >= members.len() {
    } else {
        let e = members[j];
        let b0 = e.body as int;
        let ch1 = if 0 <= b0 < chunks.len() {
            chunks.update(b0, seq_remove_first(chunks[b0], parent_chunk))
        } else {
            chunks
        };
        // the removal deletes only the parent's chunk
        assert forall|idx: int, v: u64|
            0 <= idx < chunks.len() && #[trigger] chunks[idx].contains(v) && v
                != parent_chunk implies ch1[idx].contains(v) by {
            if idx == b0 {
                lemma_remove_first_keeps(chunks[b0], parent_chunk, v);
            }
        }
        // every tracked body stays tracked under the shortened lists
        assert forall|b: usize, a: Aabb, k: int|
            (b as int) < chunks.len() && 0 <= k < cs.len() && #[trigger] tracked_in(
                cs[k],
                b,
                a,
                chunks[b as int],
            ) implies tracked_in(cs[k], b, a, ch1[b as int]) by {
            assert forall|v: u64|
                chunks[b as int].contains(v) && chunk_set(#[trigger] cs[k]).contains(
                    v,
                ) implies ch1[b as int].contains(v) by {
                lemma_forest_chunk_set_index(cs, k);
                assert(v != parent_chunk);
            }
            lemma_tracked_monotone(cs[k], b, a, chunks[b as int], ch1[b as int]);
        }
        if b0 < chunks.len() {
            lemma_spec_route_tracks(cs, e, maxo, depth, 0, ch1, ctr);
        } else {
            lemma_spec_route_tracks_nobody(cs, e, maxo, depth, 0, ch1, ctr);
        }
        lemma_spec_route_chunks(cs, e, maxo, depth, 0, ch1, ctr);
        lemma_spec_route_wf(cs, e, maxo, depth, 0, ch1, ctr);
        let rr = spec_route(cs, e, maxo, depth, 0, ch1, ctr);
        assert forall|v: u64| forest_chunk_set(rr.0).contains(v) implies v <= rr.2 by {}
        assert(!forest_chunk_set(rr.0).contains(parent_chunk)) by {
            if forest_chunk_set(rr.0).contains(parent_chunk) {
                assert(forest_chunk_set(cs).contains(parent_chunk) || ctr < parent_chunk);
            }
        }
        lemma_spec_redistribute_tracks(rr.0, members, j + 1, parent_chunk, maxo, depth, rr.1, rr.2);
        let rrec = spec_redistribute(rr.0, members, j + 1, parent_chunk, maxo, depth, rr.1, rr.2);
        assert(r == rrec);
        // the member just processed is registered everywhere, and the
        // recursion preserves that; later members come from the
        // recursion's own guarantee
        assert forall|jm: int, k: int|
            j <= jm < members.len() && 0 <= k < cs.len() && ((#[trigger] members[jm]).body as int)
                < chunks.len() implies tracked_in(
            #[trigger] r.0[k],
            members[jm].body,
            members[jm].aabb,
            r.1[members[jm].body as int],
        ) by {
            if jm == j {
                assert(tracked_in(rr.0[k], e.body, e.aabb, rr.1[e.body as int]));
                assert(tracked_in(rrec.0[k], e.body, e.aabb, rrec.1[e.body as int]));
            } else {
                assert(tracked_in(
                    rrec.0[k],
                    members[jm].body,
                    members[jm].aabb,
                    rrec.1[members[jm].body as int],
                ));
            }
        }
        // previously tracked bodies survive the removal, the routing
        // and the recursion
        assert forall|b: usize, a: Aabb, k: int|
            (b as int) < chunks.len() && 0 <= k < cs.len() && #[trigger] tracked_in(
                cs[k],
                b,
                a,
                chunks[b as int],
            ) implies tracked_in(#[trigger] r.0[k], b, a, r.1[b as int]) by {
            assert(tracked_in(cs[k], b, a, ch1[b as int]));
            assert(tracked_in(rr.0[k], b, a, rr.1[b as int]));
            assert(tracked_in(rrec.0[k], b, a, rrec.1[b as int]));
        }
        // the membership frame composes across all three steps
        assert forall|idx: int, v: u64|
            0 <= idx < chunks.len() && #[trigger] chunks[idx].contains(v) && !forest_chunk_set(
                cs,
            ).contains(v) && v <= ctr && v != parent_chunk implies r.1[idx].contains(v) by {
            assert(ch1[idx].contains(v));
            assert(rr.1[idx].contains(v));
            assert(!forest_chunk_set(rr.0).contains(v)) by {
                if forest_chunk_set(rr.0).contains(v) {
                    assert(forest_chunk_set(cs).contains(v) || ctr < v);
                }
            }
            assert(rrec.1[idx].contains(v));
        }
    }
}

/// Like the tracking lemma for routing, but for an entity whose body
/// index lies outside the membership table: only preservation and the
/// frame are claimed.
proof fn lemma_spec_route_tracks_nobody(
    cs: Seq<NodeModel>,
    e: PhysicsEntity,
    maxo: int,
    depth: nat,
    i: int,
    chunks: Seq<Seq<u64>>,
    ctr: u64,
)
    requires
        forest_wf(cs),
        depth >= 1,
        forest_height(cs) <= depth - 1,
        forest_chunks_le(cs, ctr),
        forest_chunks_distinct(cs),
        (e.body as int) >= chunks.len(),
        0 <= i,
    ensures
        spec_route(cs, e, maxo, depth, i, chunks, ctr).0.len() == cs.len(),
        forall|b: usize, a: Aabb, k: int|
            (b as int) < chunks.len() && 0 <= k < cs.len() && #[trigger] tracked_in(
                cs[k],
                b,
                a,
                chunks[b as int],
            ) ==> tracked_in(
                #[trigger] spec_route(cs, e, maxo, depth, i, chunks, ctr).0[k],
                b,
                a,
                spec_route(cs, e, maxo, depth, i, chunks, ctr).1[b as int],
            ),
        forall|idx: int, v: u64|
            0 <= idx < chunks.len() && #[trigger] chunks[idx].contains(v) && !forest_chunk_set(
                cs,
            ).contains(v) && v <= ctr ==> spec_route(cs, e, maxo, depth, i, chunks, ctr).1[idx].contains(v),
    decreases depth, 1int, cs.len() - i,
{
    lemma_spec_route_chunks(cs, e, maxo, depth, i, chunks, ctr);
    lemma_spec_route_wf(cs, e, maxo, depth, i, chunks, ctr);
    let r = spec_route(cs, e, maxo, depth, i, chunks, ctr);
    if i < 0 || i >= cs.len() {
    } else if cs[i].bounding_box.spec_intersects(e.aabb) && depth > 0 {
        lemma_forest_wf_index(cs, i);
        lemma_forest_height_index(cs, i);
        lemma_forest_distinct_index(cs, i);
        assert forall|v: u64| chunk_set(cs[i]).contains(v) implies v <= ctr by {
            lemma_forest_chunk_set_index(cs, i);
            assert(forest_chunk_set(cs).contains(v));
        }
        lemma_spec_insert_tracks_nobody(cs[i], e, maxo, (depth - 1) as nat, chunks, ctr);
        lemma_spec_insert_chunks(cs[i], e, maxo, (depth - 1) as nat, chunks, ctr);
        lemma_spec_insert_wf(cs[i], e, maxo, (depth - 1) as nat, chunks, ctr);
        let ri = spec_insert(cs[i], e, maxo, (depth - 1) as nat, chunks, ctr);
        let cs2 = cs.update(i, ri.0);
        assert forall|v: u64|
            chunk_set(ri.0).contains(v) implies chunk_set(cs[i]).contains(v) || !forest_chunk_set(
            cs,
        ).contains(v) by {
            if forest_chunk_set(cs).contains(v) {
                assert(v <= ctr);
            }
        }
        lemma_forest_distinct_update(cs, i, ri.0);
        lemma_forest_wf_update(cs, i, ri.0);
        assert forall|q: int| 0 <= q < cs2.len() implies model_height(#[trigger] cs2[q]) <= (depth
            - 1) as nat by {
            if q != i {
                lemma_forest_height_index(cs, q);
            }
        }
        lemma_forest_height_bound(cs2, (depth - 1) as nat);
        assert forall|v: u64| forest_chunk_set(cs2).contains(v) implies v <= ri.2 by {
            if forest_chunk_set(cs).contains(v) {
                assert(v <= ctr);
            } else {
                assert(chunk_set(ri.0).contains(v));
            }
        }
        lemma_spec_route_tracks_nobody(cs2, e, maxo, depth, i + 1, ri.1, ri.2);
        assert forall|b: usize, a: Aabb, k: int|
            (b as int) < chunks.len() && 0 <= k < cs.len() && #[trigger] tracked_in(
                cs[k],
                b,
                a,
                chunks[b as int],
            ) implies tracked_in(#[trigger] r.0[k], b, a, r.1[b as int]) by {
            if k == i {
                assert(tracked_in(cs2[i], b, a, ri.1[b as int]));
                assert(tracked_in(cs2[k], b, a, ri.1[b as int]));
                assert(tracked_in(
                    spec_route(cs2, e, maxo, depth, i + 1, ri.1, ri.2).0[k],
                    b,
                    a,
                    spec_route(cs2, e, maxo, depth, i + 1, ri.1, ri.2).1[b as int],
                ));
            } else {
                assert forall|v: u64|
                    chunks[b as int].contains(v) && chunk_set(#[trigger] cs[k]).contains(
                        v,
                    ) implies ri.1[b as int].contains(v) by {
                    lemma_forest_chunk_set_index(cs, k);
                    assert(forest_chunk_set(cs).contains(v));
                    assert(v <= ctr);
                    if k < i {
                        lemma_forest_distinct_pairwise(cs, k, i);
                    } else {
                        lemma_forest_distinct_pairwise(cs, i, k);
                    }
                    assert(!chunk_set(cs[i]).contains(v));
                }
                lemma_tracked_monotone(cs[k], b, a, chunks[b as int], ri.1[b as int]);
                assert(cs2[k] == cs[k]);
                assert(tracked_in(cs2[k], b, a, ri.1[b as int]));
                assert(tracked_in(
                    spec_route(cs2, e, maxo, depth, i + 1, ri.1, ri.2).0[k],
                    b,
                    a,
                    spec_route(cs2, e, maxo, depth, i + 1, ri.1, ri.2).1[b as int],
                ));
            }
        }
        assert forall|idx: int, v: u64|
            0 <= idx < chunks.len() && #[trigger] chunks[idx].contains(v) && !forest_chunk_set(
                cs,
            ).contains(v) && v <= ctr implies r.1[idx].contains(v) by {
            assert(!chunk_set(cs[i]).contains(v)) by {
                lemma_forest_chunk_set_index(cs, i);
            }
            assert(ri.1[idx].contains(v));
            assert(!forest_chunk_set(cs2).contains(v)) by {
                if forest_chunk_set(cs2).contains(v) {
                    assert(chunk_set(ri.0).contains(v) || forest_chunk_set(cs).contains(v));
                    if chunk_set(ri.0).contains(v) {
                        assert(chunk_set(cs[i]).contains(v) || ctr < v);
                    }
                }
            }
            assert(spec_route(cs2, e, maxo, depth, i + 1, ri.1, ri.2).1[idx].contains(v));
        }
    } else {
        lemma_spec_route_tracks_nobody(cs, e, maxo, depth, i + 1, chunks, ctr);
    }
}

/// Like the insertion tracking lemma, for an entity whose body index
/// lies outside the membership table.
proof fn lemma_spec_insert_tracks_nobody(
    m: NodeModel,
    e: PhysicsEntity,
    maxo: int,
    depth: nat,
    chunks: Seq<Seq<u64>>,
    ctr: u64,
)
    requires
        model_wf(m),
        model_height(m) <= depth,
        chunks_le(m, ctr),
        chunks_distinct(m),
        (e.body as int) >= chunks.len(),
    ensures
        forall|b: usize, a: Aabb|
            (b as int) < chunks.len() && tracked_in(m, b, a, chunks[b as int])
                ==> #[trigger] tracked_in(
                spec_insert(m, e, maxo, depth, chunks, ctr).0,
                b,
                a,
                spec_insert(m, e, maxo, depth, chunks, ctr).1[b as int],
            ),
        forall|idx: int, v: u64|
            0 <= idx < chunks.len() && #[trigger] chunks[idx].contains(v) && !chunk_set(
                m,
            ).contains(v) && v <= ctr ==> spec_insert(m, e, maxo, depth, chunks, ctr).1[idx].contains(v),
    decreases depth, 4int, 0int,
{
    lemma_spec_insert_chunks(m, e, maxo, depth, chunks, ctr);
    lemma_spec_insert_wf(m, e, maxo, depth, chunks, ctr);
    let r = spec_insert(m, e, maxo, depth, chunks, ctr);
    if m.children.len() > 0 {
        assert(model_height(m) == 1 + forest_height(m.children));
        assert forall|v: u64| forest_chunk_set(m.children).contains(v) implies v <= ctr by {
            assert(chunk_set(m).contains(v));
        }
        lemma_spec_route_tracks_nobody(m.children, e, maxo, depth, 0, chunks, ctr);
        let rr = spec_route(m.children, e, maxo, depth, 0, chunks, ctr);
        assert forall|b: usize, a: Aabb|
            (b as int) < chunks.len() && tracked_in(m, b, a, chunks[b as int]) implies #[trigger] tracked_in(
            r.0,
            b,
            a,
            r.1[b as int],
        ) by {
            assert forall|k: int| 0 <= k < rr.0.len() implies tracked_in(
                #[trigger] rr.0[k],
                b,
                a,
                rr.1[b as int],
            ) by {
                lemma_forest_tracked_index(m.children, b, a, chunks[b as int], k);
            }
            lemma_forest_tracked_pointwise(rr.0, b, a, rr.1[b as int]);
        }
        assert forall|idx: int, v: u64|
            0 <= idx < chunks.len() && #[trigger] chunks[idx].contains(v) && !chunk_set(
                m,
            ).contains(v) && v <= ctr implies r.1[idx].contains(v) by {
            assert(!forest_chunk_set(m.children).contains(v)) by {
                if forest_chunk_set(m.children).contains(v) {
                    assert(chunk_set(m).contains(v));
                }
            }
        }
    } else {
        let m2 = NodeModel { objects: m.objects.push(e), ..m };
        assert(chunk_set(m2) =~= chunk_set(m));
        if m2.objects.len() > maxo && depth > 0 && ctr <= CHUNK_CEILING {
            lemma_spec_split_tracks(m2, maxo, depth, chunks, ctr);
            lemma_spec_split_wf(m2, maxo, depth, chunks, ctr);
            let rs = spec_split(m2, maxo, depth, chunks, ctr);
            assert forall|b: usize, a: Aabb|
                (b as int) < chunks.len() && tracked_in(m, b, a, chunks[b as int]) implies #[trigger] tracked_in(
                r.0,
                b,
                a,
                r.1[b as int],
            ) by {
                if m.bounding_box.spec_intersects(a) {
                    let k = choose|k: int|
                        0 <= k < m.objects.len() && m.objects[k] == (PhysicsEntity {
                            body: b,
                            aabb: a,
                        });
                    assert(m2.objects[k] == (PhysicsEntity { body: b, aabb: a }));
                    assert(m2.objects.contains(PhysicsEntity { body: b, aabb: a }));
                } else {
                    lemma_tracked_vacuous(rs.0, b, a, rs.1[b as int]);
                }
            }
        } else {
            assert forall|b: usize, a: Aabb|
                (b as int) < chunks.len() && tracked_in(m, b, a, chunks[b as int]) implies #[trigger] tracked_in(
                r.0,
                b,
                a,
                r.1[b as int],
            ) by {
                if m.bounding_box.spec_intersects(a) {
                    let k = choose|k: int|
                        0 <= k < m.objects.len() && m.objects[k] == (PhysicsEntity {
                            body: b,
                            aabb: a,
                        });
                    assert(m2.objects[k] == (PhysicsEntity { body: b, aabb: a }));
                    assert(m2.objects.contains(PhysicsEntity { body: b, aabb: a }));
                }
            }
        }
    }
}

/// Two bodies registered over the whole subtree and sharing a point
/// inside its bounds share the chunk of the leaf containing that
/// point.
pub proof fn lemma_tracked_common_chunk(
    m: NodeModel,
    b1: usize,
    a1: Aabb,
    cs1: Seq<u64>,
    b2: usize,
    a2: Aabb,
    cs2: Seq<u64>,
    p: crate::vecmath::Vec3i,
)
    requires
        model_wf(m),
        tracked_in(m, b1, a1, cs1),
        tracked_in(m, b2, a2, cs2),
        m.bounding_box.spec_contains(p),
        a1.spec_contains(p),
        a2.spec_contains(p),
    ensures
        exists|c: u64| #[trigger] cs1.contains(c) && cs2.contains(c),
    decreases m, 0int,
{
    if m.children.len() == 0 {
        assert(m.bounding_box.spec_intersects(a1));
        assert(m.bounding_box.spec_intersects(a2));
        assert(cs1.contains(m.chunk_num) && cs2.contains(m.chunk_num));
    } else {
        crate::aabb::lemma_octants_cover(m.bounding_box);
        let i = choose|i: int|
            0 <= i < 8 && crate::aabb::octant_contains(m.bounding_box, i, p);
        lemma_forest_wf_index(m.children, i);
        lemma_forest_tracked_index(m.children, b1, a1, cs1, i);
        lemma_forest_tracked_index(m.children, b2, a2, cs2, i);
        assert(m.children[i].bounding_box == crate::aabb::spec_octant(m.bounding_box, i));
        lemma_tracked_common_chunk(m.children[i], b1, a1, cs1, b2, a2, cs2, p);
    }
}

/// Removing the first occurrence at a known position.
proof fn lemma_seq_remove_first_at(s: Seq<u64>, k: int, x: u64)
    requires
        0 <= k < s.len(),
        s[k] == x,
        forall|j: int| 0 <= j < k ==> s[j] != x,
    ensures
        seq_remove_first(s, x) =~= s.remove(k),
    decreases k,
{
    if k == 0 {
        assert(seq_remove_first(s, x) =~= s.remove(0));
    } else {
        lemma_seq_remove_first_at(s.drop_first(), k - 1, x);
        assert(seq_remove_first(s, x) =~= seq![s[0]] + s.drop_first().remove(k - 1));
        assert(seq![s[0]] + s.drop_first().remove(k - 1) =~= s.remove(k));
    }
}

/// Removing a value that does not occur changes nothing.
proof fn lemma_seq_remove_first_absent(s: Seq<u64>, x: u64)
    requires
        forall|j: int| 0 <= j < s.len() ==> s[j] != x,
    ensures
        seq_remove_first(s, x) =~= s,
    decreases s.len(),
{
    if s.len() > 0 {
        lemma_seq_remove_first_absent(s.drop_first(), x);
        assert(seq_remove_first(s, x) =~= seq![s[0]] + seq_remove_first(s.drop_first(), x));
    }
}

/// Whether the list holds the value.
pub(crate) fn contains_u64(v: &Vec<u64>, x: u64) -> (r: bool)
    ensures
        r == v@.contains(x),
{
    let mut i: usize = 0;
    while i < v.len()
        invariant
            0 <= i <= v@.len(),
            forall|j: int| 0 <= j < i ==> v@[j] != x,
        decreases v@.len() - i,
    {
        if v[i] == x {
            proof {
                assert(v@[i as int] == x);
            }
            return true;
        }
        i = i + 1;
    }
    false
}

/// Remove the first occurrence of `x`, if any.
fn remove_first_value(v: &mut Vec<u64>, x: u64)
    ensures
        final(v)@ == seq_remove_first(old(v)@, x),
{
    let ghost orig = v@;
    let mut i: usize = 0;
    while i < v.len()
        invariant
            0 <= i <= v@.len(),
            v@ == orig,
            orig == old(v)@,
            forall|j: int| 0 <= j < i ==> v@[j] != x,
        decreases v@.len() - i,
    {
        if v[i] == x {
            v.remove(i);
            proof {
                lemma_seq_remove_first_at(orig, i as int, x);
            }
            return ;
        }
        i = i + 1;
    }
    proof {
        lemma_seq_remove_first_absent(orig, x);
    }
}

impl OctreeNode {
    /// A fresh leaf over the given bounds, with chunk identifier zero.
    pub fn new(bounding_box: Aabb) -> (r: Self)
        ensures
            r.model() == (NodeModel {
                bounding_box,
                chunk_num: 0,
                objects: Seq::<PhysicsEntity>::empty(),
                children: Seq::<NodeModel>::empty(),
            }),
            bounding_box.wf() ==> model_wf(r.model()),
            model_height(r.model()) == 0,
    {
        let r = OctreeNode { bounding_box, chunk_num: 0, objects: Vec::new(), children: Vec::new() };
        proof {
            assert(r.model().objects =~= Seq::<PhysicsEntity>::empty());
            assert(r.model().children =~= Seq::<NodeModel>::empty());
        }
        r
    }

    /// Insert a body into the subtree rooted here, within the given
    /// depth budget, recording each leaf chunk it lands in into the
    /// body's membership set.  The whole effect equals the ghost
    /// `spec_insert` applied to the node's model.
    pub fn insert(
        &mut self,
        physics_entity: PhysicsEntity,
        max_objects: usize,
        max_depth: usize,
        chunks: &mut Vec<Chunk>,
        counter: &mut u64,
    )
        requires
            model_wf(old(self).model()),
            model_height(old(self).model()) <= max_depth,
        ensures
            ({
                let r = spec_insert(
                    old(self).model(),
                    physics_entity,
                    max_objects as int,
                    max_depth as nat,
                    chunk_sets(old(chunks)@),
                    *old(counter),
                );
                &&& final(self).model() == r.0
                &&& chunk_sets(final(chunks)@) == r.1
                &&& *final(counter) == r.2
            }),
            model_wf(final(self).model()),
            model_height(final(self).model()) <= max_depth,
            final(chunks)@.len() == old(chunks)@.len(),
        decreases max_depth, 2int,
    {
        proof {
            lemma_forest_model_len(self.children@);
            lemma_spec_insert_wf(
                old(self).model(),
                physics_entity,
                max_objects as int,
                max_depth as nat,
                chunk_sets(old(chunks)@),
                *old(counter),
            );
        }
        if self.children.len() > 0 {
            proof {
                assert(model_height(old(self).model()) == 1 + forest_height(
                    old(self).model().children,
                ));
            }
            route_into_children(
                &mut self.children,
                physics_entity,
                max_objects,
                max_depth,
                chunks,
                counter,
            );
        } else {
            let ghost ch0 = chunk_sets(chunks@);
            let b = physics_entity.body;
            if b < chunks.len() {
                let present = contains_u64(&chunks[b].0, self.chunk_num);
                if !present {
                    chunks[b].0.push(self.chunk_num);
                    proof {
                        assert(chunk_sets(chunks@) =~= ch0.update(
                            b as int,
                            ch0[b as int].push(self.chunk_num),
                        ));
                    }
                }
            }
            self.objects.push(physics_entity);
            if self.objects.len() > max_objects && max_depth > 0 && *counter <= CHUNK_CEILING {
                self.split(max_objects, max_depth, chunks, counter);
            }
        }
    }

    /// Split a leaf into eight children over the octants of its bounds,
    /// each with a fresh chunk identifier, and re-route the stored
    /// members into them.
    fn split(&mut self, max_objects: usize, max_depth: usize, chunks: &mut Vec<Chunk>, counter: &mut u64)
        requires
            model_wf(old(self).model()),
            old(self).children@.len() == 0,
            max_depth >= 1,
            *old(counter) <= CHUNK_CEILING,
        ensures
            ({
                let r = spec_split(
                    old(self).model(),
                    max_objects as int,
                    max_depth as nat,
                    chunk_sets(old(chunks)@),
                    *old(counter),
                );
                &&& final(self).model() == r.0
                &&& chunk_sets(final(chunks)@) == r.1
                &&& *final(counter) == r.2
            }),
            final(chunks)@.len() == old(chunks)@.len(),
        decreases max_depth, 1int,
    {
        let ghost m0 = old(self).model();
        let ghost ch0 = chunk_sets(chunks@);
        let ghost ct0 = *counter;
        let ghost kid_models = Seq::new(
            8,
            |i: int|
                NodeModel {
                    bounding_box: crate::aabb::spec_octant(m0.bounding_box, i),
                    chunk_num: (ct0 + 1 + i) as u64,
                    objects: Seq::<PhysicsEntity>::empty(),
                    children: Seq::<NodeModel>::empty(),
                },
        );
        let sub = crate::aabb::subdivide_aabb(self.bounding_box);
        let base = *counter;
        let mut kids: Vec<OctreeNode> = Vec::new();
        let mut k: usize = 0;
        while k < 8
            invariant
                0 <= k <= 8,
                base == ct0,
                base <= CHUNK_CEILING,
                kids@.len() == k,
                forall|i: int| 0 <= i < 8 ==> sub@[i] == crate::aabb::spec_octant(m0.bounding_box, i),
                forest_model(kids@) == kid_models.take(k as int),
                kid_models == Seq::new(
                    8,
                    |i: int|
                        NodeModel {
                            bounding_box: crate::aabb::spec_octant(m0.bounding_box, i),
                            chunk_num: (ct0 + 1 + i) as u64,
                            objects: Seq::<PhysicsEntity>::empty(),
                            children: Seq::<NodeModel>::empty(),
                        },
                ),
            decreases 8 - k,
        {
            let ghost pre = kids@;
            let kid = OctreeNode {
                bounding_box: sub[k],
                chunk_num: base + 1 + (k as u64),
                objects: Vec::new(),
                children: Vec::new(),
            };
            proof {
                assert(kid.model().objects =~= Seq::<PhysicsEntity>::empty());
                assert(kid.model().children =~= Seq::<NodeModel>::empty());
                assert(kid.model() == kid_models[k as int]);
            }
            kids.push(kid);
            proof {
                lemma_forest_model_push(pre, kid);
                assert(forest_model(kids@) =~= kid_models.take(k as int + 1));
            }
            k = k + 1;
        }
        proof {
            assert(kid_models.take(8) =~= kid_models);
        }
        *counter = base + 8;
        self.children = kids;
        let ghost members0 = self.objects@;
        let ghost chunk0 = self.chunk_num;
        proof {
            assert forall|j: int| 0 <= j < kid_models.len() implies model_wf(
                #[trigger] kid_models[j],
            ) by {
                crate::aabb::lemma_octant_wf(m0.bounding_box, j);
                assert(forest_wf(kid_models[j].children));
            }
            lemma_forest_wf_pointwise(kid_models);
            assert forall|j: int| 0 <= j < kid_models.len() implies model_height(
                #[trigger] kid_models[j],
            ) <= (max_depth - 1) as nat by {}
            lemma_forest_height_bound(kid_models, (max_depth - 1) as nat);
        }
        let nmem = self.objects.len();
        let mut j: usize = 0;
        while j < nmem
            invariant
                0 <= j <= nmem,
                max_depth >= 1,
                nmem == members0.len(),
                self.objects@ == members0,
                self.bounding_box == m0.bounding_box,
                self.chunk_num == chunk0,
                chunk0 == m0.chunk_num,
                members0 == m0.objects,
                forest_wf(forest_model(self.children@)),
                forest_height(forest_model(self.children@)) <= max_depth - 1,
                chunks@.len() == ch0.len(),
                spec_redistribute(
                    forest_model(self.children@),
                    members0,
                    j as int,
                    chunk0,
                    max_objects as int,
                    max_depth as nat,
                    chunk_sets(chunks@),
                    *counter,
                ) == spec_redistribute(
                    kid_models,
                    members0,
                    0,
                    chunk0,
                    max_objects as int,
                    max_depth as nat,
                    ch0,
                    (ct0 + 8) as u64,
                ),
            decreases nmem - j,
        {
            let ghost pre_ch = chunk_sets(chunks@);
            let e = self.objects[j];
            if e.body < chunks.len() {
                remove_first_value(&mut chunks[e.body].0, self.chunk_num);
                proof {
                    assert(chunk_sets(chunks@) =~= pre_ch.update(
                        e.body as int,
                        seq_remove_first(pre_ch[e.body as int], chunk0),
                    ));
                }
            }
            route_into_children(&mut self.children, e, max_objects, max_depth, chunks, counter);
            j = j + 1;
        }
        self.objects.clear();
        proof {
            assert(final(self).model().objects =~= Seq::<PhysicsEntity>::empty());
            let r = spec_split(m0, max_objects as int, max_depth as nat, ch0, ct0);
            assert(spec_redistribute(
                forest_model(self.children@),
                members0,
                nmem as int,
                chunk0,
                max_objects as int,
                max_depth as nat,
                chunk_sets(chunks@),
                *counter,
            ) == (forest_model(self.children@), chunk_sets(chunks@), *counter));
        }
    }
}

/// Route a body into every child whose bounds intersect its bounding
/// box, each with one unit less depth budget.
fn route_into_children(
    children: &mut Vec<OctreeNode>,
    physics_entity: PhysicsEntity,
    max_objects: usize,
    max_depth: usize,
    chunks: &mut Vec<Chunk>,
    counter: &mut u64,
)
    requires
        forest_wf(forest_model(old(children)@)),
        max_depth >= 1,
        forest_height(forest_model(old(children)@)) <= max_depth - 1,
    ensures
        ({
            let r = spec_route(
                forest_model(old(children)@),
                physics_entity,
                max_objects as int,
                max_depth as nat,
                0,
                chunk_sets(old(chunks)@),
                *old(counter),
            );
            &&& forest_model(final(children)@) == r.0
            &&& chunk_sets(final(chunks)@) == r.1
            &&& *final(counter) == r.2
        }),
        final(children)@.len() == old(children)@.len(),
        forest_wf(forest_model(final(children)@)),
        forest_height(forest_model(final(children)@)) <= max_depth - 1,
        final(chunks)@.len() == old(chunks)@.len(),
    decreases max_depth, 0int,
{
    let ghost cs0 = forest_model(children@);
    let ghost ch0 = chunk_sets(chunks@);
    let ghost ct0 = *counter;
    proof {
        lemma_forest_model_len(children@);
    }
    let n = children.len();
    let mut i: usize = 0;
    while i < n
        invariant
            0 <= i <= n,
            max_depth >= 1,
            n == children@.len(),
            forest_model(children@).len() == n,
            forest_wf(forest_model(children@)),
            forest_height(forest_model(children@)) <= max_depth - 1,
            chunks@.len() == ch0.len(),
            spec_route(
                forest_model(children@),
                physics_entity,
                max_objects as int,
                max_depth as nat,
                i as int,
                chunk_sets(chunks@),
                *counter,
            ) == spec_route(cs0, physics_entity, max_objects as int, max_depth as nat, 0, ch0, ct0),
        decreases n - i,
    {
        proof {
            lemma_forest_model_len(children@);
            lemma_forest_model_index(children@, i as int);
            lemma_forest_wf_index(forest_model(children@), i as int);
            lemma_forest_height_index(forest_model(children@), i as int);
        }
        let hit = children[i].bounding_box.intersects(&physics_entity.aabb);
        if hit {
            let ghost pre = children@;
            let ghost pre_ch = chunk_sets(chunks@);
            let ghost pre_ct = *counter;
            children[i].insert(physics_entity, max_objects, max_depth - 1, chunks, counter);
            proof {
                let x = children@[i as int];
                assert(children@ =~= pre.update(i as int, x));
                lemma_forest_model_update(pre, i as int, x);
                lemma_forest_model_index(pre, i as int);
                let r = spec_insert(
                    pre[i as int].model(),
                    physics_entity,
                    max_objects as int,
                    (max_depth - 1) as nat,
                    pre_ch,
                    pre_ct,
                );
                assert(x.model() == r.0);
                assert(forest_model(children@) =~= forest_model(pre).update(i as int, r.0));
                lemma_forest_wf_update(forest_model(pre), i as int, r.0);
                assert forall|q: int| 0 <= q < forest_model(children@).len() implies model_height(
                    #[trigger] forest_model(children@)[q],
                ) <= (max_depth - 1) as nat by {
                    if q != i {
                        lemma_forest_height_index(forest_model(pre), q);
                    }
                }
                lemma_forest_height_bound(forest_model(children@), (max_depth - 1) as nat);
            }
        }
        i = i + 1;
    }
}

} // verus!
