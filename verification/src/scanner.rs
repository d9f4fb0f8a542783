//! The scan pass: enumerate every collider-request node, build its collision
//! volume, place it in the hierarchy, and flip the session state after the
//! first pass that processed at least one request.
//!
//! Per request node the pass, in order: requires a non-empty child list,
//! finds the first child exposing mesh data, removes that child's geometry
//! record from the store (ownership transfers to conversion), converts it,
//! spawns the collider child under the request node itself, and marks the
//! request node's topmost ancestor as a dynamic rigid body. Any failure is
//! fatal for the pass: it aborts where it stands and leaves the session
//! state untouched.
//!
//! The collider child's transform is a verbatim copy of the request node's
//! own local transform. Whether that double-applies the ancestor chain's
//! rotation is a known open question of this pipeline; the copy is kept as
//! is rather than second-guessed here.

use vstd::prelude::*;

use crate::collider::ColliderFromMeshError;
use crate::collider::conversion_error;
use crate::collider::convertible;
use crate::collider::mesh_to_collider;
use crate::geometry::GeometryRecord;
use crate::geometry::triples;
use crate::scene::RigidBodyDescriptor;
use crate::scene::SceneArena;
use crate::scene::SceneNode;
use crate::scene::attachment_root;
use crate::scene::first_mesh_child;
use crate::scene::lemma_mesh_search_found;
use crate::scene::lemma_mesh_search_stable;
use crate::scene::lemma_root_of_is_root;
use crate::scene::lemma_root_of_stable;
use crate::scene::mesh_search;
use crate::scene::root_of;
use crate::schedule::ColliderState;
use crate::schedule::SessionContext;
use crate::schedule::gate_decision;
use crate::schedule::next_state;
use crate::schedule::valid_state;
use crate::store::GeometryStore;

verus! {

/// Why a scan pass aborted, with the index of the collider-request node it
/// aborted on. All variants signal authoring defects in the content.
#[derive(Debug)]
pub enum PassError {
    /// The collider-request node has no children at all.
    MissingChildren(usize),
    /// None of the collider-request node's children exposes mesh data.
    MissingMesh(usize),
    /// The geometry record extracted for the node is malformed.
    Geometry(usize, ColliderFromMeshError),
}

/// The rigid-body settings every attachment root receives: dynamics on,
/// continuous collision detection on.
pub open spec fn dynamic_ccd_descriptor() -> RigidBodyDescriptor {
    RigidBodyDescriptor { dynamic: true, ccd: true }
}

/// Whether node `i` carries the collider-request marker.
pub open spec fn is_tagged(nodes: Seq<SceneNode>, i: int) -> bool {
    nodes[i].mesh_collider
}

/// How many collider-request nodes have index below `bound`.
pub open spec fn tagged_count(nodes: Seq<SceneNode>, bound: int) -> nat
    decreases bound,
{
    if bound <= 0 {
        0
    } else {
        tagged_count(nodes, bound - 1) + if is_tagged(nodes, bound - 1) {
            1nat
        } else {
            0nat
        }
    }
}

/// There are never more collider-request nodes below `bound` than indices.
pub proof fn lemma_tagged_count_le(nodes: Seq<SceneNode>, bound: int)
    requires
        0 <= bound,
    ensures
        tagged_count(nodes, bound) <= bound,
    decreases bound,
{
    if bound > 0 {
        lemma_tagged_count_le(nodes, bound - 1);
    }
}

/// Counting collider-request nodes is monotone in the bound.
pub proof fn lemma_tagged_count_mono(nodes: Seq<SceneNode>, a: int, b: int)
    requires
        0 <= a <= b,
    ensures
        tagged_count(nodes, a) <= tagged_count(nodes, b),
    decreases b - a,
{
    if a < b {
        lemma_tagged_count_mono(nodes, a, b - 1);
    }
}

/// The first mesh-bearing child of request node `i`, assuming the search
/// succeeds.
pub open spec fn mesh_child_of(nodes: Seq<SceneNode>, i: int) -> usize
    recommends
        mesh_search(nodes, nodes[i].children@) is Some,
{
    mesh_search(nodes, nodes[i].children@)->0
}

/// The geometry handle request node `i` resolves to, through its first
/// mesh-bearing child.
pub open spec fn handle_of(nodes: Seq<SceneNode>, i: int) -> u64
    recommends
        mesh_search(nodes, nodes[i].children@) is Some,
{
    nodes[mesh_child_of(nodes, i) as int].mesh->0
}

/// The failure, if any, that processing request node `i` runs into, checked
/// in pass order: child list present, mesh-bearing child present, record
/// convertible.
pub open spec fn node_error(
    nodes: Seq<SceneNode>,
    records: Map<u64, GeometryRecord>,
    i: int,
) -> Option<PassError> {
    if nodes[i].children@.len() == 0 {
        Some(PassError::MissingChildren(i as usize))
    } else if mesh_search(nodes, nodes[i].children@) is None {
        Some(PassError::MissingMesh(i as usize))
    } else if !convertible(records[handle_of(nodes, i)]) {
        Some(
            PassError::Geometry(i as usize, conversion_error(records[handle_of(nodes, i)])),
        )
    } else {
        None
    }
}

/// The first collider-request node at or after `from` whose processing
/// fails, or `bound` if none does.
pub open spec fn first_failure_from(
    nodes: Seq<SceneNode>,
    records: Map<u64, GeometryRecord>,
    from: int,
    bound: int,
) -> int
    decreases bound - from,
{
    if from >= bound {
        bound
    } else if is_tagged(nodes, from) && node_error(nodes, records, from) is Some {
        from
    } else {
        first_failure_from(nodes, records, from + 1, bound)
    }
}

/// The first collider-request node of the whole arena whose processing
/// fails, or the arena length if the pass succeeds.
pub open spec fn first_failure(nodes: Seq<SceneNode>, records: Map<u64, GeometryRecord>) -> int {
    first_failure_from(nodes, records, 0, nodes.len() as int)
}

/// Pins the first failure: if every collider-request node before `i` is
/// processable and `i` (when in range) is a collider-request node that is
/// not, the first failure from `from` is exactly `i`.
pub proof fn lemma_first_failure_pinpoint(
    nodes: Seq<SceneNode>,
    records: Map<u64, GeometryRecord>,
    from: int,
    i: int,
    bound: int,
)
    requires
        0 <= from <= i <= bound,
        forall|j: int|
            from <= j < i && is_tagged(nodes, j) ==> (#[trigger] node_error(nodes, records, j))
                is None,
        i < bound ==> is_tagged(nodes, i) && node_error(nodes, records, i) is Some,
    ensures
        first_failure_from(nodes, records, from, bound) == i,
    decreases i - from,
{
    if from < i {
        lemma_first_failure_pinpoint(nodes, records, from + 1, i, bound);
    }
}

/// Whether the geometry record of some collider-request node below `bound`
/// has been consumed under handle `handle`.
pub open spec fn removed_handle(nodes: Seq<SceneNode>, bound: int, handle: u64) -> bool {
    exists|j: int|
        0 <= j < bound && is_tagged(nodes, j) && #[trigger] handle_of(nodes, j) == handle
}

/// The fields of node `i` the pass never touches.
pub open spec fn node_frame(
    before: Seq<SceneNode>,
    after: Seq<SceneNode>,
    i: int,
) -> bool {
    &&& after[i].transform == before[i].transform
    &&& after[i].parent == before[i].parent
    &&& after[i].mesh == before[i].mesh
    &&& after[i].mesh_collider == before[i].mesh_collider
    &&& after[i].collider == before[i].collider
}

/// The child list of node `i` after processing every collider-request node
/// below `bound`: a processed request node gains exactly its collider child
/// at the end; every other list is untouched.
pub open spec fn children_after(
    before: Seq<SceneNode>,
    after: Seq<SceneNode>,
    bound: int,
    i: int,
) -> bool {
    after[i].children@ == if is_tagged(before, i) && i < bound {
        before[i].children@.push(((before.len() + tagged_count(before, i)) as usize))
    } else {
        before[i].children@
    }
}

/// Whether node `i` is the attachment root of some collider-request node
/// below `bound`.
pub open spec fn is_rigid_root(before: Seq<SceneNode>, bound: int, i: int) -> bool {
    exists|j: int| 0 <= j < bound && is_tagged(before, j) && #[trigger] root_of(before, j) == i
}

/// The body of node `i` after the pass: attachment roots of processed
/// request nodes carry the dynamic descriptor; everything else is
/// untouched.
pub open spec fn body_after(
    before: Seq<SceneNode>,
    after: Seq<SceneNode>,
    bound: int,
    i: int,
) -> bool {
    after[i].body == if is_rigid_root(before, bound, i) {
        Some(dynamic_ccd_descriptor())
    } else {
        before[i].body
    }
}

/// The collider child spawned for request node `j`: parented under `j`
/// itself — never under the attachment root — carrying `j`'s own transform
/// and the volume converted from `j`'s geometry record, and nothing else.
pub open spec fn spawned_ok(
    before: Seq<SceneNode>,
    records: Map<u64, GeometryRecord>,
    after: Seq<SceneNode>,
    j: int,
) -> bool {
    let child = before.len() + tagged_count(before, j);
    let record = records[handle_of(before, j)];
    &&& after[child as int].parent == Some(j as usize)
    &&& after[child as int].transform == before[j].transform
    &&& after[child as int].children@.len() == 0
    &&& after[child as int].mesh is None
    &&& !after[child as int].mesh_collider
    &&& after[child as int].body is None
    &&& after[child as int].collider matches Some(volume)
        && volume.vertices@ == record.vertex_list()
        && volume.triangles@ == triples(record.widened_indices())
}

/// The whole effect of a pass that processed every collider-request node
/// below `bound` and consumed the records of every one below
/// `store_bound` (the two differ only when the pass aborted between
/// removing a record and converting it).
pub open spec fn pass_effect(
    before: Seq<SceneNode>,
    records: Map<u64, GeometryRecord>,
    after: Seq<SceneNode>,
    records_after: Map<u64, GeometryRecord>,
    bound: int,
    store_bound: int,
) -> bool {
    let n = before.len() as int;
    &&& after.len() == n + tagged_count(before, bound)
    &&& forall|i: int| 0 <= i < n ==> #[trigger] node_frame(before, after, i)
    &&& forall|i: int| 0 <= i < n ==> #[trigger] children_after(before, after, bound, i)
    &&& forall|i: int| 0 <= i < n ==> #[trigger] body_after(before, after, bound, i)
    &&& forall|j: int|
        0 <= j < bound && is_tagged(before, j) ==> #[trigger] spawned_ok(
            before,
            records,
            after,
            j,
        )
    &&& forall|handle: u64|
        records_after.contains_key(handle) <==> records.contains_key(handle)
            && !removed_handle(before, store_bound, handle)
    &&& forall|handle: u64|
        records_after.contains_key(handle) ==> records_after[handle] == records[handle]
}

/// What the pass demands of its input, beyond well-formedness of arena and
/// store: every collider-request node that resolves to a geometry handle
/// finds its record in the store, no two request nodes share a handle, and
/// each such record satisfies the index-buffer invariant of authored
/// geometry. (A request node whose record is absent from the store
/// altogether is a session-fatal authoring defect with no report of its
/// own; that input is excluded by precondition rather than reported.)
pub open spec fn pass_requires(
    nodes: Seq<SceneNode>,
    records: Map<u64, GeometryRecord>,
) -> bool {
    let n = nodes.len() as int;
    &&& forall|i: int|
        0 <= i < n && is_tagged(nodes, i) && mesh_search(nodes, nodes[i].children@) is Some
            ==> records.contains_key(#[trigger] handle_of(nodes, i)) && records[handle_of(
            nodes,
            i,
        )].indices_well_formed()
    &&& forall|i: int, j: int|
        0 <= i < j < n && is_tagged(nodes, i) && is_tagged(nodes, j) && mesh_search(
            nodes,
            nodes[i].children@,
        ) is Some && mesh_search(nodes, nodes[j].children@) is Some ==> #[trigger] handle_of(
            nodes,
            i,
        ) != #[trigger] handle_of(nodes, j)
}

/// How many records a failed pass consumed: one more than it processed when
/// it aborted between removal and conversion.
pub open spec fn store_bound_of(
    nodes: Seq<SceneNode>,
    records: Map<u64, GeometryRecord>,
    bound: int,
) -> int {
    if bound < nodes.len() && node_error(nodes, records, bound) matches Some(
        PassError::Geometry(_, _),
    ) {
        bound + 1
    } else {
        bound
    }
}

/// The full postcondition of one scan pass, from the pre-state of arena,
/// store and session state to the post-state and the result: the pass runs
/// up to its first failure, mutates exactly as `pass_effect` says, returns
/// the pinned error or the processed count, and flips the session state
/// exactly when the whole batch succeeded with at least one request
/// processed.
pub open spec fn pass_post(
    before: Seq<SceneNode>,
    records: Map<u64, GeometryRecord>,
    state_before: ColliderState,
    after: Seq<SceneNode>,
    records_after: Map<u64, GeometryRecord>,
    state_after: ColliderState,
    result: Result<usize, PassError>,
) -> bool {
    let n = before.len() as int;
    let bound = first_failure(before, records);
    &&& pass_effect(
        before,
        records,
        after,
        records_after,
        bound,
        store_bound_of(before, records, bound),
    )
    &&& bound == n ==> ({
        &&& result matches Ok(processed) && processed == tagged_count(before, n)
        &&& state_after == next_state(state_before, tagged_count(before, n))
    })
    &&& bound < n ==> ({
        &&& result matches Err(error) && Some(error) == node_error(before, records, bound)
        &&& state_after == state_before
    })
}

/// The first failure always lies between `from` and `bound`.
pub proof fn lemma_first_failure_in_range(
    nodes: Seq<SceneNode>,
    records: Map<u64, GeometryRecord>,
    from: int,
    bound: int,
)
    requires
        0 <= from <= bound,
    ensures
        from <= first_failure_from(nodes, records, from, bound) <= bound,
    decreases bound - from,
{
    if from < bound && !(is_tagged(nodes, from) && node_error(nodes, records, from) is Some) {
        lemma_first_failure_in_range(nodes, records, from + 1, bound);
    }
}

/// Rigid bodies land on attachment roots and nowhere else: any node of the
/// pre-pass arena whose body a pass changed is the topmost, parentless
/// ancestor of some processed collider-request node, and what it gained is
/// exactly the dynamic descriptor. In particular the request node itself
/// and its newly spawned collider child (whose body stays `None`) are never
/// the receiver unless the request node is its own root.
pub proof fn lemma_rigid_bodies_only_on_roots(
    before: Seq<SceneNode>,
    records: Map<u64, GeometryRecord>,
    after: Seq<SceneNode>,
    records_after: Map<u64, GeometryRecord>,
    bound: int,
    store_bound: int,
    i: int,
)
    requires
        forall|j: int|
            0 <= j < before.len() ==> (#[trigger] before[j]).wf_at(j, before.len() as int),
        pass_effect(before, records, after, records_after, bound, store_bound),
        0 <= i < before.len(),
        after[i].body != before[i].body,
    ensures
        after[i].body == Some(dynamic_ccd_descriptor()),
        before[i].parent is None,
        after[i].parent is None,
        exists|j: int|
            0 <= j < bound && is_tagged(before, j) && #[trigger] root_of(before, j) == i,
{
    assert(body_after(before, after, bound, i));
    assert(node_frame(before, after, i));
    assert(is_rigid_root(before, bound, i));
    let j = choose|j: int|
        0 <= j < bound && is_tagged(before, j) && #[trigger] root_of(before, j) == i;
    lemma_root_of_is_root(before, j);
}

/// The session state flips only for a whole batch: after one pass the
/// session is `Done` exactly when it already was, or the pass ran through
/// the entire arena without a failure and processed at least one collider
/// request. A pass that aborted — however many requests it had already
/// processed — never flips the state.
pub proof fn lemma_flip_needs_whole_batch(
    before: Seq<SceneNode>,
    records: Map<u64, GeometryRecord>,
    state_before: ColliderState,
    after: Seq<SceneNode>,
    records_after: Map<u64, GeometryRecord>,
    state_now: ColliderState,
    result: Result<usize, PassError>,
)
    requires
        pass_post(before, records, state_before, after, records_after, state_now, result),
    ensures
        state_now == ColliderState::Done <==> state_before == ColliderState::Done || (
        first_failure(before, records) == before.len() && tagged_count(
            before,
            before.len() as int,
        ) > 0),
{
    lemma_first_failure_in_range(before, records, 0, before.len() as int);
}

/// Stepping the pass effect past a node without the collider-request
/// marker: nothing changes.
proof fn lemma_skip_step(
    before: Seq<SceneNode>,
    records: Map<u64, GeometryRecord>,
    after: Seq<SceneNode>,
    records_after: Map<u64, GeometryRecord>,
    i: int,
)
    requires
        0 <= i < before.len(),
        !is_tagged(before, i),
        pass_effect(before, records, after, records_after, i, i),
    ensures
        pass_effect(before, records, after, records_after, i + 1, i + 1),
{
    let n = before.len() as int;
    assert(tagged_count(before, i + 1) == tagged_count(before, i));
    assert forall|k: int| 0 <= k < n implies #[trigger] children_after(before, after, i + 1, k) by {
        assert(children_after(before, after, i, k));
    }
    assert forall|k: int| 0 <= k < n implies #[trigger] body_after(before, after, i + 1, k) by {
        assert(body_after(before, after, i, k));
        if is_rigid_root(before, i + 1, k) {
            let j = choose|j: int|
                0 <= j < i + 1 && is_tagged(before, j) && #[trigger] root_of(before, j) == k;
            assert(is_rigid_root(before, i, k));
        }
        if is_rigid_root(before, i, k) {
            let j = choose|j: int|
                0 <= j < i && is_tagged(before, j) && #[trigger] root_of(before, j) == k;
            assert(is_rigid_root(before, i + 1, k));
        }
    }
    assert forall|j: int|
        0 <= j < i + 1 && is_tagged(before, j) implies #[trigger] spawned_ok(
        before,
        records,
        after,
        j,
    ) by {
        assert(j != i);
        assert(spawned_ok(before, records, after, j));
    }
    assert forall|h: u64|
        records_after.contains_key(h) <==> records.contains_key(h) && !removed_handle(
            before,
            i + 1,
            h,
        ) by {
        if removed_handle(before, i + 1, h) {
            let j = choose|j: int|
                0 <= j < i + 1 && is_tagged(before, j) && #[trigger] handle_of(before, j) == h;
            assert(removed_handle(before, i, h));
        }
        if removed_handle(before, i, h) {
            let j = choose|j: int|
                0 <= j < i && is_tagged(before, j) && #[trigger] handle_of(before, j) == h;
            assert(removed_handle(before, i + 1, h));
        }
    }
}

/// Stepping the pass effect past a processed collider-request node: the
/// arena gains exactly the collider child, the request node gains exactly
/// that child reference, the attachment root gains exactly the dynamic
/// descriptor, and the store loses exactly the consumed record.
#[verifier::rlimit(100)]
proof fn lemma_scan_step(
    before: Seq<SceneNode>,
    records: Map<u64, GeometryRecord>,
    s0: Seq<SceneNode>,
    m0: Map<u64, GeometryRecord>,
    s3: Seq<SceneNode>,
    m1: Map<u64, GeometryRecord>,
    i: int,
    root: int,
    updated_request: SceneNode,
    updated_root: SceneNode,
    new_node: SceneNode,
)
    requires
        0 <= i < before.len(),
        is_tagged(before, i),
        forall|j: int|
            0 <= j < before.len() ==> (#[trigger] before[j]).wf_at(j, before.len() as int),
        forall|k: int| 0 <= k < s0.len() ==> (#[trigger] s0[k]).wf_at(k, s0.len() as int),
        pass_effect(before, records, s0, m0, i, i),
        s0.len() == before.len() + tagged_count(before, i),
        mesh_search(before, before[i].children@) is Some,
        records.contains_key(handle_of(before, i)),
        m1 == m0.remove(handle_of(before, i)),
        0 <= root <= i,
        root == root_of(before, i),
        new_node.parent == Some(i as usize),
        new_node.transform == before[i].transform,
        new_node.children@.len() == 0,
        new_node.mesh is None,
        !new_node.mesh_collider,
        new_node.body is None,
        new_node.collider matches Some(volume) && volume.vertices@ == records[handle_of(
            before,
            i,
        )].vertex_list() && volume.triangles@ == triples(records[handle_of(
            before,
            i,
        )].widened_indices()),
        updated_request.transform == s0[i].transform,
        updated_request.parent == s0[i].parent,
        updated_request.mesh == s0[i].mesh,
        updated_request.mesh_collider == s0[i].mesh_collider,
        updated_request.collider == s0[i].collider,
        updated_request.body == s0[i].body,
        updated_request.children@ == s0[i].children@.push(
            ((before.len() + tagged_count(before, i)) as usize),
        ),
        ({
            let base = if root == i {
                updated_request
            } else {
                s0[root]
            };
            &&& updated_root.transform == base.transform
            &&& updated_root.parent == base.parent
            &&& updated_root.mesh == base.mesh
            &&& updated_root.mesh_collider == base.mesh_collider
            &&& updated_root.collider == base.collider
            &&& updated_root.children@ == base.children@
            &&& updated_root.body == Some(dynamic_ccd_descriptor())
        }),
        s3 == s0.push(new_node).update(i, updated_request).update(root, updated_root),
    ensures
        pass_effect(before, records, s3, m1, i + 1, i + 1),
        forall|k: int| 0 <= k < s3.len() ==> (#[trigger] s3[k]).wf_at(k, s3.len() as int),
{
    let n = before.len() as int;
    let new_id = n + tagged_count(before, i) as int;
    let handle = handle_of(before, i);
    assert(tagged_count(before, i + 1) == tagged_count(before, i) + 1);
    assert(s3.len() == n + tagged_count(before, i + 1));
    assert(s3[new_id] == new_node);
    assert forall|k: int| 0 <= k < n implies #[trigger] node_frame(before, s3, k) by {
        assert(node_frame(before, s0, k));
    }
    assert forall|k: int|
        0 <= k < n implies #[trigger] children_after(before, s3, i + 1, k) by {
        assert(children_after(before, s0, i, k));
        if k == i {
            assert(s0[i].children@ == before[i].children@);
            assert(s3[i].children@ == before[i].children@.push(
                ((before.len() + tagged_count(before, i)) as usize),
            ));
        }
    }
    assert forall|k: int| 0 <= k < n implies #[trigger] body_after(before, s3, i + 1, k) by {
        assert(body_after(before, s0, i, k));
        if k == root {
            assert(s3[root].body == Some(dynamic_ccd_descriptor()));
            assert(is_rigid_root(before, i + 1, root)) by {
                assert(0 <= i < i + 1 && is_tagged(before, i) && root_of(before, i) == root);
            }
        } else {
            assert(s3[k].body == s0[k].body);
            if is_rigid_root(before, i + 1, k) {
                let j = choose|j: int|
                    0 <= j < i + 1 && is_tagged(before, j) && #[trigger] root_of(before, j) == k;
                assert(j != i);
                assert(is_rigid_root(before, i, k));
            }
            if is_rigid_root(before, i, k) {
                let j = choose|j: int|
                    0 <= j < i && is_tagged(before, j) && #[trigger] root_of(before, j) == k;
                assert(is_rigid_root(before, i + 1, k));
            }
        }
    }
    assert forall|j: int|
        0 <= j < i + 1 && is_tagged(before, j) implies #[trigger] spawned_ok(
        before,
        records,
        s3,
        j,
    ) by {
        if j < i {
            assert(spawned_ok(before, records, s0, j));
            let child = n + tagged_count(before, j) as int;
            assert(tagged_count(before, j + 1) == tagged_count(before, j) + 1);
            lemma_tagged_count_mono(before, j + 1, i);
            assert(child < s0.len());
            assert(s3[child] == s0[child]);
        } else {
            assert(spawned_ok(before, records, s3, i)) by {
                assert(s3[new_id] == new_node);
            }
        }
    }
    assert forall|h: u64|
        m1.contains_key(h) <==> records.contains_key(h) && !removed_handle(
            before,
            i + 1,
            h,
        ) by {
        if removed_handle(before, i + 1, h) && h != handle {
            let j = choose|j: int|
                0 <= j < i + 1 && is_tagged(before, j) && #[trigger] handle_of(before, j) == h;
            assert(j != i);
            assert(removed_handle(before, i, h));
        }
        if removed_handle(before, i, h) {
            let j = choose|j: int|
                0 <= j < i && is_tagged(before, j) && #[trigger] handle_of(before, j) == h;
            assert(removed_handle(before, i + 1, h));
        }
        if h == handle {
            assert(0 <= i < i + 1 && is_tagged(before, i) && handle_of(before, i) == h);
            assert(removed_handle(before, i + 1, h));
        }
    }
    assert forall|h: u64| m1.contains_key(h) implies m1[h] == records[h] by {}
    assert forall|k: int|
        0 <= k < s3.len() implies (#[trigger] s3[k]).wf_at(k, s3.len() as int) by {
        if k < s0.len() {
            assert(s0[k].wf_at(k, s0.len() as int));
            if k == root || k == i {
                assert forall|c: int|
                    0 <= c < s3[k].children@.len() implies (#[trigger] s3[k].children@[c])
                    < s3.len() by {
                    if k == i || (k == root && root == i) {
                        if c < s0[i].children@.len() {
                            assert(s3[k].children@[c] == s0[i].children@[c]);
                        } else {
                            assert(s3[k].children@[c] == new_id as usize);
                        }
                    } else {
                        assert(s3[k].children@[c] == s0[k].children@[c]);
                    }
                }
            }
        } else {
            assert(k == new_id);
            assert(s3[k] == new_node);
        }
    }
}

/// One scan pass over the whole arena.
///
/// Enumerates the collider-request nodes in index order and processes each
/// as the module description says, stopping at the first failure. On
/// success returns how many requests it processed and advances the session
/// state through `next_state`; on failure returns the pinned error and
/// leaves the session state untouched. The tick gate's budget is never
/// touched here.
#[verifier::loop_isolation(false)]
#[verifier::rlimit(60)]
pub fn find_all_colliders(
    arena: &mut SceneArena,
    store: &mut GeometryStore,
    ctx: &mut SessionContext,
) -> (result: Result<usize, PassError>)
    requires
        old(arena).wf(),
        old(store).wf(),
        pass_requires(old(arena).nodes@, old(store).as_map()),
    ensures
        final(arena).wf(),
        final(store).wf(),
        final(ctx).tick_count == old(ctx).tick_count,
        pass_post(
            old(arena).nodes@,
            old(store).as_map(),
            old(ctx).state,
            final(arena).nodes@,
            final(store).as_map(),
            final(ctx).state,
            result,
        ),
{
    let ghost before = arena.nodes@;
    let ghost records = store.as_map();
    let n = arena.nodes.len();
    proof {
        assert(tagged_count(before, 0) == 0);
        assert(pass_effect(before, records, before, records, 0, 0)) by {
            assert forall|k: int| 0 <= k < n implies #[trigger] node_frame(before, before, k) by {}
            assert forall|k: int|
                0 <= k < n implies #[trigger] children_after(before, before, 0, k) by {}
            assert forall|k: int| 0 <= k < n implies #[trigger] body_after(before, before, 0, k) by {}
        }
    }
    let mut processed: usize = 0;
    let mut i: usize = 0;
    while i < n
        invariant
            i <= n,
            arena.wf(),
            store.wf(),
            processed == tagged_count(before, i as int),
            arena.nodes@.len() == n + processed,
            pass_effect(before, records, arena.nodes@, store.as_map(), i as int, i as int),
            forall|j: int|
                0 <= j < i && is_tagged(before, j) ==> (#[trigger] node_error(
                    before,
                    records,
                    j,
                )) is None,
        decreases n - i,
    {
        let ghost s0 = arena.nodes@;
        let ghost m0 = store.as_map();
        proof {
            assert(node_frame(before, s0, i as int));
            assert(children_after(before, s0, i as int, i as int));
            assert(s0[i as int].children@ == before[i as int].children@);
        }
        if arena.nodes[i].mesh_collider {
            if arena.nodes[i].children.len() == 0 {
                proof {
                    assert(node_error(before, records, i as int) == Some(
                        PassError::MissingChildren(i),
                    ));
                    lemma_first_failure_pinpoint(before, records, 0, i as int, n as int);
                }
                return Err(PassError::MissingChildren(i));
            }
            proof {
                assert(before[i as int].wf_at(i as int, n as int));
                assert forall|j: int| 0 <= j < n implies before[j].mesh == s0[j].mesh by {
                    assert(node_frame(before, s0, j));
                }
                lemma_mesh_search_stable(before, s0, before[i as int].children@);
            }
            let found = first_mesh_child(arena, i);
            let child = match found {
                None => {
                    proof {
                        assert(node_error(before, records, i as int) == Some(
                            PassError::MissingMesh(i),
                        ));
                        lemma_first_failure_pinpoint(before, records, 0, i as int, n as int);
                    }
                    return Err(PassError::MissingMesh(i));
                },
                Some(child) => child,
            };
            proof {
                lemma_mesh_search_found(before, before[i as int].children@);
                assert(mesh_child_of(before, i as int) == child);
                assert(node_frame(before, s0, child as int));
                assert(s0[child as int].mesh == before[child as int].mesh);
            }
            let handle = arena.nodes[child].mesh.unwrap();
            proof {
                assert(handle == handle_of(before, i as int));
                assert(records.contains_key(handle));
                assert(!removed_handle(before, i as int, handle)) by {
                    if removed_handle(before, i as int, handle) {
                        let j = choose|j: int|
                            0 <= j < i && is_tagged(before, j) && #[trigger] handle_of(
                                before,
                                j,
                            ) == handle;
                        assert(node_error(before, records, j) is None);
                        assert(mesh_search(before, before[j].children@) is Some);
                        assert(handle_of(before, j) != handle_of(before, i as int));
                    }
                }
                assert(m0.contains_key(handle));
                assert(m0[handle] == records[handle]);
            }
            let removed = store.remove(handle);
            let record = removed.unwrap();
            let ghost m1 = store.as_map();
            proof {
                assert(record == records[handle]);
                assert(record.indices_well_formed());
            }
            let volume = match mesh_to_collider(record) {
                Err(error) => {
                    proof {
                        assert(!convertible(records[handle_of(before, i as int)]));
                        assert(node_error(before, records, i as int) == Some(
                            PassError::Geometry(
                                i,
                                conversion_error(records[handle_of(before, i as int)]),
                            ),
                        ));
                        lemma_first_failure_pinpoint(before, records, 0, i as int, n as int);
                        assert(store_bound_of(before, records, i as int) == i as int + 1);
                        assert forall|h: u64|
                            m1.contains_key(h) <==> records.contains_key(h) && !removed_handle(
                                before,
                                i as int + 1,
                                h,
                            ) by {
                            if removed_handle(before, i as int + 1, h) && h != handle {
                                let j = choose|j: int|
                                    0 <= j < i as int + 1 && is_tagged(before, j)
                                        && #[trigger] handle_of(before, j) == h;
                                assert(removed_handle(before, i as int, h));
                            }
                            if removed_handle(before, i as int, h) {
                                assert(removed_handle(before, i as int + 1, h));
                            }
                            if h == handle {
                                assert(removed_handle(before, i as int + 1, h));
                            }
                        }
                        assert(pass_effect(before, records, s0, m1, i as int, i as int + 1));
                    }
                    return Err(PassError::Geometry(i, error));
                },
                Ok(volume) => volume,
            };
            proof {
                assert(node_error(before, records, i as int) is None);
                assert forall|j: int| 0 <= j < n implies before[j].parent == s0[j].parent by {
                    assert(node_frame(before, s0, j));
                }
                lemma_root_of_stable(before, s0, i as int);
            }
            let root = attachment_root(arena, i);
            proof {
                assert(root as int == root_of(before, i as int));
                lemma_root_of_is_root(before, i as int);
                assert(root <= i);
            }
            let transform = arena.nodes[i].transform;
            let new_id = arena.nodes.len();
            let new_node = SceneNode {
                transform,
                parent: Some(i),
                children: Vec::new(),
                mesh: None,
                mesh_collider: false,
                collider: Some(volume),
                body: None,
            };
            arena.nodes.push(new_node);
            let ghost s1 = arena.nodes@;
            let mut request_node = arena.nodes.remove(i);
            request_node.children.push(new_id);
            let ghost updated_request = request_node;
            arena.nodes.insert(i, request_node);
            let ghost s2 = arena.nodes@;
            let mut root_node = arena.nodes.remove(root);
            root_node.body = Some(RigidBodyDescriptor { dynamic: true, ccd: true });
            let ghost updated_root = root_node;
            arena.nodes.insert(root, root_node);
            let ghost s3 = arena.nodes@;
            processed = processed + 1;
            proof {
                lemma_tagged_count_le(before, i as int);
                assert(tagged_count(before, i as int + 1) == tagged_count(before, i as int) + 1);
                assert(s2 =~= s1.update(i as int, updated_request));
                assert(s3 =~= s2.update(root as int, updated_root));
                assert(new_id == n + tagged_count(before, i as int));
                lemma_scan_step(
                    before,
                    records,
                    s0,
                    m0,
                    s3,
                    m1,
                    i as int,
                    root as int,
                    updated_request,
                    updated_root,
                    new_node,
                );
            }
        } else {
            proof {
                lemma_skip_step(before, records, arena.nodes@, store.as_map(), i as int);
                assert(tagged_count(before, i as int + 1) == tagged_count(before, i as int));
            }
        }
        i = i + 1;
    }
    proof {
        lemma_first_failure_pinpoint(before, records, 0, n as int, n as int);
    }
    if processed > 0 {
        ctx.state = ColliderState::Done;
        proof {
            assert(next_state(old(ctx).state, processed as nat) == ColliderState::Done);
        }
    } else {
        proof {
            assert(next_state(old(ctx).state, 0nat) == old(ctx).state);
        }
    }
    Ok(processed)
}

/// One scheduling tick: evaluate the tick gate, and run a scan pass exactly when
/// it reports eligible.
///
/// The tick gate consumes one unit of tick budget unconditionally. An ineligible
/// tick leaves arena, store and session state untouched and reports no
/// outcome; an eligible tick reports the pass result.
pub fn tick(
    arena: &mut SceneArena,
    store: &mut GeometryStore,
    ctx: &mut SessionContext,
    assets_loaded: bool,
) -> (outcome: Option<Result<usize, PassError>>)
    requires
        old(arena).wf(),
        old(store).wf(),
        pass_requires(old(arena).nodes@, old(store).as_map()),
        old(ctx).tick_count < u64::MAX,
    ensures
        final(arena).wf(),
        final(store).wf(),
        final(ctx).tick_count == old(ctx).tick_count + 1,
        outcome is Some <==> gate_decision(old(ctx).tick_count, assets_loaded, old(ctx).state),
        outcome matches Some(result) ==> pass_post(
            old(arena).nodes@,
            old(store).as_map(),
            old(ctx).state,
            final(arena).nodes@,
            final(store).as_map(),
            final(ctx).state,
            result,
        ),
        outcome is None ==> final(arena).nodes@ == old(arena).nodes@ && final(store).as_map()
            == old(store).as_map() && final(ctx).state == old(ctx).state,
{
    let eligible = valid_state(ctx, assets_loaded);
    if eligible {
        Some(find_all_colliders(arena, store, ctx))
    } else {
        None
    }
}

} // verus!
