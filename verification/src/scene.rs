//! The scene hierarchy, modelled as an arena of nodes addressed by index.
//!
//! Parent links are weak back-references (lookup only); each node owns an
//! ordered list of child indices. Nodes are spawned parents-first, so a
//! parent index is always smaller than its child's — which is what makes
//! walking a parent chain terminate.

use vstd::prelude::*;

use crate::collider::ColliderVolume;

verus! {

/// A rotation, each component held as the raw bit pattern of a 32-bit
/// float. The core copies rotations but never interprets them.
#[derive(Debug, Clone, Copy, PartialEq, Eq, Structural)]
pub struct QuatBits {
    pub x: u32,
    pub y: u32,
    pub z: u32,
    pub w: u32,
}

/// A three-component vector of raw 32-bit float patterns.
#[derive(Debug, Clone, Copy, PartialEq, Eq, Structural)]
pub struct TransformVec3 {
    pub x: u32,
    pub y: u32,
    pub z: u32,
}

/// A node's local transform. The core copies it verbatim onto the collider
/// child it spawns and never reads into it.
#[derive(Debug, Clone, Copy, PartialEq, Eq, Structural)]
pub struct Transform {
    pub translation: TransformVec3,
    pub rotation: QuatBits,
    pub scale: TransformVec3,
}

/// Rigid-body dynamics settings placed on an attachment root: a dynamics
/// flag and a continuous-collision-detection flag.
#[derive(Debug, Clone, Copy, PartialEq, Eq, Structural)]
pub struct RigidBodyDescriptor {
    pub dynamic: bool,
    pub ccd: bool,
}

/// One node of the scene hierarchy.
#[derive(Debug)]
pub struct SceneNode {
    /// The node's local transform.
    pub transform: Transform,
    /// Weak back-reference to the parent node, if any.
    pub parent: Option<usize>,
    /// Owned, ordered list of child-node indices.
    pub children: Vec<usize>,
    /// Handle into the geometry store, for nodes that expose mesh data.
    pub mesh: Option<u64>,
    /// The collider-request marker: this node asks for a collision volume
    /// built from a descendant's mesh.
    pub mesh_collider: bool,
    /// The collision volume a spawned collider child carries.
    pub collider: Option<ColliderVolume>,
    /// The rigid-body settings placed on an attachment root.
    pub body: Option<RigidBodyDescriptor>,
}

impl SceneNode {
    /// Structural soundness of one node inside an arena of `len` nodes at
    /// index `index`: the parent link points strictly upwards (so parent
    /// chains terminate) and every child index is in range.
    pub open spec fn wf_at(self, index: int, len: int) -> bool {
        &&& (self.parent matches Some(parent_index) ==> parent_index < index)
        &&& forall|k: int|
            0 <= k < self.children@.len() ==> (#[trigger] self.children@[k]) < len
    }
}

/// The scene hierarchy arena.
#[derive(Debug)]
pub struct SceneArena {
    pub nodes: Vec<SceneNode>,
}

impl SceneArena {
    /// Every node is structurally sound.
    pub open spec fn wf(self) -> bool {
        forall|i: int|
            0 <= i < self.nodes@.len() ==> (#[trigger] self.nodes@[i]).wf_at(
                i,
                self.nodes@.len() as int,
            )
    }

    /// An empty hierarchy.
    pub fn new() -> (arena: SceneArena)
        ensures
            arena.nodes@.len() == 0,
            arena.wf(),
    {
        SceneArena { nodes: Vec::new() }
    }
}

/// The topmost ancestor of node `i`: follow the parent back-references until
/// a node with no parent is reached. (The guard against a non-decreasing
/// parent link makes the walk well-defined on any arena; on a well-formed
/// one the guard never fires.)
pub open spec fn root_of(nodes: Seq<SceneNode>, i: int) -> int
    recommends
        0 <= i < nodes.len(),
    decreases i,
{
    if 0 <= i < nodes.len() {
        match nodes[i].parent {
            None => i,
            Some(parent_index) => if parent_index < i {
                root_of(nodes, parent_index as int)
            } else {
                i
            },
        }
    } else {
        i
    }
}

/// On a well-formed arena, the walk to the topmost ancestor ends at a node
/// in range, at or below the start index, that has no parent.
pub proof fn lemma_root_of_is_root(nodes: Seq<SceneNode>, i: int)
    requires
        0 <= i < nodes.len(),
        forall|j: int| 0 <= j < nodes.len() ==> (#[trigger] nodes[j]).wf_at(j, nodes.len() as int),
    ensures
        0 <= root_of(nodes, i) <= i,
        nodes[root_of(nodes, i)].parent is None,
    decreases i,
{
    match nodes[i].parent {
        None => {},
        Some(parent_index) => {
            lemma_root_of_is_root(nodes, parent_index as int);
        },
    }
}

/// The topmost ancestor depends only on the parent links: two arenas that
/// agree on the parent link of every node of the first also agree on the
/// walk from any node of the first.
pub proof fn lemma_root_of_stable(nodes1: Seq<SceneNode>, nodes2: Seq<SceneNode>, i: int)
    requires
        0 <= i < nodes1.len(),
        nodes1.len() <= nodes2.len(),
        forall|j: int| 0 <= j < nodes1.len() ==> nodes1[j].parent == nodes2[j].parent,
    ensures
        root_of(nodes1, i) == root_of(nodes2, i),
    decreases i,
{
    match nodes1[i].parent {
        None => {},
        Some(parent_index) => {
            if parent_index < i {
                lemma_root_of_stable(nodes1, nodes2, parent_index as int);
            }
        },
    }
}

/// The walk to the topmost ancestor of node `i`, executably.
pub fn attachment_root(arena: &SceneArena, start: usize) -> (root: usize)
    requires
        arena.wf(),
        start < arena.nodes@.len(),
    ensures
        root as int == root_of(arena.nodes@, start as int),
        root < arena.nodes@.len(),
        arena.nodes@[root as int].parent is None,
{
    let mut current = start;
    while arena.nodes[current].parent.is_some()
        invariant
            arena.wf(),
            current < arena.nodes@.len(),
            root_of(arena.nodes@, current as int) == root_of(arena.nodes@, start as int),
        decreases current,
    {
        let parent_index = arena.nodes[current].parent.unwrap();
        proof {
            assert(arena.nodes@[current as int].wf_at(
                current as int,
                arena.nodes@.len() as int,
            ));
        }
        current = parent_index;
    }
    current
}

/// The first child in `children`, in order, that exposes mesh data.
pub open spec fn mesh_search(nodes: Seq<SceneNode>, children: Seq<usize>) -> Option<usize>
    decreases children.len(),
{
    if children.len() == 0 {
        None
    } else {
        let child = children[0];
        if child < nodes.len() && nodes[child as int].mesh is Some {
            Some(child)
        } else {
            mesh_search(nodes, children.drop_first())
        }
    }
}

/// Whatever the search finds is an in-range node exposing mesh data.
pub proof fn lemma_mesh_search_found(nodes: Seq<SceneNode>, children: Seq<usize>)
    ensures
        mesh_search(nodes, children) matches Some(child) ==> child < nodes.len()
            && nodes[child as int].mesh is Some,
    decreases children.len(),
{
    if children.len() > 0 {
        lemma_mesh_search_found(nodes, children.drop_first());
    }
}

/// The search depends only on the mesh handles of the children it visits:
/// two arenas that agree on the mesh handle of every node of the first also
/// agree on any search over in-range children.
pub proof fn lemma_mesh_search_stable(
    nodes1: Seq<SceneNode>,
    nodes2: Seq<SceneNode>,
    children: Seq<usize>,
)
    requires
        nodes1.len() <= nodes2.len(),
        forall|j: int| 0 <= j < nodes1.len() ==> nodes1[j].mesh == nodes2[j].mesh,
        forall|k: int| 0 <= k < children.len() ==> (#[trigger] children[k]) < nodes1.len(),
    ensures
        mesh_search(nodes1, children) == mesh_search(nodes2, children),
    decreases children.len(),
{
    if children.len() > 0 {
        lemma_mesh_search_stable(nodes1, nodes2, children.drop_first());
    }
}

/// Searches the children of node `tagged`, in order, for the first one that
/// exposes mesh data.
pub fn first_mesh_child(arena: &SceneArena, tagged: usize) -> (found: Option<usize>)
    requires
        arena.wf(),
        tagged < arena.nodes@.len(),
    ensures
        found == mesh_search(arena.nodes@, arena.nodes@[tagged as int].children@),
{
    let children = &arena.nodes[tagged].children;
    let ghost all_children: Seq<usize> = children@;
    proof {
        assert(all_children.skip(0) =~= all_children);
    }
    let mut j: usize = 0;
    while j < children.len()
        invariant
            arena.wf(),
            tagged < arena.nodes@.len(),
            children@ == all_children,
            all_children == arena.nodes@[tagged as int].children@,
            j <= all_children.len(),
            mesh_search(arena.nodes@, all_children) == mesh_search(
                arena.nodes@,
                all_children.skip(j as int),
            ),
        decreases all_children.len() - j,
    {
        let child = children[j];
        proof {
            assert(arena.nodes@[tagged as int].wf_at(tagged as int, arena.nodes@.len() as int));
            assert(all_children.skip(j as int)[0] == child);
            assert(all_children.skip(j as int).drop_first() =~= all_children.skip(j + 1));
        }
        if arena.nodes[child].mesh.is_some() {
            return Some(child);
        }
        j = j + 1;
    }
    proof {
        assert(all_children.skip(all_children.len() as int) =~= Seq::<usize>::empty());
    }
    None
}

} // verus!
