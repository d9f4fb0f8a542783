use gltf_collider::geometry::GeometryRecord;
use gltf_collider::geometry::Indices;
use gltf_collider::geometry::Triangle;
use gltf_collider::geometry::Vec3Bits;
use gltf_collider::geometry::VertexData;
use gltf_collider::scanner::PassError;
use gltf_collider::scanner::find_all_colliders;
use gltf_collider::scanner::tick;
use gltf_collider::scene::QuatBits;
use gltf_collider::scene::RigidBodyDescriptor;
use gltf_collider::scene::SceneArena;
use gltf_collider::scene::SceneNode;
use gltf_collider::scene::Transform;
use gltf_collider::scene::TransformVec3;
use gltf_collider::schedule::ColliderState;
use gltf_collider::schedule::SessionContext;
use gltf_collider::store::GeometryStore;

fn transform_at(x: u32) -> Transform {
    Transform {
        translation: TransformVec3 { x, y: 0, z: 0 },
        rotation: QuatBits { x: 0, y: 0, z: 0, w: 0x3f800000 },
        scale: TransformVec3 { x: 0x3f800000, y: 0x3f800000, z: 0x3f800000 },
    }
}

fn plain_node(parent: Option<usize>) -> SceneNode {
    SceneNode {
        transform: transform_at(0),
        parent,
        children: Vec::new(),
        mesh: None,
        mesh_collider: false,
        collider: None,
        body: None,
    }
}

fn triangle_record() -> GeometryRecord {
    GeometryRecord {
        positions: Some(VertexData::Vec3(vec![
            Vec3Bits { x: 0, y: 0, z: 0 },
            Vec3Bits { x: 0x3f800000, y: 0, z: 0 },
            Vec3Bits { x: 0, y: 0x3f800000, z: 0 },
        ])),
        indices: Some(Indices::U32(vec![0, 1, 2])),
    }
}

/// root(0) -> mid(1) -> tagged(2) -> mesh child(3); the record sits in the
/// store under handle 7.
fn three_level_scene() -> (SceneArena, GeometryStore) {
    let mut root = plain_node(None);
    root.children = vec![1];
    let mut mid = plain_node(Some(0));
    mid.children = vec![2];
    let mut tagged = plain_node(Some(1));
    tagged.transform = transform_at(0x40000000);
    tagged.children = vec![3];
    tagged.mesh_collider = true;
    let mut mesh_child = plain_node(Some(2));
    mesh_child.mesh = Some(7);
    let arena = SceneArena { nodes: vec![root, mid, tagged, mesh_child] };
    let mut store = GeometryStore::new();
    store.insert(7, triangle_record());
    (arena, store)
}

#[test]
fn three_level_hierarchy_attaches_where_it_should() {
    let (mut arena, mut store) = three_level_scene();
    let mut ctx = SessionContext::new();
    let result = find_all_colliders(&mut arena, &mut store, &mut ctx);
    assert_eq!(result.expect("pass should succeed"), 1);

    // The rigid body goes on the topmost ancestor only.
    let descriptor = RigidBodyDescriptor { dynamic: true, ccd: true };
    assert_eq!(arena.nodes[0].body, Some(descriptor));
    assert_eq!(arena.nodes[1].body, None);
    assert_eq!(arena.nodes[2].body, None);
    assert_eq!(arena.nodes[3].body, None);

    // The collider child is parented under the tagged node, not the root
    // or the mid node, and copies the tagged node's transform.
    assert_eq!(arena.nodes.len(), 5);
    assert_eq!(arena.nodes[4].parent, Some(2));
    assert_eq!(arena.nodes[2].children, vec![3, 4]);
    assert_eq!(arena.nodes[4].transform, transform_at(0x40000000));
    assert_eq!(arena.nodes[4].body, None);
    let volume = arena.nodes[4].collider.as_ref().expect("collider child carries the volume");
    assert_eq!(volume.triangles, vec![Triangle { a: 0, b: 1, c: 2 }]);

    // The record was consumed and the session is done.
    assert!(!store.contains(7));
    assert_eq!(ctx.state, ColliderState::Done);
}

#[test]
fn missing_mesh_fails_and_state_stays_waiting() {
    let mut tagged = plain_node(None);
    tagged.mesh_collider = true;
    tagged.children = vec![1, 2];
    // Two children, neither exposing mesh data.
    let bare_a = plain_node(Some(0));
    let bare_b = plain_node(Some(0));
    let mut arena = SceneArena { nodes: vec![tagged, bare_a, bare_b] };
    let mut store = GeometryStore::new();
    let mut ctx = SessionContext::new();
    let error = find_all_colliders(&mut arena, &mut store, &mut ctx).unwrap_err();
    assert!(matches!(error, PassError::MissingMesh(0)));
    assert_eq!(ctx.state, ColliderState::Waiting);
    assert_eq!(arena.nodes.len(), 3);
    assert_eq!(arena.nodes[0].body, None);
}

#[test]
fn missing_children_fails() {
    let mut tagged = plain_node(None);
    tagged.mesh_collider = true;
    let mut arena = SceneArena { nodes: vec![tagged] };
    let mut store = GeometryStore::new();
    let mut ctx = SessionContext::new();
    let error = find_all_colliders(&mut arena, &mut store, &mut ctx).unwrap_err();
    assert!(matches!(error, PassError::MissingChildren(0)));
    assert_eq!(ctx.state, ColliderState::Waiting);
}

#[test]
fn malformed_geometry_fails_and_state_stays_waiting() {
    let mut tagged = plain_node(None);
    tagged.mesh_collider = true;
    tagged.children = vec![1];
    let mut mesh_child = plain_node(Some(0));
    mesh_child.mesh = Some(3);
    let mut arena = SceneArena { nodes: vec![tagged, mesh_child] };
    let mut store = GeometryStore::new();
    store.insert(
        3,
        GeometryRecord {
            positions: Some(VertexData::Other(String::from("Float32x2"))),
            indices: Some(Indices::U32(vec![0, 1, 2])),
        },
    );
    let mut ctx = SessionContext::new();
    let error = find_all_colliders(&mut arena, &mut store, &mut ctx).unwrap_err();
    match error {
        PassError::Geometry(node, _) => assert_eq!(node, 0),
        other => panic!("expected a geometry error, got {:?}", other),
    }
    assert_eq!(ctx.state, ColliderState::Waiting);
}

/// Two independent tagged nodes in one pass: both must be fully processed
/// — collider child under each, rigid body on each one's own root — before
/// the single transition to Done.
#[test]
fn two_tagged_nodes_both_processed_then_one_transition() {
    // Tree one: root(0) -> tagged(1) -> mesh child(2), handle 10.
    // Tree two: root(3) -> tagged(4) -> mesh child(5), handle 11.
    let mut root_a = plain_node(None);
    root_a.children = vec![1];
    let mut tagged_a = plain_node(Some(0));
    tagged_a.mesh_collider = true;
    tagged_a.children = vec![2];
    let mut mesh_a = plain_node(Some(1));
    mesh_a.mesh = Some(10);
    let mut root_b = plain_node(None);
    root_b.children = vec![4];
    let mut tagged_b = plain_node(Some(3));
    tagged_b.mesh_collider = true;
    tagged_b.children = vec![5];
    let mut mesh_b = plain_node(Some(4));
    mesh_b.mesh = Some(11);
    let mut arena = SceneArena {
        nodes: vec![root_a, tagged_a, mesh_a, root_b, tagged_b, mesh_b],
    };
    let mut store = GeometryStore::new();
    store.insert(10, triangle_record());
    store.insert(11, triangle_record());
    let mut ctx = SessionContext::new();

    let result = find_all_colliders(&mut arena, &mut store, &mut ctx);
    assert_eq!(result.expect("pass should succeed"), 2);

    let descriptor = RigidBodyDescriptor { dynamic: true, ccd: true };
    assert_eq!(arena.nodes[0].body, Some(descriptor));
    assert_eq!(arena.nodes[3].body, Some(descriptor));
    assert_eq!(arena.nodes.len(), 8);
    assert_eq!(arena.nodes[6].parent, Some(1));
    assert_eq!(arena.nodes[7].parent, Some(4));
    assert!(!store.contains(10));
    assert!(!store.contains(11));
    assert_eq!(ctx.state, ColliderState::Done);
}

/// If the second of two tagged nodes cannot be processed, the pass fails
/// and the partial processing of the first must not flip the state.
#[test]
fn partial_processing_does_not_flip_the_state() {
    let mut tagged_a = plain_node(None);
    tagged_a.mesh_collider = true;
    tagged_a.children = vec![1];
    let mut mesh_a = plain_node(Some(0));
    mesh_a.mesh = Some(10);
    let mut tagged_b = plain_node(None);
    tagged_b.mesh_collider = true;
    tagged_b.children = vec![3];
    // The second tagged node's only child exposes no mesh data.
    let bare = plain_node(Some(2));
    let mut arena = SceneArena { nodes: vec![tagged_a, mesh_a, tagged_b, bare] };
    let mut store = GeometryStore::new();
    store.insert(10, triangle_record());
    let mut ctx = SessionContext::new();

    let error = find_all_colliders(&mut arena, &mut store, &mut ctx).unwrap_err();
    assert!(matches!(error, PassError::MissingMesh(2)));
    // The first node was processed (its collider child exists) but the
    // state must remain Waiting.
    assert_eq!(arena.nodes.len(), 5);
    assert_eq!(arena.nodes[4].parent, Some(0));
    assert_eq!(ctx.state, ColliderState::Waiting);
}

#[test]
fn pass_with_no_requests_leaves_state_waiting() {
    let mut arena = SceneArena { nodes: vec![plain_node(None)] };
    let mut store = GeometryStore::new();
    let mut ctx = SessionContext::new();
    let result = find_all_colliders(&mut arena, &mut store, &mut ctx);
    assert_eq!(result.expect("empty pass should succeed"), 0);
    assert_eq!(ctx.state, ColliderState::Waiting);
    assert_eq!(arena.nodes.len(), 1);
}

#[test]
fn tick_gates_the_pass() {
    let (mut arena, mut store) = three_level_scene();
    let mut ctx = SessionContext::new();

    // Assets still loading: no pass runs, budget is consumed.
    let outcome = tick(&mut arena, &mut store, &mut ctx, false);
    assert!(outcome.is_none());
    assert_eq!(ctx.tick_count, 1);
    assert_eq!(arena.nodes.len(), 4);

    // Assets loaded: the pass runs and the session finishes.
    let outcome = tick(&mut arena, &mut store, &mut ctx, true);
    assert_eq!(outcome.expect("eligible tick").expect("pass should succeed"), 1);
    assert_eq!(ctx.tick_count, 2);
    assert_eq!(ctx.state, ColliderState::Done);

    // Once done, later ticks never run another pass, whatever appears.
    let outcome = tick(&mut arena, &mut store, &mut ctx, true);
    assert!(outcome.is_none());
    assert_eq!(ctx.tick_count, 3);
    assert_eq!(arena.nodes.len(), 5);
}

/// Once the session is Done, no later pass outcome ever reverts it.
#[test]
fn done_never_reverts() {
    let mut ctx = SessionContext::new();
    ctx.state = ColliderState::Done;

    // A pass that finds nothing leaves Done alone.
    let mut empty_arena = SceneArena { nodes: vec![plain_node(None)] };
    let mut empty_store = GeometryStore::new();
    let result = find_all_colliders(&mut empty_arena, &mut empty_store, &mut ctx);
    assert_eq!(result.expect("empty pass should succeed"), 0);
    assert_eq!(ctx.state, ColliderState::Done);

    // Even a pass that processes a late-appearing request leaves Done alone.
    let (mut arena, mut store) = three_level_scene();
    let result = find_all_colliders(&mut arena, &mut store, &mut ctx);
    assert_eq!(result.expect("pass should succeed"), 1);
    assert_eq!(ctx.state, ColliderState::Done);
}
