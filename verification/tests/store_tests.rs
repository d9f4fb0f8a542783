use gltf_collider::geometry::GeometryRecord;
use gltf_collider::geometry::Indices;
use gltf_collider::store::GeometryStore;

fn record_with_index_count(count: usize) -> GeometryRecord {
    GeometryRecord {
        positions: None,
        indices: Some(Indices::U32(vec![0; count])),
    }
}

#[test]
fn store_removal_is_destructive() {
    let mut store = GeometryStore::new();
    store.insert(1, record_with_index_count(3));
    store.insert(2, record_with_index_count(6));
    assert!(store.contains(1));
    assert!(store.contains(2));

    let removed = store.remove(1).expect("handle 1 is stored");
    match removed.indices {
        Some(Indices::U32(entries)) => assert_eq!(entries.len(), 3),
        _ => panic!("expected the 32-bit index buffer back"),
    }
    assert!(!store.contains(1));
    assert!(store.contains(2));

    // A second removal of the same handle finds nothing.
    assert!(store.remove(1).is_none());
}

#[test]
fn store_insert_replaces_existing_record() {
    let mut store = GeometryStore::new();
    store.insert(5, record_with_index_count(3));
    store.insert(5, record_with_index_count(9));
    let record = store.remove(5).expect("handle 5 is stored");
    match record.indices {
        Some(Indices::U32(entries)) => assert_eq!(entries.len(), 9),
        _ => panic!("expected the 32-bit index buffer back"),
    }
    assert!(!store.contains(5));
}

#[test]
fn store_misses_unknown_handles() {
    let mut store = GeometryStore::new();
    assert!(!store.contains(42));
    assert!(store.remove(42).is_none());
}
