use gltf_collider::collider::ColliderFromMeshError;
use gltf_collider::collider::mesh_to_collider;
use gltf_collider::geometry::GeometryRecord;
use gltf_collider::geometry::Indices;
use gltf_collider::geometry::Triangle;
use gltf_collider::geometry::Vec3Bits;
use gltf_collider::geometry::VertexData;

fn unit_triangle_positions() -> Vec<Vec3Bits> {
    vec![
        Vec3Bits { x: 0, y: 0, z: 0 },
        Vec3Bits { x: 0x3f800000, y: 0, z: 0 },
        Vec3Bits { x: 0, y: 0x3f800000, z: 0 },
    ]
}

#[test]
fn convert_simple_triangle() {
    let record = GeometryRecord {
        positions: Some(VertexData::Vec3(unit_triangle_positions())),
        indices: Some(Indices::U32(vec![0, 1, 2])),
    };
    let volume = mesh_to_collider(record).expect("triangle should convert");
    assert_eq!(volume.vertices.len(), 3);
    assert_eq!(volume.triangles.len(), 1);
    assert_eq!(volume.triangles[0], Triangle { a: 0, b: 1, c: 2 });
}

#[test]
fn convert_nondegenerate_mesh_is_non_empty() {
    let record = GeometryRecord {
        positions: Some(VertexData::Vec3(unit_triangle_positions())),
        indices: Some(Indices::U32(vec![0, 1, 2, 2, 1, 0])),
    };
    let volume = mesh_to_collider(record).expect("non-degenerate mesh should convert");
    assert!(!volume.vertices.is_empty());
    assert!(!volume.triangles.is_empty());
    assert_eq!(volume.triangles.len(), 2);
}

#[test]
fn convert_missing_positions() {
    let record = GeometryRecord {
        positions: None,
        indices: Some(Indices::U32(vec![0, 1, 2])),
    };
    let error = mesh_to_collider(record).unwrap_err();
    assert!(matches!(error, ColliderFromMeshError::MissingPositions));
}

#[test]
fn convert_missing_indices() {
    let record = GeometryRecord {
        positions: Some(VertexData::Vec3(unit_triangle_positions())),
        indices: None,
    };
    let error = mesh_to_collider(record).unwrap_err();
    assert!(matches!(error, ColliderFromMeshError::MissingIndices));
}

#[test]
fn convert_invalid_positions_type_carries_name() {
    let record = GeometryRecord {
        positions: Some(VertexData::Other(String::from("Float32x2"))),
        indices: Some(Indices::U32(vec![0, 1, 2])),
    };
    let error = mesh_to_collider(record).unwrap_err();
    match error {
        ColliderFromMeshError::InvalidPositionsType(name) => assert_eq!(name, "Float32x2"),
        other => panic!("expected InvalidPositionsType, got {:?}", other),
    }
}

#[test]
fn convert_checks_index_presence_before_encoding() {
    let record = GeometryRecord {
        positions: Some(VertexData::Other(String::from("Uint8x4"))),
        indices: None,
    };
    let error = mesh_to_collider(record).unwrap_err();
    assert!(matches!(error, ColliderFromMeshError::MissingIndices));
}

#[test]
fn convert_widens_16_bit_indices_to_same_triangles() {
    let narrow = GeometryRecord {
        positions: Some(VertexData::Vec3(unit_triangle_positions())),
        indices: Some(Indices::U16(vec![0, 1, 2, 2, 1, 0])),
    };
    let wide = GeometryRecord {
        positions: Some(VertexData::Vec3(unit_triangle_positions())),
        indices: Some(Indices::U32(vec![0, 1, 2, 2, 1, 0])),
    };
    let narrow_volume = mesh_to_collider(narrow).expect("16-bit record should convert");
    let wide_volume = mesh_to_collider(wide).expect("32-bit record should convert");
    assert_eq!(narrow_volume.vertices, wide_volume.vertices);
    assert_eq!(narrow_volume.triangles, wide_volume.triangles);
}
