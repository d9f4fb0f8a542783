//! Mesh-to-collider conversion: the pure transformation from a geometry
//! record to a physics collision volume.
//!
//! Conversion validates the record, widens the index buffer to a uniform
//! 32-bit width, partitions it into triangles, and yields the exact vertex
//! and triangle lists for the convex-decomposition primitive. That primitive
//! works on floating-point data and runs outside this core; the volume
//! produced here carries its input verbatim.

use vstd::prelude::*;

use crate::geometry::GeometryRecord;
use crate::geometry::Indices;
use crate::geometry::Triangle;
use crate::geometry::Vec3Bits;
use crate::geometry::VertexData;
use crate::geometry::triples;
use crate::geometry::widened;

verus! {

/// A convex-decomposition job: the vertex list and triangle list built from
/// one geometry record, exactly as they are handed to the decomposition
/// primitive. It carries no invariant beyond being non-empty when the input
/// mesh was non-degenerate.
#[derive(Debug)]
pub struct ColliderVolume {
    pub vertices: Vec<Vec3Bits>,
    pub triangles: Vec<Triangle>,
}

impl ColliderVolume {
    /// A volume with vertices and at least one whole triangle.
    pub open spec fn is_non_empty(self) -> bool {
        self.vertices@.len() > 0 && self.triangles@.len() > 0
    }
}

/// Why a geometry record cannot become a collision volume. All three signal
/// authoring defects in the content, never transient runtime conditions.
#[derive(Debug)]
pub enum ColliderFromMeshError {
    /// The record carries no position attribute.
    MissingPositions,
    /// The record carries no index buffer.
    MissingIndices,
    /// The position attribute uses an encoding other than the expected
    /// three-component vector layout; carries that encoding's identifying
    /// name for diagnostics.
    InvalidPositionsType(String),
}

/// Whether a record converts: it must carry positions in the expected
/// layout and an index buffer.
pub open spec fn convertible(mesh: GeometryRecord) -> bool {
    mesh.has_vec3_positions() && mesh.indices is Some
}

/// The error a non-convertible record is rejected with. Checks run in a
/// fixed order: position presence, then index presence, then position
/// encoding.
pub open spec fn conversion_error(mesh: GeometryRecord) -> ColliderFromMeshError
    recommends
        !convertible(mesh),
{
    if mesh.positions is None {
        ColliderFromMeshError::MissingPositions
    } else if mesh.indices is None {
        ColliderFromMeshError::MissingIndices
    } else {
        match mesh.positions {
            Some(VertexData::Other(name)) => ColliderFromMeshError::InvalidPositionsType(name),
            _ => ColliderFromMeshError::MissingPositions,
        }
    }
}

/// Converts one geometry record into a collision volume, consuming the
/// record.
///
/// Succeeds exactly on convertible records, returning the record's vertex
/// list together with its index buffer widened to 32 bits and partitioned
/// into consecutive triples. An index-buffer length that is not a multiple
/// of three is an authoring-time defect and excluded by precondition, as is
/// an out-of-range index.
pub fn mesh_to_collider(mesh: GeometryRecord) -> (result: Result<
    ColliderVolume,
    ColliderFromMeshError,
>)
    requires
        mesh.indices_well_formed(),
    ensures
        result is Ok <==> convertible(mesh),
        result matches Ok(volume) ==> volume.vertices@ == mesh.vertex_list()
            && volume.triangles@ == triples(mesh.widened_indices()),
        result matches Err(error) ==> error == conversion_error(mesh),
{
    let positions = match mesh.positions {
        Some(data) => data,
        None => {
            return Err(ColliderFromMeshError::MissingPositions);
        },
    };
    let indices = match mesh.indices {
        Some(buffer) => buffer,
        None => {
            return Err(ColliderFromMeshError::MissingIndices);
        },
    };
    let vertices = match positions {
        VertexData::Vec3(vertices) => vertices,
        VertexData::Other(name) => {
            return Err(ColliderFromMeshError::InvalidPositionsType(name));
        },
    };
    let wide = widen_indices(indices);
    let triangles = partition_triples(&wide);
    Ok(ColliderVolume { vertices, triangles })
}

/// Widens an index buffer to a uniform 32-bit width; 16-bit entries widen
/// losslessly.
fn widen_indices(indices: Indices) -> (wide: Vec<u32>)
    ensures
        wide@ == widened(indices),
{
    match indices {
        Indices::U32(entries) => entries,
        Indices::U16(entries) => {
            let mut wide: Vec<u32> = Vec::new();
            let mut i: usize = 0;
            while i < entries.len()
                invariant
                    i <= entries@.len(),
                    wide@ == entries@.take(i as int).map_values(|entry: u16| entry as u32),
                decreases entries@.len() - i,
            {
                wide.push(entries[i] as u32);
                proof {
                    assert(entries@.take(i + 1).map_values(|entry: u16| entry as u32)
                        =~= entries@.take(i as int).map_values(|entry: u16| entry as u32).push(
                        entries@[i as int] as u32,
                    ));
                }
                i = i + 1;
            }
            proof {
                assert(entries@.take(entries@.len() as int) =~= entries@);
            }
            wide
        },
    }
}

/// Partitions a flat 32-bit index run into consecutive triples. A trailing
/// partial triple would be an authoring defect and is excluded by
/// precondition.
fn partition_triples(entries: &Vec<u32>) -> (triangles: Vec<Triangle>)
    requires
        entries@.len() % 3 == 0,
    ensures
        triangles@ == triples(entries@),
{
    let n = entries.len();
    let count = n / 3;
    proof {
        assert(entries@.len() == 3 * (count as int));
    }
    let mut triangles: Vec<Triangle> = Vec::new();
    let mut t: usize = 0;
    while t < count
        invariant
            t <= count,
            n == entries@.len(),
            count == entries@.len() / 3,
            entries@.len() == 3 * (count as int),
            triangles@ == triples(entries@).take(t as int),
        decreases count - t,
    {
        proof {
            assert(3 * (t as int) + 2 < n as int);
        }
        let triangle = Triangle {
            a: entries[3 * t],
            b: entries[3 * t + 1],
            c: entries[3 * t + 2],
        };
        triangles.push(triangle);
        proof {
            assert(triples(entries@).take(t + 1) =~= triples(entries@).take(t as int).push(
                triples(entries@)[t as int],
            ));
        }
        t = t + 1;
    }
    proof {
        assert(triples(entries@).take(count as int) =~= triples(entries@));
    }
    triangles
}

/// Any record with at least three vertices in the expected layout and a
/// whole, in-range, non-empty index buffer converts into a non-empty
/// collision volume.
pub proof fn lemma_nondegenerate_record_converts(mesh: GeometryRecord, volume: ColliderVolume)
    requires
        mesh.positions matches Some(VertexData::Vec3(vertices)) && vertices@.len() >= 3,
        mesh.indices is Some,
        mesh.widened_indices().len() % 3 == 0,
        mesh.widened_indices().len() > 0,
        forall|k: int|
            0 <= k < mesh.widened_indices().len() ==> mesh.widened_indices()[k]
                < mesh.vertex_list().len(),
        volume.vertices@ == mesh.vertex_list(),
        volume.triangles@ == triples(mesh.widened_indices()),
    ensures
        convertible(mesh),
        mesh.indices_well_formed(),
        volume.is_non_empty(),
{
}

/// Two records differing only in index-buffer width, but encoding the same
/// logical index run, yield colliders built from the same vertex list and
/// the same effective triangle set.
pub proof fn lemma_index_width_immaterial(narrow_mesh: GeometryRecord, wide_mesh: GeometryRecord)
    requires
        narrow_mesh.positions == wide_mesh.positions,
        ({
            &&& narrow_mesh.indices matches Some(Indices::U16(narrow))
            &&& wide_mesh.indices matches Some(Indices::U32(wide))
            &&& wide@ == narrow@.map_values(|entry: u16| entry as u32)
        }),
    ensures
        convertible(narrow_mesh) <==> convertible(wide_mesh),
        convertible(narrow_mesh) ==> narrow_mesh.vertex_list() == wide_mesh.vertex_list(),
        triples(narrow_mesh.widened_indices()) == triples(wide_mesh.widened_indices()),
{
}

} // verus!
