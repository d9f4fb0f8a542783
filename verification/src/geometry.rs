//! The geometry data model: mesh records as the asset pipeline delivers
//! them, before conversion into collision volumes.
//!
//! Vertex components are 32-bit floating-point values in the source data.
//! This core never interprets them — it only counts, validates and routes
//! them — so it carries each component as its raw 32-bit pattern. The outside
//! geometry library that consumes the final vertex list reassembles the
//! floats from these patterns unchanged.

use vstd::prelude::*;

verus! {

/// One three-component vertex, each component held as the raw bit pattern of
/// a 32-bit float.
#[derive(Debug, Clone, Copy, PartialEq, Eq, Structural)]
pub struct Vec3Bits {
    pub x: u32,
    pub y: u32,
    pub z: u32,
}

/// One triangle of the index buffer, as three offsets into the position
/// buffer.
#[derive(Debug, Clone, Copy, PartialEq, Eq, Structural)]
pub struct Triangle {
    pub a: u32,
    pub b: u32,
    pub c: u32,
}

/// The position attribute of a mesh, tagged with its encoding. Only the
/// three-component vector layout is convertible; any other encoding carries
/// its identifying name, purely for diagnostics.
#[derive(Debug)]
pub enum VertexData {
    /// The expected layout: one three-component vector per vertex.
    Vec3(Vec<Vec3Bits>),
    /// Any other encoding, under its identifying name.
    Other(String),
}

/// A mesh index buffer: a flat run of position-buffer offsets, stored at
/// 16-bit or 32-bit width. Sixteen-bit entries widen losslessly to 32 bits.
#[derive(Debug)]
pub enum Indices {
    U16(Vec<u16>),
    U32(Vec<u32>),
}

/// One mesh geometry record: an optional position attribute and an optional
/// index buffer. Either may be absent or malformed in authored content;
/// conversion reports exactly which.
#[derive(Debug)]
pub struct GeometryRecord {
    pub positions: Option<VertexData>,
    pub indices: Option<Indices>,
}

/// The index buffer widened to a uniform 32-bit width.
pub open spec fn widened(indices: Indices) -> Seq<u32> {
    match indices {
        Indices::U16(entries) => entries@.map_values(|entry: u16| entry as u32),
        Indices::U32(entries) => entries@,
    }
}

/// A flat index run partitioned into consecutive triples.
pub open spec fn triples(entries: Seq<u32>) -> Seq<Triangle> {
    Seq::new((entries.len() / 3) as nat, |k: int| Triangle {
        a: entries[3 * k],
        b: entries[3 * k + 1],
        c: entries[3 * k + 2],
    })
}

impl GeometryRecord {
    /// Whether the record carries a position attribute in the expected
    /// three-component layout.
    pub open spec fn has_vec3_positions(self) -> bool {
        self.positions matches Some(VertexData::Vec3(_))
    }

    /// The vertex list of a record whose positions use the expected layout.
    pub open spec fn vertex_list(self) -> Seq<Vec3Bits>
        recommends
            self.has_vec3_positions(),
    {
        match self.positions {
            Some(VertexData::Vec3(vertices)) => vertices@,
            _ => Seq::empty(),
        }
    }

    /// The index buffer widened to 32 bits, for a record that has one.
    pub open spec fn widened_indices(self) -> Seq<u32>
        recommends
            self.indices is Some,
    {
        match self.indices {
            Some(indices) => widened(indices),
            None => Seq::empty(),
        }
    }

    /// The record invariant on authored content: the index buffer partitions
    /// into whole triangles and every index is a valid position-buffer
    /// offset. Only meaningful once both buffers are present and the
    /// positions use the expected layout.
    pub open spec fn indices_well_formed(self) -> bool {
        self.has_vec3_positions() && self.indices is Some ==> {
            &&& self.widened_indices().len() % 3 == 0
            &&& forall|k: int|
                0 <= k < self.widened_indices().len() ==> self.widened_indices()[k]
                    < self.vertex_list().len()
        }
    }
}

} // verus!
