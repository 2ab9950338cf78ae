//! Newtype indices for type-safe mesh element addressing.
//!
//! Using newtypes prevents accidentally mixing cell, face and node indices.
//! Internally `u32` to save memory in large meshes.

use vstd::prelude::*;

verus! {

/// Where a field quantity is stored on the mesh.
#[derive(Clone, Copy, Debug, PartialEq, Eq, Structural, Hash)]
pub enum FieldLocation {
    /// Cell-centered (finite volume primary location).
    Cell,
    /// Face-centered (flux quantities).
    Face,
    /// Node / vertex (for interpolation or output).
    Node,
}

/// Index into cell arrays.
#[derive(Clone, Copy, Debug, PartialEq, Eq, Structural, PartialOrd, Ord, Hash)]
pub struct CellId(pub u32);

/// Index into face arrays.
#[derive(Clone, Copy, Debug, PartialEq, Eq, Structural, PartialOrd, Ord, Hash)]
pub struct FaceId(pub u32);

/// Index into node/vertex arrays.
#[derive(Clone, Copy, Debug, PartialEq, Eq, Structural, PartialOrd, Ord, Hash)]
pub struct NodeId(pub u32);

impl CellId {
    /// The index as a `usize`.
    pub fn as_usize(self) -> (r: usize)
        ensures
            r == self.0,
    {
        self.0 as usize
    }
}

impl FaceId {
    /// The index as a `usize`.
    pub fn as_usize(self) -> (r: usize)
        ensures
            r == self.0,
    {
        self.0 as usize
    }
}

impl NodeId {
    /// The index as a `usize`.
    pub fn as_usize(self) -> (r: usize)
        ensures
            r == self.0,
    {
        self.0 as usize
    }
}

/// Conversion from `usize`; values above `u32::MAX` keep their low 32 bits.
impl From<usize> for CellId {
    fn from(v: usize) -> (r: Self) {
        CellId(v as u32)
    }
}

impl vstd::std_specs::convert::FromSpecImpl<usize> for CellId {
    open spec fn obeys_from_spec() -> bool {
        true
    }

    open spec fn from_spec(v: usize) -> Self {
        CellId(v as u32)
    }
}

impl From<CellId> for usize {
    fn from(id: CellId) -> (r: usize) {
        id.0 as usize
    }
}

impl vstd::std_specs::convert::FromSpecImpl<CellId> for usize {
    open spec fn obeys_from_spec() -> bool {
        true
    }

    open spec fn from_spec(id: CellId) -> usize {
        id.0 as usize
    }
}

/// Conversion from `usize`; values above `u32::MAX` keep their low 32 bits.
impl From<usize> for FaceId {
    fn from(v: usize) -> (r: Self) {
        FaceId(v as u32)
    }
}

impl vstd::std_specs::convert::FromSpecImpl<usize> for FaceId {
    open spec fn obeys_from_spec() -> bool {
        true
    }

    open spec fn from_spec(v: usize) -> Self {
        FaceId(v as u32)
    }
}

impl From<FaceId> for usize {
    fn from(id: FaceId) -> (r: usize) {
        id.0 as usize
    }
}

impl vstd::std_specs::convert::FromSpecImpl<FaceId> for usize {
    open spec fn obeys_from_spec() -> bool {
        true
    }

    open spec fn from_spec(id: FaceId) -> usize {
        id.0 as usize
    }
}

/// Conversion from `usize`; values above `u32::MAX` keep their low 32 bits.
impl From<usize> for NodeId {
    fn from(v: usize) -> (r: Self) {
        NodeId(v as u32)
    }
}

impl vstd::std_specs::convert::FromSpecImpl<usize> for NodeId {
    open spec fn obeys_from_spec() -> bool {
        true
    }

    open spec fn from_spec(v: usize) -> Self {
        NodeId(v as u32)
    }
}

impl From<NodeId> for usize {
    fn from(id: NodeId) -> (r: usize) {
        id.0 as usize
    }
}

impl vstd::std_specs::convert::FromSpecImpl<NodeId> for usize {
    open spec fn obeys_from_spec() -> bool {
        true
    }

    open spec fn from_spec(id: NodeId) -> usize {
        id.0 as usize
    }
}

/// Converting an index to `usize` and back gives the same index, and a `usize`
/// that fits in `u32` survives the round trip through each index type.
pub proof fn lemma_index_roundtrip(v: usize)
    requires
        v <= u32::MAX,
    ensures
        <usize as vstd::std_specs::convert::FromSpec<CellId>>::from_spec(
            <CellId as vstd::std_specs::convert::FromSpec<usize>>::from_spec(v),
        ) == v,
        <usize as vstd::std_specs::convert::FromSpec<FaceId>>::from_spec(
            <FaceId as vstd::std_specs::convert::FromSpec<usize>>::from_spec(v),
        ) == v,
        <usize as vstd::std_specs::convert::FromSpec<NodeId>>::from_spec(
            <NodeId as vstd::std_specs::convert::FromSpec<usize>>::from_spec(v),
        ) == v,
{
}

/// An index converted to `usize` and back is the same index.
pub proof fn lemma_index_back_and_forth(c: CellId, f: FaceId, n: NodeId)
    ensures
        <CellId as vstd::std_specs::convert::FromSpec<usize>>::from_spec(
            <usize as vstd::std_specs::convert::FromSpec<CellId>>::from_spec(c),
        ) == c,
        <FaceId as vstd::std_specs::convert::FromSpec<usize>>::from_spec(
            <usize as vstd::std_specs::convert::FromSpec<FaceId>>::from_spec(f),
        ) == f,
        <NodeId as vstd::std_specs::convert::FromSpec<usize>>::from_spec(
            <usize as vstd::std_specs::convert::FromSpec<NodeId>>::from_spec(n),
        ) == n,
{
}

} // verus!
