//! Mesh element kinds and the raw connectivity records produced by mesh readers.

use vstd::prelude::*;

verus! {

/// Cell element type.
#[derive(Clone, Copy, Debug, PartialEq, Eq, Structural)]
pub enum CellType {
    /// 2D triangle (3 nodes, 3 faces).
    Triangle,
    /// 2D quadrilateral (4 nodes, 4 faces).
    Quad,
    /// 3D tetrahedron (4 nodes, 4 faces).
    Tetrahedron,
    /// 3D hexahedron (8 nodes, 6 faces).
    Hexahedron,
    /// 3D wedge/prism (6 nodes, 5 faces).
    Wedge,
    /// 3D pyramid (5 nodes, 5 faces).
    Pyramid,
}

/// Number of nodes of an element of type `ct`.
pub open spec fn spec_node_count(ct: CellType) -> nat {
    match ct {
        CellType::Triangle => 3,
        CellType::Quad => 4,
        CellType::Tetrahedron => 4,
        CellType::Hexahedron => 8,
        CellType::Wedge => 6,
        CellType::Pyramid => 5,
    }
}

/// Number of faces of an element of type `ct` (edges for the 2D types).
pub open spec fn spec_face_count(ct: CellType) -> nat {
    match ct {
        CellType::Triangle => 3,
        CellType::Quad => 4,
        CellType::Tetrahedron => 4,
        CellType::Hexahedron => 6,
        CellType::Wedge => 5,
        CellType::Pyramid => 5,
    }
}

impl CellType {
    /// Number of nodes of an element of this type.
    pub fn node_count(&self) -> (n: usize)
        ensures
            n == spec_node_count(*self),
    {
        match self {
            CellType::Triangle => 3,
            CellType::Quad => 4,
            CellType::Tetrahedron => 4,
            CellType::Hexahedron => 8,
            CellType::Wedge => 6,
            CellType::Pyramid => 5,
        }
    }

    /// Number of faces of an element of this type.
    pub fn face_count(&self) -> (n: usize)
        ensures
            n == spec_face_count(*self),
    {
        match self {
            CellType::Triangle => 3,
            CellType::Quad => 4,
            CellType::Tetrahedron => 4,
            CellType::Hexahedron => 6,
            CellType::Wedge => 5,
            CellType::Pyramid => 5,
        }
    }
}

/// Raw element data from a mesh file reader.
#[derive(Clone, Debug)]
pub struct RawElement {
    pub cell_type: CellType,
    /// 0-based node indices in the reader's order.
    pub node_indices: Vec<u32>,
    /// Physical group tag (for boundary identification).
    pub physical_tag: Option<i32>,
}

impl View for RawElement {
    type V = (CellType, Seq<u32>, Option<i32>);

    open spec fn view(&self) -> Self::V {
        (self.cell_type, self.node_indices@, self.physical_tag)
    }
}

/// Raw boundary face from a mesh file reader (surface elements).
#[derive(Clone, Debug)]
pub struct RawBoundaryFace {
    /// 0-based node indices.
    pub node_indices: Vec<u32>,
    pub physical_tag: i32,
    pub physical_name: String,
}

impl View for RawBoundaryFace {
    type V = (Seq<u32>, i32, Seq<char>);

    open spec fn view(&self) -> Self::V {
        (self.node_indices@, self.physical_tag, self.physical_name@)
    }
}

/// A named boundary patch (group of boundary faces).
#[derive(Clone, Debug)]
pub struct BoundaryPatch {
    /// Name from the Gmsh physical group.
    pub name: String,
    /// Start index in the boundary face region (offset from `n_internal_faces`).
    pub start_face: usize,
    /// Number of faces in this patch.
    pub n_faces: usize,
}

impl BoundaryPatch {
    /// The global face indices belonging to this patch.
    pub fn face_range(&self, n_internal_faces: usize) -> (r: std::ops::Range<usize>)
        requires
            n_internal_faces + self.start_face + self.n_faces <= usize::MAX,
        ensures
            r.start == n_internal_faces + self.start_face,
            r.end == n_internal_faces + self.start_face + self.n_faces,
    {
        let start = n_internal_faces + self.start_face;
        start..start + self.n_faces
    }
}

} // verus!
