//! The pieces of the compute backend abstraction that carry no numbers.

use vstd::prelude::*;

verus! {

/// Opaque handle to mesh data prepared for a specific backend.
///
/// Each backend can store its own representation of the mesh (device
/// buffers, precomputed connectivity, aligned arrays).
pub trait MeshHandle: Send + Sync {}

/// A boundary patch as handed to a backend.
#[derive(Clone, Debug)]
pub struct BoundaryPatchData {
    pub name: String,
    /// Offset from the first boundary face.
    pub start_face: usize,
    pub n_faces: usize,
}

/// The CPU compute backend: interprets kernels as direct loops.
#[derive(Clone, Copy, Debug)]
pub struct CpuBackend;

/// Identity preconditioner (no preconditioning).
#[derive(Clone, Copy, Debug)]
pub struct NoPreconditioner;

} // verus!
