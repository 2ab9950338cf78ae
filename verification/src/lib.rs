//! Unstructured finite-volume mesh handling for the EHD solver: typed mesh
//! indices, the Gmsh MSH 2.2 reader and the face-based topology builder.

pub mod index;
pub mod text;
pub mod mesh;
pub mod gmsh;
pub mod keyindex;
pub mod topology;
pub mod names;
pub mod layout;
pub mod kernel;
pub mod compute;
pub mod config;
pub mod driver;
