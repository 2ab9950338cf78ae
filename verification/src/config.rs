//! Simulation configuration records and their defaults.

use vstd::prelude::*;

verus! {

/// Where the mesh comes from.
#[derive(Clone, Debug)]
pub struct MeshConfig {
    pub path: String,
    /// Mesh file format; `"gmsh"` when not given.
    pub format: String,
}

/// What is written, how often and where.
#[derive(Clone, Debug)]
pub struct OutputConfig {
    /// Output format; `"vtu"` when not given.
    pub format: String,
    /// Output interval in steps; 10 when not given.
    pub every: usize,
    /// Output directory; `"output/"` when not given.
    pub path: String,
    /// Fields to write.
    pub fields: Vec<String>,
}

/// The default mesh format.
pub fn default_mesh_format() -> (r: String)
    ensures
        r@ == "gmsh"@,
{
    "gmsh".to_owned()
}

/// The default working gas.
pub fn default_gas() -> (r: String)
    ensures
        r@ == "air"@,
{
    "air".to_owned()
}

/// The default fluid model.
pub fn default_fluid_model() -> (r: String)
    ensures
        r@ == "incompressible"@,
{
    "incompressible".to_owned()
}

/// The default advection scheme name.
pub fn default_advection() -> (r: String)
    ensures
        r@ == "upwind"@,
{
    "upwind".to_owned()
}

/// The default pressure solver name.
pub fn default_pressure_solver() -> (r: String)
    ensures
        r@ == "cg"@,
{
    "cg".to_owned()
}

/// The default output format.
pub fn default_output_format() -> (r: String)
    ensures
        r@ == "vtu"@,
{
    "vtu".to_owned()
}

/// The default output interval, in steps.
pub fn default_every() -> (r: usize)
    ensures
        r == 10,
{
    10
}

/// The default output directory.
pub fn default_output_path() -> (r: String)
    ensures
        r@ == "output/"@,
{
    "output/".to_owned()
}

} // verus!
