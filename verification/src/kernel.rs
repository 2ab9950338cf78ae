//! Kernel description types: data that names fields and selects schemes.

use vstd::prelude::*;

verus! {

/// Reference to a named field in a field registry.
#[derive(Clone, Debug, PartialEq, Eq, Hash)]
pub struct FieldRef(pub String);

impl FieldRef {
    /// A reference to the field called `name`.
    pub fn new(name: &str) -> (r: FieldRef)
        ensures
            r.0@ == name@,
    {
        FieldRef(name.to_owned())
    }
}

/// TVD limiter functions.
#[derive(Clone, Copy, Debug, PartialEq, Eq, Structural)]
pub enum Limiter {
    VanLeer,
    MinMod,
    Superbee,
}

/// Advection flux scheme.
#[derive(Clone, Copy, Debug, PartialEq, Eq, Structural)]
pub enum AdvectionScheme {
    Upwind,
    Central,
    TVD(Limiter),
}

} // verus!
