//! Identifiers that the engine hands to propagators.

use vstd::prelude::*;

verus! {

/// Identifies a propagator among those registered with the engine.
#[derive(Clone, Copy, Debug, PartialEq, Eq, Structural, Hash)]
pub struct PropagatorId(pub u32);

/// The name that a propagator gives to one of its own variables.
#[derive(Clone, Copy, Debug, PartialEq, Eq, Structural, Hash)]
pub struct LocalId(pub u32);

impl LocalId {
    pub fn from(value: u32) -> (r: LocalId)
        ensures
            r.0 == value,
    {
        LocalId(value)
    }

    pub fn unpack(self) -> (r: u32)
        ensures
            r == self.0,
    {
        self.0
    }
}

/// A variable of a propagator: the propagator and its local name for it.
#[derive(Clone, Copy, Debug, PartialEq, Eq, Structural, Hash)]
pub struct PropagatorVarId {
    pub propagator: PropagatorId,
    pub variable: LocalId,
}

} // verus!
