//! The ways in which a simulation step fails.

use vstd::prelude::*;

verus! {

/// Why a call into the engine did not do its work.
#[derive(Clone, Copy, Debug, PartialEq, Eq, Structural)]
pub enum EngineError {
    /// A part was asked for a property that it does not carry.
    AttributeNotFound,
    /// A task of a fan-out did not come back.
    TaskFailure,
    /// A round handed to a dispatcher names an index twice, pairs an index
    /// with itself or names an index that is no sibling.
    SchedulingInvariantViolation,
}

} // verus!
