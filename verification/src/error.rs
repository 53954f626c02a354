//! The ways in which a pipeline can be refused.

use vstd::prelude::*;

verus! {

/// Why a token sequence could not be transformed.
#[derive(Debug, Clone, Copy, PartialEq, Eq, Structural)]
pub enum PipeError {
    /// The input is empty, or a separator has nothing on one of its sides.
    MalformedPipeline,
    /// A group is opened and never closed, or closed without having been
    /// opened, or closed by a bracket of another kind.
    UnbalancedGroup,
    /// Groups are nested more deeply than the grammar allows.
    NestingTooDeep,
}

} // verus!
