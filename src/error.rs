//! Errors of the shifting-table operations.
use vstd::prelude::*;

verus! {

#[derive(Debug, Clone, Copy, PartialEq, Eq, Structural)]
pub enum StfsError {
    /// The medium has no more sectors than the metadata region needs.
    MediumTooSmall,
    /// A transfer would reach past the end of the medium.
    IoFailure,
    /// The table record or the trail is not in a well-formed state.
    Corruption,
}

} // verus!
