//! The conditions under which a sampling operation declines to answer.

use vstd::prelude::*;

verus! {

/// Why a sampling operation returned no result. Every condition is local and
/// recoverable: the caller decides what an empty digest means.
#[derive(Debug, Clone, Copy, PartialEq, Eq, Structural)]
pub enum SamplingError {
    /// A session was opened over no items at all.
    EmptyInput,
    /// A lookup was made in a tree that holds no weight any more.
    NoItemsAvailable,
    /// A handle names no item, or an item that was already removed.
    ItemNotFound,
    /// The weights add up to more than a `u64` can hold.
    WeightOverflow,
}

impl SamplingError {
    /// A short name for the condition, for messages.
    pub fn label(&self) -> (text: &'static str)
        ensures
            text@ == (match *self {
                SamplingError::EmptyInput => "no items were offered"@,
                SamplingError::NoItemsAvailable => "no selectable items remain"@,
                SamplingError::ItemNotFound => "the item is not in the tree"@,
                SamplingError::WeightOverflow => "the weights overflow a 64-bit total"@,
            }),
    {
        match self {
            SamplingError::EmptyInput => "no items were offered",
            SamplingError::NoItemsAvailable => "no selectable items remain",
            SamplingError::ItemNotFound => "the item is not in the tree",
            SamplingError::WeightOverflow => "the weights overflow a 64-bit total",
        }
    }
}

} // verus!
