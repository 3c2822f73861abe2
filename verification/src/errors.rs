//! The closed set of reasons a merge can be refused.

use vstd::prelude::*;

verus! {

/// Why two datasets could not be merged.
///
/// Every variant is non-retryable without caller intervention: the caller must
/// change one operand (override the provider, convert the time scale, or
/// transform the coordinates) before trying again.
#[derive(Clone, Copy, Debug, PartialEq, Eq, Structural)]
pub enum MergeError {
    /// The operands were published by different agencies.
    DataProviderMismatch,
    /// The operands express epochs in different time scales.
    TimescaleMismatch,
    /// The operands express positions in different reference frames.
    ReferenceFrameMismatch,
}

} // verus!
