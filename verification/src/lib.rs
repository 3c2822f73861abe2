//! Merge core for precise orbit/clock products.
//!
//! Combines two parsed datasets from the same provider into one: the header
//! metadata is reconciled first (and may reject the pair), then the per-epoch
//! per-satellite records of the incoming dataset are folded into the target.

pub mod dataset;
pub mod errors;
pub mod header;

pub use dataset::{SP3, SP3Entry, SP3Key};
pub use errors::MergeError;
pub use header::{Constellation, Header, Sv, TimeScale};
