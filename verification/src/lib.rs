//! A reference block-tree: from a set of received block headers it maintains
//! the canonical best chain under a longest-cumulative-work rule, and answers
//! height, tip and lookup queries against it.
//!
//! The model is deliberately simple: every import re-runs the fork choice over
//! the whole header store, so that a production implementation can be driven
//! side by side with this one and compared for behavioural equivalence.
use vstd::prelude::*;

pub mod branch;
pub mod chain;
pub mod header;
pub mod model;
pub mod protocol;
pub mod store;

pub use header::Header;
pub use model::Cache;
pub use model::Error;

verus! {

/// A block's zero-based position on the active chain; genesis has height 0.
pub type Height = u64;

} // verus!
