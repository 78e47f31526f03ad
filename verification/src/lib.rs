//! A tree of blocks on competing forks, ordered by number, with logic for
//! pruning the tree while nodes are finalized.

use vstd::prelude::*;

pub mod balance;
pub mod contents;
pub mod encoding;
pub mod error;
pub mod finalization;
pub mod iteration;
pub mod laws;
pub mod model;
pub mod node;
pub mod placement;
pub mod search;
pub mod trail;
pub mod tree;

pub use error::{DecodeError, Error, FinalizationResult, FindOutcome};
pub use node::Node;
pub use tree::ForkTree;

verus! {

} // verus!
