//! What holds of the tree as a whole, over all inputs and several operations.

pub mod answers;
pub mod asking;
pub mod balancing;
pub mod finalizing;
pub mod foretelling;
pub mod measuring;
pub mod opening;
pub mod progress;
pub mod refusing;
pub mod searching;
pub mod shaping;
pub mod storing;
pub mod truthful;
pub mod visiting;
