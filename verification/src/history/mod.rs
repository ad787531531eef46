//! A program's history: which saved versions to keep, and what changed
//! between two versions.
pub mod diff;
pub mod prune;
pub mod types;

pub use diff::diff;
pub use prune::prune;
pub use types::{Diff, Kept, Rewritten, Snapshot};
