//! The exam of a topic: the prompts of its turns, and the verdict's prompt.
pub mod types;

pub use types::{Artifact, Line, Next, Shown, Side, Step};
pub mod ask;
pub mod error;

pub use ask::{hint, practice, turn};
pub use error::StepError;
pub mod close;

pub use close::{Collected, verdict};
pub mod read;

pub use read::graded;
