//! The prompts that ask a model for a program and its topics, the reading of
//! its answers, and the marks a generated program carries.
pub mod answer;
pub mod ask;
pub mod mark;
pub mod request;

pub use answer::{fenced, pick};
pub use ask::{repair, roadmap, topic};
pub use mark::{generated, stamped};
pub use request::{Level, Request};

use vstd::prelude::*;

verus! {

pub const ROADMAP_SCHEMA: &'static str = "learning-roadmap/v1";

pub const PROGRESS_SCHEMA: &'static str = "learning-roadmap/progress/v1";

pub const TOPIC_SCHEMA: &'static str = "learning-roadmap/topic/v1";

} // verus!
