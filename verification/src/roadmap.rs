//! The program of study as the library reads it: its stages and the plan of its topics.
use vstd::prelude::*;

use crate::hours::Hours;

verus! {

/// A stage of the program, and the topic that checks it.
#[derive(Debug, Clone, PartialEq, Eq)]
pub struct Stage {
    pub n: u32,
    pub title: String,
    pub checkpoint: String,
    pub generated: bool,
}

/// A topic as the plan places it: its stage, estimate and priority.
#[derive(Debug, Clone, PartialEq, Eq)]
pub struct TopicEntry {
    pub id: String,
    pub title: String,
    pub stage: u32,
    pub est_hours: Hours,
    /// The label of the topic's priority.
    pub priority: String,
    pub file: String,
}

/// How many days a topic stays trusted, by volatility.
#[derive(Debug, Clone, Copy, PartialEq, Eq)]
pub struct Revalidate {
    pub stable: u32,
    pub evolving: u32,
    pub volatile: u32,
}

#[derive(Debug, Clone, Copy, PartialEq, Eq)]
pub struct Defaults {
    pub revalidate_after_days: Revalidate,
}

/// The program: `roadmap.yaml`.
#[derive(Debug, Clone, PartialEq, Eq)]
pub struct Roadmap {
    pub schema: String,
    pub id: String,
    pub title: String,
    pub goal: String,
    pub subject: String,
    pub locale: String,
    pub generated_at: String,
    pub generated_by: String,
    pub weekly_hours: u32,
    pub env_constraints: Vec<String>,
    pub version_pins: Vec<(String, String)>,
    pub defaults: Defaults,
    pub stages: Vec<Stage>,
    pub topics: Vec<TopicEntry>,
}

} // verus!
