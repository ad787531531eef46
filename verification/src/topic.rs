//! A topic document as the library reads it: `topics/*.yaml`.
use vstd::prelude::*;

use crate::hours::Hours;

verus! {

/// A check of a practice: what is claimed, the command, and what it should show.
#[derive(Debug, Clone, PartialEq, Eq)]
pub struct Check {
    pub id: String,
    pub claim: String,
    pub check: String,
    pub expect: String,
}

#[derive(Debug, Clone, PartialEq, Eq)]
pub struct Question {
    pub id: String,
    pub text: String,
    /// The label of the question's kind.
    pub kind: String,
    pub expected_signals: Vec<String>,
    pub red_flags: Vec<String>,
    pub follow_up: Option<String>,
}

#[derive(Debug, Clone, PartialEq, Eq)]
pub struct Practice {
    pub task: String,
    pub deliverable: String,
    /// The label of the practice's kind.
    pub kind: String,
    /// The label of the practice's tier.
    pub tier: String,
    pub time_box_min: u32,
    pub starting_point: Option<String>,
    pub constraints: Vec<Check>,
    pub acceptance: Vec<Check>,
    pub fallback: Option<String>,
}

#[derive(Debug, Clone, PartialEq, Eq)]
pub struct Exam {
    pub focus: String,
    pub artifact_required: bool,
    pub max_exchanges: u32,
    pub traps: Vec<String>,
}

#[derive(Debug, Clone, PartialEq, Eq)]
pub struct Material {
    pub title: String,
    pub url: String,
    /// The label of the material's kind.
    pub kind: String,
    /// The label of the material's tier.
    pub tier: String,
    pub lang: String,
    /// `None` while the material is reachable, else the label of its state.
    pub liveness: Option<String>,
    pub covers_version: Option<String>,
    pub stale: bool,
    pub delta: Option<String>,
    pub note: String,
}

#[derive(Debug, Clone, PartialEq, Eq)]
pub struct Topic {
    pub schema: String,
    pub id: String,
    pub title: String,
    pub depends_on: Vec<String>,
    pub est_hours: Hours,
    pub verified_at: String,
    pub revalidate_after_days: u32,
    /// The labels of the topic's volatility, confidence and retention.
    pub volatility: String,
    pub confidence: String,
    pub retention: String,
    pub outcomes: Vec<String>,
    pub misconceptions: Vec<String>,
    pub version_context: Vec<String>,
    pub materials: Vec<Material>,
    pub practice: Practice,
    pub questions: Vec<Question>,
    pub exam: Exam,
}

} // verus!
