//! A stage of a program as the library reads it: its blocks, its practice and
//! its questions.
use vstd::prelude::*;

use crate::block::Block;

verus! {

/// A check of a stage's practice: what is claimed, the command that shows it
/// if there is one, and what it should show.
#[derive(Debug, Clone, PartialEq, Eq)]
pub struct Check {
    pub claim: String,
    pub check: Option<String>,
    pub expect: String,
}

/// The practice of a stage: its task in blocks, what to hand in, and its checks.
#[derive(Debug, Clone, PartialEq, Eq)]
pub struct Practice {
    pub task: Vec<Block>,
    pub deliverable: String,
    pub constraints: Vec<Check>,
    pub acceptance: Vec<Check>,
}

/// A question of a stage.
#[derive(Debug, Clone, PartialEq, Eq)]
pub struct Question {
    pub text: String,
}

#[derive(Debug, Clone, PartialEq, Eq)]
pub struct Stage {
    pub title: String,
    pub blocks: Vec<Block>,
    pub practice: Practice,
    pub questions: Vec<Question>,
}

} // verus!
