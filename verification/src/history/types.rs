//! The records of a program's history.
use vstd::prelude::*;

use crate::roadmap::Roadmap;
use crate::topic::Topic;

verus! {

/// A version of a program: its plan and its documents.
#[derive(Debug, Clone, Copy)]
pub struct Snapshot<'a> {
    pub roadmap: &'a Roadmap,
    pub topics: &'a [Topic],
}

/// What changed between two versions.
#[derive(Debug, Clone, Default, PartialEq, Eq)]
pub struct Diff {
    pub added: Vec<String>,
    pub removed: Vec<String>,
    pub rewritten: Vec<Rewritten>,
}

/// A topic whose document was rewritten: the parts of it that changed, by
/// name, and whether its pass went stale for it.
#[derive(Debug, Clone, PartialEq, Eq)]
pub struct Rewritten {
    pub id: String,
    pub title: String,
    pub changed: Vec<String>,
    pub demoted: bool,
}

/// A saved version: its number, when it was saved, and its size in bytes.
#[derive(Debug, Clone, PartialEq, Eq)]
pub struct Kept {
    pub n: u32,
    pub saved_at: String,
    pub bytes: u64,
}

} // verus!
