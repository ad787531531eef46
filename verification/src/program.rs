//! A program as the export reads it: its plan of stages and child programs,
//! its sources, and the tree of its files.
use vstd::prelude::*;

use crate::hours::Hours;
use crate::stage::Stage;

verus! {

/// A stage in the plan of a program.
#[derive(Debug, Clone, PartialEq, Eq)]
pub struct StageRow {
    pub id: String,
    pub title: String,
    pub hours: Hours,
}

/// A child program in the plan of a program.
#[derive(Debug, Clone, PartialEq, Eq)]
pub struct ChildRow {
    pub uuid: String,
    pub title: String,
    pub hours: Hours,
}

/// The plan of a program: its stages, its child programs, and its estimate.
#[derive(Debug, Clone, PartialEq, Eq)]
pub struct Plan {
    pub stages: Vec<StageRow>,
    pub children: Vec<ChildRow>,
    /// The estimate of the whole program, as the plan gives it.
    pub total: Hours,
}

impl Plan {
    /// The estimate of the whole program.
    pub fn hours(&self) -> (h: Hours)
        ensures
            h == self.total,
    {
        self.total
    }
}

/// How a program was generated: the language it is written in.
#[derive(Debug, Clone, PartialEq, Eq)]
pub struct Generation {
    pub locale: String,
}

/// A book a program draws on.
#[derive(Debug, Clone, PartialEq, Eq)]
pub struct Book {
    pub authors: Vec<String>,
    pub title: String,
    pub chapter: String,
    pub isbn: String,
    pub checked_at: String,
}

/// A page on the web a program draws on.
#[derive(Debug, Clone, PartialEq, Eq)]
pub struct Reference {
    pub title: String,
    pub url: String,
    pub checked_at: String,
}

#[derive(Debug, Clone, PartialEq, Eq)]
pub struct Sources {
    pub books: Vec<Book>,
    pub pages: Vec<Reference>,
}

#[derive(Debug, Clone, PartialEq, Eq)]
pub struct Program {
    pub title: String,
    pub goal: String,
    pub level: String,
    pub slug: String,
    pub map: Plan,
    pub generation: Generation,
    pub sources: Sources,
}

/// A program with the files it has: its stages by id, its child programs by
/// uuid, and its assets.
#[derive(Debug)]
pub struct Tree {
    pub program: Program,
    pub stages: Vec<(String, Stage)>,
    pub children: Vec<(String, Tree)>,
    pub assets: Vec<String>,
}

} // verus!
