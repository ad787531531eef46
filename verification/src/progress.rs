//! The learner's progress as the library reads it: `progress.yaml`.
use vstd::prelude::*;

verus! {

#[derive(Debug, Clone, Copy, PartialEq, Eq, Structural)]
pub enum Status {
    Todo,
    Passed,
    StalePassed,
}

impl Status {
    pub fn label(self) -> (r: &'static str)
        ensures
            r@ == self.label_of(),
    {
        match self {
            Status::Todo => "todo",
            Status::Passed => "passed",
            Status::StalePassed => "stale_passed",
        }
    }

    /// A topic counts as done once it is passed, whether or not the pass went stale.
    pub open spec fn done_of(self) -> bool {
        self is Passed || self is StalePassed
    }

    pub fn is_done(self) -> (r: bool)
        ensures
            r == self.done_of(),
    {
        match self {
            Status::Todo => false,
            Status::Passed => true,
            Status::StalePassed => true,
        }
    }

    pub open spec fn label_of(self) -> Seq<char> {
        match self {
            Status::Todo => "todo"@,
            Status::Passed => "passed"@,
            Status::StalePassed => "stale_passed"@,
        }
    }
}

#[derive(Debug, Clone, Copy, PartialEq, Eq)]
pub struct State {
    pub status: Status,
}

/// A graded answer to one question.
#[derive(Debug, Clone, PartialEq, Eq)]
pub struct Answer {
    pub id: String,
    /// The label of the grade.
    pub outcome: String,
    pub quote: Option<String>,
    pub missed: Vec<String>,
    pub signal_extension: bool,
}

#[derive(Debug, Clone, PartialEq, Eq)]
pub struct Progress {
    pub roadmap_id: String,
    pub topics: Vec<(String, State)>,
}

} // verus!
