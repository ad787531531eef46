//! The pieces of an exam: who says a line, what the examiner asks for next,
//! and how the practice's artifact stands.
use vstd::prelude::*;

use crate::progress::Answer;

verus! {

#[derive(Debug, Clone, Copy, PartialEq, Eq)]
pub enum Side {
    Examiner,
    Student,
}

pub open spec fn side_label(s: Side) -> Seq<char> {
    match s {
        Side::Examiner => "examiner"@,
        Side::Student => "student"@,
    }
}

impl Side {
    pub fn label(self) -> (r: &'static str)
        ensures
            r@ == side_label(self),
    {
        match self {
            Side::Examiner => "examiner",
            Side::Student => "student",
        }
    }

    /// The side that a label names.
    pub fn read(label: &str) -> (r: Option<Side>)
        ensures
            r matches Some(s) ==> side_label(s) == label@,
            r is None ==> label@ != side_label(Side::Examiner) && label@ != side_label(
                Side::Student,
            ),
    {
        if crate::text::same(label, "examiner") {
            Some(Side::Examiner)
        } else if crate::text::same(label, "student") {
            Some(Side::Student)
        } else {
            None
        }
    }
}

/// A line of the exam's talk.
#[derive(Debug, Clone, PartialEq, Eq)]
pub struct Line {
    pub side: Side,
    pub text: String,
}

#[derive(Debug, Clone, Copy, PartialEq, Eq)]
pub enum Next {
    FollowUp,
    Close,
}

#[derive(Debug, Clone, Copy, PartialEq, Eq)]
pub enum Artifact {
    Missing,
    Shown,
    Passed,
    Skipped,
    Aside,
}

pub open spec fn artifact_label(a: Artifact) -> Seq<char> {
    match a {
        Artifact::Missing => "none"@,
        Artifact::Shown => "shown"@,
        Artifact::Passed => "passed"@,
        Artifact::Skipped => "skipped"@,
        Artifact::Aside => "aside"@,
    }
}

/// What the examiner is told of the artifact.
pub open spec fn artifact_told(a: Artifact) -> Seq<char> {
    match a {
        Artifact::Missing => "артефакт не предъявлен вовсе"@,
        Artifact::Shown => "артефакт предъявлен, но приёмка не сошлась"@,
        Artifact::Passed => "артефакт предъявлен и принят"@,
        Artifact::Skipped => "практика артефакта не требует"@,
        Artifact::Aside => "практика в этом прогоне не проверялась и на вердикт не влияет: считай её в порядке, `blocked` за неё не ставь"@,
    }
}

impl Artifact {
    pub fn label(self) -> (r: &'static str)
        ensures
            r@ == artifact_label(self),
    {
        match self {
            Artifact::Missing => "none",
            Artifact::Shown => "shown",
            Artifact::Passed => "passed",
            Artifact::Skipped => "skipped",
            Artifact::Aside => "aside",
        }
    }

    /// The state that a label names.
    pub fn read(label: &str) -> (r: Option<Artifact>)
        ensures
            r matches Some(a) ==> artifact_label(a) == label@,
            r is None ==> forall|a: Artifact| artifact_label(a) != label@,
    {
        if crate::text::same(label, "none") {
            Some(Artifact::Missing)
        } else if crate::text::same(label, "shown") {
            Some(Artifact::Shown)
        } else if crate::text::same(label, "passed") {
            Some(Artifact::Passed)
        } else if crate::text::same(label, "skipped") {
            Some(Artifact::Skipped)
        } else if crate::text::same(label, "aside") {
            Some(Artifact::Aside)
        } else {
            proof {
                assert forall|a: Artifact| artifact_label(a) != label@ by {
                    match a {
                        Artifact::Missing => {},
                        Artifact::Shown => {},
                        Artifact::Passed => {},
                        Artifact::Skipped => {},
                        Artifact::Aside => {},
                    }
                }
            }
            None
        }
    }

    pub fn told(self) -> (r: &'static str)
        ensures
            r@ == artifact_told(self),
    {
        match self {
            Artifact::Missing => "артефакт не предъявлен вовсе",
            Artifact::Shown => "артефакт предъявлен, но приёмка не сошлась",
            Artifact::Passed => "артефакт предъявлен и принят",
            Artifact::Skipped => "практика артефакта не требует",
            Artifact::Aside => "практика в этом прогоне не проверялась и на вердикт не влияет: считай её в порядке, `blocked` за неё не ставь",
        }
    }
}

/// A graded step of the exam: the grade, what comes next, and what to say.
#[derive(Debug, Clone, PartialEq, Eq)]
pub struct Step {
    pub answer: Answer,
    pub next: Next,
    pub say: String,
}

/// The examiner's reading of the practice.
#[derive(Debug, Clone, PartialEq, Eq)]
pub struct Shown {
    pub artifact: Artifact,
    pub failed_checks: Vec<String>,
    pub next: Next,
    pub say: String,
}

/// Two sides have two labels, so reading the label of a side gives that side back.
pub proof fn side_labels_differ(a: Side, b: Side)
    ensures
        side_label(a) == side_label(b) ==> a == b,
{
    reveal_strlit("examiner");
    reveal_strlit("student");
    if side_label(a) == side_label(b) {
        assert(side_label(a)[0] == side_label(b)[0]);
    }
}

/// Two states of the artifact have two labels, so reading the label of a
/// state gives that state back.
pub proof fn artifact_labels_differ(a: Artifact, b: Artifact)
    ensures
        artifact_label(a) == artifact_label(b) ==> a == b,
{
    reveal_strlit("none");
    reveal_strlit("shown");
    reveal_strlit("passed");
    reveal_strlit("skipped");
    reveal_strlit("aside");
    if artifact_label(a) == artifact_label(b) {
        assert(artifact_label(a).len() == artifact_label(b).len());
        assert(artifact_label(a)[0] == artifact_label(b)[0]);
    }
}

} // verus!
