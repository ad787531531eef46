//! What a learner asks a program for.
use vstd::prelude::*;

verus! {

/// A request for a program: the subject, the learner's level, the hours a
/// week, the weeks there are if any, the language, and the date.
#[derive(Debug, Clone, PartialEq, Eq)]
pub struct Request {
    pub subject: String,
    pub level: Level,
    pub weekly_hours: u32,
    pub weeks: Option<u32>,
    pub locale: String,
    /// The date of the request, `YYYY-MM-DD`.
    pub today: String,
}

#[derive(Debug, Clone, Copy, PartialEq, Eq)]
pub enum Level {
    Beginner,
    Basics,
    Confident,
}

pub open spec fn level_label(l: Level) -> Seq<char> {
    match l {
        Level::Beginner => "beginner"@,
        Level::Basics => "basics"@,
        Level::Confident => "confident"@,
    }
}

/// What the generator is told of the level.
pub open spec fn level_told(l: Level) -> Seq<char> {
    match l {
        Level::Beginner => "с темой не сталкивался"@,
        Level::Basics => "знает основы, но почти не применял"@,
        Level::Confident => "применял уверенно, нужны пробелы и глубина"@,
    }
}

impl Level {
    pub fn label(self) -> (r: &'static str)
        ensures
            r@ == level_label(self),
    {
        match self {
            Level::Beginner => "beginner",
            Level::Basics => "basics",
            Level::Confident => "confident",
        }
    }

    pub fn told(self) -> (r: &'static str)
        ensures
            r@ == level_told(self),
    {
        match self {
            Level::Beginner => "с темой не сталкивался",
            Level::Basics => "знает основы, но почти не применял",
            Level::Confident => "применял уверенно, нужны пробелы и глубина",
        }
    }

    /// The level that a label names.
    pub fn read(label: &str) -> (r: Option<Level>)
        ensures
            r matches Some(l) ==> level_label(l) == label@,
            r is None ==> forall|l: Level| level_label(l) != label@,
    {
        if crate::text::same(label, "beginner") {
            Some(Level::Beginner)
        } else if crate::text::same(label, "basics") {
            Some(Level::Basics)
        } else if crate::text::same(label, "confident") {
            Some(Level::Confident)
        } else {
            proof {
                assert forall|l: Level| level_label(l) != label@ by {
                    match l {
                        Level::Beginner => {},
                        Level::Basics => {},
                        Level::Confident => {},
                    }
                }
            }
            None
        }
    }
}

/// Two levels have two labels, so reading the label of a level gives that
/// level back.
pub proof fn level_labels_differ(a: Level, b: Level)
    ensures
        level_label(a) == level_label(b) ==> a == b,
{
    reveal_strlit("beginner");
    reveal_strlit("basics");
    reveal_strlit("confident");
    if level_label(a) == level_label(b) {
        assert(level_label(a).len() == level_label(b).len());
        assert(level_label(a)[0] == level_label(b)[0]);
        assert(level_label(a)[1] == level_label(b)[1]);
    }
}

} // verus!
