//! What a check of a bundle finds wrong with it.
use vstd::prelude::*;

use crate::text::{decimal, opens_with, push_decimal};

verus! {

#[derive(Debug, Clone, PartialEq, Eq)]
pub enum Violation {
    EmptyStages,
    EmptyTopics,
    DuplicateTopicId { id: String },
    StageOutOfRange { topic: String, stage: u32 },
    UnknownCheckpoint { stage: u32, checkpoint: String },
    CheckpointOutsideStage { stage: u32, checkpoint: String, found: u32 },
    MissingTopicFile { topic: String, stage: u32, file: String },
    UnsafeTopicFile { topic: String, file: String },
    DuplicateTopicFile { file: String },
    SchemaMajorMismatch { topic: String, roadmap: u32, found: u32 },
    HoursReversed { topic: String, min: u32, max: u32 },
    UnknownDependency { topic: String, depends_on: String },
    ForwardDependency { topic: String, depends_on: String },
    DependencyCycle { chain: Vec<String> },
    ProgressForAnotherProgram { program: String, found: String },
    UntrackedTopic { topic: String },
    StrayProgressTopic { topic: String },
}

/// The stable code of each kind of violation.
pub open spec fn code_of(v: Violation) -> Seq<char> {
    match v {
        Violation::EmptyStages => "bundle.empty-stages"@,
        Violation::EmptyTopics => "bundle.empty-topics"@,
        Violation::DuplicateTopicId { .. } => "bundle.duplicate-id"@,
        Violation::StageOutOfRange { .. } => "bundle.stage-out-of-range"@,
        Violation::UnknownCheckpoint { .. } => "bundle.unknown-checkpoint"@,
        Violation::CheckpointOutsideStage { .. } => "bundle.checkpoint-outside-stage"@,
        Violation::MissingTopicFile { .. } => "bundle.missing-topic-file"@,
        Violation::UnsafeTopicFile { .. } => "bundle.unsafe-file"@,
        Violation::DuplicateTopicFile { .. } => "bundle.duplicate-file"@,
        Violation::SchemaMajorMismatch { .. } => "bundle.schema-major-mismatch"@,
        Violation::HoursReversed { .. } => "bundle.hours-reversed"@,
        Violation::UnknownDependency { .. } => "bundle.unknown-dependency"@,
        Violation::ForwardDependency { .. } => "bundle.forward-dependency"@,
        Violation::DependencyCycle { .. } => "bundle.cycle"@,
        Violation::ProgressForAnotherProgram { .. } => "bundle.progress-elsewhere"@,
        Violation::UntrackedTopic { .. } => "bundle.untracked-topic"@,
        Violation::StrayProgressTopic { .. } => "bundle.stray-progress-topic"@,
    }
}

/// The place of a violation's kind in the list of kinds.
pub open spec fn kind_index(v: Violation) -> nat {
    match v {
        Violation::EmptyStages => 0,
        Violation::EmptyTopics => 1,
        Violation::DuplicateTopicId { .. } => 2,
        Violation::StageOutOfRange { .. } => 3,
        Violation::UnknownCheckpoint { .. } => 4,
        Violation::CheckpointOutsideStage { .. } => 5,
        Violation::MissingTopicFile { .. } => 6,
        Violation::UnsafeTopicFile { .. } => 7,
        Violation::DuplicateTopicFile { .. } => 8,
        Violation::SchemaMajorMismatch { .. } => 9,
        Violation::HoursReversed { .. } => 10,
        Violation::UnknownDependency { .. } => 11,
        Violation::ForwardDependency { .. } => 12,
        Violation::DependencyCycle { .. } => 13,
        Violation::ProgressForAnotherProgram { .. } => 14,
        Violation::UntrackedTopic { .. } => 15,
        Violation::StrayProgressTopic { .. } => 16,
    }
}

/// Every code opens with the bundle's prefix, and two violations share a
/// code exactly when they are of one kind, whatever their fields.
pub proof fn codes_name_the_kind(v: Violation, w: Violation)
    ensures
        opens_with(code_of(v), "bundle."@),
        code_of(v) == code_of(w) <==> kind_index(v) == kind_index(w),
{
    reveal_strlit("bundle.");
    reveal_strlit("bundle.empty-stages");
    reveal_strlit("bundle.empty-topics");
    reveal_strlit("bundle.duplicate-id");
    reveal_strlit("bundle.stage-out-of-range");
    reveal_strlit("bundle.unknown-checkpoint");
    reveal_strlit("bundle.checkpoint-outside-stage");
    reveal_strlit("bundle.missing-topic-file");
    reveal_strlit("bundle.unsafe-file");
    reveal_strlit("bundle.duplicate-file");
    reveal_strlit("bundle.schema-major-mismatch");
    reveal_strlit("bundle.hours-reversed");
    reveal_strlit("bundle.unknown-dependency");
    reveal_strlit("bundle.forward-dependency");
    reveal_strlit("bundle.cycle");
    reveal_strlit("bundle.progress-elsewhere");
    reveal_strlit("bundle.untracked-topic");
    reveal_strlit("bundle.stray-progress-topic");
    assert(code_of(v).take(7) =~= "bundle."@);
    if code_of(v) == code_of(w) && kind_index(v) != kind_index(w) {
        let a = code_of(v);
        let b = code_of(w);
        assert(a.len() == b.len());
        assert(forall|i: int| 0 <= i < a.len() ==> a[i] == b[i]);
        assert(a[7] == b[7] && a[8] == b[8] && a[9] == b[9] && a[10] == b[10] && a[11] == b[11]);
        assert(a[12] == b[12] && a[13] == b[13] && a[14] == b[14] && a[15] == b[15]);
    }
}

/// The topics that a violation is about.
pub open spec fn topics_of(v: Violation) -> Seq<Seq<char>> {
    match v {
        Violation::DuplicateTopicId { id } => seq![id@],
        Violation::UnknownCheckpoint { checkpoint, .. } => seq![checkpoint@],
        Violation::CheckpointOutsideStage { checkpoint, .. } => seq![checkpoint@],
        Violation::StageOutOfRange { topic, .. } => seq![topic@],
        Violation::MissingTopicFile { topic, .. } => seq![topic@],
        Violation::UnsafeTopicFile { topic, .. } => seq![topic@],
        Violation::SchemaMajorMismatch { topic, .. } => seq![topic@],
        Violation::HoursReversed { topic, .. } => seq![topic@],
        Violation::UnknownDependency { topic, .. } => seq![topic@],
        Violation::ForwardDependency { topic, .. } => seq![topic@],
        Violation::UntrackedTopic { topic } => seq![topic@],
        Violation::StrayProgressTopic { topic } => seq![topic@],
        Violation::DependencyCycle { chain } => chain@.map_values(|id: String| id@),
        _ => Seq::<Seq<char>>::empty(),
    }
}

/// `a -> b -> ... -> ` for each id of a cycle, then the first again.
pub open spec fn cycle_told(chain: Seq<String>) -> Seq<char>
    decreases chain.len(),
{
    if chain.len() == 0 {
        Seq::<char>::empty()
    } else {
        cycle_told(chain.drop_last()) + chain.last()@ + " -> "@
    }
}

pub open spec fn first_or_empty(chain: Seq<String>) -> Seq<char> {
    if chain.len() > 0 {
        chain[0]@
    } else {
        Seq::<char>::empty()
    }
}

/// The words that tell a violation, after its code.
pub open spec fn told_of(v: Violation) -> Seq<char> {
    match v {
        Violation::EmptyStages => "the program has no stages"@,
        Violation::EmptyTopics => "the program has no topics"@,
        Violation::DuplicateTopicId { id } => "`"@ + id@ + "` is the id of more than one topic"@,
        Violation::StageOutOfRange { topic, stage } => "`"@ + topic@ + "` belongs to stage "@
            + decimal(stage as nat) + ", and the program has no such stage"@,
        Violation::UnknownCheckpoint { stage, checkpoint } => "stage "@ + decimal(stage as nat)
            + " names `"@ + checkpoint@ + "` as its checkpoint, and the program has no such topic"@,
        Violation::CheckpointOutsideStage { stage, checkpoint, found } => "stage "@ + decimal(
            stage as nat,
        ) + " is checked by `"@ + checkpoint@ + "`, which belongs to stage "@ + decimal(
            found as nat,
        ),
        Violation::MissingTopicFile { topic, stage, file } => "stage "@ + decimal(stage as nat)
            + " is generated, and `"@ + topic@ + "` has no document at "@ + file@,
        Violation::UnsafeTopicFile { topic, file } => "`"@ + topic@ + "` is kept at "@ + file@
            + ", which leads outside the program directory"@,
        Violation::DuplicateTopicFile { file } => file@ + " is the document of more than one topic"@,
        Violation::SchemaMajorMismatch { topic, roadmap, found } => "`"@ + topic@
            + "` is written against schema major "@ + decimal(found as nat)
            + ", and the program against "@ + decimal(roadmap as nat),
        Violation::HoursReversed { topic, min, max } => "`"@ + topic@ + "` is estimated at "@
            + decimal(min as nat) + " hours at the least and "@ + decimal(max as nat)
            + " at the most"@,
        Violation::UnknownDependency { topic, depends_on } => "`"@ + topic@ + "` depends on `"@
            + depends_on@ + "`, and the program has no such topic"@,
        Violation::ForwardDependency { topic, depends_on } => "`"@ + topic@ + "` depends on `"@
            + depends_on@ + "`, which the plan puts no earlier than `"@ + topic@ + "` itself"@,
        Violation::DependencyCycle { chain } => "the dependencies close a cycle: "@ + cycle_told(
            chain@,
        ) + first_or_empty(chain@),
        Violation::ProgressForAnotherProgram { program, found } => "the progress belongs to `"@
            + found@ + "`, and the program is `"@ + program@ + "`"@,
        Violation::UntrackedTopic { topic } => "`"@ + topic@ + "` has no entry in the progress"@,
        Violation::StrayProgressTopic { topic } => "the progress tracks `"@ + topic@
            + "`, and the program has no such topic"@,
    }
}

impl Violation {
    pub fn code(&self) -> (r: &'static str)
        ensures
            r@ == code_of(*self),
    {
        match self {
            Violation::EmptyStages => "bundle.empty-stages",
            Violation::EmptyTopics => "bundle.empty-topics",
            Violation::DuplicateTopicId { .. } => "bundle.duplicate-id",
            Violation::StageOutOfRange { .. } => "bundle.stage-out-of-range",
            Violation::UnknownCheckpoint { .. } => "bundle.unknown-checkpoint",
            Violation::CheckpointOutsideStage { .. } => "bundle.checkpoint-outside-stage",
            Violation::MissingTopicFile { .. } => "bundle.missing-topic-file",
            Violation::UnsafeTopicFile { .. } => "bundle.unsafe-file",
            Violation::DuplicateTopicFile { .. } => "bundle.duplicate-file",
            Violation::SchemaMajorMismatch { .. } => "bundle.schema-major-mismatch",
            Violation::HoursReversed { .. } => "bundle.hours-reversed",
            Violation::UnknownDependency { .. } => "bundle.unknown-dependency",
            Violation::ForwardDependency { .. } => "bundle.forward-dependency",
            Violation::DependencyCycle { .. } => "bundle.cycle",
            Violation::ProgressForAnotherProgram { .. } => "bundle.progress-elsewhere",
            Violation::UntrackedTopic { .. } => "bundle.untracked-topic",
            Violation::StrayProgressTopic { .. } => "bundle.stray-progress-topic",
        }
    }

    pub fn topics(&self) -> (r: Vec<&str>)
        ensures
            r@.map_values(|t: &str| t@) == topics_of(*self),
    {
        let mut r: Vec<&str> = Vec::new();
        match self {
            Violation::DuplicateTopicId { id } => r.push(id.as_str()),
            Violation::UnknownCheckpoint { checkpoint, .. } => r.push(checkpoint.as_str()),
            Violation::CheckpointOutsideStage { checkpoint, .. } => r.push(checkpoint.as_str()),
            Violation::StageOutOfRange { topic, .. } => r.push(topic.as_str()),
            Violation::MissingTopicFile { topic, .. } => r.push(topic.as_str()),
            Violation::UnsafeTopicFile { topic, .. } => r.push(topic.as_str()),
            Violation::SchemaMajorMismatch { topic, .. } => r.push(topic.as_str()),
            Violation::HoursReversed { topic, .. } => r.push(topic.as_str()),
            Violation::UnknownDependency { topic, .. } => r.push(topic.as_str()),
            Violation::ForwardDependency { topic, .. } => r.push(topic.as_str()),
            Violation::UntrackedTopic { topic } => r.push(topic.as_str()),
            Violation::StrayProgressTopic { topic } => r.push(topic.as_str()),
            Violation::DependencyCycle { chain } => {
                let mut i: usize = 0;
                while i < chain.len()
                    invariant
                        i <= chain.len(),
                        r@.len() == i,
                        forall|j: int| 0 <= j < i ==> (#[trigger] r@[j])@ == chain@[j]@,
                    decreases chain.len() - i,
                {
                    r.push(chain[i].as_str());
                    i = i + 1;
                }
                assert(r@.map_values(|t: &str| t@) =~= chain@.map_values(|id: String| id@));
            },
            _ => {},
        }
        proof {
            assert(r@.map_values(|t: &str| t@) =~= topics_of(*self));
        }
        r
    }

    /// The violation in words, after its code: what `Display` shows.
    pub fn message(&self) -> (s: String)
        ensures
            s@ == code_of(*self) + ": "@ + told_of(*self),
    {
        let mut s = String::new();
        s.append(self.code());
        s.append(": ");
        let t = self.told();
        s.append(t.as_str());
        s
    }

    /// The violation in words, without its code.
    #[verifier::rlimit(40)]
    pub fn told(&self) -> (s: String)
        ensures
            s@ == told_of(*self),
    {
        let mut s = String::new();
        match self {
            Violation::EmptyStages => s.append("the program has no stages"),
            Violation::EmptyTopics => s.append("the program has no topics"),
            Violation::DuplicateTopicId { id } => {
                s.append("`");
                s.append(id.as_str());
                s.append("` is the id of more than one topic");
            },
            Violation::StageOutOfRange { topic, stage } => {
                s.append("`");
                s.append(topic.as_str());
                s.append("` belongs to stage ");
                push_decimal(&mut s, *stage as u64);
                s.append(", and the program has no such stage");
            },
            Violation::UnknownCheckpoint { stage, checkpoint } => {
                s.append("stage ");
                push_decimal(&mut s, *stage as u64);
                s.append(" names `");
                s.append(checkpoint.as_str());
                s.append("` as its checkpoint, and the program has no such topic");
            },
            Violation::CheckpointOutsideStage { stage, checkpoint, found } => {
                s.append("stage ");
                push_decimal(&mut s, *stage as u64);
                s.append(" is checked by `");
                s.append(checkpoint.as_str());
                s.append("`, which belongs to stage ");
                push_decimal(&mut s, *found as u64);
            },
            Violation::MissingTopicFile { topic, stage, file } => {
                s.append("stage ");
                push_decimal(&mut s, *stage as u64);
                s.append(" is generated, and `");
                s.append(topic.as_str());
                s.append("` has no document at ");
                s.append(file.as_str());
            },
            Violation::UnsafeTopicFile { topic, file } => {
                s.append("`");
                s.append(topic.as_str());
                s.append("` is kept at ");
                s.append(file.as_str());
                s.append(", which leads outside the program directory");
            },
            Violation::DuplicateTopicFile { file } => {
                s.append(file.as_str());
                s.append(" is the document of more than one topic");
            },
            Violation::SchemaMajorMismatch { topic, roadmap, found } => {
                s.append("`");
                s.append(topic.as_str());
                s.append("` is written against schema major ");
                push_decimal(&mut s, *found as u64);
                s.append(", and the program against ");
                push_decimal(&mut s, *roadmap as u64);
            },
            Violation::HoursReversed { topic, min, max } => {
                s.append("`");
                s.append(topic.as_str());
                s.append("` is estimated at ");
                push_decimal(&mut s, *min as u64);
                s.append(" hours at the least and ");
                push_decimal(&mut s, *max as u64);
                s.append(" at the most");
            },
            Violation::UnknownDependency { topic, depends_on } => {
                s.append("`");
                s.append(topic.as_str());
                s.append("` depends on `");
                s.append(depends_on.as_str());
                s.append("`, and the program has no such topic");
            },
            Violation::ForwardDependency { topic, depends_on } => {
                s.append("`");
                s.append(topic.as_str());
                s.append("` depends on `");
                s.append(depends_on.as_str());
                s.append("`, which the plan puts no earlier than `");
                s.append(topic.as_str());
                s.append("` itself");
            },
            Violation::DependencyCycle { chain } => {
                s.append("the dependencies close a cycle: ");
                let ghost start = s@;
                let mut i: usize = 0;
                while i < chain.len()
                    invariant
                        i <= chain.len(),
                        s@ == start + cycle_told(chain@.take(i as int)),
                    decreases chain.len() - i,
                {
                    assert(chain@.take(i + 1).drop_last() == chain@.take(i as int));
                    s.append(chain[i].as_str());
                    s.append(" -> ");
                    i = i + 1;
                }
                assert(chain@.take(chain.len() as int) == chain@);
                if chain.len() > 0 {
                    s.append(chain[0].as_str());
                }
            },
            Violation::ProgressForAnotherProgram { program, found } => {
                s.append("the progress belongs to `");
                s.append(found.as_str());
                s.append("`, and the program is `");
                s.append(program.as_str());
                s.append("`");
            },
            Violation::UntrackedTopic { topic } => {
                s.append("`");
                s.append(topic.as_str());
                s.append("` has no entry in the progress");
            },
            Violation::StrayProgressTopic { topic } => {
                s.append("the progress tracks `");
                s.append(topic.as_str());
                s.append("`, and the program has no such topic");
            },
        }
        s
    }
}

} // verus!
