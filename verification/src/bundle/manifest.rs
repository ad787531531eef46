//! The checks of the manifest: stages, checkpoints, duplicates, documents,
//! schema versions and estimates.
use vstd::prelude::*;

use super::violation::Violation;
use crate::roadmap::{Roadmap, Stage, TopicEntry};
use crate::text::{parsed_u32, split, Class, parse_u32, split_chars, chars_of};
use crate::topic::Topic;

verus! {

/// How many entries of the plan carry `id`.
pub open spec fn count_id(t: Seq<TopicEntry>, id: Seq<char>) -> nat
    decreases t.len(),
{
    if t.len() == 0 {
        0
    } else {
        count_id(t.drop_last(), id) + if t.last().id@ == id {
            1nat
        } else {
            0nat
        }
    }
}

/// An id that the plan gives twice is reported once, at its second entry.
pub open spec fn duplicates_of(t: Seq<TopicEntry>) -> Seq<Violation>
    decreases t.len(),
{
    if t.len() == 0 {
        Seq::<Violation>::empty()
    } else {
        let rest = duplicates_of(t.drop_last());
        if count_id(t.drop_last(), t.last().id@) == 1 {
            rest.push(Violation::DuplicateTopicId { id: t.last().id })
        } else {
            rest
        }
    }
}

pub open spec fn has_stage(stages: Seq<Stage>, n: u32) -> bool {
    exists|i: int| 0 <= i < stages.len() && stages[i].n == n
}

/// Each entry placed in a stage that the program does not have.
pub open spec fn stages_of(stages: Seq<Stage>, t: Seq<TopicEntry>) -> Seq<Violation>
    decreases t.len(),
{
    if t.len() == 0 {
        Seq::<Violation>::empty()
    } else {
        let rest = stages_of(stages, t.drop_last());
        if !has_stage(stages, t.last().stage) {
            rest.push(Violation::StageOutOfRange { topic: t.last().id, stage: t.last().stage })
        } else {
            rest
        }
    }
}

/// The stage of the last entry that carries `id`, where one does.
pub open spec fn placed(t: Seq<TopicEntry>, id: Seq<char>) -> Option<u32>
    decreases t.len(),
{
    if t.len() == 0 {
        None
    } else if t.last().id@ == id {
        Some(t.last().stage)
    } else {
        placed(t.drop_last(), id)
    }
}

/// Each stage whose checkpoint is no topic of the plan, or a topic of another stage.
pub open spec fn checkpoints_of(stages: Seq<Stage>, t: Seq<TopicEntry>) -> Seq<Violation>
    decreases stages.len(),
{
    if stages.len() == 0 {
        Seq::<Violation>::empty()
    } else {
        let rest = checkpoints_of(stages.drop_last(), t);
        let s = stages.last();
        match placed(t, s.checkpoint@) {
            None => rest.push(Violation::UnknownCheckpoint { stage: s.n, checkpoint: s.checkpoint }),
            Some(p) => if p != s.n {
                rest.push(
                    Violation::CheckpointOutsideStage { stage: s.n, checkpoint: s.checkpoint, found: p },
                )
            } else {
                rest
            },
        }
    }
}

pub open spec fn is_generated(stages: Seq<Stage>, n: u32) -> bool {
    exists|i: int| 0 <= i < stages.len() && stages[i].generated && stages[i].n == n
}

pub open spec fn is_loaded(topics: Seq<Topic>, id: Seq<char>) -> bool {
    exists|i: int| 0 <= i < topics.len() && topics[i].id@ == id
}

/// Each entry of a generated stage that has no document.
pub open spec fn documents_of(stages: Seq<Stage>, t: Seq<TopicEntry>, topics: Seq<Topic>) -> Seq<
    Violation,
>
    decreases t.len(),
{
    if t.len() == 0 {
        Seq::<Violation>::empty()
    } else {
        let rest = documents_of(stages, t.drop_last(), topics);
        let e = t.last();
        if is_generated(stages, e.stage) && !is_loaded(topics, e.id@) {
            rest.push(Violation::MissingTopicFile { topic: e.id, stage: e.stage, file: e.file })
        } else {
            rest
        }
    }
}

/// The major version at the end of a schema name: `.../v<major>`, or 0.
pub open spec fn major_of(schema: Seq<char>) -> u32 {
    let last = split(schema, Class::Is('/')).last();
    if last.len() > 0 && last[0] == 'v' {
        match parsed_u32(last.drop_first()) {
            Some(n) => n,
            None => 0,
        }
    } else {
        0
    }
}

/// Each document written against another major version than the program.
pub open spec fn versions_of(expected: u32, topics: Seq<Topic>) -> Seq<Violation>
    decreases topics.len(),
{
    if topics.len() == 0 {
        Seq::<Violation>::empty()
    } else {
        let rest = versions_of(expected, topics.drop_last());
        let t = topics.last();
        if major_of(t.schema@) != expected {
            rest.push(
                Violation::SchemaMajorMismatch {
                    topic: t.id,
                    roadmap: expected,
                    found: major_of(t.schema@),
                },
            )
        } else {
            rest
        }
    }
}

/// Each entry of the plan whose estimate runs backwards.
pub open spec fn entry_hours_of(t: Seq<TopicEntry>) -> Seq<Violation>
    decreases t.len(),
{
    if t.len() == 0 {
        Seq::<Violation>::empty()
    } else {
        let rest = entry_hours_of(t.drop_last());
        let e = t.last();
        if e.est_hours.min > e.est_hours.max {
            rest.push(
                Violation::HoursReversed { topic: e.id, min: e.est_hours.min, max: e.est_hours.max },
            )
        } else {
            rest
        }
    }
}

/// Each document whose estimate runs backwards.
pub open spec fn topic_hours_of(t: Seq<Topic>) -> Seq<Violation>
    decreases t.len(),
{
    if t.len() == 0 {
        Seq::<Violation>::empty()
    } else {
        let rest = topic_hours_of(t.drop_last());
        let e = t.last();
        if e.est_hours.min > e.est_hours.max {
            rest.push(
                Violation::HoursReversed { topic: e.id, min: e.est_hours.min, max: e.est_hours.max },
            )
        } else {
            rest
        }
    }
}

/// Everything that the manifest check finds, in the order it reports it.
pub open spec fn manifest_of(roadmap: Roadmap, topics: Seq<Topic>) -> Seq<Violation> {
    let stages = roadmap.stages@;
    let t = roadmap.topics@;
    (if stages.len() == 0 {
        seq![Violation::EmptyStages]
    } else {
        Seq::<Violation>::empty()
    }) + (if t.len() == 0 {
        seq![Violation::EmptyTopics]
    } else {
        Seq::<Violation>::empty()
    }) + duplicates_of(t) + stages_of(stages, t) + checkpoints_of(stages, t) + documents_of(
        stages,
        t,
        topics,
    ) + versions_of(major_of(roadmap.schema@), topics) + entry_hours_of(t) + topic_hours_of(topics)
}

/// Checks the manifest of a bundle, appending what it finds to `found`.
pub fn check(roadmap: &Roadmap, topics: &[Topic], found: &mut Vec<Violation>)
    ensures
        final(found)@ == old(found)@ + manifest_of(*roadmap, topics@),
{
    let ghost start = found@;
    if roadmap.stages.len() == 0 {
        found.push(Violation::EmptyStages);
    }
    if roadmap.topics.len() == 0 {
        found.push(Violation::EmptyTopics);
    }
    duplicates(roadmap, found);
    stages(roadmap, found);
    checkpoints(roadmap, found);
    documents(roadmap, topics, found);
    versions(roadmap, topics, found);
    hours(roadmap, topics, found);
    assert(found@ =~= start + manifest_of(*roadmap, topics@));
}

fn count_before(t: &Vec<TopicEntry>, upto: usize, id: &String) -> (n: usize)
    requires
        upto <= t@.len(),
    ensures
        n == count_id(t@.take(upto as int), id@),
{
    let mut n: usize = 0;
    let mut j: usize = 0;
    while j < upto
        invariant
            j <= upto <= t@.len(),
            n == count_id(t@.take(j as int), id@),
            n <= j,
        decreases upto - j,
    {
        assert(t@.take(j + 1).drop_last() == t@.take(j as int));
        if t[j].id == *id {
            n = n + 1;
        }
        j = j + 1;
    }
    n
}

fn duplicates(roadmap: &Roadmap, found: &mut Vec<Violation>)
    ensures
        final(found)@ == old(found)@ + duplicates_of(roadmap.topics@),
{
    let t = &roadmap.topics;
    let ghost start = found@;
    let mut i: usize = 0;
    while i < t.len()
        invariant
            i <= t@.len(),
            found@ == start + duplicates_of(t@.take(i as int)),
        decreases t.len() - i,
    {
        let entry = &t[i];
        assert(t@.take(i + 1).drop_last() == t@.take(i as int));
        assert(t@.take(i + 1).last() == t@[i as int]);
        if count_before(t, i, &entry.id) == 1 {
            found.push(Violation::DuplicateTopicId { id: entry.id.clone() });
        }
        i = i + 1;
    }
    assert(t@.take(t.len() as int) == t@);
}

fn known_stage(stages: &Vec<Stage>, n: u32) -> (r: bool)
    ensures
        r == has_stage(stages@, n),
{
    let mut i: usize = 0;
    while i < stages.len()
        invariant
            i <= stages@.len(),
            forall|j: int| 0 <= j < i ==> stages@[j].n != n,
        decreases stages.len() - i,
    {
        if stages[i].n == n {
            return true;
        }
        i = i + 1;
    }
    false
}

fn stages(roadmap: &Roadmap, found: &mut Vec<Violation>)
    ensures
        final(found)@ == old(found)@ + stages_of(roadmap.stages@, roadmap.topics@),
{
    let t = &roadmap.topics;
    let ghost start = found@;
    let mut i: usize = 0;
    while i < t.len()
        invariant
            i <= t@.len(),
            found@ == start + stages_of(roadmap.stages@, t@.take(i as int)),
        decreases t.len() - i,
    {
        let entry = &t[i];
        assert(t@.take(i + 1).drop_last() == t@.take(i as int));
        assert(t@.take(i + 1).last() == t@[i as int]);
        if !known_stage(&roadmap.stages, entry.stage) {
            found.push(Violation::StageOutOfRange { topic: entry.id.clone(), stage: entry.stage });
        }
        i = i + 1;
    }
    assert(t@.take(t.len() as int) == t@);
}

fn placement(t: &Vec<TopicEntry>, id: &String) -> (r: Option<u32>)
    ensures
        r == placed(t@, id@),
{
    let mut i: usize = t.len();
    assert(t@.take(t.len() as int) == t@);
    while i > 0
        invariant
            i <= t@.len(),
            placed(t@, id@) == placed(t@.take(i as int), id@),
        decreases i,
    {
        assert(t@.take(i as int).drop_last() == t@.take(i - 1));
        assert(t@.take(i as int).last() == t@[i - 1]);
        if t[i - 1].id == *id {
            return Some(t[i - 1].stage);
        }
        i = i - 1;
    }
    None
}

fn checkpoints(roadmap: &Roadmap, found: &mut Vec<Violation>)
    ensures
        final(found)@ == old(found)@ + checkpoints_of(roadmap.stages@, roadmap.topics@),
{
    let s = &roadmap.stages;
    let ghost start = found@;
    let mut i: usize = 0;
    while i < s.len()
        invariant
            i <= s@.len(),
            found@ == start + checkpoints_of(s@.take(i as int), roadmap.topics@),
        decreases s.len() - i,
    {
        let stage = &s[i];
        assert(s@.take(i + 1).drop_last() == s@.take(i as int));
        assert(s@.take(i + 1).last() == s@[i as int]);
        match placement(&roadmap.topics, &stage.checkpoint) {
            None => found.push(
                Violation::UnknownCheckpoint { stage: stage.n, checkpoint: stage.checkpoint.clone() },
            ),
            Some(p) => if p != stage.n {
                found.push(
                    Violation::CheckpointOutsideStage {
                        stage: stage.n,
                        checkpoint: stage.checkpoint.clone(),
                        found: p,
                    },
                );
            },
        }
        i = i + 1;
    }
    assert(s@.take(s.len() as int) == s@);
}

fn generated_stage(stages: &Vec<Stage>, n: u32) -> (r: bool)
    ensures
        r == is_generated(stages@, n),
{
    let mut i: usize = 0;
    while i < stages.len()
        invariant
            i <= stages@.len(),
            forall|j: int| 0 <= j < i ==> !(stages@[j].generated && stages@[j].n == n),
        decreases stages.len() - i,
    {
        if stages[i].generated && stages[i].n == n {
            return true;
        }
        i = i + 1;
    }
    false
}

fn loaded(topics: &[Topic], id: &String) -> (r: bool)
    ensures
        r == is_loaded(topics@, id@),
{
    let mut i: usize = 0;
    while i < topics.len()
        invariant
            i <= topics@.len(),
            forall|j: int| 0 <= j < i ==> topics@[j].id@ != id@,
        decreases topics.len() - i,
    {
        if topics[i].id == *id {
            return true;
        }
        i = i + 1;
    }
    false
}

fn documents(roadmap: &Roadmap, topics: &[Topic], found: &mut Vec<Violation>)
    ensures
        final(found)@ == old(found)@ + documents_of(roadmap.stages@, roadmap.topics@, topics@),
{
    let t = &roadmap.topics;
    let ghost start = found@;
    let mut i: usize = 0;
    while i < t.len()
        invariant
            i <= t@.len(),
            found@ == start + documents_of(roadmap.stages@, t@.take(i as int), topics@),
        decreases t.len() - i,
    {
        let entry = &t[i];
        assert(t@.take(i + 1).drop_last() == t@.take(i as int));
        assert(t@.take(i + 1).last() == t@[i as int]);
        if generated_stage(&roadmap.stages, entry.stage) && !loaded(topics, &entry.id) {
            found.push(
                Violation::MissingTopicFile {
                    topic: entry.id.clone(),
                    stage: entry.stage,
                    file: entry.file.clone(),
                },
            );
        }
        i = i + 1;
    }
    assert(t@.take(t.len() as int) == t@);
}

/// The major version at the end of a schema name.
pub fn major(schema: &str) -> (n: u32)
    ensures
        n == major_of(schema@),
{
    let s = chars_of(schema);
    let parts = split_chars(&s, &Class::Is('/'));
    let last = &parts[parts.len() - 1];
    assert(last@ == split(schema@, Class::Is('/')).last());
    if last.len() > 0 && last[0] == 'v' {
        let rest = crate::text::slice(last, 1, last.len());
        assert(rest@ == last@.drop_first());
        match parse_u32(&rest) {
            Some(n) => n,
            None => 0,
        }
    } else {
        0
    }
}

fn versions(roadmap: &Roadmap, topics: &[Topic], found: &mut Vec<Violation>)
    ensures
        final(found)@ == old(found)@ + versions_of(major_of(roadmap.schema@), topics@),
{
    let expected = major(roadmap.schema.as_str());
    let ghost start = found@;
    let mut i: usize = 0;
    while i < topics.len()
        invariant
            i <= topics@.len(),
            expected == major_of(roadmap.schema@),
            found@ == start + versions_of(expected, topics@.take(i as int)),
        decreases topics.len() - i,
    {
        let topic = &topics[i];
        assert(topics@.take(i + 1).drop_last() == topics@.take(i as int));
        assert(topics@.take(i + 1).last() == topics@[i as int]);
        let actual = major(topic.schema.as_str());
        if actual != expected {
            found.push(
                Violation::SchemaMajorMismatch {
                    topic: topic.id.clone(),
                    roadmap: expected,
                    found: actual,
                },
            );
        }
        i = i + 1;
    }
    assert(topics@.take(topics.len() as int) == topics@);
}

fn hours(roadmap: &Roadmap, topics: &[Topic], found: &mut Vec<Violation>)
    ensures
        final(found)@ == old(found)@ + entry_hours_of(roadmap.topics@) + topic_hours_of(topics@),
{
    let t = &roadmap.topics;
    let ghost start = found@;
    let mut i: usize = 0;
    while i < t.len()
        invariant
            i <= t@.len(),
            found@ == start + entry_hours_of(t@.take(i as int)),
        decreases t.len() - i,
    {
        let e = &t[i];
        assert(t@.take(i + 1).drop_last() == t@.take(i as int));
        assert(t@.take(i + 1).last() == t@[i as int]);
        if e.est_hours.min > e.est_hours.max {
            found.push(
                Violation::HoursReversed {
                    topic: e.id.clone(),
                    min: e.est_hours.min,
                    max: e.est_hours.max,
                },
            );
        }
        i = i + 1;
    }
    assert(t@.take(t.len() as int) == t@);
    let ghost middle = found@;
    let mut i: usize = 0;
    while i < topics.len()
        invariant
            i <= topics@.len(),
            found@ == middle + topic_hours_of(topics@.take(i as int)),
        decreases topics.len() - i,
    {
        let e = &topics[i];
        assert(topics@.take(i + 1).drop_last() == topics@.take(i as int));
        assert(topics@.take(i + 1).last() == topics@[i as int]);
        if e.est_hours.min > e.est_hours.max {
            found.push(
                Violation::HoursReversed {
                    topic: e.id.clone(),
                    min: e.est_hours.min,
                    max: e.est_hours.max,
                },
            );
        }
        i = i + 1;
    }
    assert(topics@.take(topics.len() as int) == topics@);
}

/// No report of the list is of a document's major version.
pub open spec fn no_mismatch(s: Seq<Violation>) -> bool {
    forall|k: int| 0 <= k < s.len() ==> !(#[trigger] s[k] is SchemaMajorMismatch)
}

proof fn lemma_pushed(s: Seq<Violation>, x: Violation)
    requires
        no_mismatch(s),
        !(x is SchemaMajorMismatch),
    ensures
        no_mismatch(s.push(x)),
{
    assert forall|k: int| 0 <= k < s.push(x).len() implies !(#[trigger] s.push(x)[k] is SchemaMajorMismatch) by {
        if k < s.len() {
            assert(s.push(x)[k] == s[k]);
        }
    }
}

proof fn lemma_others_plain(roadmap: Roadmap, topics: Seq<Topic>)
    ensures
        no_mismatch(duplicates_of(roadmap.topics@)),
        no_mismatch(stages_of(roadmap.stages@, roadmap.topics@)),
        no_mismatch(checkpoints_of(roadmap.stages@, roadmap.topics@)),
        no_mismatch(documents_of(roadmap.stages@, roadmap.topics@, topics)),
        no_mismatch(entry_hours_of(roadmap.topics@)),
        no_mismatch(topic_hours_of(topics)),
{
    lemma_duplicates_plain(roadmap.topics@);
    lemma_stages_plain(roadmap.stages@, roadmap.topics@);
    lemma_checkpoints_plain(roadmap.stages@, roadmap.topics@);
    lemma_documents_plain(roadmap.stages@, roadmap.topics@, topics);
    lemma_entry_hours_plain(roadmap.topics@);
    lemma_topic_hours_plain(topics);
}

proof fn lemma_duplicates_plain(t: Seq<TopicEntry>)
    ensures
        no_mismatch(duplicates_of(t)),
    decreases t.len(),
{
    if t.len() > 0 {
        lemma_duplicates_plain(t.drop_last());
        if count_id(t.drop_last(), t.last().id@) == 1 {
            lemma_pushed(duplicates_of(t.drop_last()), Violation::DuplicateTopicId { id: t.last().id });
        }
    }
}

proof fn lemma_stages_plain(stages: Seq<Stage>, t: Seq<TopicEntry>)
    ensures
        no_mismatch(stages_of(stages, t)),
    decreases t.len(),
{
    if t.len() > 0 {
        lemma_stages_plain(stages, t.drop_last());
        if !has_stage(stages, t.last().stage) {
            lemma_pushed(
                stages_of(stages, t.drop_last()),
                Violation::StageOutOfRange { topic: t.last().id, stage: t.last().stage },
            );
        }
    }
}

proof fn lemma_checkpoints_plain(stages: Seq<Stage>, t: Seq<TopicEntry>)
    ensures
        no_mismatch(checkpoints_of(stages, t)),
    decreases stages.len(),
{
    if stages.len() > 0 {
        lemma_checkpoints_plain(stages.drop_last(), t);
        let rest = checkpoints_of(stages.drop_last(), t);
        let s = stages.last();
        match placed(t, s.checkpoint@) {
            None => lemma_pushed(rest, Violation::UnknownCheckpoint { stage: s.n, checkpoint: s.checkpoint }),
            Some(p) => if p != s.n {
                lemma_pushed(
                    rest,
                    Violation::CheckpointOutsideStage { stage: s.n, checkpoint: s.checkpoint, found: p },
                );
            },
        }
    }
}

proof fn lemma_documents_plain(stages: Seq<Stage>, t: Seq<TopicEntry>, topics: Seq<Topic>)
    ensures
        no_mismatch(documents_of(stages, t, topics)),
    decreases t.len(),
{
    if t.len() > 0 {
        lemma_documents_plain(stages, t.drop_last(), topics);
        let e = t.last();
        if is_generated(stages, e.stage) && !is_loaded(topics, e.id@) {
            lemma_pushed(
                documents_of(stages, t.drop_last(), topics),
                Violation::MissingTopicFile { topic: e.id, stage: e.stage, file: e.file },
            );
        }
    }
}

proof fn lemma_entry_hours_plain(t: Seq<TopicEntry>)
    ensures
        no_mismatch(entry_hours_of(t)),
    decreases t.len(),
{
    if t.len() > 0 {
        lemma_entry_hours_plain(t.drop_last());
        let e = t.last();
        if e.est_hours.min > e.est_hours.max {
            lemma_pushed(
                entry_hours_of(t.drop_last()),
                Violation::HoursReversed { topic: e.id, min: e.est_hours.min, max: e.est_hours.max },
            );
        }
    }
}

proof fn lemma_topic_hours_plain(t: Seq<Topic>)
    ensures
        no_mismatch(topic_hours_of(t)),
    decreases t.len(),
{
    if t.len() > 0 {
        lemma_topic_hours_plain(t.drop_last());
        let e = t.last();
        if e.est_hours.min > e.est_hours.max {
            lemma_pushed(
                topic_hours_of(t.drop_last()),
                Violation::HoursReversed { topic: e.id, min: e.est_hours.min, max: e.est_hours.max },
            );
        }
    }
}

/// The report of a document written against another major version than `expected`.
pub open spec fn mismatch_of(t: Topic, expected: u32) -> Violation {
    Violation::SchemaMajorMismatch { topic: t.id, roadmap: expected, found: major_of(t.schema@) }
}

/// `x` is among the reports.
pub open spec fn reported_in(s: Seq<Violation>, x: Violation) -> bool {
    exists|k: int| 0 <= k < s.len() && s[k] == x
}

/// A report of a major version names the program's, `expected`, and a
/// document of `topics` whose own major version, which it names too, differs;
/// a report of another kind is not one of these.
pub open spec fn names_a_differing_document(x: Violation, expected: u32, topics: Seq<Topic>) -> bool {
    match x {
        Violation::SchemaMajorMismatch { topic, roadmap, found } => roadmap == expected && found != expected
            && exists|i: int|
            0 <= i < topics.len() && (#[trigger] topics[i]).id == topic && major_of(topics[i].schema@) == found,
        _ => true,
    }
}

proof fn lemma_versions(expected: u32, topics: Seq<Topic>)
    ensures
        forall|i: int|
            0 <= i < topics.len() && major_of((#[trigger] topics[i]).schema@) != expected ==> reported_in(
                versions_of(expected, topics),
                mismatch_of(topics[i], expected),
            ),
        forall|k: int|
            0 <= k < versions_of(expected, topics).len() ==> (#[trigger] versions_of(expected, topics)[k]) is SchemaMajorMismatch
                && names_a_differing_document(versions_of(expected, topics)[k], expected, topics),
    decreases topics.len(),
{
    if topics.len() > 0 {
        let u = topics.drop_last();
        lemma_versions(expected, u);
        let rest = versions_of(expected, u);
        let v = versions_of(expected, topics);
        let t = topics.last();
        let n = topics.len() - 1;
        assert(topics[n] == t);
        assert forall|i: int|
            0 <= i < topics.len() && major_of((#[trigger] topics[i]).schema@) != expected implies reported_in(
                v,
                mismatch_of(topics[i], expected),
            ) by {
            if i < n {
                assert(u[i] == topics[i]);
                assert(reported_in(rest, mismatch_of(u[i], expected)));
                let k = choose|k: int| 0 <= k < rest.len() && rest[k] == mismatch_of(u[i], expected);
                assert(v[k] == rest[k]);
            } else {
                assert(v[rest.len() as int] == mismatch_of(t, expected));
            }
        }
        assert forall|k: int| 0 <= k < v.len() implies (#[trigger] v[k]) is SchemaMajorMismatch
            && names_a_differing_document(v[k], expected, topics) by {
            if k < rest.len() {
                assert(v[k] == rest[k]);
                assert(names_a_differing_document(rest[k], expected, u));
                if let Violation::SchemaMajorMismatch { topic, roadmap, found } = rest[k] {
                    let i = choose|i: int|
                        0 <= i < u.len() && (#[trigger] u[i]).id == topic && major_of(u[i].schema@) == found;
                    assert(u[i] == topics[i]);
                }
            } else {
                assert(v[k] == mismatch_of(t, expected));
            }
        }
    }
}

/// The manifest check reports a document's major version exactly when it
/// differs from the program's, in either direction: each such document has a
/// report that names it, the program's major version and its own, and every
/// such report names a document whose major version differs.
pub proof fn major_versions_must_match(roadmap: Roadmap, topics: Seq<Topic>)
    ensures
        forall|i: int|
            0 <= i < topics.len() && major_of((#[trigger] topics[i]).schema@) != major_of(roadmap.schema@)
                ==> reported_in(manifest_of(roadmap, topics), mismatch_of(topics[i], major_of(roadmap.schema@))),
        forall|k: int|
            0 <= k < manifest_of(roadmap, topics).len() ==> names_a_differing_document(
                #[trigger] manifest_of(roadmap, topics)[k],
                major_of(roadmap.schema@),
                topics,
            ),
{
    let e = major_of(roadmap.schema@);
    let stages = roadmap.stages@;
    let t = roadmap.topics@;
    let x = (if stages.len() == 0 {
        seq![Violation::EmptyStages]
    } else {
        Seq::<Violation>::empty()
    });
    let y = (if t.len() == 0 {
        seq![Violation::EmptyTopics]
    } else {
        Seq::<Violation>::empty()
    });
    let a = x + y + duplicates_of(t) + stages_of(stages, t) + checkpoints_of(stages, t) + documents_of(
        stages,
        t,
        topics,
    );
    let v = versions_of(e, topics);
    let b = entry_hours_of(t) + topic_hours_of(topics);
    let m = manifest_of(roadmap, topics);
    assert(m =~= a + v + b);
    lemma_others_plain(roadmap, topics);
    lemma_versions(e, topics);
    let x1 = x + y;
    let x2 = x1 + duplicates_of(t);
    let x3 = x2 + stages_of(stages, t);
    let x4 = x3 + checkpoints_of(stages, t);
    assert(no_mismatch(x1)) by {
        assert forall|k: int| 0 <= k < x1.len() implies !(#[trigger] x1[k] is SchemaMajorMismatch) by {
            if k < x.len() {
                assert(x1[k] == x[k]);
            } else {
                assert(x1[k] == y[k - x.len()]);
            }
        }
    }
    lemma_joined(x1, duplicates_of(t));
    lemma_joined(x2, stages_of(stages, t));
    lemma_joined(x3, checkpoints_of(stages, t));
    lemma_joined(x4, documents_of(stages, t, topics));
    lemma_joined(entry_hours_of(t), topic_hours_of(topics));
    assert forall|i: int|
        0 <= i < topics.len() && major_of((#[trigger] topics[i]).schema@) != e implies reported_in(
            m,
            mismatch_of(topics[i], e),
        ) by {
        assert(reported_in(v, mismatch_of(topics[i], e)));
        let k = choose|k: int| 0 <= k < v.len() && v[k] == mismatch_of(topics[i], e);
        assert(m[a.len() + k] == v[k]);
    }
    assert forall|k: int| 0 <= k < m.len() implies names_a_differing_document(#[trigger] m[k], e, topics) by {
        if k < a.len() {
            assert(m[k] == a[k]);
            assert(!(a[k] is SchemaMajorMismatch));
        } else if k < a.len() + v.len() {
            assert(m[k] == v[k - a.len()]);
        } else {
            assert(m[k] == b[k - a.len() - v.len()]);
            assert(!(b[k - a.len() - v.len()] is SchemaMajorMismatch));
        }
    }
}

proof fn lemma_joined(s: Seq<Violation>, t: Seq<Violation>)
    requires
        no_mismatch(s),
        no_mismatch(t),
    ensures
        no_mismatch(s + t),
{
    assert forall|k: int| 0 <= k < (s + t).len() implies !(#[trigger] (s + t)[k] is SchemaMajorMismatch) by {
        if k < s.len() {
            assert((s + t)[k] == s[k]);
        } else {
            assert((s + t)[k] == t[k - s.len()]);
        }
    }
}

} // verus!
