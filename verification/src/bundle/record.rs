//! The progress against the program: kept for it, and for each of its topics.
use vstd::prelude::*;

use super::violation::Violation;
use crate::progress::{Progress, State};
use crate::roadmap::{Roadmap, TopicEntry};

verus! {

pub open spec fn recorded(p: Seq<(String, State)>, id: Seq<char>) -> bool {
    exists|i: int| 0 <= i < p.len() && p[i].0@ == id
}

pub open spec fn declared(t: Seq<TopicEntry>, id: Seq<char>) -> bool {
    exists|i: int| 0 <= i < t.len() && t[i].id@ == id
}

/// Each entry of the plan that the progress does not track.
pub open spec fn untracked_of(t: Seq<TopicEntry>, p: Seq<(String, State)>) -> Seq<Violation>
    decreases t.len(),
{
    if t.len() == 0 {
        Seq::<Violation>::empty()
    } else {
        let rest = untracked_of(t.drop_last(), p);
        if !recorded(p, t.last().id@) {
            rest.push(Violation::UntrackedTopic { topic: t.last().id })
        } else {
            rest
        }
    }
}

/// Each topic of the progress that the plan does not have.
pub open spec fn stray_of(t: Seq<TopicEntry>, p: Seq<(String, State)>) -> Seq<Violation>
    decreases p.len(),
{
    if p.len() == 0 {
        Seq::<Violation>::empty()
    } else {
        let rest = stray_of(t, p.drop_last());
        if !declared(t, p.last().0@) {
            rest.push(Violation::StrayProgressTopic { topic: p.last().0 })
        } else {
            rest
        }
    }
}

/// Everything that the check of the progress finds, in the order it reports it.
pub open spec fn record_of(roadmap: Roadmap, progress: Progress) -> Seq<Violation> {
    (if progress.roadmap_id@ != roadmap.id@ {
        seq![
            Violation::ProgressForAnotherProgram {
                program: roadmap.id,
                found: progress.roadmap_id,
            },
        ]
    } else {
        Seq::<Violation>::empty()
    }) + untracked_of(roadmap.topics@, progress.topics@) + stray_of(
        roadmap.topics@,
        progress.topics@,
    )
}

fn is_recorded(p: &Vec<(String, State)>, id: &String) -> (r: bool)
    ensures
        r == recorded(p@, id@),
{
    let mut i: usize = 0;
    while i < p.len()
        invariant
            i <= p@.len(),
            forall|j: int| 0 <= j < i ==> p@[j].0@ != id@,
        decreases p.len() - i,
    {
        if p[i].0 == *id {
            return true;
        }
        i = i + 1;
    }
    false
}

pub(crate) fn is_declared(t: &Vec<TopicEntry>, id: &String) -> (r: bool)
    ensures
        r == declared(t@, id@),
{
    let mut i: usize = 0;
    while i < t.len()
        invariant
            i <= t@.len(),
            forall|j: int| 0 <= j < i ==> t@[j].id@ != id@,
        decreases t.len() - i,
    {
        if t[i].id == *id {
            return true;
        }
        i = i + 1;
    }
    false
}

/// Checks the progress against the program, appending what it finds to `found`.
pub fn check(roadmap: &Roadmap, progress: &Progress, found: &mut Vec<Violation>)
    ensures
        final(found)@ == old(found)@ + record_of(*roadmap, *progress),
{
    let ghost start = found@;
    if progress.roadmap_id != roadmap.id {
        found.push(
            Violation::ProgressForAnotherProgram {
                program: roadmap.id.clone(),
                found: progress.roadmap_id.clone(),
            },
        );
    }
    let ghost first = found@;
    let t = &roadmap.topics;
    let p = &progress.topics;
    let mut i: usize = 0;
    while i < t.len()
        invariant
            i <= t@.len(),
            t == &roadmap.topics,
            p == &progress.topics,
            found@ == first + untracked_of(t@.take(i as int), p@),
        decreases t.len() - i,
    {
        assert(t@.take(i + 1).drop_last() == t@.take(i as int));
        assert(t@.take(i + 1).last() == t@[i as int]);
        if !is_recorded(p, &t[i].id) {
            found.push(Violation::UntrackedTopic { topic: t[i].id.clone() });
        }
        i = i + 1;
    }
    assert(t@.take(t.len() as int) == t@);
    let ghost second = found@;
    let mut i: usize = 0;
    while i < p.len()
        invariant
            i <= p@.len(),
            t == &roadmap.topics,
            p == &progress.topics,
            found@ == second + stray_of(t@, p@.take(i as int)),
        decreases p.len() - i,
    {
        assert(p@.take(i + 1).drop_last() == p@.take(i as int));
        assert(p@.take(i + 1).last() == p@[i as int]);
        if !is_declared(t, &p[i].0) {
            found.push(Violation::StrayProgressTopic { topic: p[i].0.clone() });
        }
        i = i + 1;
    }
    assert(p@.take(p.len() as int) == p@);
    assert(found@ =~= start + record_of(*roadmap, *progress));
}

} // verus!
