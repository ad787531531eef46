//! The order of the plan: a topic depends only on topics placed before it.
use vstd::prelude::*;

use super::violation::Violation;
use crate::roadmap::{Roadmap, TopicEntry};
use crate::topic::Topic;

verus! {

/// The place in the plan of the last entry that carries `id`, where one does.
pub open spec fn place_of(t: Seq<TopicEntry>, id: Seq<char>) -> Option<nat>
    decreases t.len(),
{
    if t.len() == 0 {
        None
    } else if t.last().id@ == id {
        Some((t.len() - 1) as nat)
    } else {
        place_of(t.drop_last(), id)
    }
}

/// The dependencies of `topic`, placed at `index`, that the plan puts no earlier.
pub open spec fn forward_deps(t: Seq<TopicEntry>, topic: Topic, index: nat, deps: Seq<String>) -> Seq<
    Violation,
>
    decreases deps.len(),
{
    if deps.len() == 0 {
        Seq::<Violation>::empty()
    } else {
        let rest = forward_deps(t, topic, index, deps.drop_last());
        match place_of(t, deps.last()@) {
            Some(at) => if at >= index {
                rest.push(Violation::ForwardDependency { topic: topic.id, depends_on: deps.last() })
            } else {
                rest
            },
            None => rest,
        }
    }
}

/// Every dependency on a topic that the plan puts no earlier than its dependant.
pub open spec fn forward_of(t: Seq<TopicEntry>, topics: Seq<Topic>) -> Seq<Violation>
    decreases topics.len(),
{
    if topics.len() == 0 {
        Seq::<Violation>::empty()
    } else {
        let rest = forward_of(t, topics.drop_last());
        let topic = topics.last();
        match place_of(t, topic.id@) {
            Some(index) => rest + forward_deps(t, topic, index, topic.depends_on@),
            None => rest,
        }
    }
}

/// The place of the last entry of the plan that carries `id`.
pub fn place(t: &Vec<TopicEntry>, id: &String) -> (r: Option<usize>)
    ensures
        r matches Some(i) ==> place_of(t@, id@) == Some(i as nat),
        r is None ==> place_of(t@, id@) is None,
{
    let mut i: usize = t.len();
    assert(t@.take(t.len() as int) == t@);
    while i > 0
        invariant
            i <= t@.len(),
            place_of(t@, id@) == place_of(t@.take(i as int), id@),
        decreases i,
    {
        assert(t@.take(i as int).drop_last() == t@.take(i - 1));
        assert(t@.take(i as int).last() == t@[i - 1]);
        if t[i - 1].id == *id {
            return Some(i - 1);
        }
        i = i - 1;
    }
    None
}

/// Checks the order of the plan, appending what it finds to `found`.
pub fn check(roadmap: &Roadmap, topics: &[Topic], found: &mut Vec<Violation>)
    ensures
        final(found)@ == old(found)@ + forward_of(roadmap.topics@, topics@),
{
    let t = &roadmap.topics;
    let ghost start = found@;
    let mut i: usize = 0;
    while i < topics.len()
        invariant
            i <= topics@.len(),
            found@ == start + forward_of(t@, topics@.take(i as int)),
        decreases topics.len() - i,
    {
        let topic = &topics[i];
        assert(topics@.take(i + 1).drop_last() == topics@.take(i as int));
        assert(topics@.take(i + 1).last() == topics@[i as int]);
        let ghost before = found@;
        match place(t, &topic.id) {
            None => {},
            Some(index) => {
                let deps = &topic.depends_on;
                let mut j: usize = 0;
                while j < deps.len()
                    invariant
                        j <= deps@.len(),
                        deps == &topic.depends_on,
                        found@ == before + forward_deps(t@, *topic, index as nat, deps@.take(j as int)),
                    decreases deps.len() - j,
                {
                    assert(deps@.take(j + 1).drop_last() == deps@.take(j as int));
                    assert(deps@.take(j + 1).last() == deps@[j as int]);
                    match place(t, &deps[j]) {
                        Some(at) => if at >= index {
                            found.push(
                                Violation::ForwardDependency {
                                    topic: topic.id.clone(),
                                    depends_on: deps[j].clone(),
                                },
                            );
                        },
                        None => {},
                    }
                    j = j + 1;
                }
                assert(deps@.take(deps.len() as int) == deps@);
            },
        }
        assert(found@ =~= start + forward_of(t@, topics@.take(i + 1)));
        i = i + 1;
    }
    assert(topics@.take(topics.len() as int) == topics@);
}

} // verus!
