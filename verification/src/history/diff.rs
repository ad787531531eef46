//! What changed between two versions of a program: the topics added and
//! removed, and the ones whose documents were rewritten.
use vstd::prelude::*;

use super::types::{Diff, Rewritten, Snapshot};
use crate::bundle::graph::{doc_of, find_doc};
use crate::progress::{Progress, State, Status};
use crate::roadmap::TopicEntry;
use crate::text::{ascending, chars_of, insert_sorted, put, string_of, texts, views};
use crate::topic::Topic;

verus! {

/// The ids of a plan.
pub open spec fn ids_of(t: Seq<TopicEntry>) -> Set<Seq<char>> {
    t.map_values(|e: TopicEntry| e.id@).to_set()
}

/// The state of a topic by the first record of it.
pub open spec fn state_of(p: Seq<(String, State)>, id: Seq<char>) -> Option<State>
    decreases p.len(),
{
    if p.len() == 0 {
        None
    } else if p[0].0@ == id {
        Some(p[0].1)
    } else {
        state_of(p.drop_first(), id)
    }
}

/// A topic passed once and gone stale since.
pub open spec fn demoted_of(p: Seq<(String, State)>, id: Seq<char>) -> bool {
    state_of(p, id) matches Some(s) && s.status == Status::StalePassed
}

/// A rewritten topic by its id, title, parts changed and whether it was demoted.
pub open spec fn rewritten_view(r: Rewritten) -> (Seq<char>, Seq<char>, Seq<Seq<char>>, bool) {
    (r.id@, r.title@, texts(r.changed@), r.demoted)
}

/// An entry of the plan after, rewritten where both versions have its document
/// and some part of it changed.
pub open spec fn one_of(
    before: Seq<Topic>,
    e: TopicEntry,
    after: Seq<Topic>,
    p: Seq<(String, State)>,
    parts: Seq<Seq<char>>,
) -> Seq<(Seq<char>, Seq<char>, Seq<Seq<char>>, bool)> {
    if doc_of(before, e.id@) is Some && doc_of(after, e.id@) is Some && parts.len() > 0 {
        seq![(e.id@, e.title@, parts, demoted_of(p, e.id@))]
    } else {
        Seq::empty()
    }
}

/// The topics rewritten, in the order of the plan after.
pub open spec fn rewritten_of(
    before: Seq<Topic>,
    t: Seq<TopicEntry>,
    after: Seq<Topic>,
    p: Seq<(String, State)>,
    changes: Seq<Seq<Seq<char>>>,
) -> Seq<(Seq<char>, Seq<char>, Seq<Seq<char>>, bool)>
    decreases t.len(),
{
    if t.len() == 0 {
        Seq::empty()
    } else {
        rewritten_of(before, t.drop_last(), after, p, changes) + one_of(
            before,
            t.last(),
            after,
            p,
            changes[t.len() - 1],
        )
    }
}

fn declares(t: &Vec<TopicEntry>, id: &String) -> (r: bool)
    ensures
        r == ids_of(t@).contains(id@),
{
    let mut i: usize = 0;
    while i < t.len()
        invariant
            i <= t@.len(),
            forall|j: int| 0 <= j < i ==> (#[trigger] t@[j]).id@ != id@,
        decreases t.len() - i,
    {
        if t[i].id == *id {
            assert(t@.map_values(|e: TopicEntry| e.id@)[i as int] == id@);
            return true;
        }
        i = i + 1;
    }
    proof {
        let m = t@.map_values(|e: TopicEntry| e.id@);
        if m.to_set().contains(id@) {
            let k = choose|k: int| 0 <= k < m.len() && #[trigger] m[k] == id@;
            assert(t@[k].id@ == id@);
        }
    }
    false
}

/// The ids of `a` that `b` lacks, in the order of `str`.
fn missing(a: &Vec<TopicEntry>, b: &Vec<TopicEntry>) -> (r: Vec<String>)
    ensures
        ascending(texts(r@)),
        texts(r@).to_set() == ids_of(a@).difference(ids_of(b@)),
{
    let mut out: Vec<Vec<char>> = Vec::new();
    let mut i: usize = 0;
    while i < a.len()
        invariant
            i <= a@.len(),
            ascending(views(out@)),
            views(out@).to_set() == a@.take(i as int).map_values(|e: TopicEntry| e.id@).to_set().difference(
                ids_of(b@),
            ),
        decreases a.len() - i,
    {
        let ghost was = views(out@).to_set();
        let id = &a[i];
        let ghost ta = a@.take(i as int).map_values(|e: TopicEntry| e.id@);
        let ghost tb = a@.take(i + 1).map_values(|e: TopicEntry| e.id@);
        assert(tb =~= ta.push(id.id@));
        proof {
            ta.lemma_push_to_set_commute(id.id@);
        }
        assert(tb.to_set() =~= ta.to_set().insert(id.id@));
        if !declares(b, &id.id) {
            insert_sorted(&mut out, chars_of(id.id.as_str()));
            assert(views(out@).to_set() =~= tb.to_set().difference(ids_of(b@)));
        } else {
            assert(was =~= tb.to_set().difference(ids_of(b@)));
        }
        i = i + 1;
    }
    assert(a@.take(i as int) == a@);
    let mut r: Vec<String> = Vec::new();
    let mut k: usize = 0;
    while k < out.len()
        invariant
            k <= out@.len(),
            texts(r@) == views(out@).take(k as int),
        decreases out.len() - k,
    {
        let ghost was = texts(r@);
        r.push(string_of(out[k].as_slice()));
        assert(texts(r@) =~= was.push(out@[k as int]@));
        k = k + 1;
        assert(views(out@).take(k as int) =~= views(out@).take(k - 1).push(out@[k - 1]@));
    }
    assert(views(out@).take(k as int) == views(out@));
    r
}

fn state(p: &Progress, id: &String) -> (r: Option<State>)
    ensures
        r == state_of(p.topics@, id@),
{
    let t = &p.topics;
    let mut i: usize = 0;
    assert(t@.skip(0) == t@);
    while i < t.len()
        invariant
            i <= t@.len(),
            t@ == p.topics@,
            state_of(t@, id@) == state_of(t@.skip(i as int), id@),
        decreases t.len() - i,
    {
        assert(t@.skip(i as int)[0] == t@[i as int]);
        assert(t@.skip(i as int).drop_first() == t@.skip(i + 1));
        if t[i].0 == *id {
            return Some(t[i].1);
        }
        i = i + 1;
    }
    None
}

/// What changed from `before` to `after`: the topics the plan gained and lost,
/// in the order of `str`, and, in the order of the plan after, the topics whose
/// documents both versions have and whose changed parts, as `changes` gives them
/// entry by entry, are some.
pub fn diff(
    before: Snapshot,
    after: Snapshot,
    progress: &Progress,
    changes: &[Vec<String>],
) -> (d: Diff)
    requires
        changes@.len() == after.roadmap.topics@.len(),
    ensures
        ascending(texts(d.added@)),
        texts(d.added@).to_set() == ids_of(after.roadmap.topics@).difference(
            ids_of(before.roadmap.topics@),
        ),
        ascending(texts(d.removed@)),
        texts(d.removed@).to_set() == ids_of(before.roadmap.topics@).difference(
            ids_of(after.roadmap.topics@),
        ),
        d.rewritten@.map_values(|r: Rewritten| rewritten_view(r)) == rewritten_of(
            before.topics@,
            after.roadmap.topics@,
            after.topics@,
            progress.topics@,
            changes@.map_values(|c: Vec<String>| texts(c@)),
        ),
{
    let added = missing(&after.roadmap.topics, &before.roadmap.topics);
    let removed = missing(&before.roadmap.topics, &after.roadmap.topics);
    let t = &after.roadmap.topics;
    let ghost ch = changes@.map_values(|c: Vec<String>| texts(c@));
    let mut rewritten: Vec<Rewritten> = Vec::new();
    let mut i: usize = 0;
    while i < t.len()
        invariant
            i <= t@.len(),
            changes@.len() == t@.len(),
            ch == changes@.map_values(|c: Vec<String>| texts(c@)),
            rewritten@.map_values(|r: Rewritten| rewritten_view(r)) == rewritten_of(
                before.topics@,
                t@.take(i as int),
                after.topics@,
                progress.topics@,
                ch,
            ),
        decreases t.len() - i,
    {
        let ghost was = rewritten@.map_values(|r: Rewritten| rewritten_view(r));
        assert(t@.take(i + 1).drop_last() == t@.take(i as int));
        assert(t@.take(i + 1).last() == t@[i as int]);
        let e = &t[i];
        let was_doc = find_doc(before.topics, &e.id);
        let is_doc = find_doc(after.topics, &e.id);
        let parts = &changes[i];
        if was_doc.is_some() && is_doc.is_some() && parts.len() > 0 {
            let demoted = match state(progress, &e.id) {
                Some(s) => s.status == Status::StalePassed,
                None => false,
            };
            let mut copy: Vec<String> = Vec::new();
            let mut k: usize = 0;
            while k < parts.len()
                invariant
                    k <= parts@.len(),
                    texts(copy@) == texts(parts@).take(k as int),
                decreases parts.len() - k,
            {
                let ghost w = texts(copy@);
                copy.push(parts[k].clone());
                assert(texts(copy@) =~= w.push(parts@[k as int]@));
                k = k + 1;
                assert(texts(parts@).take(k as int) =~= texts(parts@).take(k - 1).push(
                    parts@[k - 1]@,
                ));
            }
            assert(texts(parts@).take(k as int) == texts(parts@));
            let one = Rewritten { id: e.id.clone(), title: e.title.clone(), changed: copy, demoted };
            rewritten.push(one);
            assert(ch[i as int] == texts(parts@));
            assert(rewritten@.map_values(|r: Rewritten| rewritten_view(r)) =~= was + seq![
                rewritten_view(one),
            ]);
        } else {
            assert(rewritten@.map_values(|r: Rewritten| rewritten_view(r)) =~= was + Seq::<
                (Seq<char>, Seq<char>, Seq<Seq<char>>, bool),
            >::empty());
        }
        i = i + 1;
    }
    assert(t@.take(i as int) == t@);
    Diff { added, removed, rewritten }
}

} // verus!

verus! {

/// No topic is both added and removed.
pub proof fn added_and_removed_are_apart(before: Seq<TopicEntry>, after: Seq<TopicEntry>)
    ensures
        ids_of(after).difference(ids_of(before)).disjoint(ids_of(before).difference(ids_of(after))),
{
}

/// `x` reports the entry `j` of the plan `t` as rewritten: both versions have
/// its document, its changed parts are `changes[j]` and there are some.
pub open spec fn told_at(
    x: (Seq<char>, Seq<char>, Seq<Seq<char>>, bool),
    before: Seq<Topic>,
    t: Seq<TopicEntry>,
    after: Seq<Topic>,
    p: Seq<(String, State)>,
    changes: Seq<Seq<Seq<char>>>,
    j: int,
) -> bool {
    &&& 0 <= j < t.len()
    &&& x == (t[j].id@, t[j].title@, changes[j], demoted_of(p, t[j].id@))
    &&& changes[j].len() > 0
    &&& doc_of(before, t[j].id@) is Some
    &&& doc_of(after, t[j].id@) is Some
}

/// A topic is reported as rewritten only with some changed part and only
/// where both versions have its document, and every such topic of the plan
/// after is reported.
pub proof fn rewritten_means_changed(
    before: Seq<Topic>,
    t: Seq<TopicEntry>,
    after: Seq<Topic>,
    p: Seq<(String, State)>,
    changes: Seq<Seq<Seq<char>>>,
)
    requires
        changes.len() >= t.len(),
    ensures
        forall|k: int|
            0 <= k < rewritten_of(before, t, after, p, changes).len() ==> (#[trigger] rewritten_of(
                before,
                t,
                after,
                p,
                changes,
            )[k]).2.len() > 0 && exists|j: int|
                told_at(rewritten_of(before, t, after, p, changes)[k], before, t, after, p, changes, j),
        forall|j: int|
            0 <= j < t.len() && (#[trigger] changes[j]).len() > 0 && doc_of(before, t[j].id@) is Some && doc_of(
                after,
                t[j].id@,
            ) is Some ==> exists|k: int|
                0 <= k < rewritten_of(before, t, after, p, changes).len() && #[trigger] rewritten_of(
                    before,
                    t,
                    after,
                    p,
                    changes,
                )[k] == (t[j].id@, t[j].title@, changes[j], demoted_of(p, t[j].id@)),
    decreases t.len(),
{
    if t.len() > 0 {
        let u = t.drop_last();
        let n = t.len() - 1;
        rewritten_means_changed(before, u, after, p, changes);
        let r0 = rewritten_of(before, u, after, p, changes);
        let one = one_of(before, t.last(), after, p, changes[n]);
        let r = rewritten_of(before, t, after, p, changes);
        assert(r == r0 + one);
        assert forall|k: int| 0 <= k < r.len() implies (#[trigger] r[k]).2.len() > 0 && exists|j: int|
            told_at(r[k], before, t, after, p, changes, j) by {
            if k < r0.len() {
                assert(r[k] == r0[k]);
                let j = choose|j: int| told_at(r0[k], before, u, after, p, changes, j);
                assert(u[j] == t[j]);
                assert(told_at(r[k], before, t, after, p, changes, j));
            } else {
                assert(r[k] == one[k - r0.len()]);
                assert(t[n] == t.last());
                assert(told_at(r[k], before, t, after, p, changes, n));
            }
        }
        assert forall|j: int|
            0 <= j < t.len() && (#[trigger] changes[j]).len() > 0 && doc_of(before, t[j].id@) is Some && doc_of(
                after,
                t[j].id@,
            ) is Some implies exists|k: int| 0 <= k < r.len() && #[trigger] r[k] == (
                t[j].id@,
                t[j].title@,
                changes[j],
                demoted_of(p, t[j].id@),
            ) by {
            if j < n {
                assert(u[j] == t[j]);
                let k = choose|k: int| 0 <= k < r0.len() && #[trigger] r0[k] == (
                    u[j].id@,
                    u[j].title@,
                    changes[j],
                    demoted_of(p, u[j].id@),
                );
                assert(r[k] == r0[k]);
            } else {
                assert(t[j] == t.last());
                assert(r[r0.len() as int] == one[0]);
            }
        }
    }
}

} // verus!
