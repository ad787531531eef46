//! The strongly connected components of a graph, by Tarjan's walk.
use vstd::prelude::*;

use std::collections::BTreeSet;

verus! {

broadcast use vstd::laws_cmp::group_laws_cmp, vstd::std_specs::btree::group_btree_axioms;

/// Every edge leads to a node of the graph.
pub open spec fn edges_ok(edges: Seq<Vec<usize>>) -> bool {
    forall|v: int, j: int|
        0 <= v < edges.len() && 0 <= j < edges[v]@.len() ==> #[trigger] edges[v]@[j] < edges.len()
}

/// Each node of the graph lies in exactly one of `parts`, and no part is empty
/// or holds anything else.
pub open spec fn partition(parts: Seq<Set<usize>>, n: nat) -> bool {
    &&& forall|k: int| 0 <= k < parts.len() ==> (#[trigger] parts[k]).len() > 0 && parts[k].finite()
    &&& forall|k: int, v: usize| 0 <= k < parts.len() && #[trigger] parts[k].contains(v) ==> v < n
    &&& forall|v: usize| v < n ==> #[trigger] in_some(parts, v)
    &&& forall|k1: int, k2: int, v: usize|
        0 <= k1 < parts.len() && 0 <= k2 < parts.len() && #[trigger] parts[k1].contains(v)
            && #[trigger] parts[k2].contains(v) ==> k1 == k2
}

/// Some part holds `v`.
pub open spec fn in_some(parts: Seq<Set<usize>>, v: usize) -> bool {
    exists|k: int| 0 <= k < parts.len() && #[trigger] parts[k].contains(v)
}

/// The least member of a set of nodes.
pub open spec fn least(s: Set<usize>, m: usize) -> bool {
    s.contains(m) && forall|v: usize| #[trigger] s.contains(v) ==> m <= v
}

/// The least member of a set that has one.
pub open spec fn least_of(s: Set<usize>) -> usize {
    choose|m: usize| least(s, m)
}

pub proof fn lemma_least_of(s: Set<usize>, m: usize)
    requires
        least(s, m),
    ensures
        least_of(s) == m,
{
    let k = least_of(s);
    assert(least(s, k));
}

/// The parts come in the order of their least members.
pub open spec fn by_least(parts: Seq<Set<usize>>) -> bool {
    forall|i: int, j: int|
        0 <= i < j < parts.len() ==> least_of(#[trigger] parts[i]) < least_of(#[trigger] parts[j])
}

/// `b` is one of the edges of `a`.
pub open spec fn edge(edges: Seq<Vec<usize>>, a: usize, b: usize) -> bool {
    a < edges.len() && edges[a as int]@.contains(b)
}

/// `p` walks along edges of the graph.
pub open spec fn is_path(edges: Seq<Vec<usize>>, p: Seq<usize>) -> bool {
    &&& p.len() > 0
    &&& forall|i: int| 0 <= i < p.len() - 1 ==> #[trigger] edge(edges, p[i], p[i + 1])
}

/// Some path leads from `a` to `b`.
pub open spec fn reaches(edges: Seq<Vec<usize>>, a: usize, b: usize) -> bool {
    exists|p: Seq<usize>| #[trigger] is_path(edges, p) && p[0] == a && p.last() == b
}

/// Each node of the part reaches each other one.
pub open spec fn strong(edges: Seq<Vec<usize>>, part: Set<usize>) -> bool {
    forall|u: usize, v: usize| part.contains(u) && part.contains(v) ==> #[trigger] reaches(edges, u, v)
        && reaches(edges, v, u)
}

/// The parts are the strongly connected components: each is strongly
/// connected, and holds every node that reaches one of its nodes and is
/// reached from it.
pub open spec fn sccs(edges: Seq<Vec<usize>>, parts: Seq<Set<usize>>) -> bool {
    &&& forall|k: int| 0 <= k < parts.len() ==> strong(edges, #[trigger] parts[k])
    &&& forall|k: int, u: usize, w: usize|
        0 <= k < parts.len() && #[trigger] parts[k].contains(u) && #[trigger] reaches(edges, u, w)
            && reaches(edges, w, u) ==> parts[k].contains(w)
}

/// Every edge out of the part at `k` leads into it or into an earlier part.
pub open spec fn closed_at(edges: Seq<Vec<usize>>, parts: Seq<Set<usize>>, k: int) -> bool {
    forall|u: usize, w: usize|
        #[trigger] parts[k].contains(u) && #[trigger] edge(edges, u, w) ==> exists|j: int|
            0 <= j <= k && #[trigger] parts[j].contains(w)
}

pub proof fn lemma_reach_self(edges: Seq<Vec<usize>>, a: usize)
    ensures
        reaches(edges, a, a),
{
    assert(is_path(edges, seq![a]));
}

pub proof fn lemma_reach_edge(edges: Seq<Vec<usize>>, a: usize, b: usize)
    requires
        edge(edges, a, b),
    ensures
        reaches(edges, a, b),
{
    let p = seq![a, b];
    assert(p[0] == a);
    assert(is_path(edges, p));
}

pub proof fn lemma_reach_trans(edges: Seq<Vec<usize>>, a: usize, b: usize, c: usize)
    requires
        reaches(edges, a, b),
        reaches(edges, b, c),
    ensures
        reaches(edges, a, c),
{
    let p = choose|p: Seq<usize>| #[trigger] is_path(edges, p) && p[0] == a && p.last() == b;
    let q = choose|q: Seq<usize>| #[trigger] is_path(edges, q) && q[0] == b && q.last() == c;
    let r = p + q.drop_first();
    assert forall|i: int| 0 <= i < r.len() - 1 implies #[trigger] edge(edges, r[i], r[i + 1]) by {
        if i < p.len() - 1 {
            assert(r[i] == p[i] && r[i + 1] == p[i + 1]);
        } else if i == p.len() - 1 {
            assert(r[i] == q[0]);
            assert(r[i + 1] == q[1]);
        } else {
            let j = i - p.len() + 1;
            assert(r[i] == q[j] && r[i + 1] == q[j + 1]);
        }
    }
    assert(is_path(edges, r));
    if q.len() == 1 {
        assert(r.last() == p.last());
    } else {
        assert(r.last() == q.last());
    }
}

/// The parts that are closed each lead only into themselves and earlier parts,
/// along any path.
proof fn lemma_closed_path(edges: Seq<Vec<usize>>, parts: Seq<Set<usize>>, k: int, p: Seq<usize>)
    requires
        0 <= k < parts.len(),
        forall|j: int| 0 <= j < parts.len() ==> #[trigger] closed_at(edges, parts, j),
        is_path(edges, p),
        parts[k].contains(p[0]),
    ensures
        exists|j: int| 0 <= j <= k && #[trigger] parts[j].contains(p.last()),
    decreases p.len(),
{
    if p.len() > 1 {
        let q = p.drop_last();
        assert forall|i: int| 0 <= i < q.len() - 1 implies #[trigger] edge(edges, q[i], q[i + 1]) by {
            assert(edge(edges, p[i], p[i + 1]));
        }
        lemma_closed_path(edges, parts, k, q);
        let j = choose|j: int| 0 <= j <= k && #[trigger] parts[j].contains(q.last());
        let i = p.len() - 2;
        assert(edge(edges, p[i], p[i + 1]));
        assert(q.last() == p[i]);
        assert(closed_at(edges, parts, j));
        assert(parts[j].contains(q.last()));
        let j2 = choose|j2: int| 0 <= j2 <= j && #[trigger] parts[j2].contains(p[i + 1]);
        assert(parts[j2].contains(p.last()));
    } else {
        assert(parts[k].contains(p.last()));
    }
}

/// A partition whose parts are strongly connected, and closed in order, is
/// the partition into strongly connected components.
proof fn lemma_sccs(edges: Seq<Vec<usize>>, parts: Seq<Set<usize>>, n: nat)
    requires
        partition(parts, n),
        edges.len() == n,
        forall|j: int| 0 <= j < parts.len() ==> #[trigger] closed_at(edges, parts, j),
        forall|j: int| 0 <= j < parts.len() ==> strong(edges, #[trigger] parts[j]),
    ensures
        sccs(edges, parts),
{
    assert forall|k: int, u: usize, w: usize|
        0 <= k < parts.len() && #[trigger] parts[k].contains(u) && #[trigger] reaches(edges, u, w)
            && reaches(edges, w, u) implies parts[k].contains(w) by {
        let p = choose|p: Seq<usize>| #[trigger] is_path(edges, p) && p[0] == u && p.last() == w;
        lemma_closed_path(edges, parts, k, p);
        let j = choose|j: int| 0 <= j <= k && #[trigger] parts[j].contains(p.last());
        let q = choose|q: Seq<usize>| #[trigger] is_path(edges, q) && q[0] == w && q.last() == u;
        lemma_closed_path(edges, parts, j, q);
        let i = choose|i: int| 0 <= i <= j && #[trigger] parts[i].contains(q.last());
        assert(parts[i].contains(u) && parts[k].contains(u));
    }
}

pub open spec fn count_some(s: Seq<Option<usize>>) -> nat
    decreases s.len(),
{
    if s.len() == 0 {
        0
    } else {
        count_some(s.drop_last()) + if s.last() is Some {
            1nat
        } else {
            0nat
        }
    }
}

proof fn lemma_count_some_bound(s: Seq<Option<usize>>)
    ensures
        count_some(s) <= s.len(),
    decreases s.len(),
{
    if s.len() > 0 {
        lemma_count_some_bound(s.drop_last());
    }
}

proof fn lemma_count_some_set(s: Seq<Option<usize>>, i: int, x: usize)
    requires
        0 <= i < s.len(),
        s[i] is None,
    ensures
        count_some(s.update(i, Some(x))) == count_some(s) + 1,
    decreases s.len(),
{
    let t = s.update(i, Some(x));
    if i == s.len() - 1 {
        assert(t.drop_last() == s.drop_last());
    } else {
        assert(t.drop_last() == s.drop_last().update(i, Some(x)));
        lemma_count_some_set(s.drop_last(), i, x);
    }
}

/// Node numbers are ordered as the sets of nodes need.
proof fn lemma_ordered()
    ensures
        vstd::laws_cmp::obeys_cmp::<usize>(),
{
}

struct Tarjan<'a> {
    edges: &'a [Vec<usize>],
    index: usize,
    numbers: Vec<Option<usize>>,
    low: Vec<usize>,
    stack: Vec<usize>,
    on_stack: Vec<bool>,
    components: Vec<(usize, BTreeSet<usize>)>,
}

impl<'a> Tarjan<'a> {
    spec fn n(&self) -> nat {
        self.edges@.len()
    }

    spec fn num(&self, v: usize) -> usize {
        self.numbers@[v as int]->0
    }

    spec fn numbered(&self, v: usize) -> bool {
        self.numbers@[v as int] is Some
    }

    /// The shape of the state, and the numbering.
    spec fn shaped(&self) -> bool {
        &&& edges_ok(self.edges@)
        &&& self.numbers@.len() == self.n()
        &&& self.low@.len() == self.n()
        &&& self.on_stack@.len() == self.n()
        &&& self.n() <= usize::MAX
        &&& self.index == count_some(self.numbers@)
        &&& forall|v: usize| v < self.n() && self.numbered(v) ==> self.num(v) < self.index
    }

    /// The stack: numbered nodes, each once, in the order of their numbers,
    /// each with a low link that is the number of a node at or below it.
    spec fn stacked(&self) -> bool {
        let s = self.stack@;
        &&& forall|i: int| 0 <= i < s.len() ==> (#[trigger] s[i]) < self.n()
        &&& forall|i: int| 0 <= i < s.len() ==> self.numbered(#[trigger] s[i])
        &&& forall|v: usize| v < self.n() ==> (self.on_stack@[v as int] <==> s.contains(v))
        &&& forall|i: int, j: int|
            0 <= i < j < s.len() ==> self.num(#[trigger] s[i]) < self.num(#[trigger] s[j])
        &&& forall|i: int|
            0 <= i < s.len() ==> self.low@[(#[trigger] s[i]) as int] <= self.num(s[i])
        &&& forall|i: int| 0 <= i < s.len() ==> #[trigger] self.anchored(i)
    }

    /// The low link of the `i`th node of the stack is the number of a node at
    /// or below it, which it reaches.
    spec fn anchored(&self, i: int) -> bool {
        exists|k: int|
            0 <= k <= i && self.num(#[trigger] self.stack@[k]) == self.low@[self.stack@[i] as int]
                && reaches(self.edges@, self.stack@[i], self.stack@[k])
    }

    /// The edge from `u` to `w` has been followed: `w` is numbered, and the low
    /// link of `u` is at most the number of `w` while `w` is on the stack.
    spec fn followed(&self, u: usize, w: usize) -> bool {
        &&& self.numbered(w)
        &&& self.on_stack@[w as int] ==> self.low@[u as int] <= self.num(w)
    }

    /// Every edge of `u` has been followed.
    spec fn out_done(&self, u: usize) -> bool {
        forall|w: usize| #[trigger] edge(self.edges@, u, w) ==> self.followed(u, w)
    }

    /// The first `position` edges of `u` have been followed.
    spec fn seen(&self, u: usize, position: int) -> bool {
        forall|e: int| 0 <= e < position ==> #[trigger] self.followed(u, self.edges@[u as int]@[e])
    }

    /// The node at `j` on the stack is reached from `root`, has a low link
    /// below its number and no lower than that of `root`, and has followed
    /// all its edges.
    spec fn kept(&self, j: int, root: usize) -> bool {
        let u = self.stack@[j];
        &&& reaches(self.edges@, root, u)
        &&& self.low@[root as int] <= self.low@[u as int]
        &&& self.low@[u as int] < self.num(u)
        &&& self.out_done(u)
    }

    spec fn parts(&self) -> Seq<Set<usize>> {
        self.components@.map_values(|c: (usize, BTreeSet<usize>)| c.1@)
    }

    /// The components found so far: numbered nodes off the stack, each in one.
    spec fn split(&self) -> bool {
        let p = self.parts();
        &&& forall|k: int| 0 <= k < p.len() ==> least(#[trigger] p[k], self.components@[k].0)
        &&& forall|k: int| 0 <= k < p.len() ==> (#[trigger] p[k]).finite()
        &&& forall|k: int, v: usize|
            0 <= k < p.len() && #[trigger] p[k].contains(v) ==> v < self.n() && self.numbered(v)
                && !self.on_stack@[v as int]
        &&& forall|v: usize|
            v < self.n() && self.numbered(v) && !self.on_stack@[v as int] ==> #[trigger] in_some(p, v)
        &&& forall|k1: int, k2: int, v: usize|
            0 <= k1 < p.len() && 0 <= k2 < p.len() && #[trigger] p[k1].contains(v)
                && #[trigger] p[k2].contains(v) ==> k1 == k2
        &&& forall|k: int| 0 <= k < p.len() ==> strong(self.edges@, #[trigger] p[k])
        &&& forall|k: int| 0 <= k < p.len() ==> #[trigger] closed_at(self.edges@, p, k)
    }

    spec fn inv(&self) -> bool {
        self.shaped() && self.stacked() && self.split()
    }

    fn walk(&mut self, node: usize)
        requires
            old(self).inv(),
            node < old(self).n(),
            !old(self).numbered(node),
        ensures
            final(self).inv(),
            final(self).edges == old(self).edges,
            final(self).numbered(node),
            final(self).index > old(self).index,
            final(self).stack@.len() >= old(self).stack@.len(),
            final(self).stack@.take(old(self).stack@.len() as int) == old(self).stack@,
            forall|v: usize| v < old(self).n() && old(self).numbered(v) ==> final(self).numbered(v) && final(self).num(v) == old(self).num(v),
            forall|v: usize| v < old(self).n() && !old(self).numbered(v) && final(self).numbered(v) ==> final(self).num(v) >= old(self).index,
            forall|i: int| 0 <= i < old(self).stack@.len() ==> final(self).low@[old(self).stack@[i] as int] == old(self).low@[old(self).stack@[i] as int],
            final(self).stack@.len() == old(self).stack@.len() ==> final(self).low@[node as int] == final(self).num(node),
            final(self).stack@.len() > old(self).stack@.len() ==> final(self).stack@[old(self).stack@.len() as int] == node,
            final(self).stack@.len() > old(self).stack@.len() ==> final(self).low@[node as int] < final(self).num(node),
            forall|j: int| old(self).stack@.len() <= j < final(self).stack@.len() ==> #[trigger] final(self).kept(j, node),
            forall|j: int|
                old(self).stack@.len() <= j < final(self).stack@.len() ==> !old(self).numbered(
                    #[trigger] final(self).stack@[j],
                ),
        decreases old(self).n() - old(self).index,
    {
        proof {
            lemma_count_some_bound(self.numbers@);
            lemma_count_some_set(self.numbers@, node as int, self.index);
            lemma_count_some_bound(self.numbers@.update(node as int, Some(self.index)));
            assert(!self.stack@.contains(node));
        }
        let ghost base = self.stack@;
        let ghost start = *self;
        self.numbers.set(node, Some(self.index));
        self.low.set(node, self.index);
        self.index = self.index + 1;
        self.stack.push(node);
        self.on_stack.set(node, true);
        proof {
            assert(self.stack@ == base.push(node));
            assert forall|v: usize| v < self.n() implies (self.on_stack@[v as int]
                <==> self.stack@.contains(v)) by {
                if v == node {
                    assert(self.stack@[base.len() as int] == node);
                } else {
                    if self.stack@.contains(v) {
                        let i = choose|i: int| 0 <= i < self.stack@.len() && self.stack@[i] == v;
                        assert(base[i] == v);
                    }
                    if base.contains(v) {
                        let i = choose|i: int| 0 <= i < base.len() && base[i] == v;
                        assert(self.stack@[i] == v);
                    }
                }
            }
            assert forall|i: int| 0 <= i < self.stack@.len() implies #[trigger] self.anchored(i) by {
                if i < base.len() {
                    assert(start.anchored(i));
                    let k = choose|k: int|
                        0 <= k <= i && start.num(#[trigger] base[k]) == start.low@[base[i] as int]
                            && reaches(start.edges@, base[i], base[k]);
                    assert(self.stack@[k] == base[k]);
                    assert(self.stack@[i] == base[i]);
                } else {
                    assert(self.stack@[i] == node);
                    lemma_reach_self(self.edges@, node);
                    assert(self.num(self.stack@[i]) == self.low@[self.stack@[i] as int]);
                }
            }
            let s = self.stack@;
            assert(forall|i: int| 0 <= i < s.len() ==> (#[trigger] s[i]) < self.n());
            assert(forall|i: int| 0 <= i < s.len() ==> self.numbered(#[trigger] s[i]));
            assert forall|i: int, j: int|
                0 <= i < j < s.len() implies self.num(#[trigger] s[i]) < self.num(#[trigger] s[j]) by {
                if j < base.len() {
                    assert(s[i] == base[i] && s[j] == base[j]);
                } else {
                    assert(s[i] == base[i]);
                }
            }
            assert(forall|i: int|
                0 <= i < s.len() ==> self.low@[(#[trigger] s[i]) as int] <= self.num(s[i]));
            assert(self.stacked());
            assert(self.parts() == start.parts());
            assert forall|v: usize| v < self.n() && self.numbered(v) implies self.num(v) < self.index by {
                if v != node {
                    assert(start.numbered(v));
                }
            }
            assert(self.shaped());
            assert forall|v: usize|
                v < self.n() && self.numbered(v) && !self.on_stack@[v as int] implies #[trigger] in_some(
                self.parts(),
                v,
            ) by {
                assert(v != node);
                assert(start.numbered(v) && !start.on_stack@[v as int]);
            }
            assert forall|k: int, v: usize|
                0 <= k < self.parts().len() && #[trigger] self.parts()[k].contains(v) implies v
                < self.n() && self.numbered(v) && !self.on_stack@[v as int] by {
                assert(start.numbered(v));
                assert(v != node);
            }
            assert(self.split());
        }
        let height = self.stack.len() - 1;
        let mut position: usize = 0;
        while position < self.edges[node].len()
            invariant
                self.inv(),
                self.edges == start.edges,
                old(self).index == start.index,
                old(self).edges == start.edges,
                node < self.n(),
                height == base.len(),
                self.numbered(node),
                self.num(node) == start.index,
                self.index > start.index,
                self.stack@.len() > height,
                self.stack@.take(height as int) == base,
                self.stack@[height as int] == node,
                forall|v: usize| v < start.n() && start.numbered(v) ==> self.numbered(v) && self.num(v) == start.num(v),
                forall|v: usize| v < start.n() && !start.numbered(v) && self.numbered(v) ==> self.num(v) >= start.index,
                forall|i: int| 0 <= i < base.len() ==> self.low@[base[i] as int] == start.low@[base[i] as int],
                position <= self.edges@[node as int]@.len(),
                !start.numbered(node),
                forall|j: int| height < j < self.stack@.len() ==> #[trigger] self.kept(j, node),
                forall|j: int| height < j < self.stack@.len() ==> !start.numbered(#[trigger] self.stack@[j]),
                self.seen(node, position as int),
            decreases self.edges@[node as int]@.len() - position,
        {
            let next = self.edges[node][position];
            assert(next < self.n());
            let ghost before = *self;
            match self.numbers[next] {
                None => {
                    proof {
                        lemma_count_some_bound(self.numbers@);
                        lemma_count_some_set(self.numbers@, next as int, 0);
                        lemma_count_some_bound(self.numbers@.update(next as int, Some(0usize)));
                        assert(self.index < self.n());
                        assert(self.n() - self.index < start.n() - start.index);
                    }
                    self.walk(next);
                    let ghost mid = *self;
                    let lower = if self.low[next] < self.low[node] {
                        self.low[next]
                    } else {
                        self.low[node]
                    };
                    proof {
                        assert(before.stack@[height as int] == node);
                        assert(mid.stack@.take(before.stack@.len() as int) == before.stack@);
                        assert(mid.stack@[height as int] == before.stack@[height as int]);
                        assert(mid.low@[node as int] == before.low@[node as int]);
                        assert(before.low@[node as int] <= before.num(node));
                        if lower < mid.low@[node as int] {
                            if mid.stack@.len() == before.stack@.len() {
                                assert(mid.num(next) >= before.index);
                                assert(false);
                            } else {
                                let p = before.stack@.len() as int;
                                assert(mid.stack@[p] == next);
                                assert(mid.anchored(p));
                                let k = choose|k: int|
                                    0 <= k <= p && mid.num(#[trigger] mid.stack@[k]) == mid.low@[mid.stack@[p] as int]
                                        && reaches(mid.edges@, mid.stack@[p], mid.stack@[k]);
                                if k >= height {
                                    if k > height {
                                        assert(mid.num(mid.stack@[height as int]) < mid.num(mid.stack@[k]));
                                    }
                                    assert(false);
                                }
                                assert(edge(mid.edges@, node, next)) by {
                                    assert(mid.edges@[node as int]@[position as int] == next);
                                }
                                lemma_reach_edge(mid.edges@, node, next);
                                lemma_reach_trans(mid.edges@, node, next, mid.stack@[k]);
                                assert(mid.num(mid.stack@[k]) == lower);
                            }
                        }
                    }
                    self.low.set(node, lower);
                    proof {
                        self.lemma_lowered(mid, node, height as int, lower);
                        self.lemma_child(before, mid, start, node, height as int, next, position as int, lower);
                    }
                },
                Some(number) => {
                    if self.on_stack[next] {
                        let lower = if number < self.low[node] {
                            number
                        } else {
                            self.low[node]
                        };
                        proof {
                            assert(self.stack@.contains(next));
                            if lower < self.low@[node as int] {
                                let j = choose|j: int| 0 <= j < self.stack@.len() && self.stack@[j] == next;
                                if j >= height {
                                    if j > height {
                                        assert(self.num(self.stack@[height as int]) < self.num(self.stack@[j]));
                                    }
                                    assert(false);
                                }
                                assert(self.num(self.stack@[j]) == lower);
                                assert(edge(self.edges@, node, next)) by {
                                    assert(self.edges@[node as int]@[position as int] == next);
                                }
                                lemma_reach_edge(self.edges@, node, next);
                            }
                        }
                        self.low.set(node, lower);
                        proof {
                            self.lemma_lowered(before, node, height as int, lower);
                            assert(self.followed(node, next));
                            self.lemma_stepped(before, start, node, height as int, position as int);
                        }
                    } else {
                        proof {
                            assert(self.followed(node, next));
                            assert(self.low@ =~= before.low@.update(node as int, self.low@[node as int]));
                            self.lemma_stepped(before, start, node, height as int, position as int);
                        }
                    }
                },
            }
            position = position + 1;
        }
        proof {
            self.lemma_seen_all(node);
        }
        if self.low[node] == self.numbers[node].unwrap() {
            self.close(node, height);
        } else {
            proof {
                lemma_reach_self(self.edges@, node);
                assert(self.kept(height as int, node));
            }
        }
    }

    /// Every edge of `u` is among its first edges, all of them followed.
    proof fn lemma_seen_all(&self, u: usize)
        requires
            u < self.edges@.len(),
            self.seen(u, self.edges@[u as int]@.len() as int),
        ensures
            self.out_done(u),
    {
        assert forall|w: usize| #[trigger] edge(self.edges@, u, w) implies self.followed(u, w) by {
            let e = choose|e: int| 0 <= e < self.edges@[u as int]@.len() && self.edges@[u as int]@[e] == w;
            assert(self.followed(u, self.edges@[u as int]@[e]));
        }
    }

    /// Following an edge of `node` to a node numbered already, and perhaps
    /// lowering its low link, keeps what the walk of `node` knows.
    proof fn lemma_stepped(&self, before: Self, start: Self, node: usize, height: int, position: int)
        requires
            before.inv(),
            0 <= height < before.stack@.len(),
            before.stack@[height] == node,
            node < before.n(),
            0 <= position < before.edges@[node as int]@.len(),
            forall|j: int| height < j < before.stack@.len() ==> #[trigger] before.kept(j, node),
            forall|j: int| height < j < before.stack@.len() ==> !start.numbered(#[trigger] before.stack@[j]),
            before.seen(node, position),
            self.followed(node, before.edges@[node as int]@[position]),
            self.low@ == before.low@.update(node as int, self.low@[node as int]),
            self.low@[node as int] <= before.low@[node as int],
            self.edges == before.edges,
            self.numbers == before.numbers,
            self.stack == before.stack,
            self.on_stack == before.on_stack,
        ensures
            forall|j: int| height < j < self.stack@.len() ==> #[trigger] self.kept(j, node),
            forall|j: int| height < j < self.stack@.len() ==> !start.numbered(#[trigger] self.stack@[j]),
            self.seen(node, position + 1),
    {
        let s = self.stack@;
        assert forall|j: int| height < j < s.len() implies #[trigger] self.kept(j, node) by {
            assert(before.kept(j, node));
            assert(before.num(s[height]) < before.num(s[j]));
            assert(s[j] != node);
            assert forall|w: usize| #[trigger] edge(self.edges@, s[j], w) implies self.followed(s[j], w) by {
                assert(before.followed(s[j], w));
            }
        }
        assert forall|e: int| 0 <= e < position + 1 implies #[trigger] self.followed(
            node,
            self.edges@[node as int]@[e],
        ) by {
            if e < position {
                assert(before.followed(node, before.edges@[node as int]@[e]));
            }
        }
    }

    /// After the walk of a child of `node`, and the lowering of the low link
    /// of `node` to at most that of the child, the walk of `node` still knows
    /// what it knew, and knows the child's edge followed.
    proof fn lemma_child(
        &self,
        before: Self,
        mid: Self,
        start: Self,
        node: usize,
        height: int,
        next: usize,
        position: int,
        lower: usize,
    )
        requires
            before.inv(),
            mid.inv(),
            0 <= height < before.stack@.len(),
            before.stack@[height] == node,
            node < before.n(),
            0 <= position < before.edges@[node as int]@.len(),
            before.edges@[node as int]@[position] == next,
            !before.numbered(next),
            forall|j: int| height < j < before.stack@.len() ==> #[trigger] before.kept(j, node),
            forall|j: int| height < j < before.stack@.len() ==> !start.numbered(#[trigger] before.stack@[j]),
            forall|v: usize| v < start.n() && start.numbered(v) ==> before.numbered(v),
            start.n() == before.n(),
            before.seen(node, position),
            mid.edges == before.edges,
            mid.numbered(next),
            mid.stack@.len() >= before.stack@.len(),
            mid.stack@.take(before.stack@.len() as int) == before.stack@,
            forall|v: usize| v < before.n() && before.numbered(v) ==> mid.numbered(v) && mid.num(v) == before.num(v),
            forall|i: int| 0 <= i < before.stack@.len() ==> mid.low@[before.stack@[i] as int] == before.low@[before.stack@[i] as int],
            forall|j: int| before.stack@.len() <= j < mid.stack@.len() ==> #[trigger] mid.kept(j, next),
            forall|j: int|
                before.stack@.len() <= j < mid.stack@.len() ==> !before.numbered(#[trigger] mid.stack@[j]),
            lower <= mid.low@[node as int],
            lower <= mid.low@[next as int],
            self.low@ == mid.low@.update(node as int, lower),
            self.edges == mid.edges,
            self.numbers == mid.numbers,
            self.stack == mid.stack,
            self.on_stack == mid.on_stack,
        ensures
            forall|j: int| height < j < self.stack@.len() ==> #[trigger] self.kept(j, node),
            forall|j: int| height < j < self.stack@.len() ==> !start.numbered(#[trigger] self.stack@[j]),
            self.seen(node, position + 1),
    {
        let s = self.stack@;
        let b = before.stack@;
        assert(s[height] == b[height]);
        assert(mid.low@[node as int] == before.low@[node as int]);
        assert(edge(self.edges@, node, next));
        lemma_reach_edge(self.edges@, node, next);
        assert forall|w: usize|
            w < before.n() && before.numbered(w) && mid.on_stack@[w as int] implies before.on_stack@[w as int] by {
            assert(mid.n() == before.n());
            assert(mid.stack@.contains(w));
            let i = choose|i: int| 0 <= i < mid.stack@.len() && mid.stack@[i] == w;
            if i >= b.len() {
                assert(!before.numbered(mid.stack@[i]));
                assert(false);
            } else {
                assert(mid.stack@.take(b.len() as int)[i] == mid.stack@[i]);
                assert(b[i] == w);
                assert(before.stack@.contains(w));
            }
        }
        assert forall|j: int| #![trigger self.kept(j, node)] #![trigger s[j]]
            height < j < s.len() implies self.kept(j, node) && !start.numbered(s[j]) by {
            if j < b.len() {
                assert(s[j] == b[j]);
                assert(before.kept(j, node));
                assert(before.num(b[height]) < before.num(b[j]));
                assert(s[j] != node);
                assert(mid.low@[b[j] as int] == before.low@[b[j] as int]);
                assert forall|w: usize| #[trigger] edge(self.edges@, s[j], w) implies self.followed(
                    s[j],
                    w,
                ) by {
                    assert(before.followed(s[j], w));
                }
            } else {
                assert(mid.kept(j, next));
                assert(!before.numbered(s[j]));
                assert(s[j] < start.n());
                assert(!start.numbered(s[j]));
                assert(s[j] != node);
                lemma_reach_trans(self.edges@, node, next, s[j]);
                assert forall|w: usize| #[trigger] edge(self.edges@, s[j], w) implies self.followed(
                    s[j],
                    w,
                ) by {
                    assert(mid.followed(s[j], w));
                }
            }
        }
        assert forall|e: int| 0 <= e < position + 1 implies #[trigger] self.followed(
            node,
            self.edges@[node as int]@[e],
        ) by {
            let w = self.edges@[node as int]@[e];
            if e < position {
                assert(before.followed(node, before.edges@[node as int]@[e]));
                assert(w < before.n());
            } else {
                assert(w == next);
                if self.on_stack@[next as int] {
                    assert(mid.stack@.contains(next));
                    let i = choose|i: int| 0 <= i < s.len() && s[i] == next;
                    assert(mid.low@[s[i] as int] <= mid.num(s[i]));
                }
            }
        }
    }

    /// Lowering the low link of the node at `height` keeps the state sound,
    /// when the new low link is the number of a node at or below it.
    proof fn lemma_lowered(&self, mid: Self, node: usize, height: int, lower: usize)
        requires
            mid.inv(),
            0 <= height < mid.stack@.len(),
            mid.stack@[height] == node,
            node < mid.n(),
            lower <= mid.low@[node as int],
            lower == mid.low@[node as int] || exists|k: int|
                0 <= k <= height && mid.num(#[trigger] mid.stack@[k]) == lower && reaches(
                    mid.edges@,
                    node,
                    mid.stack@[k],
                ),
            self.low@ == mid.low@.update(node as int, lower),
            self.edges == mid.edges,
            self.index == mid.index,
            self.numbers == mid.numbers,
            self.stack == mid.stack,
            self.on_stack == mid.on_stack,
            self.components == mid.components,
        ensures
            self.inv(),
    {
        let s = self.stack@;
        assert forall|v: usize| v < self.n() && self.numbered(v) implies self.num(v) < self.index by {
            assert(mid.numbered(v));
        }
        assert(self.shaped());
        assert(forall|i: int| 0 <= i < s.len() ==> (#[trigger] s[i]) < self.n());
        assert(forall|i: int| 0 <= i < s.len() ==> self.numbered(#[trigger] s[i]));
        assert(forall|v: usize| v < self.n() ==> (self.on_stack@[v as int] <==> s.contains(v)));
        assert(forall|i: int, j: int|
            0 <= i < j < s.len() ==> self.num(#[trigger] s[i]) < self.num(#[trigger] s[j]));
        assert forall|i: int| 0 <= i < s.len() implies self.low@[(#[trigger] s[i]) as int]
            <= self.num(s[i]) by {
            if s[i] == node {
                assert(mid.low@[s[height] as int] <= mid.num(s[height]));
            }
        }
        assert forall|i: int| 0 <= i < s.len() implies #[trigger] self.anchored(i) by {
            assert(mid.anchored(i));
            if s[i] == node {
                if i != height {
                    if i < height {
                        assert(mid.num(s[i]) < mid.num(s[height]));
                    } else {
                        assert(mid.num(s[height]) < mid.num(s[i]));
                    }
                }
                if lower != mid.low@[node as int] {
                    let k = choose|k: int|
                        0 <= k <= height && mid.num(#[trigger] mid.stack@[k]) == lower && reaches(
                            mid.edges@,
                            node,
                            mid.stack@[k],
                        );
                    assert(self.num(s[k]) == self.low@[s[i] as int]);
                } else {
                    let k = choose|k: int|
                        0 <= k <= i && mid.num(#[trigger] mid.stack@[k]) == mid.low@[mid.stack@[i] as int]
                            && reaches(mid.edges@, mid.stack@[i], mid.stack@[k]);
                    assert(self.num(s[k]) == self.low@[s[i] as int]);
                }
            } else {
                let k = choose|k: int|
                    0 <= k <= i && mid.num(#[trigger] mid.stack@[k]) == mid.low@[mid.stack@[i] as int]
                        && reaches(mid.edges@, mid.stack@[i], mid.stack@[k]);
                assert(self.num(s[k]) == self.low@[s[i] as int]);
            }
        }
        assert(self.parts() == mid.parts());
        assert(self.stacked());
        assert(self.split());
    }

    /// Pops the component whose root is `node`, at `height` on the stack.
    fn close(&mut self, node: usize, height: usize)
        requires
            old(self).inv(),
            height < old(self).stack@.len(),
            old(self).stack@[height as int] == node,
            node < old(self).n(),
            old(self).low@[node as int] == old(self).num(node),
            forall|j: int| height < j < old(self).stack@.len() ==> #[trigger] old(self).kept(j, node),
            old(self).out_done(node),
        ensures
            final(self).inv(),
            final(self).stack@ == old(self).stack@.take(height as int),
            final(self).edges == old(self).edges,
            final(self).index == old(self).index,
            final(self).numbers == old(self).numbers,
            final(self).low == old(self).low,
    {
        let ghost full = self.stack@;
        let ghost mid = *self;
        let mut component: BTreeSet<usize> = BTreeSet::new();
        let mut least_member: usize = usize::MAX;
        while self.stack.len() > height
            invariant
                mid.inv(),
                height < full.len(),
                full == mid.stack@,
                full[height as int] == node,
                height <= self.stack@.len() <= full.len(),
                self.stack@ == full.take(self.stack@.len() as int),
                component@ == full.subrange(self.stack@.len() as int, full.len() as int).to_set(),
                self.stack@.len() < full.len() ==> least(component@, least_member),
                self.stack@.len() == full.len() ==> least_member == usize::MAX,
                self.on_stack@.len() == mid.on_stack@.len(),
                forall|v: usize| v < mid.n() ==> #[trigger] self.on_stack@[v as int] == (mid.on_stack@[v as int] && !component@.contains(v)),
                self.edges == mid.edges,
                self.index == mid.index,
                self.numbers == mid.numbers,
                self.low == mid.low,
                self.components == mid.components,
            decreases self.stack@.len(),
        {
            let ghost len = self.stack@.len();
            let ghost flags = self.on_stack@;
            let member = self.stack.pop().unwrap();
            assert(member == full[len - 1]);
            assert(member < mid.n());
            self.on_stack.set(member, false);
            proof {
                lemma_ordered();
            }
            let ghost was = component@;
            component.insert(member);
            assert(component@ == was.insert(member));
            let ghost lm0 = least_member;
            if member < least_member {
                least_member = member;
            }
            proof {
                if len == full.len() {
                    assert(full.subrange(len as int, full.len() as int).len() == 0);
                    assert(!was.contains(lm0));
                    assert(mid.n() <= usize::MAX);
                    assert(least_member == member);
                    assert forall|v: usize| component@.contains(v) implies least_member <= v by {
                        assert(!was.contains(v));
                    }
                } else {
                    assert(least(was, lm0));
                    assert forall|v: usize| component@.contains(v) implies least_member <= v by {
                        if v != member {
                            assert(was.contains(v));
                        }
                    }
                }
                assert(component@.contains(least_member));
            }
            proof {
                let now = full.subrange(len - 1, full.len() as int);
                let rest = full.subrange(len as int, full.len() as int);
                assert(now =~= seq![member] + rest);
                assert forall|v: usize| component@.contains(v) <==> now.contains(v) by {
                    assert(was.contains(v) == rest.contains(v));
                    assert(now[0] == member);
                    if now.contains(v) && v != member {
                        let i = choose|i: int| 0 <= i < now.len() && now[i] == v;
                        assert(rest[i - 1] == v);
                    }
                    if rest.contains(v) {
                        let i = choose|i: int| 0 <= i < rest.len() && rest[i] == v;
                        assert(now[i + 1] == v);
                    }
                }
                assert(component@ =~= now.to_set());
                assert forall|v: usize| v < mid.n() implies self.on_stack@[v as int] == (mid.on_stack@[v as int] && !component@.contains(v)) by {
                    if v != member {
                        assert(self.on_stack@[v as int] == flags[v as int]);
                        assert(component@.contains(v) == was.contains(v));
                        assert(flags[v as int] == (mid.on_stack@[v as int] && !was.contains(v)));
                    } else {
                        assert(component@.contains(member));
                    }
                }
            }
        }
        let ghost popped = component@;
        self.components.push((least_member, component));
        proof {
            self.lemma_closed(mid, node, height as int, popped, least_member);
        }
    }

    /// After the component above `height` is popped into a new part, the state is sound.
    proof fn lemma_closed(&self, mid: Self, node: usize, height: int, popped: Set<usize>, m: usize)
        requires
            mid.inv(),
            0 <= height < mid.stack@.len(),
            mid.stack@[height] == node,
            mid.low@[node as int] == mid.num(node),
            forall|j: int| height < j < mid.stack@.len() ==> #[trigger] mid.kept(j, node),
            mid.out_done(node),
            self.stack@ == mid.stack@.take(height),
            popped == mid.stack@.subrange(height, mid.stack@.len() as int).to_set(),
            least(popped, m),
            self.on_stack@.len() == mid.on_stack@.len(),
            forall|v: usize| v < mid.n() ==> #[trigger] self.on_stack@[v as int] == (mid.on_stack@[v as int] && !popped.contains(v)),
            self.edges == mid.edges,
            self.index == mid.index,
            self.numbers == mid.numbers,
            self.low == mid.low,
            self.components@ == mid.components@.push((m, self.components@.last().1)),
            self.components@.last().1@ == popped,
        ensures
            self.inv(),
    {
        let full = mid.stack@;
        let s = self.stack@;
        let above = full.subrange(height, full.len() as int);
        vstd::seq_lib::seq_to_set_is_finite(above);
        assert forall|v: usize| v < self.n() && self.numbered(v) implies self.num(v) < self.index by {
            assert(mid.numbered(v));
        }
        assert(self.shaped());
        assert forall|v: usize| v < self.n() implies (self.on_stack@[v as int] <==> s.contains(v)) by {
            if s.contains(v) {
                let i = choose|i: int| 0 <= i < s.len() && s[i] == v;
                assert(full[i] == v);
                assert(mid.stack@.contains(v));
                if popped.contains(v) {
                    let j = choose|j: int| 0 <= j < above.len() && above[j] == v;
                    assert(full[height + j] == v);
                    assert(mid.num(full[i]) < mid.num(full[height + j]));
                }
            }
            if self.on_stack@[v as int] {
                assert(mid.stack@.contains(v));
                let i = choose|i: int| 0 <= i < full.len() && full[i] == v;
                if i >= height {
                    assert(above[i - height] == v);
                }
                assert(s[i] == v);
            }
        }
        assert forall|i: int| 0 <= i < s.len() implies #[trigger] self.anchored(i) by {
            assert(mid.anchored(i));
            let k = choose|k: int|
                0 <= k <= i && mid.num(#[trigger] mid.stack@[k]) == mid.low@[mid.stack@[i] as int]
                    && reaches(mid.edges@, mid.stack@[i], mid.stack@[k]);
            assert(s[k] == full[k]);
            assert(s[i] == full[i]);
        }
        assert forall|i: int, j: int|
            0 <= i < j < s.len() implies self.num(#[trigger] s[i]) < self.num(#[trigger] s[j]) by {
            assert(s[i] == full[i] && s[j] == full[j]);
        }
        assert forall|i: int| 0 <= i < s.len() implies self.low@[(#[trigger] s[i]) as int] <= self.num(s[i]) by {
            assert(s[i] == full[i]);
        }
        assert forall|i: int| 0 <= i < s.len() implies (#[trigger] s[i]) < self.n() && self.numbered(s[i]) by {
            assert(s[i] == full[i]);
        }
        assert(self.stacked());
        let p = self.parts();
        let q = mid.parts();
        assert(p =~= q.push(popped));
        assert forall|v: usize| #[trigger] popped.contains(v) implies v < self.n() && self.numbered(v)
            && mid.on_stack@[v as int] && !self.on_stack@[v as int] by {
            let j = choose|j: int| 0 <= j < above.len() && above[j] == v;
            assert(full[height + j] == v);
            assert(mid.stack@.contains(v));
        }
        assert forall|k: int, v: usize| 0 <= k < p.len() && #[trigger] p[k].contains(v) implies v
            < self.n() && self.numbered(v) && !self.on_stack@[v as int] by {
            if k < q.len() {
                assert(q[k].contains(v));
            }
        }
        assert forall|v: usize|
            v < self.n() && self.numbered(v) && !self.on_stack@[v as int] implies #[trigger] in_some(p, v) by {
            if popped.contains(v) {
                assert(p[q.len() as int].contains(v));
            } else {
                assert(!mid.on_stack@[v as int]);
                assert(in_some(q, v));
                let k = choose|k: int| 0 <= k < q.len() && #[trigger] q[k].contains(v);
                assert(p[k].contains(v));
            }
        }
        assert forall|k1: int, k2: int, v: usize|
            0 <= k1 < p.len() && 0 <= k2 < p.len() && #[trigger] p[k1].contains(v)
                && #[trigger] p[k2].contains(v) implies k1 == k2 by {
            if k1 < q.len() {
                assert(q[k1].contains(v));
                assert(!mid.on_stack@[v as int]);
            }
            if k2 < q.len() {
                assert(q[k2].contains(v));
                assert(!mid.on_stack@[v as int]);
            }
        }
        assert forall|k: int| 0 <= k < p.len() implies least(#[trigger] p[k], self.components@[k].0) by {
            if k < q.len() {
                assert(p[k] == q[k]);
                assert(self.components@[k] == mid.components@[k]);
            }
        }
        assert forall|k: int| 0 <= k < p.len() implies (#[trigger] p[k]).finite() by {
            if k < q.len() {
                assert(p[k] == q[k]);
            }
        }
        assert forall|u: usize| #[trigger] popped.contains(u) implies exists|j: int|
            height <= j < full.len() && full[j] == u by {
            let i = choose|i: int| 0 <= i < above.len() && above[i] == u;
            assert(full[height + i] == u);
        }
        assert forall|k: int| 0 <= k < p.len() implies strong(self.edges@, #[trigger] p[k]) by {
            if k < q.len() {
                assert(p[k] == q[k]);
            } else {
                assert(p[k] == popped);
                assert forall|u: usize, v: usize| popped.contains(u) && popped.contains(v) implies #[trigger] reaches(
                    self.edges@,
                    u,
                    v,
                ) && reaches(self.edges@, v, u) by {
                    let iu = choose|j: int| height <= j < full.len() && full[j] == u;
                    let iv = choose|j: int| height <= j < full.len() && full[j] == v;
                    mid.lemma_down(node, height, iu);
                    mid.lemma_down(node, height, iv);
                    if iu == height {
                        lemma_reach_self(mid.edges@, node);
                    } else {
                        assert(mid.kept(iu, node));
                    }
                    if iv == height {
                        lemma_reach_self(mid.edges@, node);
                    } else {
                        assert(mid.kept(iv, node));
                    }
                    lemma_reach_trans(mid.edges@, u, node, v);
                    lemma_reach_trans(mid.edges@, v, node, u);
                }
            }
        }
        assert forall|k: int| 0 <= k < p.len() implies #[trigger] closed_at(self.edges@, p, k) by {
            if k < q.len() {
                assert(closed_at(mid.edges@, q, k));
                assert forall|u: usize, w: usize|
                    #[trigger] p[k].contains(u) && #[trigger] edge(self.edges@, u, w) implies exists|j: int|
                        0 <= j <= k && #[trigger] p[j].contains(w) by {
                    assert(q[k].contains(u));
                    let j = choose|j: int| 0 <= j <= k && #[trigger] q[j].contains(w);
                    assert(p[j] == q[j]);
                }
            } else {
                assert forall|u: usize, w: usize|
                    #[trigger] p[k].contains(u) && #[trigger] edge(self.edges@, u, w) implies exists|j: int|
                        0 <= j <= k && #[trigger] p[j].contains(w) by {
                    assert(p[k] == popped);
                    let iu = choose|j: int| height <= j < full.len() && full[j] == u;
                    if iu > height {
                        assert(mid.kept(iu, node));
                    }
                    assert(mid.out_done(u));
                    assert(mid.followed(u, w));
                    if mid.on_stack@[w as int] {
                        assert(mid.stack@.contains(w));
                        let iw = choose|i: int| 0 <= i < full.len() && full[i] == w;
                        if iw < height {
                            assert(mid.num(full[iw]) < mid.num(full[height]));
                            assert(false);
                        }
                        assert(above[iw - height] == w);
                        assert(popped.contains(w));
                        assert(p[k].contains(w));
                    } else {
                        assert(in_some(q, w));
                        let j = choose|j: int| 0 <= j < q.len() && #[trigger] q[j].contains(w);
                        assert(p[j] == q[j]);
                        assert(p[j].contains(w));
                    }
                }
            }
        }
        assert(self.split());
    }

    /// Each node above the root of a component on the stack reaches the root.
    proof fn lemma_down(&self, node: usize, height: int, j: int)
        requires
            self.inv(),
            0 <= height <= j < self.stack@.len(),
            self.stack@[height] == node,
            self.low@[node as int] == self.num(node),
            forall|jj: int| height < jj < self.stack@.len() ==> #[trigger] self.kept(jj, node),
        ensures
            reaches(self.edges@, self.stack@[j], node),
        decreases j,
    {
        let s = self.stack@;
        if j == height {
            lemma_reach_self(self.edges@, node);
        } else {
            assert(self.anchored(j));
            let k = choose|k: int|
                0 <= k <= j && self.num(#[trigger] s[k]) == self.low@[s[j] as int] && reaches(
                    self.edges@,
                    s[j],
                    s[k],
                );
            assert(self.kept(j, node));
            if k < height {
                assert(self.num(s[k]) < self.num(s[height]));
                assert(false);
            }
            if k == j {
                assert(false);
            }
            self.lemma_down(node, height, k);
            lemma_reach_trans(self.edges@, s[j], s[k], node);
        }
    }
}

/// Some place of `from` holds `k`.
pub open spec fn picked(from: Seq<int>, k: int) -> bool {
    exists|i: int| 0 <= i < from.len() && from[i] == k
}

/// The views of the sets, in order.
pub open spec fn sets(v: Seq<BTreeSet<usize>>) -> Seq<Set<usize>> {
    v.map_values(|c: BTreeSet<usize>| c@)
}

proof fn lemma_none_count(s: Seq<Option<usize>>)
    requires
        forall|i: int| 0 <= i < s.len() ==> s[i] is None,
    ensures
        count_some(s) == 0,
    decreases s.len(),
{
    if s.len() > 0 {
        lemma_none_count(s.drop_last());
    }
}

/// The strongly connected components of the graph whose node `v` has an edge
/// to each of `edges[v]`, in the order of their least nodes.
pub fn components(edges: &[Vec<usize>]) -> (out: Vec<BTreeSet<usize>>)
    requires
        edges_ok(edges@),
    ensures
        partition(sets(out@), edges@.len()),
        by_least(sets(out@)),
        sccs(edges@, sets(out@)),
{
    let n = edges.len();
    let mut numbers: Vec<Option<usize>> = Vec::new();
    let mut low: Vec<usize> = Vec::new();
    let mut on_stack: Vec<bool> = Vec::new();
    let mut i: usize = 0;
    while i < n
        invariant
            i <= n,
            n == edges@.len(),
            numbers@.len() == i,
            low@.len() == i,
            on_stack@.len() == i,
            forall|j: int| 0 <= j < i ==> numbers@[j] is None,
            forall|j: int| 0 <= j < i ==> !on_stack@[j],
        decreases n - i,
    {
        numbers.push(None);
        low.push(0);
        on_stack.push(false);
        i = i + 1;
    }
    proof {
        lemma_none_count(numbers@);
    }
    let mut state = Tarjan {
        edges,
        index: 0,
        numbers,
        low,
        stack: Vec::new(),
        on_stack,
        components: Vec::new(),
    };
    assert(state.stack@.len() == 0);
    assert(state.parts().len() == 0);
    assert(state.inv());
    let mut node: usize = 0;
    while node < n
        invariant
            node <= n,
            n == edges@.len(),
            state.edges@ == edges@,
            state.inv(),
            state.stack@.len() == 0,
            forall|v: usize| v < node ==> state.numbered(v),
        decreases n - node,
    {
        if state.numbers[node].is_none() {
            state.walk(node);
            proof {
                if state.stack@.len() > 0 {
                    assert(state.anchored(0));
                }
            }
        }
        node = node + 1;
    }
    let comps = &state.components;
    let ghost parts = state.parts();
    assert forall|v: usize| v < n implies #[trigger] in_some(parts, v) by {
        assert(state.numbered(v));
        assert(!state.stack@.contains(v));
    }
    let mut out: Vec<BTreeSet<usize>> = Vec::new();
    let ghost mut from: Seq<int> = Seq::empty();
    let mut v: usize = 0;
    while v < n
        invariant
            v <= n,
            n == edges@.len(),
            state.inv(),
            state.edges@ == edges@,
            comps == &state.components,
            parts == state.parts(),
            forall|u: usize| u < n ==> #[trigger] in_some(parts, u),
            from.len() == out@.len(),
            forall|i: int| 0 <= i < from.len() ==> 0 <= #[trigger] from[i] < parts.len(),
            forall|i: int| 0 <= i < from.len() ==> sets(out@)[i] == parts[#[trigger] from[i]],
            forall|i: int| 0 <= i < from.len() ==> comps@[#[trigger] from[i]].0 < v,
            forall|i: int, j: int| 0 <= i < j < from.len() ==> comps@[#[trigger] from[i]].0 < comps@[#[trigger] from[j]].0,
            forall|k: int| 0 <= k < parts.len() && comps@[k].0 < v ==> #[trigger] picked(from, k),
        decreases n - v,
    {
        let ghost before = from;
        let mut k: usize = 0;
        while k < comps.len()
            invariant
                v < n,
                n == edges@.len(),
                state.inv(),
                comps == &state.components,
                parts == state.parts(),
                k <= comps@.len(),
                from.len() == out@.len(),
                before.len() <= from.len(),
                from.take(before.len() as int) == before,
                forall|i: int| 0 <= i < from.len() ==> 0 <= #[trigger] from[i] < parts.len(),
                forall|i: int| 0 <= i < from.len() ==> sets(out@)[i] == parts[#[trigger] from[i]],
                forall|i: int| 0 <= i < before.len() ==> comps@[#[trigger] before[i]].0 < v,
                forall|i: int| before.len() <= i < from.len() ==> comps@[#[trigger] from[i]].0 == v,
                forall|i: int| before.len() <= i < from.len() ==> #[trigger] from[i] < k,
                forall|i: int, j: int| 0 <= i < j < before.len() ==> comps@[#[trigger] before[i]].0 < comps@[#[trigger] before[j]].0,
                from.len() <= before.len() + 1,
                forall|kk: int| 0 <= kk < k && comps@[kk].0 == v ==> #[trigger] picked(from, kk),
                forall|kk: int| 0 <= kk < parts.len() && comps@[kk].0 < v ==> #[trigger] picked(before, kk),
            decreases comps@.len() - k,
        {
            if comps[k].0 == v {
                proof {
                    if from.len() > before.len() {
                        let other = from[before.len() as int];
                        assert(least(parts[other], comps@[other].0));
                        assert(least(parts[k as int], comps@[k as int].0));
                        assert(parts[other].contains(v) && parts[k as int].contains(v));
                        assert(other == k);
                        assert(false);
                    }
                }
                let c = comps[k].1.clone();
                let ghost was = out@;
                out.push(c);
                proof {
                    let old_from = from;
                    from = from.push(k as int);
                    assert(sets(out@) =~= sets(was).push(parts[k as int]));
                    assert forall|kk: int| 0 <= kk < k + 1 && comps@[kk].0 == v implies #[trigger] picked(from, kk) by {
                        if kk == k {
                            assert(from[from.len() - 1] == kk);
                        } else {
                            assert(picked(old_from, kk));
                            let i = choose|i: int| 0 <= i < old_from.len() && old_from[i] == kk;
                            assert(from[i] == kk);
                        }
                    }
                }
            }
            k = k + 1;
        }
        proof {
            assert forall|i: int, j: int| 0 <= i < j < from.len() implies comps@[#[trigger] from[i]].0 < comps@[#[trigger] from[j]].0 by {
                if j >= before.len() {
                    if i < before.len() {
                        assert(from[i] == before[i]);
                    }
                } else {
                    assert(from[i] == before[i] && from[j] == before[j]);
                }
            }
            assert forall|kk: int| 0 <= kk < parts.len() && comps@[kk].0 < v + 1 implies #[trigger] picked(from, kk) by {
                if comps@[kk].0 < v {
                    assert(picked(before, kk));
                    let i = choose|i: int| 0 <= i < before.len() && #[trigger] before[i] == kk;
                    assert(from[i] == kk);
                }
            }
            assert forall|i: int| 0 <= i < from.len() implies comps@[#[trigger] from[i]].0 < v + 1 by {
                if i < before.len() {
                    assert(from[i] == before[i]);
                }
            }
        }
        v = v + 1;
    }
    proof {
        let o = sets(out@);
        assert forall|k: int| 0 <= k < parts.len() implies #[trigger] picked(from, k) by {
            assert(least(parts[k], comps@[k].0));
            assert(comps@[k].0 < n);
        }
        assert forall|u: usize| u < n implies #[trigger] in_some(o, u) by {
            assert(in_some(parts, u));
            let k = choose|k: int| 0 <= k < parts.len() && #[trigger] parts[k].contains(u);
            assert(picked(from, k));
            let i = choose|i: int| 0 <= i < from.len() && #[trigger] from[i] == k;
            assert(o[i].contains(u));
        }
        assert forall|k1: int, k2: int, u: usize|
            0 <= k1 < o.len() && 0 <= k2 < o.len() && #[trigger] o[k1].contains(u)
                && #[trigger] o[k2].contains(u) implies k1 == k2 by {
            assert(parts[from[k1]].contains(u) && parts[from[k2]].contains(u));
            assert(from[k1] == from[k2]);
            if k1 < k2 {
                assert(comps@[from[k1]].0 < comps@[from[k2]].0);
            } else if k2 < k1 {
                assert(comps@[from[k2]].0 < comps@[from[k1]].0);
            }
        }
        assert forall|k: int| 0 <= k < o.len() implies (#[trigger] o[k]).len() > 0 && o[k].finite() by {
            assert(least(parts[from[k]], comps@[from[k]].0));
            assert(parts[from[k]].finite());
            assert(parts[from[k]].contains(comps@[from[k]].0));
        }
        assert forall|k: int, u: usize| 0 <= k < o.len() && #[trigger] o[k].contains(u) implies u < n by {
            assert(parts[from[k]].contains(u));
        }
        assert forall|i: int, j: int| 0 <= i < j < o.len() implies least_of(#[trigger] o[i]) < least_of(#[trigger] o[j]) by {
            assert(least(parts[from[i]], comps@[from[i]].0));
            assert(least(parts[from[j]], comps@[from[j]].0));
            lemma_least_of(o[i], comps@[from[i]].0);
            lemma_least_of(o[j], comps@[from[j]].0);
        }
        assert(by_least(o));
        assert forall|k: int| 0 <= k < parts.len() implies (#[trigger] parts[k]).len() > 0
            && parts[k].finite() by {
            assert(least(parts[k], comps@[k].0));
        }
        assert(partition(parts, n as nat));
        lemma_sccs(edges@, parts, n as nat);
        assert forall|k: int| 0 <= k < o.len() implies strong(edges@, #[trigger] o[k]) by {
            assert(o[k] == parts[from[k]]);
        }
        assert forall|k: int, u: usize, w: usize|
            0 <= k < o.len() && #[trigger] o[k].contains(u) && #[trigger] reaches(edges@, u, w)
                && reaches(edges@, w, u) implies o[k].contains(w) by {
            assert(o[k] == parts[from[k]]);
            assert(parts[from[k]].contains(u));
        }
    }
    out
}

} // verus!
