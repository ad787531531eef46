//! The graph of dependencies between the documents of a bundle: dependencies
//! on topics that the plan does not have, and cycles.
use vstd::prelude::*;

use std::collections::BTreeSet;

use super::record::declared;
use super::scc::{
    by_least, components, edge, edges_ok, in_some, is_path, least, least_of, lemma_least_of, partition,
    reaches, sccs, sets, strong,
};
use super::violation::Violation;
use crate::roadmap::{Roadmap, TopicEntry};
use crate::topic::Topic;

verus! {

broadcast use vstd::std_specs::btree::group_btree_axioms;

/// The document of `id`: the last one that carries it.
pub open spec fn doc_of(topics: Seq<Topic>, id: Seq<char>) -> Option<Topic>
    decreases topics.len(),
{
    if topics.len() == 0 {
        None
    } else if topics.last().id@ == id {
        Some(topics.last())
    } else {
        doc_of(topics.drop_last(), id)
    }
}

/// The ids of the plan that have a document, in the order of the plan.
pub open spec fn order_of(t: Seq<TopicEntry>, topics: Seq<Topic>) -> Seq<String>
    decreases t.len(),
{
    if t.len() == 0 {
        Seq::<String>::empty()
    } else {
        let rest = order_of(t.drop_last(), topics);
        if doc_of(topics, t.last().id@) is Some {
            rest.push(t.last().id)
        } else {
            rest
        }
    }
}

/// The last place of `id` in `order`.
pub open spec fn index_in(order: Seq<String>, id: Seq<char>) -> Option<usize>
    decreases order.len(),
{
    if order.len() == 0 {
        None
    } else if order.last()@ == id {
        Some((order.len() - 1) as usize)
    } else {
        index_in(order.drop_last(), id)
    }
}

/// The edges of one node: its dependencies that the plan declares and that have a document.
pub open spec fn dep_edges(t: Seq<TopicEntry>, order: Seq<String>, deps: Seq<String>) -> Seq<usize>
    decreases deps.len(),
{
    if deps.len() == 0 {
        Seq::<usize>::empty()
    } else {
        let rest = dep_edges(t, order, deps.drop_last());
        let d = deps.last();
        if declared(t, d@) && index_in(order, d@) is Some {
            rest.push(index_in(order, d@)->0)
        } else {
            rest
        }
    }
}

/// The dependencies of one topic that the plan does not declare.
pub open spec fn dep_unknown(t: Seq<TopicEntry>, id: String, deps: Seq<String>) -> Seq<Violation>
    decreases deps.len(),
{
    if deps.len() == 0 {
        Seq::<Violation>::empty()
    } else {
        let rest = dep_unknown(t, id, deps.drop_last());
        let d = deps.last();
        if !declared(t, d@) {
            rest.push(Violation::UnknownDependency { topic: id, depends_on: d })
        } else {
            rest
        }
    }
}

/// The dependencies of a document.
pub open spec fn deps_of(topics: Seq<Topic>, id: Seq<char>) -> Seq<String> {
    match doc_of(topics, id) {
        Some(doc) => doc.depends_on@,
        None => Seq::<String>::empty(),
    }
}

/// Every dependency on a topic that the plan does not declare, node by node.
pub open spec fn unknown_of(t: Seq<TopicEntry>, topics: Seq<Topic>, order: Seq<String>) -> Seq<
    Violation,
>
    decreases order.len(),
{
    if order.len() == 0 {
        Seq::<Violation>::empty()
    } else {
        unknown_of(t, topics, order.drop_last()) + dep_unknown(
            t,
            order.last(),
            deps_of(topics, order.last()@),
        )
    }
}

/// `path` walks the edges inside `part`, and its last node leads back to its first.
pub open spec fn is_cycle(edges: Seq<Vec<usize>>, part: Set<usize>, path: Seq<usize>) -> bool {
    &&& path.len() > 0
    &&& forall|i: int| 0 <= i < path.len() ==> part.contains(#[trigger] path[i])
    &&& forall|i: int| 0 <= i < path.len() - 1 ==> #[trigger] edge(edges, path[i], path[i + 1])
    &&& edge(edges, path.last(), path[0])
}

/// A graph of the topics that have a document: its nodes in plan order, and the edges of each.
pub struct Graph {
    pub order: Vec<String>,
    pub edges: Vec<Vec<usize>>,
}

/// The names of a path of nodes.
pub open spec fn named(order: Seq<String>, path: Seq<usize>) -> Seq<String> {
    path.map_values(|v: usize| order[v as int])
}

/// The part closes a cycle through its least node.
pub open spec fn has_cycle(edges: Seq<Vec<usize>>, part: Set<usize>) -> bool {
    exists|p: Seq<usize>| is_cycle(edges, part, p) && p[0] == least_of(part)
}

/// No cycle inside the part through its least node is shorter than `p`.
pub open spec fn shortest(edges: Seq<Vec<usize>>, part: Set<usize>, p: Seq<usize>) -> bool {
    forall|q: Seq<usize>| #[trigger] is_cycle(edges, part, q) && q[0] == least_of(part) ==> p.len() <= q.len()
}

/// Some place of `picked` holds `k`.
pub open spec fn chosen(picked: Seq<int>, k: int) -> bool {
    exists|i: int| 0 <= i < picked.len() && picked[i] == k
}

/// Whether the violations are cycles of the graph, each one inside a part, each
/// through the least node of its part and as short as any such cycle, the one
/// that the walk in breadth from that node closes first, one for each part
/// that has such a cycle, in the order of the parts.
pub open spec fn cycles_of(
    order: Seq<String>,
    edges: Seq<Vec<usize>>,
    parts: Seq<Set<usize>>,
    found: Seq<Violation>,
) -> bool {
    exists|picked: Seq<int>, paths: Seq<Seq<usize>>|
        {
            &&& picked.len() == found.len()
            &&& paths.len() == found.len()
            &&& forall|i: int, j: int| 0 <= i < j < picked.len() ==> picked[i] < picked[j]
            &&& forall|i: int|
                0 <= i < found.len() ==> 0 <= #[trigger] picked[i] < parts.len() && is_cycle(
                    edges,
                    parts[picked[i]],
                    paths[i],
                ) && paths[i][0] == least_of(parts[picked[i]]) && shortest(edges, parts[picked[i]], paths[i])
                    && walk_finds(edges, parts[picked[i]], paths[i])
                    && found[i] is DependencyCycle && found[i]->chain@
                    == named(order, paths[i])
            &&& forall|k: int| 0 <= k < parts.len() && has_cycle(edges, parts[k]) ==> #[trigger] chosen(picked, k)
        }
}

/// The edges of the graph of the documents, a partition of its nodes, and
/// the cycles that were found in the parts.
pub open spec fn reported(
    t: Seq<TopicEntry>,
    topics: Seq<Topic>,
    edges: Seq<Vec<usize>>,
    parts: Seq<Set<usize>>,
    cycles: Seq<Violation>,
) -> bool {
    let order = order_of(t, topics);
    &&& edges.len() == order.len()
    &&& forall|i: int|
        0 <= i < order.len() ==> (#[trigger] edges[i])@ == dep_edges(t, order, deps_of(topics, order[i]@))
    &&& partition(parts, order.len())
    &&& by_least(parts)
    &&& sccs(edges, parts)
    &&& cycles_of(order, edges, parts, cycles)
}

/// The check of the graph: unknown dependencies, then one shortest cycle for
/// each component of the graph that closes one through its least node.
pub fn check(roadmap: &Roadmap, topics: &[Topic], found: &mut Vec<Violation>)
    ensures
        ({
            let order = order_of(roadmap.topics@, topics@);
            let unknown = unknown_of(roadmap.topics@, topics@, order);
            &&& final(found)@.len() >= old(found)@.len() + unknown.len()
            &&& final(found)@.take((old(found)@.len() + unknown.len()) as int) == old(found)@ + unknown
            &&& exists|edges: Seq<Vec<usize>>, parts: Seq<Set<usize>>|
                #[trigger] reported(
                    roadmap.topics@,
                    topics@,
                    edges,
                    parts,
                    final(found)@.skip((old(found)@.len() + unknown.len()) as int),
                )
        }),
{
    let graph = build(roadmap, topics, found);
    let ghost middle = found@;
    let comps = components(graph.edges.as_slice());
    let ghost parts = sets(comps@);
    let ghost mut picked: Seq<int> = Seq::empty();
    let ghost mut paths: Seq<Seq<usize>> = Seq::empty();
    let mut k: usize = 0;
    while k < comps.len()
        invariant
            k <= comps@.len(),
            parts == sets(comps@),
            partition(parts, graph.order@.len()),
            sccs(graph.edges@, parts),
            graph.edges@.len() == graph.order@.len(),
            edges_ok(graph.edges@),
            found@.len() >= middle.len(),
            found@.take(middle.len() as int) == middle,
            picked.len() == found@.len() - middle.len(),
            paths.len() == picked.len(),
            forall|i: int, j: int| 0 <= i < j < picked.len() ==> picked[i] < picked[j],
            forall|i: int| 0 <= i < picked.len() ==> picked[i] < k,
            forall|i: int|
                0 <= i < picked.len() ==> 0 <= #[trigger] picked[i] < parts.len() && is_cycle(
                    graph.edges@,
                    parts[picked[i]],
                    paths[i],
                ) && paths[i][0] == least_of(parts[picked[i]]) && shortest(graph.edges@, parts[picked[i]], paths[i])
                    && walk_finds(graph.edges@, parts[picked[i]], paths[i])
                    && found@.skip(middle.len() as int)[i] is DependencyCycle
                    && found@.skip(middle.len() as int)[i]->chain@ == named(graph.order@, paths[i]),
            forall|kk: int|
                0 <= kk < k && has_cycle(graph.edges@, parts[kk]) ==> #[trigger] chosen(picked, kk),
        decreases comps@.len() - k,
    {
        proof {
            assert forall|v: usize| comps@[k as int]@.contains(v) implies v < graph.edges@.len() by {
                assert(parts[k as int].contains(v));
            }
        }
        let ghost f0 = found@;
        match graph.cycle_through(&comps[k]) {
            Some(chain) => {
                let ghost path = choose|p: Seq<usize>|
                    is_cycle(graph.edges@, comps@[k as int]@, p) && p[0] == least_of(comps@[k as int]@)
                        && shortest(graph.edges@, comps@[k as int]@, p) && walk_finds(graph.edges@, comps@[k as int]@, p)
                        && chain@ == named(graph.order@, p);
                found.push(Violation::DependencyCycle { chain });
                proof {
                    let old_picked = picked;
                    picked = picked.push(k as int);
                    paths = paths.push(path);
                    assert(parts[k as int] == comps@[k as int]@);
                    assert(found@.take(middle.len() as int) =~= f0.take(middle.len() as int));
                    assert forall|i: int|
                        0 <= i < picked.len() implies 0 <= #[trigger] picked[i] < parts.len() && is_cycle(
                            graph.edges@,
                            parts[picked[i]],
                            paths[i],
                        ) && paths[i][0] == least_of(parts[picked[i]]) && shortest(graph.edges@, parts[picked[i]], paths[i])
                    && walk_finds(graph.edges@, parts[picked[i]], paths[i])
                    && found@.skip(middle.len() as int)[i] is DependencyCycle
                            && found@.skip(middle.len() as int)[i]->chain@ == named(graph.order@, paths[i]) by {
                        assert(found@.skip(middle.len() as int)[i] == found@[middle.len() + i]);
                        if i < old_picked.len() {
                            assert(f0.skip(middle.len() as int)[i] == f0[middle.len() + i]);
                            assert(found@[middle.len() + i] == f0[middle.len() + i]);
                        }
                    }
                    assert forall|kk: int| 0 <= kk < k + 1 && has_cycle(graph.edges@, parts[kk]) implies #[trigger] chosen(picked, kk) by {
                        if kk < k {
                            assert(chosen(old_picked, kk));
                            let i = choose|i: int| 0 <= i < old_picked.len() && old_picked[i] == kk;
                            assert(picked[i] == kk);
                        } else {
                            assert(picked[picked.len() - 1] == kk);
                        }
                    }
                }
            },
            None => {
                proof {
                    assert(parts[k as int] == comps@[k as int]@);
                }
            },
        }
        k = k + 1;
    }
    proof {
        let rest = found@.skip(middle.len() as int);
        assert(found@.take(middle.len() as int) == middle);
        assert(cycles_of(graph.order@, graph.edges@, parts, rest));
        assert(reported(roadmap.topics@, topics@, graph.edges@, parts, rest));
    }
}

impl Graph {
    /// The cycle through the least node of `component` that the walk in breadth
    /// closes first, inside it, by the names of its nodes.
    fn cycle_through(&self, component: &BTreeSet<usize>) -> (r: Option<Vec<String>>)
        requires
            edges_ok(self.edges@),
            self.edges@.len() == self.order@.len(),
            forall|v: usize| component@.contains(v) ==> v < self.edges@.len(),
        ensures
            r matches Some(c) ==> exists|p: Seq<usize>|
                is_cycle(self.edges@, component@, p) && p[0] == least_of(component@) && shortest(
                    self.edges@,
                    component@,
                    p,
                ) && walk_finds(self.edges@, component@, p) && c@ == named(self.order@, p),
            r is None ==> !has_cycle(self.edges@, component@),
    {
        match cycle_nodes(&self.edges, component) {
            None => None,
            Some(path) => {
                let mut chain: Vec<String> = Vec::new();
                let mut i: usize = 0;
                while i < path.len()
                    invariant
                        i <= path@.len(),
                        is_cycle(self.edges@, component@, path@),
                        self.edges@.len() == self.order@.len(),
                        forall|v: usize| component@.contains(v) ==> v < self.edges@.len(),
                        chain@ == named(self.order@, path@.take(i as int)),
                    decreases path.len() - i,
                {
                    assert(path@[i as int] < self.edges@.len()) by {
                        assert(component@.contains(path@[i as int]));
                    }
                    chain.push(self.order[path[i]].clone());
                    i = i + 1;
                    assert(chain@ =~= named(self.order@, path@.take(i as int)));
                }
                assert(path@.take(path.len() as int) == path@);
                assert(shortest(self.edges@, component@, path@));
                Some(chain)
            },
        }
    }
}


/// The place of the document of `id`: the last one that carries it.
pub(crate) fn find_doc(topics: &[Topic], id: &String) -> (r: Option<usize>)
    ensures
        r matches Some(i) ==> i < topics@.len() && doc_of(topics@, id@) == Some(topics@[i as int]),
        r is None ==> doc_of(topics@, id@) is None,
{
    let mut i: usize = topics.len();
    assert(topics@.take(topics.len() as int) == topics@);
    while i > 0
        invariant
            i <= topics@.len(),
            doc_of(topics@, id@) == doc_of(topics@.take(i as int), id@),
        decreases i,
    {
        assert(topics@.take(i as int).drop_last() == topics@.take(i - 1));
        assert(topics@.take(i as int).last() == topics@[i - 1]);
        if topics[i - 1].id == *id {
            return Some(i - 1);
        }
        i = i - 1;
    }
    None
}

/// The last place of `id` in `order`.
fn find_index(order: &Vec<String>, id: &String) -> (r: Option<usize>)
    ensures
        r == index_in(order@, id@),
        r matches Some(i) ==> i < order@.len(),
{
    let mut i: usize = order.len();
    assert(order@.take(order.len() as int) == order@);
    while i > 0
        invariant
            i <= order@.len(),
            index_in(order@, id@) == index_in(order@.take(i as int), id@),
            forall|j: int| i <= j < order@.len() ==> order@[j]@ != id@,
        decreases i,
    {
        assert(order@.take(i as int).drop_last() == order@.take(i - 1));
        assert(order@.take(i as int).last() == order@[i - 1]);
        if order[i - 1] == *id {
            return Some(i - 1);
        }
        i = i - 1;
    }
    None
}

proof fn lemma_index_in_bound(order: Seq<String>, id: Seq<char>)
    ensures
        index_in(order, id) matches Some(i) ==> i < order.len(),
    decreases order.len(),
{
    if order.len() > 0 {
        lemma_index_in_bound(order.drop_last(), id);
    }
}

proof fn lemma_dep_edges_bound(t: Seq<TopicEntry>, order: Seq<String>, deps: Seq<String>)
    ensures
        forall|j: int| 0 <= j < dep_edges(t, order, deps).len() ==> #[trigger] dep_edges(t, order, deps)[j] < order.len(),
    decreases deps.len(),
{
    if deps.len() > 0 {
        lemma_dep_edges_bound(t, order, deps.drop_last());
        lemma_index_in_bound(order, deps.last()@);
        let r = dep_edges(t, order, deps.drop_last());
        let e = dep_edges(t, order, deps);
        assert forall|j: int| 0 <= j < e.len() implies #[trigger] e[j] < order.len() by {
            if j < r.len() {
                assert(e[j] == r[j]);
            }
        }
    }
}

/// Builds the graph, appending the unknown dependencies to `found`.
fn build(roadmap: &Roadmap, topics: &[Topic], found: &mut Vec<Violation>) -> (graph: Graph)
    ensures
        graph.order@ == order_of(roadmap.topics@, topics@),
        graph.edges@.len() == graph.order@.len(),
        forall|i: int|
            0 <= i < graph.order@.len() ==> (#[trigger] graph.edges@[i])@ == dep_edges(
                roadmap.topics@,
                graph.order@,
                deps_of(topics@, graph.order@[i]@),
            ),
        edges_ok(graph.edges@),
        final(found)@ == old(found)@ + unknown_of(roadmap.topics@, topics@, graph.order@),
{
    let t = &roadmap.topics;
    let mut order: Vec<String> = Vec::new();
    let mut i: usize = 0;
    while i < t.len()
        invariant
            i <= t@.len(),
            order@ == order_of(t@.take(i as int), topics@),
        decreases t.len() - i,
    {
        assert(t@.take(i + 1).drop_last() == t@.take(i as int));
        assert(t@.take(i + 1).last() == t@[i as int]);
        if find_doc(topics, &t[i].id).is_some() {
            order.push(t[i].id.clone());
        }
        i = i + 1;
    }
    assert(t@.take(t.len() as int) == t@);
    let ghost start = found@;
    let mut edges: Vec<Vec<usize>> = Vec::new();
    let mut index: usize = 0;
    while index < order.len()
        invariant
            index <= order@.len(),
            t == &roadmap.topics,
            order@ == order_of(t@, topics@),
            edges@.len() == index,
            forall|j: int|
                0 <= j < index ==> (#[trigger] edges@[j])@ == dep_edges(t@, order@, deps_of(topics@, order@[j]@)),
            found@ == start + unknown_of(t@, topics@, order@.take(index as int)),
        decreases order.len() - index,
    {
        let id = &order[index];
        let d = find_doc(topics, id);
        let mut row: Vec<usize> = Vec::new();
        let ghost before = found@;
        assert(order@.take(index + 1).drop_last() == order@.take(index as int));
        assert(order@.take(index + 1).last() == order@[index as int]);
        match d {
            Some(at) => {
                let deps = &topics[at].depends_on;
                assert(deps_of(topics@, id@) == deps@);
                let mut j: usize = 0;
                while j < deps.len()
                    invariant
                        j <= deps@.len(),
                        t == &roadmap.topics,
                        order@ == order_of(t@, topics@),
                        row@ == dep_edges(t@, order@, deps@.take(j as int)),
                        found@ == before + dep_unknown(t@, *id, deps@.take(j as int)),
                    decreases deps.len() - j,
                {
                    assert(deps@.take(j + 1).drop_last() == deps@.take(j as int));
                    assert(deps@.take(j + 1).last() == deps@[j as int]);
                    let dependency = &deps[j];
                    if !super::record::is_declared(t, dependency) {
                        found.push(
                            Violation::UnknownDependency {
                                topic: id.clone(),
                                depends_on: dependency.clone(),
                            },
                        );
                    } else {
                        match find_index(&order, dependency) {
                            Some(target) => row.push(target),
                            None => {},
                        }
                    }
                    j = j + 1;
                }
                assert(deps@.take(deps.len() as int) == deps@);
            },
            None => {
                assert(deps_of(topics@, id@) == Seq::<String>::empty());
                assert(row@ == dep_edges(t@, order@, Seq::<String>::empty()));
            },
        }
        edges.push(row);
        index = index + 1;
    }
    assert(order@.take(order.len() as int) == order@);
    proof {
        assert forall|v: int, j: int|
            0 <= v < edges@.len() && 0 <= j < edges@[v]@.len() implies #[trigger] edges@[v]@[j] < edges@.len() by {
            lemma_dep_edges_bound(t@, order@, deps_of(topics@, order@[v]@));
        }
    }
    Graph { order, edges }
}

pub open spec fn count_true(s: Seq<bool>) -> nat
    decreases s.len(),
{
    if s.len() == 0 {
        0
    } else {
        count_true(s.drop_last()) + if s.last() {
            1nat
        } else {
            0nat
        }
    }
}

proof fn lemma_count_true_bound(s: Seq<bool>)
    ensures
        count_true(s) <= s.len(),
    decreases s.len(),
{
    if s.len() > 0 {
        lemma_count_true_bound(s.drop_last());
    }
}

proof fn lemma_count_true_set(s: Seq<bool>, i: int)
    requires
        0 <= i < s.len(),
        !s[i],
    ensures
        count_true(s.update(i, true)) == count_true(s) + 1,
    decreases s.len(),
{
    let t = s.update(i, true);
    if i == s.len() - 1 {
        assert(t.drop_last() == s.drop_last());
    } else {
        assert(t.drop_last() == s.drop_last().update(i, true));
        lemma_count_true_set(s.drop_last(), i);
    }
}

proof fn lemma_count_true_one(s: Seq<bool>, k: int)
    requires
        0 <= k < s.len(),
        forall|j: int| 0 <= j < s.len() ==> s[j] == (j == k),
    ensures
        count_true(s) == 1,
    decreases s.len(),
{
    if k < s.len() - 1 {
        lemma_count_true_one(s.drop_last(), k);
    } else {
        assert forall|j: int| 0 <= j < s.drop_last().len() implies !s.drop_last()[j] by {}
        lemma_count_true_zero(s.drop_last());
    }
}

proof fn lemma_count_true_zero(s: Seq<bool>)
    requires
        forall|j: int| 0 <= j < s.len() ==> !s[j],
    ensures
        count_true(s) == 0,
    decreases s.len(),
{
    if s.len() > 0 {
        lemma_count_true_zero(s.drop_last());
    }
}

/// The BFS state: the queue holds each seen node once, and every seen node
/// but the start has a parent one step closer to the start.
pub open spec fn bfs(
    edges: Seq<Vec<usize>>,
    part: Set<usize>,
    start: usize,
    queue: Seq<usize>,
    seen: Seq<bool>,
    parent: Seq<usize>,
    depth: Seq<nat>,
) -> bool {
    let n = edges.len();
    &&& seen.len() == n
    &&& parent.len() == n
    &&& depth.len() == n
    &&& start < n
    &&& part.contains(start)
    &&& queue.len() > 0
    &&& queue[0] == start
    &&& depth[start as int] == 0
    &&& forall|i: int| 0 <= i < queue.len() ==> (#[trigger] queue[i]) < n && part.contains(queue[i])
    &&& forall|v: usize| v < n ==> (#[trigger] seen[v as int] <==> queue.contains(v))
    &&& forall|v: usize|
        v < n && #[trigger] seen[v as int] && v != start ==> {
            &&& seen[parent[v as int] as int]
            &&& parent[v as int] < n
            &&& part.contains(parent[v as int])
            &&& edge(edges, parent[v as int], v)
            &&& depth[parent[v as int] as int] + 1 == depth[v as int]
        }
}

/// Every successor inside the part of the first `head` nodes of the queue is
/// seen, and none of them is the start.
pub open spec fn closed(
    edges: Seq<Vec<usize>>,
    part: Set<usize>,
    start: usize,
    queue: Seq<usize>,
    seen: Seq<bool>,
    head: int,
) -> bool {
    forall|i: int, next: usize|
        0 <= i < head && #[trigger] edge(edges, queue[i], next) && part.contains(next) ==> seen[next as int]
            && next != start
}

/// The depths of the queue never fall along it, stay within one of the depth
/// of the node at `head`, and an edge out of a node before `head` leads at most
/// one deeper.
pub open spec fn leveled(
    edges: Seq<Vec<usize>>,
    part: Set<usize>,
    queue: Seq<usize>,
    depth: Seq<nat>,
    head: int,
) -> bool {
    &&& forall|i: int, j: int|
        0 <= i <= j < queue.len() ==> depth[#[trigger] queue[i] as int] <= depth[#[trigger] queue[j] as int]
    &&& head < queue.len() ==> forall|j: int|
        0 <= j < queue.len() ==> depth[#[trigger] queue[j] as int] <= depth[queue[head] as int] + 1
    &&& forall|i: int, next: usize|
        0 <= i < head && #[trigger] edge(edges, queue[i], next) && part.contains(next) ==> depth[next as int]
            <= depth[queue[i] as int] + 1
}

/// The walk in breadth meets the successor `next` of `node`: a successor
/// outside the part is passed over, the start closes the cycle, and an unseen
/// one joins the queue with `node` as its parent. The state is the queue, the
/// seen marks and the parents; the flag says whether the cycle closed.
pub open spec fn meet(
    part: Set<usize>,
    start: usize,
    node: usize,
    next: usize,
    st: (Seq<usize>, Seq<bool>, Seq<usize>),
) -> ((Seq<usize>, Seq<bool>, Seq<usize>), bool) {
    if !part.contains(next) {
        (st, false)
    } else if next == start {
        (st, true)
    } else if st.1[next as int] {
        (st, false)
    } else {
        ((st.0.push(next), st.1.update(next as int, true), st.2.update(next as int, node)), false)
    }
}

/// The walk meets the successors `es` of `node` in order, and stops where the
/// cycle closes.
pub open spec fn scan(
    part: Set<usize>,
    start: usize,
    node: usize,
    es: Seq<usize>,
    st: (Seq<usize>, Seq<bool>, Seq<usize>),
) -> ((Seq<usize>, Seq<bool>, Seq<usize>), bool)
    decreases es.len(),
{
    if es.len() == 0 {
        (st, false)
    } else {
        let before = scan(part, start, node, es.drop_last(), st);
        if before.1 {
            before
        } else {
            meet(part, start, node, es.last(), before.0)
        }
    }
}

/// The walk from the node at `head` of the queue on: the parents and the node
/// whose edge closes the cycle, or nothing where the queue runs out first.
pub open spec fn search(
    edges: Seq<Vec<usize>>,
    part: Set<usize>,
    start: usize,
    st: (Seq<usize>, Seq<bool>, Seq<usize>),
    head: nat,
    fuel: nat,
) -> Option<(Seq<usize>, usize)>
    decreases fuel,
{
    if head >= st.0.len() || fuel == 0 {
        None
    } else {
        let node = st.0[head as int];
        let r = scan(part, start, node, edges[node as int]@, st);
        if r.1 {
            Some((r.0.2, node))
        } else {
            search(edges, part, start, r.0, head + 1, (fuel - 1) as nat)
        }
    }
}

/// The walk in breadth from the least node of the part, with only the start
/// seen: where it closes a cycle, the parents it set and the node whose edge
/// leads back to the start.
pub open spec fn walk_in_breadth(edges: Seq<Vec<usize>>, part: Set<usize>) -> Option<(Seq<usize>, usize)> {
    let start = least_of(part);
    let n = edges.len();
    search(
        edges,
        part,
        start,
        (seq![start], Seq::new(n, |v: int| v == start), Seq::new(n, |v: int| 0usize)),
        0,
        n + 1,
    )
}

/// `path` goes from the start to `end` along the parents, and meets the start
/// only at its head.
pub open spec fn traced(parent: Seq<usize>, start: usize, end: usize, path: Seq<usize>) -> bool {
    &&& path.len() > 0
    &&& path[0] == start
    &&& path.last() == end
    &&& forall|i: int| 0 < i < path.len() ==> #[trigger] path[i] != start && parent[path[i] as int] == path[i - 1]
}

/// `path` is the cycle that the walk in breadth closes in the part: from the
/// least node along the parents to the node whose edge leads back.
pub open spec fn walk_finds(edges: Seq<Vec<usize>>, part: Set<usize>, path: Seq<usize>) -> bool {
    match walk_in_breadth(edges, part) {
        Some(f) => traced(f.0, least_of(part), f.1, path),
        None => false,
    }
}

/// Once the cycle closes among the first `j` successors, the rest change nothing.
proof fn lemma_scan_stops(
    part: Set<usize>,
    start: usize,
    node: usize,
    es: Seq<usize>,
    st: (Seq<usize>, Seq<bool>, Seq<usize>),
    j: int,
)
    requires
        0 <= j <= es.len(),
        scan(part, start, node, es.take(j), st).1,
    ensures
        scan(part, start, node, es, st) == scan(part, start, node, es.take(j), st),
    decreases es.len(),
{
    if es.len() == j {
        assert(es.take(j) =~= es);
    } else {
        assert(es.drop_last().take(j) =~= es.take(j));
        lemma_scan_stops(part, start, node, es.drop_last(), st, j);
    }
}

/// Walks the parents back from `end` to the start: a path from the start to `end`.
fn trace(
    Ghost(edges): Ghost<Seq<Vec<usize>>>,
    Ghost(part): Ghost<Set<usize>>,
    start: usize,
    end: usize,
    Ghost(queue): Ghost<Seq<usize>>,
    seen: &Vec<bool>,
    parent: &Vec<usize>,
    Ghost(depth): Ghost<Seq<nat>>,
) -> (path: Vec<usize>)
    requires
        bfs(edges, part, start, queue, seen@, parent@, depth),
        end < edges.len(),
        seen@[end as int],
    ensures
        path@.len() > 0,
        path@[0] == start,
        path@.last() == end,
        forall|i: int| 0 <= i < path@.len() ==> part.contains(#[trigger] path@[i]),
        forall|i: int| 0 <= i < path@.len() - 1 ==> #[trigger] edge(edges, path@[i], path@[i + 1]),
        path@.len() == depth[end as int] + 1,
        traced(parent@, start, end, path@),
{
    let mut chain: Vec<usize> = Vec::new();
    chain.push(end);
    let mut at = end;
    proof {
        assert(queue.contains(end));
        let i = choose|i: int| 0 <= i < queue.len() && queue[i] == end;
        assert(part.contains(queue[i]));
    }
    while at != start
        invariant
            bfs(edges, part, start, queue, seen@, parent@, depth),
            at < edges.len(),
            seen@[at as int],
            chain@.len() > 0,
            chain@[0] == end,
            chain@.last() == at,
            forall|i: int| 0 <= i < chain@.len() ==> part.contains(#[trigger] chain@[i]),
            forall|i: int| 0 <= i < chain@.len() - 1 ==> #[trigger] edge(edges, chain@[i + 1], chain@[i]),
            chain@.len() + depth[at as int] == depth[end as int] + 1,
            forall|i: int| 0 <= i < chain@.len() - 1 ==> #[trigger] chain@[i] != start && parent@[chain@[i] as int] == chain@[i + 1],
        decreases depth[at as int],
    {
        at = parent[at];
        let ghost was = chain@;
        chain.push(at);
        assert forall|i: int| 0 <= i < chain@.len() - 1 implies #[trigger] edge(edges, chain@[i + 1], chain@[i]) by {
            if i < was.len() - 1 {
                assert(chain@[i] == was[i] && chain@[i + 1] == was[i + 1]);
            }
        }
        assert forall|i: int| 0 <= i < chain@.len() - 1 implies #[trigger] chain@[i] != start && parent@[chain@[i] as int] == chain@[i + 1] by {
            if i < was.len() - 1 {
                assert(chain@[i] == was[i] && chain@[i + 1] == was[i + 1]);
            }
        }
    }
    let mut path: Vec<usize> = Vec::new();
    let mut k: usize = chain.len();
    while k > 0
        invariant
            k <= chain@.len(),
            chain@.len() > 0,
            chain@.last() == start,
            chain@[0] == end,
            path@.len() == chain@.len() - k,
            forall|i: int| 0 <= i < path@.len() ==> #[trigger] path@[i] == chain@[chain@.len() - 1 - i],
            forall|i: int| 0 <= i < chain@.len() ==> part.contains(#[trigger] chain@[i]),
            forall|i: int| 0 <= i < chain@.len() - 1 ==> #[trigger] edge(edges, chain@[i + 1], chain@[i]),
            forall|i: int| 0 <= i < chain@.len() - 1 ==> #[trigger] chain@[i] != start && parent@[chain@[i] as int] == chain@[i + 1],
        decreases k,
    {
        path.push(chain[k - 1]);
        k = k - 1;
    }
    assert forall|i: int| 0 <= i < path@.len() - 1 implies #[trigger] edge(edges, path@[i], path@[i + 1]) by {
        let j = chain@.len() - 2 - i;
        assert(path@[i] == chain@[j + 1]);
        assert(path@[i + 1] == chain@[j]);
    }
    assert forall|i: int| 0 <= i < path@.len() implies part.contains(#[trigger] path@[i]) by {
        assert(path@[i] == chain@[chain@.len() - 1 - i]);
    }
    assert forall|i: int| 0 < i < path@.len() implies #[trigger] path@[i] != start && parent@[path@[i] as int] == path@[i - 1] by {
        let j = chain@.len() - 1 - i;
        assert(path@[i] == chain@[j]);
        assert(path@[i - 1] == chain@[j + 1]);
    }
    path
}

/// While the node at `head` is at depth `d`, each node of a cycle through the
/// start that comes before its `d`th is among the nodes before `head`, at a
/// depth no greater than its place.
proof fn lemma_shorter(
    edges: Seq<Vec<usize>>,
    part: Set<usize>,
    start: usize,
    queue: Seq<usize>,
    seen: Seq<bool>,
    parent: Seq<usize>,
    depth: Seq<nat>,
    head: int,
    q: Seq<usize>,
    j: int,
)
    requires
        bfs(edges, part, start, queue, seen, parent, depth),
        closed(edges, part, start, queue, seen, head),
        leveled(edges, part, queue, depth, head),
        0 <= head < queue.len(),
        is_cycle(edges, part, q),
        q[0] == start,
        0 <= j < q.len(),
        j < depth[queue[head] as int],
        forall|v: usize| part.contains(v) ==> v < edges.len(),
    ensures
        exists|at: int| 0 <= at < head && queue[at] == q[j] && depth[q[j] as int] <= j,
    decreases j,
{
    if j == 0 {
        assert(depth[queue[0] as int] == 0);
        if head == 0 {
            assert(false);
        }
        assert(queue[0] == q[j]);
    } else {
        lemma_shorter(edges, part, start, queue, seen, parent, depth, head, q, j - 1);
        let at = choose|at: int| 0 <= at < head && queue[at] == q[j - 1] && depth[q[j - 1] as int] <= j - 1;
        assert(edge(edges, q[j - 1], q[(j - 1) + 1]));
        assert(part.contains(q[j]));
        assert(edge(edges, queue[at], q[j]));
        assert(seen[q[j] as int]);
        assert(depth[q[j] as int] <= j);
        assert(q[j] < edges.len());
        assert(queue.contains(q[j]));
        let to = choose|to: int| 0 <= to < queue.len() && queue[to] == q[j];
        if to >= head {
            assert(depth[queue[head] as int] <= depth[queue[to] as int]);
            assert(false);
        }
    }
}

proof fn lemma_no_cycle(
    edges: Seq<Vec<usize>>,
    part: Set<usize>,
    start: usize,
    queue: Seq<usize>,
    seen: Seq<bool>,
    parent: Seq<usize>,
    depth: Seq<nat>,
)
    requires
        bfs(edges, part, start, queue, seen, parent, depth),
        closed(edges, part, start, queue, seen, queue.len() as int),
        least(part, start),
        forall|v: usize| part.contains(v) ==> v < edges.len(),
    ensures
        !has_cycle(edges, part),
{
    if has_cycle(edges, part) {
        let p = choose|p: Seq<usize>| is_cycle(edges, part, p) && p[0] == least_of(part);
        lemma_least_of(part, start);
        assert forall|i: int| 0 <= i < p.len() implies seen[#[trigger] p[i] as int] by {
            lemma_walk_seen(edges, part, start, queue, seen, parent, depth, p, i);
        }
        let last = p.last();
        assert(seen[last as int]);
        assert(queue.contains(last));
        let i = choose|i: int| 0 <= i < queue.len() && queue[i] == last;
        assert(edge(edges, queue[i], p[0]));
        assert(false);
    }
}

proof fn lemma_walk_seen(
    edges: Seq<Vec<usize>>,
    part: Set<usize>,
    start: usize,
    queue: Seq<usize>,
    seen: Seq<bool>,
    parent: Seq<usize>,
    depth: Seq<nat>,
    p: Seq<usize>,
    i: int,
)
    requires
        bfs(edges, part, start, queue, seen, parent, depth),
        closed(edges, part, start, queue, seen, queue.len() as int),
        is_cycle(edges, part, p),
        p[0] == start,
        0 <= i < p.len(),
        forall|v: usize| part.contains(v) ==> v < edges.len(),
    ensures
        seen[p[i] as int],
    decreases i,
{
    if i == 0 {
        assert(queue[0] == start);
    } else {
        lemma_walk_seen(edges, part, start, queue, seen, parent, depth, p, i - 1);
        let prev = p[i - 1];
        assert(part.contains(p[i - 1]));
        assert(seen[prev as int]);
        assert(queue.contains(prev));
        let j = choose|j: int| 0 <= j < queue.len() && queue[j] == prev;
        assert(edge(edges, p[i - 1], p[(i - 1) + 1]));
        assert(part.contains(p[i]));
        assert(edge(edges, queue[j], p[i]));
    }
}

/// The cycle inside `component` through its least node that a walk in breadth
/// from that node closes first, where one exists.
pub fn cycle_nodes(edges: &Vec<Vec<usize>>, component: &BTreeSet<usize>) -> (r: Option<Vec<usize>>)
    requires
        edges_ok(edges@),
        forall|v: usize| component@.contains(v) ==> v < edges@.len(),
    ensures
        r matches Some(p) ==> is_cycle(edges@, component@, p@) && p@[0] == least_of(component@),
        r matches Some(p) ==> shortest(edges@, component@, p@),
        r matches Some(p) ==> walk_finds(edges@, component@, p@),
        r is None ==> !has_cycle(edges@, component@),
{
    let n = edges.len();
    let mut start: usize = 0;
    while start < n && !component.contains(&start)
        invariant
            start <= n,
            n == edges@.len(),
            forall|v: usize| v < start ==> !component@.contains(v),
        decreases n - start,
    {
        start = start + 1;
    }
    if start == n {
        proof {
            if has_cycle(edges@, component@) {
                let p = choose|p: Seq<usize>| is_cycle(edges@, component@, p) && p[0] == least_of(component@);
                assert(component@.contains(p[0]));
            }
        }
        return None;
    }
    proof {
        assert(least(component@, start));
        lemma_least_of(component@, start);
    }
    let mut seen: Vec<bool> = Vec::new();
    let mut parent: Vec<usize> = Vec::new();
    let mut i: usize = 0;
    while i < n
        invariant
            i <= n,
            n == edges@.len(),
            start < n,
            seen@.len() == i,
            parent@.len() == i,
            forall|j: int| 0 <= j < i ==> seen@[j] == (j == start),
            forall|j: int| 0 <= j < i ==> parent@[j] == 0,
        decreases n - i,
    {
        seen.push(i == start);
        parent.push(0);
        i = i + 1;
    }
    let ghost mut depth: Seq<nat> = Seq::new(n as nat, |v: int| 0nat);
    let mut queue: Vec<usize> = Vec::new();
    queue.push(start);
    proof {
        assert forall|v: usize| v < n implies (#[trigger] seen@[v as int] <==> queue@.contains(v)) by {
            if v == start {
                assert(queue@[0] == start);
            }
        }
    }
    proof {
        lemma_count_true_one(seen@, start as int);
        assert(seen@ =~= Seq::new(n as nat, |v: int| v == start));
        assert(parent@ =~= Seq::new(n as nat, |v: int| 0usize));
        assert(queue@ =~= seq![start]);
    }
    let mut head: usize = 0;
    while head < queue.len()
        invariant
            n == edges@.len(),
            edges_ok(edges@),
            forall|v: usize| component@.contains(v) ==> v < n,
            least(component@, start),
            least_of(component@) == start,
            bfs(edges@, component@, start, queue@, seen@, parent@, depth),
            closed(edges@, component@, start, queue@, seen@, head as int),
            leveled(edges@, component@, queue@, depth, head as int),
            head <= queue@.len(),
            count_true(seen@) == queue@.len(),
            head <= n,
            walk_in_breadth(edges@, component@) == search(
                edges@,
                component@,
                start,
                (queue@, seen@, parent@),
                head as nat,
                (n + 1 - head) as nat,
            ),
        decreases n - head,
    {
        proof {
            lemma_count_true_bound(seen@);
        }
        let node = queue[head];
        let ghost fixed = queue@;
        let ghost st0 = (queue@, seen@, parent@);
        assert(edges@[node as int]@.take(0) =~= Seq::<usize>::empty());
        let mut pos: usize = 0;
        while pos < edges[node].len()
            invariant
                n == edges@.len(),
                edges_ok(edges@),
                forall|v: usize| component@.contains(v) ==> v < n,
                least(component@, start),
                least_of(component@) == start,
                bfs(edges@, component@, start, queue@, seen@, parent@, depth),
                closed(edges@, component@, start, queue@, seen@, head as int),
                head < queue@.len(),
                fixed.len() <= queue@.len(),
                queue@.take(fixed.len() as int) == fixed,
                node == queue@[head as int],
                node < n,
                count_true(seen@) == queue@.len(),
                pos <= edges@[node as int]@.len(),
                forall|j: int|
                    0 <= j < pos && component@.contains(#[trigger] edges@[node as int]@[j]) ==> seen@[edges@[node as int]@[j] as int]
                        && edges@[node as int]@[j] != start && depth[edges@[node as int]@[j] as int] <= depth[node as int] + 1,
                leveled(edges@, component@, queue@, depth, head as int),
                st0.0 == fixed,
                head < fixed.len(),
                head <= n,
                walk_in_breadth(edges@, component@) == search(edges@, component@, start, st0, head as nat, (n + 1 - head) as nat),
                scan(component@, start, node, edges@[node as int]@.take(pos as int), st0) == ((queue@, seen@, parent@), false),
            decreases edges@[node as int]@.len() - pos,
        {
            let next = edges[node][pos];
            assert(next < n);
            assert(edges@[node as int]@.take(pos + 1).drop_last() =~= edges@[node as int]@.take(pos as int));
            assert(edges@[node as int]@.take(pos + 1).last() == next);
            if component.contains(&next) {
                if next == start {
                    let path = trace(
                        Ghost(edges@),
                        Ghost(component@),
                        start,
                        node,
                        Ghost(queue@),
                        &seen,
                        &parent,
                        Ghost(depth),
                    );
                    proof {
                        assert(scan(component@, start, node, edges@[node as int]@.take(pos + 1), st0).1);
                        lemma_scan_stops(component@, start, node, edges@[node as int]@, st0, pos + 1);
                        assert(fixed[head as int] == node);
                        assert(walk_in_breadth(edges@, component@) == Some((parent@, node)));
                        assert(edges@[node as int]@[pos as int] == start);
                        assert(edge(edges@, path@.last(), path@[0]));
                        assert forall|q: Seq<usize>|
                            is_cycle(edges@, component@, q) && q[0] == least_of(component@) implies path@.len() <= q.len() by {
                            if q.len() < path@.len() {
                                lemma_shorter(edges@, component@, start, queue@, seen@, parent@, depth, head as int, q, q.len() - 1);
                                let at = choose|at: int| 0 <= at < head && queue@[at] == q[q.len() - 1];
                                assert(edge(edges@, queue@[at], q[0]));
                            }
                        }
                    }
                    return Some(path);
                }
                if !seen[next] {
                    proof {
                        lemma_count_true_set(seen@, next as int);
                        assert(!queue@.contains(next));
                    }
                    let ghost q0 = queue@;
                    let ghost s0 = seen@;
                    let ghost p0 = parent@;
                    seen.set(next, true);
                    parent.set(next, node);
                    queue.push(next);
                    proof {
                        depth = depth.update(next as int, depth[node as int] + 1);
                        assert(queue@ == q0.push(next));
                        assert(queue@.take(fixed.len() as int) =~= q0.take(fixed.len() as int));
                        assert(edges@[node as int]@.contains(next));
                        assert forall|v: usize| v < n implies (#[trigger] seen@[v as int] <==> queue@.contains(v)) by {
                            if v != next {
                                assert(s0[v as int] == seen@[v as int]);
                                if q0.contains(v) {
                                    let i = choose|i: int| 0 <= i < q0.len() && q0[i] == v;
                                    assert(queue@[i] == v);
                                }
                                if queue@.contains(v) {
                                    let i = choose|i: int| 0 <= i < queue@.len() && queue@[i] == v;
                                    assert(q0[i] == v);
                                }
                            } else {
                                assert(queue@[q0.len() as int] == next);
                            }
                        }
                        assert forall|v: usize| v < n && #[trigger] seen@[v as int] && v != start implies {
                            &&& seen@[parent@[v as int] as int]
                            &&& parent@[v as int] < n
                            &&& component@.contains(parent@[v as int])
                            &&& edge(edges@, parent@[v as int], v)
                            &&& depth[parent@[v as int] as int] + 1 == depth[v as int]
                        } by {
                            if v != next {
                                assert(s0[v as int]);
                                assert(parent@[v as int] == p0[v as int]);
                                assert(parent@[v as int] != next);
                            } else {
                                assert(q0.contains(node));
                                assert(s0[node as int]);
                                assert(component@.contains(q0[head as int]));
                            }
                        }
                        assert forall|i: int, x: usize|
                            0 <= i < head && #[trigger] edge(edges@, queue@[i], x) && component@.contains(x) implies seen@[x as int]
                                && x != start by {
                            assert(queue@[i] == q0[i]);
                            assert(s0[x as int]);
                        }
                        assert forall|i: int| 0 <= i < queue@.len() implies (#[trigger] queue@[i]) < n && component@.contains(queue@[i]) by {
                            if i < q0.len() {
                                assert(queue@[i] == q0[i]);
                            }
                        }
                        assert(bfs(edges@, component@, start, queue@, seen@, parent@, depth));
                        assert forall|i: int, j: int|
                            0 <= i <= j < queue@.len() implies depth[#[trigger] queue@[i] as int] <= depth[#[trigger] queue@[j] as int] by {
                            if j < q0.len() {
                                assert(queue@[i] == q0[i] && queue@[j] == q0[j]);
                                assert(q0[i] != next && q0[j] != next);
                            } else if i < q0.len() {
                                assert(queue@[i] == q0[i]);
                                assert(q0[i] != next);
                            }
                        }
                        assert forall|j: int| 0 <= j < queue@.len() implies depth[#[trigger] queue@[j] as int]
                            <= depth[queue@[head as int] as int] + 1 by {
                            if j < q0.len() {
                                assert(queue@[j] == q0[j]);
                                assert(q0[j] != next);
                            }
                            assert(queue@[head as int] == node);
                        }
                        assert forall|i: int, x: usize|
                            0 <= i < head && #[trigger] edge(edges@, queue@[i], x) && component@.contains(x) implies depth[x as int]
                                <= depth[queue@[i] as int] + 1 by {
                            assert(queue@[i] == q0[i]);
                            assert(s0[x as int]);
                            assert(q0[i] != next);
                        }
                        assert(leveled(edges@, component@, queue@, depth, head as int));
                    }
                } else {
                    proof {
                        assert(queue@.contains(next));
                        let at = choose|at: int| 0 <= at < queue@.len() && queue@[at] == next;
                        assert(depth[queue@[at] as int] <= depth[queue@[head as int] as int] + 1);
                    }
                }
            }
            pos = pos + 1;
        }
        proof {
            assert(edges@[node as int]@.take(pos as int) =~= edges@[node as int]@);
            assert(fixed[head as int] == node);
            lemma_count_true_bound(seen@);
            assert forall|i: int, x: usize|
                0 <= i < head + 1 && #[trigger] edge(edges@, queue@[i], x) && component@.contains(x) implies seen@[x as int]
                    && x != start && depth[x as int] <= depth[queue@[i] as int] + 1 by {
                if i == head {
                    let j = choose|j: int| 0 <= j < edges@[node as int]@.len() && edges@[node as int]@[j] == x;
                    assert(component@.contains(edges@[node as int]@[j]));
                }
            }
            if head + 1 < queue@.len() {
                assert forall|j: int| 0 <= j < queue@.len() implies depth[#[trigger] queue@[j] as int]
                    <= depth[queue@[head + 1] as int] + 1 by {
                    assert(depth[queue@[head as int] as int] <= depth[queue@[head + 1] as int]);
                }
            }
        }
        head = head + 1;
    }
    proof {
        lemma_no_cycle(edges@, component@, start, queue@, seen@, parent@, depth);
    }
    None
}

/// A finite set of nodes that is not empty has a least member.
proof fn lemma_has_least(s: Set<usize>)
    requires
        s.finite(),
        s.len() > 0,
    ensures
        exists|m: usize| least(s, m),
    decreases s.len(),
{
    let a = s.choose();
    let r = s.remove(a);
    if r.len() == 0 {
        assert forall|v: usize| #[trigger] s.contains(v) implies a <= v by {
            if v != a {
                assert(r.contains(v));
            }
        }
        assert(least(s, a));
    } else {
        lemma_has_least(r);
        let m = choose|m: usize| least(r, m);
        let l = if a < m { a } else { m };
        assert forall|v: usize| #[trigger] s.contains(v) implies l <= v by {
            if v != a {
                assert(r.contains(v));
            }
        }
        assert(least(s, l));
    }
}

/// Each node of a closed walk reaches its first node and is reached from it.
proof fn lemma_closed_walk(edges: Seq<Vec<usize>>, q: Seq<usize>, i: int)
    requires
        is_path(edges, q),
        edge(edges, q.last(), q[0]),
        0 <= i < q.len(),
    ensures
        reaches(edges, q[0], q[i]),
        reaches(edges, q[i], q[0]),
{
    let a = q.take(i + 1);
    assert forall|j: int| 0 <= j < a.len() - 1 implies #[trigger] edge(edges, a[j], a[j + 1]) by {
        assert(edge(edges, q[j], q[j + 1]));
    }
    assert(is_path(edges, a) && a[0] == q[0] && a.last() == q[i]);
    let b = q.skip(i).push(q[0]);
    assert forall|j: int| 0 <= j < b.len() - 1 implies #[trigger] edge(edges, b[j], b[j + 1]) by {
        if j < b.len() - 2 {
            assert(edge(edges, q[i + j], q[i + j + 1]));
        } else {
            assert(b[j] == q.last());
        }
    }
    assert(is_path(edges, b) && b[0] == q[i] && b.last() == q[0]);
}

/// The check reports a dependency cycle exactly when the graph of the
/// documents has one: a walk along dependencies that leads back to its start.
pub proof fn cycle_reported_iff(
    t: Seq<TopicEntry>,
    topics: Seq<Topic>,
    edges: Seq<Vec<usize>>,
    parts: Seq<Set<usize>>,
    cycles: Seq<Violation>,
)
    requires
        reported(t, topics, edges, parts, cycles),
    ensures
        cycles.len() > 0 <==> exists|p: Seq<usize>| #[trigger] is_path(edges, p) && edge(edges, p.last(), p[0]),
{
    let order = order_of(t, topics);
    assert(cycles_of(order, edges, parts, cycles));
    let (picked, paths) = choose|picked: Seq<int>, paths: Seq<Seq<usize>>|
        {
            &&& picked.len() == cycles.len()
            &&& paths.len() == cycles.len()
            &&& forall|i: int, j: int| 0 <= i < j < picked.len() ==> picked[i] < picked[j]
            &&& forall|i: int|
                0 <= i < cycles.len() ==> 0 <= #[trigger] picked[i] < parts.len() && is_cycle(
                    edges,
                    parts[picked[i]],
                    paths[i],
                ) && paths[i][0] == least_of(parts[picked[i]]) && shortest(edges, parts[picked[i]], paths[i])
                    && walk_finds(edges, parts[picked[i]], paths[i])
                    && cycles[i] is DependencyCycle && cycles[i]->chain@
                    == named(order, paths[i])
            &&& forall|k: int| 0 <= k < parts.len() && has_cycle(edges, parts[k]) ==> #[trigger] chosen(picked, k)
        };
    if cycles.len() > 0 {
        assert(is_cycle(edges, parts[picked[0]], paths[0]));
        assert(is_path(edges, paths[0]));
    }
    if exists|p: Seq<usize>| #[trigger] is_path(edges, p) && edge(edges, p.last(), p[0]) {
        let p = choose|p: Seq<usize>| #[trigger] is_path(edges, p) && edge(edges, p.last(), p[0]);
        let u = p[0];
        if p.len() > 1 {
            let z: int = 0;
            assert(edge(edges, p[z], p[z + 1]));
        }
        assert(u < order.len());
        assert(in_some(parts, u));
        let k = choose|k: int| 0 <= k < parts.len() && #[trigger] parts[k].contains(u);
        lemma_has_least(parts[k]);
        let m0 = choose|m: usize| least(parts[k], m);
        lemma_least_of(parts[k], m0);
        let m = least_of(parts[k]);
        let q = if u == m {
            p
        } else {
            assert(strong(edges, parts[k]));
            assert(reaches(edges, m, u) && reaches(edges, u, m));
            let a = choose|a: Seq<usize>| #[trigger] is_path(edges, a) && a[0] == m && a.last() == u;
            let b = choose|b: Seq<usize>| #[trigger] is_path(edges, b) && b[0] == u && b.last() == m;
            let q = a + b.subrange(1, b.len() - 1);
            assert(b.len() >= 2);
            assert forall|j: int| 0 <= j < q.len() - 1 implies #[trigger] edge(edges, q[j], q[j + 1]) by {
                if j < a.len() - 1 {
                    assert(edge(edges, a[j], a[j + 1]));
                } else {
                    let i = j - a.len() + 1;
                    assert(q[j] == b[i]);
                    assert(q[j + 1] == b[i + 1]);
                    assert(edge(edges, b[i], b[i + 1]));
                }
            }
            assert(is_path(edges, q));
            let i = b.len() - 2;
            assert(edge(edges, b[i], b[i + 1]));
            if b.len() == 2 {
                assert(q.last() == a.last());
            } else {
                assert(q.last() == b[i]);
            }
            assert(q[0] == m);
            q
        };
        assert(is_path(edges, q) && edge(edges, q.last(), q[0]) && q[0] == m);
        assert(parts[k].contains(m));
        assert forall|i: int| 0 <= i < q.len() implies parts[k].contains(#[trigger] q[i]) by {
            lemma_closed_walk(edges, q, i);
        }
        assert(is_cycle(edges, parts[k], q));
        assert(has_cycle(edges, parts[k]));
        assert(chosen(picked, k));
    }
}

} // verus!
