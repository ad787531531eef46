//! The layer of each topic in the graph of dependencies: how long the longest
//! chain of dependencies under it is, found depth first.
use vstd::prelude::*;

use crate::bundle::scc::edges_ok;

verus! {

/// Where a depth-first walk stands with a node.
#[derive(Debug, Clone, Copy, PartialEq, Eq)]
pub enum Mark {
    Fresh,
    Walking,
    Done(usize),
}

/// `u` is a dependency of `v`.
pub open spec fn dep(adj: Seq<Vec<usize>>, v: usize, u: usize) -> bool {
    v < adj.len() && adj[v as int]@.contains(u)
}

/// Each node of `p` depends on the next.
pub open spec fn is_chain(adj: Seq<Vec<usize>>, p: Seq<usize>) -> bool {
    forall|i: int| 0 <= i < p.len() - 1 ==> #[trigger] dep(adj, p[i], p[i + 1])
}

/// No chain of dependencies leads from a node back to it.
pub open spec fn acyclic(adj: Seq<Vec<usize>>) -> bool {
    forall|p: Seq<usize>| #[trigger] is_chain(adj, p) && p.len() >= 2 ==> p[0] != p.last()
}

/// The value of a finished node.
pub open spec fn value(m: Mark) -> nat {
    match m {
        Mark::Done(l) => l as nat,
        _ => 0,
    }
}

/// The greatest layer of the nodes `us` plus one, or nothing where there are none.
pub open spec fn above(us: Seq<usize>, layer: spec_fn(usize) -> nat) -> nat
    decreases us.len(),
{
    if us.len() == 0 {
        0
    } else {
        let rest = above(us.drop_last(), layer);
        let here = layer(us.last()) + 1;
        if here > rest {
            here
        } else {
            rest
        }
    }
}

/// Every node has the layer one above its highest dependency, and zero where
/// it has none: the length of the longest chain under it.
pub open spec fn layered(adj: Seq<Vec<usize>>, l: Seq<usize>) -> bool {
    &&& l.len() == adj.len()
    &&& forall|v: int|
        0 <= v < adj.len() ==> #[trigger] l[v] as nat == above(adj[v]@, |u: usize| l[u as int] as nat)
}

/// Whatever the graph, every node lies at most one above its highest
/// dependency, and at least in the first layer above the ground where it has
/// any.
pub open spec fn bounded(adj: Seq<Vec<usize>>, l: Seq<usize>) -> bool {
    forall|v: int|
        0 <= v < adj.len() ==> #[trigger] l[v] as nat <= above(adj[v]@, |u: usize| l[u as int] as nat) && (
        adj[v]@.len() > 0 ==> l[v] >= 1)
}

/// What the depth-first walk from `v` leaves in the marks `m`, and the layer
/// it gives `v`: a finished node keeps its layer, a node on the path being
/// walked counts as none, and a fresh one is walked through its dependencies
/// in order. `fuel` bounds the depth; any amount at least the number of fresh
/// nodes is enough.
pub open spec fn visit(adj: Seq<Vec<usize>>, m: Seq<Mark>, v: usize, fuel: nat) -> (Seq<Mark>, nat)
    decreases fuel, 1int, 0int,
{
    match m[v as int] {
        Mark::Done(l) => (m, l as nat),
        Mark::Walking => (m, 0),
        Mark::Fresh => if fuel == 0 {
            (m, 0)
        } else {
            let under = visit_all(adj, m.update(v as int, Mark::Walking), adj[v as int]@, (fuel - 1) as nat);
            (under.0.update(v as int, Mark::Done(under.1 as usize)), under.1)
        },
    }
}

/// The walk through the dependencies `us`, one after the other: the marks it
/// leaves, and one above the highest layer that they give, or nothing where
/// there are none.
pub open spec fn visit_all(adj: Seq<Vec<usize>>, m: Seq<Mark>, us: Seq<usize>, fuel: nat) -> (Seq<Mark>, nat)
    decreases fuel, 2int, us.len(),
{
    if us.len() == 0 {
        (m, 0)
    } else {
        let before = visit_all(adj, m, us.drop_last(), fuel);
        let last = visit(adj, before.0, us.last(), fuel);
        (last.0, if last.1 + 1 > before.1 {
            last.1 + 1
        } else {
            before.1
        })
    }
}

/// The marks after walking from each of the first `j` nodes in turn, starting
/// with every node fresh.
pub open spec fn swept(adj: Seq<Vec<usize>>, j: nat) -> Seq<Mark>
    decreases j,
{
    if j == 0 {
        Seq::new(adj.len(), |i: int| Mark::Fresh)
    } else {
        let m = swept(adj, (j - 1) as nat);
        visit(adj, m, (j - 1) as usize, fresh_count(m)).0
    }
}

/// The layer that the walk from every node in turn gives each node.
pub open spec fn walked(adj: Seq<Vec<usize>>) -> Seq<usize> {
    Seq::new(adj.len(), |v: int| value(swept(adj, adj.len())[v]) as usize)
}

pub open spec fn fresh_count(m: Seq<Mark>) -> nat
    decreases m.len(),
{
    if m.len() == 0 {
        0
    } else {
        fresh_count(m.drop_last()) + if m.last() is Fresh {
            1nat
        } else {
            0nat
        }
    }
}

pub open spec fn done_count(m: Seq<Mark>) -> nat
    decreases m.len(),
{
    if m.len() == 0 {
        0
    } else {
        done_count(m.drop_last()) + if m.last() is Done {
            1nat
        } else {
            0nat
        }
    }
}

proof fn lemma_counts_le(m: Seq<Mark>)
    ensures
        fresh_count(m) <= m.len(),
        done_count(m) <= m.len(),
    decreases m.len(),
{
    if m.len() > 0 {
        lemma_counts_le(m.drop_last());
    }
}

proof fn lemma_update_counts(m: Seq<Mark>, i: int, x: Mark)
    requires
        0 <= i < m.len(),
    ensures
        fresh_count(m.update(i, x)) + (if m[i] is Fresh {
            1nat
        } else {
            0nat
        }) == fresh_count(m) + (if x is Fresh {
            1nat
        } else {
            0nat
        }),
        done_count(m.update(i, x)) + (if m[i] is Done {
            1nat
        } else {
            0nat
        }) == done_count(m) + (if x is Done {
            1nat
        } else {
            0nat
        }),
    decreases m.len(),
{
    if i < m.len() - 1 {
        lemma_update_counts(m.drop_last(), i, x);
        assert(m.update(i, x).drop_last() =~= m.drop_last().update(i, x));
    } else {
        assert(m.update(i, x).drop_last() =~= m.drop_last());
    }
}

/// Marks only move forward: a node started stays started, a finished one keeps its value.
pub open spec fn forward(a: Seq<Mark>, b: Seq<Mark>) -> bool {
    &&& a.len() == b.len()
    &&& forall|w: int| 0 <= w < a.len() && a[w] is Done ==> #[trigger] b[w] == a[w]
    &&& forall|w: int| 0 <= w < a.len() && a[w] is Walking ==> #[trigger] b[w] !is Fresh
}

proof fn lemma_forward_fresh(a: Seq<Mark>, b: Seq<Mark>)
    requires
        forward(a, b),
    ensures
        fresh_count(b) <= fresh_count(a),
        done_count(b) >= done_count(a),
    decreases a.len(),
{
    if a.len() > 0 {
        assert(forward(a.drop_last(), b.drop_last())) by {
            assert forall|w: int| 0 <= w < a.len() - 1 && a.drop_last()[w] is Done implies #[trigger] b.drop_last()[w]
                == a.drop_last()[w] by {
                assert(a.drop_last()[w] == a[w] && b.drop_last()[w] == b[w]);
            }
            assert forall|w: int| 0 <= w < a.len() - 1 && a.drop_last()[w] is Walking implies #[trigger] b.drop_last()[w]
                !is Fresh by {
                assert(a.drop_last()[w] == a[w] && b.drop_last()[w] == b[w]);
            }
        }
        lemma_forward_fresh(a.drop_last(), b.drop_last());
        assert(a.last() == a[a.len() - 1] && b.last() == b[b.len() - 1]);
    }
}

/// The nodes being walked are the ones on the stack, and the stack is a chain.
pub open spec fn stacked(adj: Seq<Vec<usize>>, m: Seq<Mark>, stack: Seq<usize>) -> bool {
    &&& is_chain(adj, stack)
    &&& forall|i: int| 0 <= i < stack.len() ==> #[trigger] stack[i] < m.len()
    &&& forall|w: int| 0 <= w < m.len() ==> (m[w] is Walking <==> stack.contains(w as usize))
}

/// A finished node's value is no more than how many are finished, at least
/// one where it has dependencies, and at most one above the highest value of
/// its dependencies; in a graph without cycles, its dependencies are finished
/// and it is one above the highest.
pub open spec fn settled(adj: Seq<Vec<usize>>, m: Seq<Mark>) -> bool {
    &&& forall|w: int| 0 <= w < m.len() && m[w] is Done ==> value(#[trigger] m[w]) <= done_count(m)
    &&& forall|w: int|
        0 <= w < m.len() && #[trigger] m[w] is Done ==> value(m[w]) <= above(
            adj[w]@,
            |u: usize| value(m[u as int]),
        ) && (adj[w]@.len() > 0 ==> value(m[w]) >= 1)
    &&& acyclic(adj) ==> forall|w: int|
        0 <= w < m.len() && #[trigger] m[w] is Done ==> (forall|k: int|
            0 <= k < adj[w]@.len() ==> m[adj[w]@[k] as int] is Done) && value(m[w]) == above(
            adj[w]@,
            |u: usize| value(m[u as int]),
        )
}

proof fn lemma_above_same(us: Seq<usize>, f: spec_fn(usize) -> nat, g: spec_fn(usize) -> nat)
    requires
        forall|k: int| 0 <= k < us.len() ==> f(#[trigger] us[k]) == g(us[k]),
    ensures
        above(us, f) == above(us, g),
    decreases us.len(),
{
    if us.len() > 0 {
        lemma_above_same(us.drop_last(), f, g);
        assert(f(us[us.len() - 1]) == g(us[us.len() - 1]));
    }
}

proof fn lemma_above_mono(us: Seq<usize>, f: spec_fn(usize) -> nat, g: spec_fn(usize) -> nat)
    requires
        forall|k: int| 0 <= k < us.len() ==> f(#[trigger] us[k]) <= g(us[k]),
    ensures
        above(us, f) <= above(us, g),
    decreases us.len(),
{
    if us.len() > 0 {
        lemma_above_mono(us.drop_last(), f, g);
        assert(f(us[us.len() - 1]) <= g(us[us.len() - 1]));
    }
}

/// Values only grow as the marks move forward.
proof fn lemma_grown(adj: Seq<Vec<usize>>, a: Seq<Mark>, b: Seq<Mark>, us: Seq<usize>)
    requires
        forward(a, b),
        forall|k: int| 0 <= k < us.len() ==> #[trigger] us[k] < a.len(),
    ensures
        above(us, |u: usize| value(a[u as int])) <= above(us, |u: usize| value(b[u as int])),
{
    let f = |u: usize| value(a[u as int]);
    let g = |u: usize| value(b[u as int]);
    assert forall|k: int| 0 <= k < us.len() implies f(#[trigger] us[k]) <= g(us[k]) by {
        let w = us[k] as int;
        if a[w] is Done {
            assert(b[w] == a[w]);
        }
    }
    lemma_above_mono(us, f, g);
}

proof fn lemma_cycle(adj: Seq<Vec<usize>>, stack: Seq<usize>, k: int, v: usize, u: usize)
    requires
        is_chain(adj, stack),
        stack.len() > 0,
        stack.last() == v,
        0 <= k < stack.len(),
        stack[k] == u,
        dep(adj, v, u),
    ensures
        !acyclic(adj),
{
    let p = stack.skip(k).push(u);
    assert forall|i: int| 0 <= i < p.len() - 1 implies #[trigger] dep(adj, p[i], p[i + 1]) by {
        if i < p.len() - 2 {
            assert(p[i] == stack[k + i] && p[i + 1] == stack[k + i + 1]);
            assert(dep(adj, stack[k + i], stack[k + i + 1]));
        } else {
            assert(p[i] == stack.last());
        }
    }
    assert(is_chain(adj, p));
    assert(p[0] == u && p.last() == u);
}

/// Walks the node `v` depth first and gives its layer.
fn walk(
    v: usize,
    adj: &Vec<Vec<usize>>,
    marks: &mut Vec<Mark>,
    Ghost(stack): Ghost<Seq<usize>>,
    Ghost(fuel): Ghost<nat>,
) -> (r: usize)
    requires
        fuel >= fresh_count(old(marks)@),
        edges_ok(adj@),
        adj@.len() < usize::MAX,
        v < adj@.len(),
        old(marks)@.len() == adj@.len(),
        stacked(adj@, old(marks)@, stack),
        stack.len() > 0 ==> dep(adj@, stack.last(), v),
        settled(adj@, old(marks)@),
    ensures
        forward(old(marks)@, final(marks)@),
        stacked(adj@, final(marks)@, stack),
        settled(adj@, final(marks)@),
        old(marks)@[v as int] is Walking ==> final(marks)@ == old(marks)@ && r == 0,
        old(marks)@[v as int] !is Walking ==> final(marks)@[v as int] == Mark::Done(r),
        r <= done_count(final(marks)@),
        final(marks)@ == visit(adj@, old(marks)@, v, fuel).0,
        r as nat == visit(adj@, old(marks)@, v, fuel).1,
    decreases fresh_count(old(marks)@),
{
    match marks[v] {
        Mark::Done(l) => {
            return l;
        },
        Mark::Walking => {
            return 0;
        },
        Mark::Fresh => {},
    }
    let ghost start = marks@;
    proof {
        lemma_update_counts(marks@, v as int, Mark::Walking);
    }
    marks.set(v, Mark::Walking);
    let ghost inner = stack.push(v);
    proof {
        assert(is_chain(adj@, inner)) by {
            assert forall|i: int| 0 <= i < inner.len() - 1 implies #[trigger] dep(adj@, inner[i], inner[i + 1]) by {
                if i < inner.len() - 2 {
                    assert(inner[i] == stack[i] && inner[i + 1] == stack[i + 1]);
                    assert(dep(adj@, stack[i], stack[i + 1]));
                }
            }
        }
        assert forall|w: int| 0 <= w < marks@.len() implies (marks@[w] is Walking <==> inner.contains(w as usize)) by {
            if w != v {
                assert(marks@[w] == start[w]);
                if inner.contains(w as usize) {
                    let i = choose|i: int| 0 <= i < inner.len() && inner[i] == w as usize;
                    assert(stack[i] == w as usize);
                }
                if stack.contains(w as usize) {
                    let i = choose|i: int| 0 <= i < stack.len() && stack[i] == w as usize;
                    assert(inner[i] == w as usize);
                }
            } else {
                assert(inner[inner.len() - 1] == v);
            }
        }
        assert(forward(start, marks@));
        assert forall|w: int| 0 <= w < marks@.len() && marks@[w] is Done implies value(#[trigger] marks@[w]) <= done_count(marks@) by {
            assert(marks@[w] == start[w]);
        }
        assert forall|w: int| 0 <= w < marks@.len() && #[trigger] marks@[w] is Done implies value(marks@[w]) <= above(
            adj@[w]@,
            |u: usize| value(marks@[u as int]),
        ) && (adj@[w]@.len() > 0 ==> value(marks@[w]) >= 1) by {
            assert(marks@[w] == start[w]);
            assert(start[w] is Done);
            assert forall|j: int| 0 <= j < adj@[w]@.len() implies #[trigger] adj@[w]@[j] < start.len() by {
                assert(adj@[w]@.contains(adj@[w]@[j]));
            }
            lemma_grown(adj@, start, marks@, adj@[w]@);
        }
        if acyclic(adj@) {
            assert forall|w: int| 0 <= w < marks@.len() && #[trigger] marks@[w] is Done implies (forall|k: int|
                0 <= k < adj@[w]@.len() ==> marks@[adj@[w]@[k] as int] is Done) && value(marks@[w]) == above(
                adj@[w]@,
                |u: usize| value(marks@[u as int]),
            ) by {
                assert(marks@[w] == start[w]);
                assert forall|k: int| 0 <= k < adj@[w]@.len() implies marks@[adj@[w]@[k] as int] is Done by {
                    assert(start[adj@[w]@[k] as int] is Done);
                    assert(adj@[w]@[k] != v);
                }
                lemma_above_same(adj@[w]@, |u: usize| value(marks@[u as int]), |u: usize| value(start[u as int]));
            }
        }
    }
    let deps = &adj[v];
    assert(deps@.take(0) =~= Seq::<usize>::empty());
    let mut deep: usize = 0;
    let mut k: usize = 0;
    while k < deps.len()
        invariant
            edges_ok(adj@),
            adj@.len() < usize::MAX,
            v < adj@.len(),
            deps == &adj@[v as int],
            k <= deps@.len(),
            marks@.len() == adj@.len(),
            start == old(marks)@,
            forward(start, marks@),
            marks@[v as int] is Walking,
            start[v as int] is Fresh,
            fresh_count(marks@) < fresh_count(start),
            stacked(adj@, marks@, inner),
            inner == stack.push(v),
            settled(adj@, marks@),
            stacked(adj@, start, stack),
            deep <= done_count(marks@) + 1,
            deep <= above(deps@.take(k as int), |u: usize| value(marks@[u as int])),
            k > 0 ==> deep >= 1,
            acyclic(adj@) ==> forall|j: int| 0 <= j < k ==> #[trigger] marks@[deps@[j] as int] is Done,
            acyclic(adj@) ==> deep == above(deps@.take(k as int), |u: usize| value(marks@[u as int])),
            fresh_count(start) <= fuel,
            marks@ == visit_all(adj@, start.update(v as int, Mark::Walking), deps@.take(k as int), (fuel - 1) as nat).0,
            deep as nat == visit_all(adj@, start.update(v as int, Mark::Walking), deps@.take(k as int), (fuel - 1) as nat).1,
        decreases deps.len() - k,
    {
        let u = deps[k];
        assert(u < adj@.len()) by {
            assert(deps@.contains(u));
        }
        let ghost before = marks@;
        proof {
            assert(dep(adj@, inner.last(), u)) by {
                assert(deps@[k as int] == u);
            }
            if acyclic(adj@) && before[u as int] is Walking {
                assert(inner.contains(u));
                let i = choose|i: int| 0 <= i < inner.len() && inner[i] == u;
                lemma_cycle(adj@, inner, i, v, u);
            }
        }
        let below = walk(u, adj, marks, Ghost(inner), Ghost((fuel - 1) as nat));
        proof {
            lemma_forward_fresh(before, marks@);
            lemma_counts_le(marks@);
            assert(forward(start, marks@)) by {
                assert forall|w: int| 0 <= w < start.len() && start[w] is Done implies #[trigger] marks@[w] == start[w] by {
                    assert(before[w] == start[w]);
                }
                assert forall|w: int| 0 <= w < start.len() && start[w] is Walking implies #[trigger] marks@[w] !is Fresh by {
                    assert(before[w] !is Fresh);
                }
            }
        }
        let ghost deep0 = deep;
        let here = below + 1;
        if here > deep {
            deep = here;
        }
        proof {
            assert(below as nat == value(marks@[u as int]));
            assert forall|j: int| 0 <= j < deps@.take(k as int).len() implies #[trigger] deps@.take(k as int)[j]
                < before.len() by {
                assert(deps@.contains(deps@[j]));
            }
            lemma_grown(adj@, before, marks@, deps@.take(k as int));
            assert(deps@.take(k + 1).drop_last() == deps@.take(k as int));
            assert(deps@.take(k + 1).last() == u);
            if acyclic(adj@) {
                assert(marks@[u as int] == Mark::Done(below));
                assert forall|j: int| 0 <= j < k + 1 implies #[trigger] marks@[deps@[j] as int] is Done by {
                    if j < k {
                        assert(before[deps@[j] as int] is Done);
                    }
                }
                let f = |w: usize| value(marks@[w as int]);
                let g = |w: usize| value(before[w as int]);
                assert forall|j: int| 0 <= j < deps@.take(k as int).len() implies f(#[trigger] deps@.take(k as int)[j]) == g(
                    deps@.take(k as int)[j],
                ) by {
                    assert(before[deps@[j] as int] is Done);
                }
                lemma_above_same(deps@.take(k as int), f, g);
                assert(deps@.take(k + 1).drop_last() == deps@.take(k as int));
                assert(deps@.take(k + 1).last() == u);
            }
        }
        k = k + 1;
    }
    let ghost pre = marks@;
    proof {
        lemma_update_counts(marks@, v as int, Mark::Done(deep));
        assert(deps@.take(k as int) == deps@);
    }
    marks.set(v, Mark::Done(deep));
    proof {
        assert(fuel > 0);
        assert(marks@ == visit(adj@, start, v, fuel).0);
        assert(forward(start, marks@)) by {
            assert forall|w: int| 0 <= w < start.len() && start[w] is Done implies #[trigger] marks@[w] == start[w] by {
                assert(w != v);
                assert(pre[w] == start[w]);
            }
            assert forall|w: int| 0 <= w < start.len() && start[w] is Walking implies #[trigger] marks@[w] !is Fresh by {
                assert(w != v);
                assert(pre[w] !is Fresh);
            }
        }
        assert forall|w: int| 0 <= w < marks@.len() implies (marks@[w] is Walking <==> stack.contains(w as usize)) by {
            if w != v {
                assert(marks@[w] == pre[w]);
                if inner.contains(w as usize) {
                    let i = choose|i: int| 0 <= i < inner.len() && inner[i] == w as usize;
                    if i < stack.len() {
                        assert(stack[i] == w as usize);
                    }
                }
                if stack.contains(w as usize) {
                    let i = choose|i: int| 0 <= i < stack.len() && stack[i] == w as usize;
                    assert(inner[i] == w as usize);
                }
            } else {
                assert(!stack.contains(v)) by {
                    if stack.contains(v) {
                        let i = choose|i: int| 0 <= i < stack.len() && stack[i] == v;
                        assert(start[v as int] is Walking);
                    }
                }
            }
        }
        assert forall|w: int| 0 <= w < marks@.len() && marks@[w] is Done implies value(#[trigger] marks@[w]) <= done_count(marks@) by {
            if w != v {
                assert(marks@[w] == pre[w]);
            }
        }
        assert(forward(pre, marks@)) by {
            assert forall|w: int| 0 <= w < pre.len() && pre[w] is Done implies #[trigger] marks@[w] == pre[w] by {
                assert(w != v);
            }
        }
        assert forall|w: int| 0 <= w < marks@.len() && #[trigger] marks@[w] is Done implies value(marks@[w]) <= above(
            adj@[w]@,
            |u: usize| value(marks@[u as int]),
        ) && (adj@[w]@.len() > 0 ==> value(marks@[w]) >= 1) by {
            assert forall|j: int| 0 <= j < adj@[w]@.len() implies #[trigger] adj@[w]@[j] < pre.len() by {
                assert(adj@[w]@.contains(adj@[w]@[j]));
            }
            lemma_grown(adj@, pre, marks@, adj@[w]@);
            if w != v {
                assert(marks@[w] == pre[w]);
            }
        }
        if acyclic(adj@) {
            assert forall|w: int| 0 <= w < marks@.len() && #[trigger] marks@[w] is Done implies (forall|j: int|
                0 <= j < adj@[w]@.len() ==> marks@[adj@[w]@[j] as int] is Done) && value(marks@[w]) == above(
                adj@[w]@,
                |u: usize| value(marks@[u as int]),
            ) by {
                let f = |u: usize| value(marks@[u as int]);
                let g = |u: usize| value(pre[u as int]);
                if w != v {
                    assert(marks@[w] == pre[w]);
                    assert forall|j: int| 0 <= j < adj@[w]@.len() implies marks@[adj@[w]@[j] as int] is Done by {
                        assert(pre[adj@[w]@[j] as int] is Done);
                        assert(adj@[w]@[j] != v);
                    }
                    assert forall|j: int| 0 <= j < adj@[w]@.len() implies f(#[trigger] adj@[w]@[j]) == g(adj@[w]@[j]) by {
                        assert(pre[adj@[w]@[j] as int] is Done);
                        assert(adj@[w]@[j] != v);
                    }
                    lemma_above_same(adj@[w]@, f, g);
                } else {
                    assert forall|j: int| 0 <= j < adj@[w]@.len() implies marks@[adj@[w]@[j] as int] is Done by {
                        assert(pre[deps@[j] as int] is Done);
                        if deps@[j] == v {
                            assert(pre[v as int] is Walking);
                        }
                    }
                    assert forall|j: int| 0 <= j < adj@[w]@.len() implies f(#[trigger] adj@[w]@[j]) == g(adj@[w]@[j]) by {
                        assert(pre[deps@[j] as int] is Done);
                        if deps@[j] == v {
                            assert(pre[v as int] is Walking);
                        }
                    }
                    lemma_above_same(adj@[w]@, f, g);
                }
            }
        }
    }
    deep
}

/// The layer of every node: in a graph without cycles, one above its highest
/// dependency and zero where it has none. A dependency that closes a cycle
/// counts as none where the walk meets it.
pub fn layers(adj: &Vec<Vec<usize>>) -> (l: Vec<usize>)
    requires
        edges_ok(adj@),
        adj@.len() < usize::MAX,
    ensures
        l@.len() == adj@.len(),
        l@ == walked(adj@),
        acyclic(adj@) ==> layered(adj@, l@),
        bounded(adj@, l@),
{
    let n = adj.len();
    let mut marks: Vec<Mark> = Vec::new();
    let mut i: usize = 0;
    while i < n
        invariant
            i <= n == adj@.len(),
            marks@.len() == i,
            forall|w: int| 0 <= w < i ==> marks@[w] is Fresh,
        decreases n - i,
    {
        marks.push(Mark::Fresh);
        i = i + 1;
    }
    proof {
        assert(is_chain(adj@, Seq::<usize>::empty()));
        assert(stacked(adj@, marks@, Seq::<usize>::empty()));
        assert(settled(adj@, marks@));
        assert(marks@ =~= swept(adj@, 0));
    }
    let mut j: usize = 0;
    while j < n
        invariant
            j <= n == adj@.len(),
            n < usize::MAX,
            edges_ok(adj@),
            marks@.len() == n,
            stacked(adj@, marks@, Seq::<usize>::empty()),
            settled(adj@, marks@),
            forall|w: int| 0 <= w < j ==> #[trigger] marks@[w] is Done,
            marks@ == swept(adj@, j as nat),
        decreases n - j,
    {
        let ghost before = marks@;
        assert(before[j as int] !is Walking);
        walk(j, adj, &mut marks, Ghost(Seq::<usize>::empty()), Ghost(fresh_count(before)));
        proof {
            assert forall|w: int| 0 <= w < j + 1 implies #[trigger] marks@[w] is Done by {
                if w < j {
                    assert(before[w] is Done);
                }
            }
        }
        j = j + 1;
    }
    let mut out: Vec<usize> = Vec::new();
    let mut k: usize = 0;
    while k < n
        invariant
            k <= n == adj@.len(),
            marks@.len() == n,
            forall|w: int| 0 <= w < n ==> #[trigger] marks@[w] is Done,
            settled(adj@, marks@),
            edges_ok(adj@),
            out@.len() == k,
            forall|w: int| 0 <= w < k ==> out@[w] as nat == value(#[trigger] marks@[w]),
            marks@ == swept(adj@, n as nat),
        decreases n - k,
    {
        match marks[k] {
            Mark::Done(l) => out.push(l),
            _ => out.push(0),
        }
        k = k + 1;
    }
    proof {
        assert(out@ =~= walked(adj@)) by {
            assert forall|v: int| 0 <= v < n implies out@[v] == #[trigger] walked(adj@)[v] by {
                assert(out@[v] as nat == value(marks@[v]));
            }
        }
        assert forall|v: int| 0 <= v < adj@.len() implies #[trigger] out@[v] as nat <= above(
            adj@[v]@,
            |u: usize| out@[u as int] as nat,
        ) && (adj@[v]@.len() > 0 ==> out@[v] >= 1) by {
            let f = |u: usize| out@[u as int] as nat;
            let g = |u: usize| value(marks@[u as int]);
            assert(marks@[v] is Done);
            assert forall|j: int| 0 <= j < adj@[v]@.len() implies f(#[trigger] adj@[v]@[j]) == g(adj@[v]@[j]) by {
                assert(adj@[v]@[j] < adj@.len());
                assert(marks@[adj@[v]@[j] as int] is Done);
            }
            lemma_above_same(adj@[v]@, f, g);
        }
        if acyclic(adj@) {
            assert forall|v: int| 0 <= v < adj@.len() implies #[trigger] out@[v] as nat == above(
                adj@[v]@,
                |u: usize| out@[u as int] as nat,
            ) by {
                let f = |u: usize| out@[u as int] as nat;
                let g = |u: usize| value(marks@[u as int]);
                assert(marks@[v] is Done);
                assert(value(marks@[v]) == above(adj@[v]@, g));
                assert forall|j: int| 0 <= j < adj@[v]@.len() implies f(#[trigger] adj@[v]@[j]) == g(adj@[v]@[j]) by {
                    assert(adj@[v]@[j] < adj@.len());
                    assert(marks@[adj@[v]@[j] as int] is Done);
                }
                lemma_above_same(adj@[v]@, f, g);
            }
        }
    }
    out
}

} // verus!

verus! {

proof fn lemma_above_each(us: Seq<usize>, f: spec_fn(usize) -> nat, k: int)
    requires
        0 <= k < us.len(),
    ensures
        above(us, f) >= f(us[k]) + 1,
    decreases us.len(),
{
    if k < us.len() - 1 {
        lemma_above_each(us.drop_last(), f, k);
        assert(us.drop_last()[k] == us[k]);
    }
}

/// In a graph without cycles, every node lies in a layer above each of its
/// dependencies.
pub proof fn layers_rise(adj: Seq<Vec<usize>>, l: Seq<usize>)
    requires
        edges_ok(adj),
        layered(adj, l),
    ensures
        forall|v: int, k: int|
            0 <= v < adj.len() && 0 <= k < adj[v]@.len() ==> l[v] > #[trigger] l[adj[v]@[k] as int],
{
    assert forall|v: int, k: int| 0 <= v < adj.len() && 0 <= k < adj[v]@.len() implies l[v]
        > #[trigger] l[adj[v]@[k] as int] by {
        let f = |u: usize| l[u as int] as nat;
        assert(l[v] as nat == above(adj[v]@, f));
        lemma_above_each(adj[v]@, f, k);
    }
}

} // verus!
