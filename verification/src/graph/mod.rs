//! The graph of a program's topics: what each depends on, what it unlocks,
//! what still blocks it, and its layer.
pub mod layer;
pub mod types;

pub use layer::layers;
pub use types::{Graph, Node, Statuses};

use vstd::prelude::*;

use crate::progress::Status;
use crate::roadmap::{Roadmap, TopicEntry};
use crate::text::texts;
use crate::topic::Topic;
use layer::{acyclic, bounded, layered, walked};

verus! {

/// The document of `id`: the first one that carries it.
pub open spec fn first_doc(topics: Seq<Topic>, id: Seq<char>) -> Option<Topic>
    decreases topics.len(),
{
    if topics.len() == 0 {
        None
    } else if topics[0].id@ == id {
        Some(topics[0])
    } else {
        first_doc(topics.drop_first(), id)
    }
}

/// The ids of the plan, in its order.
pub open spec fn plan_ids(t: Seq<TopicEntry>) -> Seq<Seq<char>> {
    t.map_values(|e: TopicEntry| e.id@)
}

/// The texts of `s` that `keep` holds, in their order.
pub open spec fn kept(s: Seq<Seq<char>>, keep: Seq<Seq<char>>) -> Seq<Seq<char>>
    decreases s.len(),
{
    if s.len() == 0 {
        Seq::empty()
    } else {
        kept(s.drop_last(), keep) + if keep.contains(s.last()) {
            seq![s.last()]
        } else {
            Seq::<Seq<char>>::empty()
        }
    }
}

/// What `id` depends on among the topics the plan declares, by its document.
pub open spec fn wired(t: Seq<TopicEntry>, topics: Seq<Topic>, id: Seq<char>) -> Seq<Seq<char>> {
    match first_doc(topics, id) {
        Some(d) => kept(texts(d.depends_on@), plan_ids(t)),
        None => Seq::empty(),
    }
}

/// The status of `id` by the first record of it.
pub open spec fn status_in(s: Seq<(String, Status)>, id: Seq<char>) -> Option<Status>
    decreases s.len(),
{
    if s.len() == 0 {
        None
    } else if s[0].0@ == id {
        Some(s[0].1)
    } else {
        status_in(s.drop_first(), id)
    }
}

/// The dependencies that are not done.
pub open spec fn waiting_of(deps: Seq<Seq<char>>, s: Seq<(String, Status)>) -> Seq<Seq<char>>
    decreases deps.len(),
{
    if deps.len() == 0 {
        Seq::empty()
    } else {
        waiting_of(deps.drop_last(), s) + if status_in(s, deps.last()) matches Some(x) && x.done_of() {
            Seq::<Seq<char>>::empty()
        } else {
            seq![deps.last()]
        }
    }
}

/// The topics of `order` that depend on `id`, in its order.
pub open spec fn unlocks_of(
    t: Seq<TopicEntry>,
    topics: Seq<Topic>,
    order: Seq<Seq<char>>,
    id: Seq<char>,
) -> Seq<Seq<char>>
    decreases order.len(),
{
    if order.len() == 0 {
        Seq::empty()
    } else {
        unlocks_of(t, topics, order.drop_last(), id) + if wired(t, topics, order.last()).contains(
            id,
        ) {
            seq![order.last()]
        } else {
            Seq::<Seq<char>>::empty()
        }
    }
}

/// Where `id` first stands in `order`.
pub open spec fn first_index(order: Seq<Seq<char>>, id: Seq<char>) -> nat
    decreases order.len(),
{
    if order.len() == 0 || order[0] == id {
        0
    } else {
        1 + first_index(order.drop_first(), id)
    }
}

/// The graph of dependencies by positions in the plan.
pub open spec fn adjacency(t: Seq<TopicEntry>, topics: Seq<Topic>) -> Seq<Seq<usize>> {
    let order = plan_ids(t);
    Seq::new(
        order.len(),
        |i: int| wired(t, topics, order[i]).map_values(|d: Seq<char>| first_index(order, d) as usize),
    )
}

/// A node of the graph as values.
pub struct NodeV {
    pub id: Seq<char>,
    pub title: Seq<char>,
    pub status: Status,
    pub layer: usize,
    pub depends_on: Seq<Seq<char>>,
    pub blocked_by: Seq<Seq<char>>,
    pub unlocks: Seq<Seq<char>>,
}

pub open spec fn node_view(n: Node) -> NodeV {
    NodeV {
        id: n.id@,
        title: n.title@,
        status: n.status,
        layer: n.layer,
        depends_on: texts(n.depends_on@),
        blocked_by: texts(n.blocked_by@),
        unlocks: texts(n.unlocks@),
    }
}

/// The node of the `i`-th topic of the plan, with the layers `l` by position.
pub open spec fn node_of(
    t: Seq<TopicEntry>,
    topics: Seq<Topic>,
    s: Seq<(String, Status)>,
    l: Seq<usize>,
    i: int,
) -> NodeV {
    let e = t[i];
    let order = plan_ids(t);
    let deps = wired(t, topics, e.id@);
    NodeV {
        id: e.id@,
        title: e.title@,
        status: match status_in(s, e.id@) {
            Some(x) => x,
            None => Status::Todo,
        },
        layer: l[first_index(order, e.id@) as int],
        depends_on: deps,
        blocked_by: waiting_of(deps, s),
        unlocks: unlocks_of(t, topics, order, e.id@),
    }
}

/// `x` put into `s` after every node of a layer no higher.
pub open spec fn ins_node(s: Seq<NodeV>, x: NodeV) -> Seq<NodeV>
    decreases s.len(),
{
    if s.len() == 0 {
        seq![x]
    } else if s.last().layer <= x.layer {
        s.push(x)
    } else {
        ins_node(s.drop_last(), x).push(s.last())
    }
}

/// The nodes ordered by layer, nodes of one layer in the order given.
pub open spec fn by_layer(s: Seq<NodeV>) -> Seq<NodeV>
    decreases s.len(),
{
    if s.len() == 0 {
        Seq::empty()
    } else {
        ins_node(by_layer(s.drop_last()), s.last())
    }
}

/// The views of an adjacency.
pub open spec fn adj_views(adj: Seq<Vec<usize>>) -> Seq<Seq<usize>> {
    adj.map_values(|v: Vec<usize>| v@)
}

/// The graph: every topic of the plan as a node, ordered by layer.
pub open spec fn graph_of(
    t: Seq<TopicEntry>,
    topics: Seq<Topic>,
    s: Seq<(String, Status)>,
    l: Seq<usize>,
) -> Seq<NodeV> {
    by_layer(Seq::new(t.len(), |i: int| node_of(t, topics, s, l, i)))
}

fn first_doc_at(topics: &[Topic], id: &String) -> (r: Option<usize>)
    ensures
        match first_doc(topics@, id@) {
            Some(d) => r matches Some(i) && i < topics@.len() && topics@[i as int] == d,
            None => r is None,
        },
{
    let mut i: usize = 0;
    assert(topics@.skip(0) == topics@);
    while i < topics.len()
        invariant
            i <= topics@.len(),
            first_doc(topics@, id@) == first_doc(topics@.skip(i as int), id@),
        decreases topics.len() - i,
    {
        assert(topics@.skip(i as int)[0] == topics@[i as int]);
        assert(topics@.skip(i as int).drop_first() == topics@.skip(i + 1));
        if topics[i].id == *id {
            return Some(i);
        }
        i = i + 1;
    }
    None
}

fn index_in(order: &Vec<String>, id: &String) -> (r: usize)
    ensures
        r == first_index(texts(order@), id@),
        texts(order@).contains(id@) ==> r < order@.len(),
{
    let ghost o = texts(order@);
    let mut i: usize = 0;
    assert(o.skip(0) == o);
    while i < order.len() && order[i] != *id
        invariant
            i <= order@.len(),
            o == texts(order@),
            first_index(o, id@) == i + first_index(o.skip(i as int), id@),
            forall|j: int| 0 <= j < i ==> o[j] != id@,
        decreases order.len() - i,
    {
        assert(o.skip(i as int)[0] == o[i as int]);
        assert(o.skip(i as int).drop_first() == o.skip(i + 1));
        i = i + 1;
    }
    if i < order.len() {
        assert(o.skip(i as int)[0] == o[i as int]);
    } else {
        assert(o.skip(i as int).len() == 0);
    }
    i
}

fn contains_text(v: &Vec<String>, x: &String) -> (r: bool)
    ensures
        r == texts(v@).contains(x@),
{
    let mut i: usize = 0;
    while i < v.len()
        invariant
            i <= v@.len(),
            forall|j: int| 0 <= j < i ==> texts(v@)[j] != x@,
        decreases v.len() - i,
    {
        if v[i] == *x {
            assert(texts(v@)[i as int] == x@);
            return true;
        }
        i = i + 1;
    }
    false
}

fn wires(order: &Vec<String>, topics: &[Topic], id: &String) -> (r: Vec<String>)
    ensures
        texts(r@) == kept_of(order, topics, id),
{
    match first_doc_at(topics, id) {
        None => Vec::new(),
        Some(k) => {
            let deps = &topics[k].depends_on;
            let mut out: Vec<String> = Vec::new();
            let mut i: usize = 0;
            while i < deps.len()
                invariant
                    i <= deps@.len(),
                    texts(out@) == kept(texts(deps@).take(i as int), texts(order@)),
                decreases deps.len() - i,
            {
                assert(texts(deps@).take(i + 1).drop_last() == texts(deps@).take(i as int));
                assert(texts(deps@).take(i + 1).last() == deps@[i as int]@);
                let ghost was = texts(out@);
                if contains_text(order, &deps[i]) {
                    out.push(deps[i].clone());
                    assert(texts(out@) =~= was + seq![deps@[i as int]@]);
                } else {
                    assert(texts(out@) =~= was + Seq::<Seq<char>>::empty());
                }
                i = i + 1;
            }
            assert(texts(deps@).take(i as int) == texts(deps@));
            out
        },
    }
}

/// What `wires` gives: the declared dependencies of `id` by its first document.
pub open spec fn kept_of(order: &Vec<String>, topics: &[Topic], id: &String) -> Seq<Seq<char>> {
    match first_doc(topics@, id@) {
        Some(d) => kept(texts(d.depends_on@), texts(order@)),
        None => Seq::empty(),
    }
}

proof fn lemma_kept_in(s: Seq<Seq<char>>, keep: Seq<Seq<char>>)
    ensures
        forall|i: int| 0 <= i < kept(s, keep).len() ==> keep.contains(#[trigger] kept(s, keep)[i]),
    decreases s.len(),
{
    if s.len() > 0 {
        lemma_kept_in(s.drop_last(), keep);
        let a = kept(s.drop_last(), keep);
        assert forall|i: int| 0 <= i < kept(s, keep).len() implies keep.contains(#[trigger] kept(s, keep)[i]) by {
            if i < a.len() {
                assert(kept(s, keep)[i] == a[i]);
            }
        }
    }
}

proof fn lemma_first_index(order: Seq<Seq<char>>, id: Seq<char>)
    requires
        order.contains(id),
    ensures
        first_index(order, id) < order.len(),
        order[first_index(order, id) as int] == id,
    decreases order.len(),
{
    if order[0] != id {
        let k = choose|k: int| 0 <= k < order.len() && order[k] == id;
        assert(order.drop_first()[k - 1] == id);
        lemma_first_index(order.drop_first(), id);
    }
}

fn status_of(s: &Statuses, id: &String) -> (r: Option<Status>)
    ensures
        r == status_in(s.known@, id@),
{
    let k = &s.known;
    let mut i: usize = 0;
    assert(k@.skip(0) == k@);
    while i < k.len()
        invariant
            i <= k@.len(),
            k@ == s.known@,
            status_in(k@, id@) == status_in(k@.skip(i as int), id@),
        decreases k.len() - i,
    {
        assert(k@.skip(i as int)[0] == k@[i as int]);
        assert(k@.skip(i as int).drop_first() == k@.skip(i + 1));
        if k[i].0 == *id {
            return Some(k[i].1);
        }
        i = i + 1;
    }
    None
}

fn waiting(deps: &Vec<String>, s: &Statuses) -> (r: Vec<String>)
    ensures
        texts(r@) == waiting_of(texts(deps@), s.known@),
{
    let mut out: Vec<String> = Vec::new();
    let mut i: usize = 0;
    while i < deps.len()
        invariant
            i <= deps@.len(),
            texts(out@) == waiting_of(texts(deps@).take(i as int), s.known@),
        decreases deps.len() - i,
    {
        assert(texts(deps@).take(i + 1).drop_last() == texts(deps@).take(i as int));
        assert(texts(deps@).take(i + 1).last() == deps@[i as int]@);
        let done = match status_of(s, &deps[i]) {
            Some(x) => x.is_done(),
            None => false,
        };
        let ghost was = texts(out@);
        if !done {
            out.push(deps[i].clone());
            assert(texts(out@) =~= was + seq![deps@[i as int]@]);
        } else {
            assert(texts(out@) =~= was + Seq::<Seq<char>>::empty());
        }
        i = i + 1;
    }
    assert(texts(deps@).take(i as int) == texts(deps@));
    out
}

fn insert_node(s: &mut Vec<Node>, x: Node)
    ensures
        final(s)@.map_values(|n: Node| node_view(n)) == ins_node(
            old(s)@.map_values(|n: Node| node_view(n)),
            node_view(x),
        ),
{
    let ghost v = old(s)@.map_values(|n: Node| node_view(n));
    let mut p = s.len();
    while p > 0 && s[p - 1].layer > x.layer
        invariant
            p <= s@.len(),
            v == s@.map_values(|n: Node| node_view(n)),
            forall|j: int| p <= j < s@.len() ==> (#[trigger] s@[j]).layer > x.layer,
        decreases p,
    {
        p = p - 1;
    }
    proof {
        lemma_ins_node_at(v, node_view(x), p as int);
    }
    let ghost xv = node_view(x);
    s.insert(p, x);
    assert(s@.map_values(|n: Node| node_view(n)) =~= v.take(p as int) + seq![xv] + v.skip(p as int));
}

proof fn lemma_ins_node_at(s: Seq<NodeV>, x: NodeV, p: int)
    requires
        0 <= p <= s.len(),
        p == 0 || s[p - 1].layer <= x.layer,
        forall|j: int| p <= j < s.len() ==> (#[trigger] s[j]).layer > x.layer,
    ensures
        ins_node(s, x) == s.take(p) + seq![x] + s.skip(p),
    decreases s.len(),
{
    if s.len() == 0 {
        assert(s.take(p) + seq![x] + s.skip(p) =~= seq![x]);
    } else if p == s.len() {
        assert(s.take(p) + seq![x] + s.skip(p) =~= s.push(x));
    } else {
        assert(s.last().layer > x.layer);
        lemma_ins_node_at(s.drop_last(), x, p);
        assert(s.drop_last().take(p) + seq![x] + s.drop_last().skip(p) + seq![s.last()] =~= s.take(
            p,
        ) + seq![x] + s.skip(p));
    }
}

/// The graph of a program's topics.
pub fn graph(roadmap: &Roadmap, topics: &[Topic], statuses: &Statuses) -> (g: Graph)
    requires
        roadmap.topics@.len() < usize::MAX,
    ensures
        exists|adj: Seq<Vec<usize>>, l: Seq<usize>|
            {
                &&& #[trigger] adj_views(adj) == adjacency(roadmap.topics@, topics@)
                &&& l.len() == roadmap.topics@.len()
                &&& l == walked(adj)
                &&& (acyclic(adj) ==> layered(adj, l))
                &&& bounded(adj, l)
                &&& g.nodes@.map_values(|n: Node| node_view(n)) == #[trigger] graph_of(
                    roadmap.topics@,
                    topics@,
                    statuses.known@,
                    l,
                )
            },
{
    let t = &roadmap.topics;
    let n = t.len();
    let mut order: Vec<String> = Vec::new();
    let mut i: usize = 0;
    while i < n
        invariant
            i <= n == t@.len(),
            texts(order@) == plan_ids(t@).take(i as int),
        decreases n - i,
    {
        let ghost was = texts(order@);
        order.push(t[i].id.clone());
        assert(texts(order@) =~= was.push(t@[i as int].id@));
        i = i + 1;
        assert(plan_ids(t@).take(i as int) =~= plan_ids(t@).take(i - 1).push(t@[i - 1].id@));
    }
    assert(plan_ids(t@).take(i as int) =~= plan_ids(t@));
    let ghost o = plan_ids(t@);
    if n == 0 {
        let g = Graph { nodes: Vec::new() };
        proof {
            let adj = Seq::<Vec<usize>>::empty();
            let l = Seq::<usize>::empty();
            assert(adj_views(adj) =~= adjacency(t@, topics@));
            assert(Seq::new(0, |i: int| node_of(t@, topics@, statuses.known@, l, i)) =~= Seq::<NodeV>::empty());
            assert(g.nodes@.map_values(|n: Node| node_view(n)) =~= graph_of(t@, topics@, statuses.known@, l));
            assert(layered(adj, l));
            assert(bounded(adj, l));
            assert(l =~= walked(adj));
        }
        return g;
    }
    let mut wired_all: Vec<Vec<String>> = Vec::new();
    let mut adj: Vec<Vec<usize>> = Vec::new();
    let mut j: usize = 0;
    while j < n
        invariant
            j <= n == t@.len(),
            n > 0,
            texts(order@) == o,
            order@.len() == n,
            o == plan_ids(t@),
            wired_all@.len() == j,
            adj@.len() == j,
            forall|x: int| 0 <= x < j ==> texts(#[trigger] wired_all@[x]@) == wired(t@, topics@, o[x]),
            forall|x: int| 0 <= x < j ==> (#[trigger] adj@[x])@ == adjacency(t@, topics@)[x],
            forall|x: int, y: int| 0 <= x < j && 0 <= y < adj@[x]@.len() ==> #[trigger] adj@[x]@[y] < n,
        decreases n - j,
    {
        let w = wires(&order, topics, &order[j]);
        assert(order@[j as int]@ == o[j as int]);
        proof {
            lemma_kept_in_wired(t@, topics@, o[j as int]);
            assert(texts(w@) == wired(t@, topics@, o[j as int]));
            assert forall|y: int| 0 <= y < w@.len() implies o.contains(#[trigger] texts(w@)[y]) by {
                assert(texts(w@)[y] == wired(t@, topics@, o[j as int])[y]);
            }
        }
        let mut row: Vec<usize> = Vec::new();
        let mut k: usize = 0;
        while k < w.len()
            invariant
                k <= w@.len(),
                texts(order@) == o,
                o == plan_ids(t@),
                n == o.len(),
                texts(w@) == wired(t@, topics@, o[j as int]),
                forall|y: int| 0 <= y < w@.len() ==> o.contains(#[trigger] texts(w@)[y]),
                row@ == texts(w@).take(k as int).map_values(|d: Seq<char>| first_index(o, d) as usize),
                forall|y: int| 0 <= y < k ==> #[trigger] row@[y] < n,
            decreases w.len() - k,
        {
            let x = index_in(&order, &w[k]);
            assert(o.contains(texts(w@)[k as int]));
            row.push(x);
            k = k + 1;
            assert(row@ =~= texts(w@).take(k as int).map_values(|d: Seq<char>| first_index(o, d) as usize));
        }
        assert(texts(w@).take(k as int) == texts(w@));
        let ghost ws = w@;
        wired_all.push(w);
        adj.push(row);
        proof {
            assert(adjacency(t@, topics@)[j as int] == wired(t@, topics@, o[j as int]).map_values(
                |d: Seq<char>| first_index(o, d) as usize,
            ));
            assert(texts(wired_all@[j as int]@) == texts(ws));
        }
        j = j + 1;
    }
    proof {
        assert(crate::bundle::scc::edges_ok(adj@)) by {
            assert forall|v: int, y: int| 0 <= v < adj@.len() && 0 <= y < adj@[v]@.len() implies #[trigger] adj@[v]@[y]
                < adj@.len() by {}
        }
        assert(adj_views(adj@) =~= adjacency(t@, topics@));
    }
    let l = layers(&adj);
    let mut nodes: Vec<Node> = Vec::new();
    let ghost unsorted = Seq::new(n as nat, |x: int| node_of(t@, topics@, statuses.known@, l@, x));
    let mut i: usize = 0;
    while i < n
        invariant
            i <= n == t@.len(),
            n == l@.len(),
            texts(order@) == o,
            o == plan_ids(t@),
            wired_all@.len() == n,
            forall|x: int| 0 <= x < n ==> texts(#[trigger] wired_all@[x]@) == wired(t@, topics@, o[x]),
            unsorted == Seq::new(n as nat, |x: int| node_of(t@, topics@, statuses.known@, l@, x)),
            nodes@.map_values(|m: Node| node_view(m)) == by_layer(unsorted.take(i as int)),
        decreases n - i,
    {
        let e = &t[i];
        assert(o[i as int] == e.id@);
        let at = index_in(&order, &e.id);
        proof {
            assert(o[i as int] == e.id@);
            assert(o.contains(e.id@));
            lemma_first_index(o, e.id@);
        }
        let deps = &wired_all[i];
        let mut copy: Vec<String> = Vec::new();
        let mut k: usize = 0;
        while k < deps.len()
            invariant
                k <= deps@.len(),
                texts(copy@) == texts(deps@).take(k as int),
            decreases deps.len() - k,
        {
            let ghost was = texts(copy@);
            copy.push(deps[k].clone());
            assert(texts(copy@) =~= was.push(deps@[k as int]@));
            k = k + 1;
            assert(texts(deps@).take(k as int) =~= texts(deps@).take(k - 1).push(deps@[k - 1]@));
        }
        assert(texts(deps@).take(k as int) == texts(deps@));
        let blocked = waiting(deps, statuses);
        let mut unlocks: Vec<String> = Vec::new();
        let mut m: usize = 0;
        while m < n
            invariant
                m <= n == wired_all@.len(),
                n == o.len(),
                texts(order@) == o,
                forall|x: int| 0 <= x < n ==> texts(#[trigger] wired_all@[x]@) == wired(t@, topics@, o[x]),
                texts(unlocks@) == unlocks_of(t@, topics@, o.take(m as int), e.id@),
            decreases n - m,
        {
            assert(o.take(m + 1).drop_last() == o.take(m as int));
            assert(o.take(m + 1).last() == o[m as int]);
            let ghost was = texts(unlocks@);
            if contains_text(&wired_all[m], &e.id) {
                unlocks.push(order[m].clone());
                assert(texts(unlocks@) =~= was + seq![o[m as int]]);
            } else {
                assert(texts(unlocks@) =~= was + Seq::<Seq<char>>::empty());
            }
            m = m + 1;
        }
        assert(o.take(m as int) == o);
        let status = match status_of(statuses, &e.id) {
            Some(x) => x,
            None => Status::Todo,
        };
        let node = Node {
            id: e.id.clone(),
            title: e.title.clone(),
            status,
            layer: l[at],
            depends_on: copy,
            blocked_by: blocked,
            unlocks,
        };
        proof {
            assert(node_view(node) == unsorted[i as int]);
            assert(unsorted.take(i + 1).drop_last() == unsorted.take(i as int));
            assert(unsorted.take(i + 1).last() == unsorted[i as int]);
        }
        insert_node(&mut nodes, node);
        i = i + 1;
    }
    assert(unsorted.take(i as int) == unsorted);
    let g = Graph { nodes };
    proof {
        assert(adj_views(adj@) == adjacency(t@, topics@));
        assert(l@.len() == t@.len());
        assert(acyclic(adj@) ==> layered(adj@, l@));
        assert(g.nodes@.map_values(|m: Node| node_view(m)) == graph_of(t@, topics@, statuses.known@, l@));
    }
    g
}

proof fn lemma_kept_in_wired(t: Seq<TopicEntry>, topics: Seq<Topic>, id: Seq<char>)
    ensures
        forall|y: int| 0 <= y < wired(t, topics, id).len() ==> plan_ids(t).contains(#[trigger] wired(t, topics, id)[y]),
{
    match first_doc(topics, id) {
        Some(d) => {
            lemma_kept_in(texts(d.depends_on@), plan_ids(t));
        },
        None => {},
    }
}

} // verus!

verus! {

proof fn lemma_ins_node(s: Seq<NodeV>, x: NodeV)
    requires
        forall|i: int, j: int| 0 <= i < j < s.len() ==> s[i].layer <= s[j].layer,
    ensures
        ins_node(s, x).len() == s.len() + 1,
        forall|i: int, j: int|
            0 <= i < j < ins_node(s, x).len() ==> ins_node(s, x)[i].layer <= ins_node(s, x)[j].layer,
        forall|i: int|
            0 <= i < ins_node(s, x).len() ==> ins_node(s, x)[i].layer <= x.layer || exists|k: int|
                0 <= k < s.len() && s[k] == #[trigger] ins_node(s, x)[i],
    decreases s.len(),
{
    if s.len() > 0 && s.last().layer > x.layer {
        let d = s.drop_last();
        lemma_ins_node(d, x);
        let r = ins_node(d, x);
        assert forall|i: int, j: int| 0 <= i < j < ins_node(s, x).len() implies ins_node(s, x)[i].layer
            <= ins_node(s, x)[j].layer by {
            if j == ins_node(s, x).len() - 1 {
                assert(ins_node(s, x)[j] == s.last());
                assert(ins_node(s, x)[i] == r[i]);
                if r[i].layer > x.layer {
                    let k = choose|k: int| 0 <= k < d.len() && d[k] == #[trigger] r[i];
                    assert(d[k] == s[k]);
                }
            } else {
                assert(ins_node(s, x)[i] == r[i] && ins_node(s, x)[j] == r[j]);
            }
        }
        assert forall|i: int| 0 <= i < ins_node(s, x).len() implies ins_node(s, x)[i].layer <= x.layer
            || exists|k: int| 0 <= k < s.len() && s[k] == #[trigger] ins_node(s, x)[i] by {
            if i == ins_node(s, x).len() - 1 {
                assert(s[s.len() - 1] == ins_node(s, x)[i]);
            } else {
                assert(ins_node(s, x)[i] == r[i]);
                if r[i].layer > x.layer {
                    let k = choose|k: int| 0 <= k < d.len() && d[k] == #[trigger] r[i];
                    assert(s[k] == d[k]);
                }
            }
        }
    } else if s.len() > 0 {
        assert forall|i: int| 0 <= i < ins_node(s, x).len() implies ins_node(s, x)[i].layer <= x.layer
            || exists|k: int| 0 <= k < s.len() && s[k] == #[trigger] ins_node(s, x)[i] by {
            if i < s.len() {
                assert(s[i] == ins_node(s, x)[i]);
            }
        }
    }
}

/// The nodes of a graph come in order of their layers, none left out.
pub proof fn nodes_by_layer(s: Seq<NodeV>)
    ensures
        by_layer(s).len() == s.len(),
        forall|i: int, j: int| 0 <= i < j < s.len() ==> by_layer(s)[i].layer <= by_layer(s)[j].layer,
    decreases s.len(),
{
    if s.len() > 0 {
        nodes_by_layer(s.drop_last());
        lemma_ins_node(by_layer(s.drop_last()), s.last());
    }
}

/// What a topic unlocks is exactly the topics of the plan that depend on it.
pub proof fn unlocks_are_dependents(
    t: Seq<TopicEntry>,
    topics: Seq<Topic>,
    order: Seq<Seq<char>>,
    id: Seq<char>,
    other: Seq<char>,
)
    ensures
        unlocks_of(t, topics, order, id).contains(other) <==> (order.contains(other) && wired(
            t,
            topics,
            other,
        ).contains(id)),
    decreases order.len(),
{
    if order.len() > 0 {
        let d = order.drop_last();
        unlocks_are_dependents(t, topics, d, id, other);
        let u = unlocks_of(t, topics, order, id);
        let a = unlocks_of(t, topics, d, id);
        if a.contains(other) {
            let k = choose|k: int| 0 <= k < a.len() && a[k] == other;
            assert(u[k] == other);
        }
        if u.contains(other) {
            let k = choose|k: int| 0 <= k < u.len() && u[k] == other;
            if k >= a.len() {
                assert(other == order.last());
                assert(order[order.len() - 1] == other);
            } else {
                assert(a[k] == other);
            }
        }
        if order.contains(other) {
            let k = choose|k: int| 0 <= k < order.len() && order[k] == other;
            if k < order.len() - 1 {
                assert(d[k] == other);
            } else if wired(t, topics, other).contains(id) {
                assert(u[u.len() - 1] == other);
            }
        }
        if d.contains(other) {
            let k = choose|k: int| 0 <= k < d.len() && d[k] == other;
            assert(order[k] == other);
        }
    }
}

/// What blocks a topic is exactly what it depends on that is not done.
pub proof fn blocked_are_undone(deps: Seq<Seq<char>>, s: Seq<(String, Status)>, d: Seq<char>)
    ensures
        waiting_of(deps, s).contains(d) <==> (deps.contains(d) && !(status_in(s, d) matches Some(
            x,
        ) && x.done_of())),
    decreases deps.len(),
{
    if deps.len() > 0 {
        let p = deps.drop_last();
        blocked_are_undone(p, s, d);
        let w = waiting_of(deps, s);
        let a = waiting_of(p, s);
        if a.contains(d) {
            let k = choose|k: int| 0 <= k < a.len() && a[k] == d;
            assert(w[k] == d);
        }
        if w.contains(d) {
            let k = choose|k: int| 0 <= k < w.len() && w[k] == d;
            if k >= a.len() {
                assert(deps[deps.len() - 1] == d);
            } else {
                assert(a[k] == d);
            }
        }
        if deps.contains(d) {
            let k = choose|k: int| 0 <= k < deps.len() && deps[k] == d;
            if k < deps.len() - 1 {
                assert(p[k] == d);
            } else if !(status_in(s, d) matches Some(x) && x.done_of()) {
                assert(w[w.len() - 1] == d);
            }
        }
        if p.contains(d) {
            let k = choose|k: int| 0 <= k < p.len() && p[k] == d;
            assert(deps[k] == d);
        }
    }
}

} // verus!
