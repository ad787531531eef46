//! Which saved versions of a program to drop: beyond a depth, and while the
//! rest weighs more than a budget, the newest always kept.
use vstd::prelude::*;

use super::types::Kept;

verus! {

/// A version by its number and its size.
pub open spec fn pair_of(k: Kept) -> (u32, u64) {
    (k.n, k.bytes)
}

/// `x` put into the ordered `s` after every version numbered no higher.
pub open spec fn ins(s: Seq<(u32, u64)>, x: (u32, u64)) -> Seq<(u32, u64)>
    decreases s.len(),
{
    if s.len() == 0 {
        seq![x]
    } else if s.last().0 <= x.0 {
        s.push(x)
    } else {
        ins(s.drop_last(), x).push(s.last())
    }
}

/// The versions ordered by number, versions of one number in the order given.
pub open spec fn by_number(s: Seq<(u32, u64)>) -> Seq<(u32, u64)>
    decreases s.len(),
{
    if s.len() == 0 {
        Seq::empty()
    } else {
        ins(by_number(s.drop_last()), s.last())
    }
}

/// The total size of the versions.
pub open spec fn weight(s: Seq<(u32, u64)>) -> nat
    decreases s.len(),
{
    if s.len() == 0 {
        0
    } else {
        weight(s.drop_last()) + s.last().1 as nat
    }
}

/// The versions dropped, oldest first, while what is left weighs more than the
/// budget, stopping at one numbered as the newest.
pub open spec fn shed(rest: Seq<(u32, u64)>, left: nat, budget: nat, newest: u32) -> Seq<u32>
    decreases rest.len(),
{
    if rest.len() == 0 || left <= budget || rest[0].0 == newest {
        Seq::empty()
    } else {
        seq![rest[0].0] + shed(
            rest.drop_first(),
            if left >= rest[0].1 {
                (left - rest[0].1) as nat
            } else {
                0
            },
            budget,
            newest,
        )
    }
}

/// The numbers of the versions to drop: with no depth, all of them; else the
/// oldest beyond the depth, then more of the oldest while the rest is over the budget.
pub open spec fn prune_of(kept: Seq<Kept>, depth: u32, budget: u64) -> Seq<u32> {
    let o = by_number(kept.map_values(|k: Kept| pair_of(k)));
    if depth == 0 {
        o.map_values(|p: (u32, u64)| p.0)
    } else {
        let over: int = if o.len() > depth {
            o.len() - depth
        } else {
            0
        };
        let rest = o.skip(over);
        o.take(over).map_values(|p: (u32, u64)| p.0) + shed(
            rest,
            weight(rest),
            budget as nat,
            o.last().0,
        )
    }
}

proof fn lemma_ins_len(s: Seq<(u32, u64)>, x: (u32, u64))
    ensures
        ins(s, x).len() == s.len() + 1,
    decreases s.len(),
{
    if s.len() > 0 && s.last().0 > x.0 {
        lemma_ins_len(s.drop_last(), x);
    }
}

proof fn lemma_by_number_len(s: Seq<(u32, u64)>)
    ensures
        by_number(s).len() == s.len(),
    decreases s.len(),
{
    if s.len() > 0 {
        lemma_by_number_len(s.drop_last());
        lemma_ins_len(by_number(s.drop_last()), s.last());
    }
}

/// Inserting at `p`, behind every element numbered no higher.
proof fn lemma_ins_at(s: Seq<(u32, u64)>, x: (u32, u64), p: int)
    requires
        0 <= p <= s.len(),
        p == 0 || s[p - 1].0 <= x.0,
        forall|j: int| p <= j < s.len() ==> (#[trigger] s[j]).0 > x.0,
    ensures
        ins(s, x) == s.take(p) + seq![x] + s.skip(p),
    decreases s.len(),
{
    if s.len() == 0 {
        assert(s.take(p) + seq![x] + s.skip(p) =~= seq![x]);
    } else if p == s.len() {
        assert(s.take(p) + seq![x] + s.skip(p) =~= s.push(x));
    } else {
        assert(s.last().0 > x.0);
        lemma_ins_at(s.drop_last(), x, p);
        assert(s.drop_last().take(p) + seq![x] + s.drop_last().skip(p) + seq![s.last()] =~= s.take(
            p,
        ) + seq![x] + s.skip(p));
    }
}

fn insert(s: &mut Vec<(u32, u64)>, x: (u32, u64))
    ensures
        final(s)@ == ins(old(s)@, x),
{
    let mut p = s.len();
    while p > 0 && s[p - 1].0 > x.0
        invariant
            p <= s@.len(),
            forall|j: int| p <= j < s@.len() ==> (#[trigger] s@[j]).0 > x.0,
        decreases p,
    {
        p = p - 1;
    }
    proof {
        lemma_ins_at(s@, x, p as int);
    }
    s.insert(p, x);
    assert(s@ =~= old(s)@.take(p as int) + seq![x] + old(s)@.skip(p as int));
}

/// The numbers of the saved versions to drop.
pub fn prune(kept: &[Kept], depth: u32, budget: u64) -> (r: Vec<u32>)
    requires
        weight(kept@.map_values(|k: Kept| pair_of(k))) <= u64::MAX,
    ensures
        r@ == prune_of(kept@, depth, budget),
{
    let ghost pairs = kept@.map_values(|k: Kept| pair_of(k));
    let mut order: Vec<(u32, u64)> = Vec::new();
    let mut i: usize = 0;
    while i < kept.len()
        invariant
            i <= kept@.len(),
            pairs == kept@.map_values(|k: Kept| pair_of(k)),
            order@ == by_number(pairs.take(i as int)),
        decreases kept.len() - i,
    {
        assert(pairs.take(i + 1).drop_last() == pairs.take(i as int));
        assert(pairs.take(i + 1).last() == pair_of(kept@[i as int]));
        insert(&mut order, (kept[i].n, kept[i].bytes));
        i = i + 1;
    }
    assert(pairs.take(i as int) == pairs);
    proof {
        lemma_by_number_len(pairs);
    }
    let ghost o = order@;
    let mut dropped: Vec<u32> = Vec::new();
    if depth == 0 {
        let mut j: usize = 0;
        while j < order.len()
            invariant
                j <= o.len(),
                o == order@,
                dropped@ == o.take(j as int).map_values(|p: (u32, u64)| p.0),
            decreases order.len() - j,
        {
            dropped.push(order[j].0);
            j = j + 1;
            assert(dropped@ =~= o.take(j as int).map_values(|p: (u32, u64)| p.0));
        }
        assert(o.take(j as int) == o);
        return dropped;
    }
    let over: usize = if order.len() > depth as usize {
        order.len() - depth as usize
    } else {
        0
    };
    let mut j: usize = 0;
    while j < over
        invariant
            j <= over <= o.len(),
            o == order@,
            dropped@ == o.take(j as int).map_values(|p: (u32, u64)| p.0),
        decreases over - j,
    {
        dropped.push(order[j].0);
        j = j + 1;
        assert(dropped@ =~= o.take(j as int).map_values(|p: (u32, u64)| p.0));
    }
    let ghost rest = o.skip(over as int);
    proof {
        lemma_weight_perm(pairs);
        lemma_weight_split(o, over as int);
    }
    let mut left: u64 = 0;
    let mut k = over;
    while k < order.len()
        invariant
            over <= k <= o.len(),
            o == order@,
            rest == o.skip(over as int),
            left == weight(o.subrange(over as int, k as int)),
            weight(rest) <= u64::MAX,
        decreases order.len() - k,
    {
        proof {
            assert(o.subrange(over as int, k + 1).drop_last() == o.subrange(over as int, k as int));
            lemma_weight_prefix(rest, k - over + 1);
            assert(rest.take(k - over + 1) == o.subrange(over as int, k + 1));
        }
        left = left + order[k].1;
        k = k + 1;
    }
    assert(o.subrange(over as int, o.len() as int) == rest);
    if order.len() == 0 {
        assert(rest.len() == 0);
        assert(dropped@ =~= prune_of(kept@, depth, budget));
        return dropped;
    }
    let newest = order[order.len() - 1].0;
    let ghost prefix = dropped@;
    let mut k = over;
    while k < order.len()
        invariant
            over <= k <= o.len(),
            o == order@,
            o.len() > 0,
            newest == o.last().0,
            rest == o.skip(over as int),
            prefix + shed(rest, weight(rest), budget as nat, newest) == dropped@ + shed(
                o.skip(k as int),
                left as nat,
                budget as nat,
                newest,
            ),
        ensures
            k >= o.len() || left <= budget || o[k as int].0 == newest,
        decreases order.len() - k,
    {
        let (n, bytes) = order[k];
        assert(o.skip(k as int)[0] == o[k as int]);
        if left <= budget || n == newest {
            break;
        }
        let next = if left >= bytes {
            left - bytes
        } else {
            0
        };
        assert(o.skip(k as int).drop_first() == o.skip(k + 1));
        dropped.push(n);
        left = next;
        k = k + 1;
    }
    proof {
        let s = o.skip(k as int);
        assert(shed(s, left as nat, budget as nat, newest) == Seq::<u32>::empty());
    }
    assert(dropped@ =~= prefix + shed(rest, weight(rest), budget as nat, newest));
    dropped
}

proof fn lemma_weight_prefix(s: Seq<(u32, u64)>, k: int)
    requires
        0 <= k <= s.len(),
    ensures
        weight(s.take(k)) <= weight(s),
    decreases s.len(),
{
    if k < s.len() {
        assert(s.drop_last().take(k) == s.take(k));
        lemma_weight_prefix(s.drop_last(), k);
    } else {
        assert(s.take(k) == s);
    }
}

proof fn lemma_weight_split(s: Seq<(u32, u64)>, k: int)
    requires
        0 <= k <= s.len(),
    ensures
        weight(s) == weight(s.take(k)) + weight(s.skip(k)),
    decreases s.len(),
{
    if k == s.len() {
        assert(s.take(k) == s);
        assert(s.skip(k) =~= Seq::<(u32, u64)>::empty());
    } else {
        lemma_weight_split(s.drop_last(), k);
        assert(s.drop_last().take(k) == s.take(k));
        assert(s.skip(k).drop_last() =~= s.drop_last().skip(k));
        assert(s.skip(k).last() == s.last());
    }
}

proof fn lemma_weight_ins(s: Seq<(u32, u64)>, x: (u32, u64))
    ensures
        weight(ins(s, x)) == weight(s) + x.1,
    decreases s.len(),
{
    let t = ins(s, x);
    if s.len() == 0 {
        assert(t == seq![x]);
        assert(t.drop_last() =~= Seq::<(u32, u64)>::empty());
        assert(weight(t) == weight(t.drop_last()) + t.last().1 as nat);
    } else if s.last().0 > x.0 {
        lemma_weight_ins(s.drop_last(), x);
        assert(t == ins(s.drop_last(), x).push(s.last()));
        assert(t.drop_last() == ins(s.drop_last(), x));
        assert(t.last() == s.last());
        assert(weight(t) == weight(t.drop_last()) + t.last().1 as nat);
    } else {
        assert(t == s.push(x));
        assert(t.drop_last() == s);
        assert(weight(t) == weight(t.drop_last()) + t.last().1 as nat);
    }
}

proof fn lemma_weight_perm(s: Seq<(u32, u64)>)
    ensures
        weight(by_number(s)) == weight(s),
    decreases s.len(),
{
    if s.len() > 0 {
        lemma_weight_perm(s.drop_last());
        lemma_weight_ins(by_number(s.drop_last()), s.last());
    }
}

} // verus!

verus! {

proof fn lemma_shed_short(rest: Seq<(u32, u64)>, left: nat, budget: nat, newest: u32)
    requires
        rest.len() > 0,
        rest.last().0 == newest,
    ensures
        shed(rest, left, budget, newest).len() < rest.len(),
    decreases rest.len(),
{
    if !(left <= budget || rest[0].0 == newest) {
        if rest.len() == 1 {
            assert(rest[0] == rest.last());
        } else {
            assert(rest.drop_first().last() == rest.last());
            lemma_shed_short(
                rest.drop_first(),
                if left >= rest[0].1 {
                    (left - rest[0].1) as nat
                } else {
                    0
                },
                budget,
                newest,
            );
        }
    }
}

/// With a depth, pruning drops at least the versions beyond it and always
/// keeps one; with none, it drops them all.
pub proof fn pruning_respects_the_depth(kept: Seq<Kept>, depth: u32, budget: u64)
    ensures
        depth > 0 && kept.len() > depth ==> prune_of(kept, depth, budget).len() >= kept.len() - depth,
        depth > 0 && kept.len() > 0 ==> prune_of(kept, depth, budget).len() < kept.len(),
        depth == 0 ==> prune_of(kept, depth, budget).len() == kept.len(),
{
    let pairs = kept.map_values(|k: Kept| pair_of(k));
    lemma_by_number_len(pairs);
    let o = by_number(pairs);
    if depth > 0 && kept.len() > 0 {
        let over: int = if o.len() > depth {
            o.len() - depth
        } else {
            0
        };
        let rest = o.skip(over);
        assert(rest.last() == o.last());
        lemma_shed_short(rest, weight(rest), budget as nat, o.last().0);
    }
}

/// How many versions carry the number `v`.
pub open spec fn count_n(s: Seq<(u32, u64)>, v: u32) -> nat
    decreases s.len(),
{
    if s.len() == 0 {
        0
    } else {
        count_n(s.drop_last(), v) + if s.last().0 == v {
            1nat
        } else {
            0nat
        }
    }
}

/// The versions are in order of their numbers.
pub open spec fn sorted_n(s: Seq<(u32, u64)>) -> bool {
    forall|a: int, b: int| 0 <= a <= b < s.len() ==> (#[trigger] s[a]).0 <= (#[trigger] s[b]).0
}

proof fn lemma_count_ins(s: Seq<(u32, u64)>, x: (u32, u64), v: u32)
    ensures
        count_n(ins(s, x), v) == count_n(s, v) + if x.0 == v {
            1nat
        } else {
            0nat
        },
    decreases s.len(),
{
    lemma_ins_len(s, x);
    if s.len() > 0 && s.last().0 > x.0 {
        lemma_count_ins(s.drop_last(), x, v);
        let u = ins(s.drop_last(), x);
        assert(ins(s, x) == u.push(s.last()));
        assert(u.push(s.last()).drop_last() == u);
        assert(u.push(s.last()).last() == s.last());
        assert(count_n(u.push(s.last()), v) == count_n(u, v) + if s.last().0 == v {
            1nat
        } else {
            0nat
        });
        assert(count_n(s, v) == count_n(s.drop_last(), v) + if s.last().0 == v {
            1nat
        } else {
            0nat
        });
    } else if s.len() > 0 {
        assert(ins(s, x) == s.push(x));
        assert(s.push(x).drop_last() == s);
        assert(s.push(x).last() == x);
        assert(count_n(s.push(x), v) == count_n(s, v) + if x.0 == v {
            1nat
        } else {
            0nat
        });
    } else {
        assert(ins(s, x) == seq![x]);
        assert(seq![x].drop_last() =~= Seq::<(u32, u64)>::empty());
        assert(seq![x].last() == x);
        assert(count_n(seq![x], v) == count_n(Seq::<(u32, u64)>::empty(), v) + if x.0 == v {
            1nat
        } else {
            0nat
        });
    }
}

proof fn lemma_count_by(s: Seq<(u32, u64)>, v: u32)
    ensures
        count_n(by_number(s), v) == count_n(s, v),
    decreases s.len(),
{
    if s.len() > 0 {
        lemma_count_by(s.drop_last(), v);
        lemma_count_ins(by_number(s.drop_last()), s.last(), v);
    }
}

/// Each place that carries `v` adds to the count of `v`.
proof fn lemma_count_places(s: Seq<(u32, u64)>, v: u32, a: int, b: int)
    requires
        0 <= a < s.len(),
        0 <= b < s.len(),
        s[a].0 == v,
        s[b].0 == v,
    ensures
        count_n(s, v) >= 1,
        a != b ==> count_n(s, v) >= 2,
    decreases s.len(),
{
    let t = s.drop_last();
    let last = s.len() - 1;
    if a < last && b < last {
        lemma_count_places(t, v, a, b);
        assert(t[a] == s[a] && t[b] == s[b]);
    } else if a < last {
        lemma_count_places(t, v, a, a);
        assert(t[a] == s[a]);
    } else if b < last {
        lemma_count_places(t, v, b, b);
        assert(t[b] == s[b]);
    }
}

/// A number that is counted is carried at some place.
proof fn lemma_count_place(s: Seq<(u32, u64)>, v: u32)
    requires
        count_n(s, v) >= 1,
    ensures
        exists|j: int| 0 <= j < s.len() && (#[trigger] s[j]).0 == v,
    decreases s.len(),
{
    if s.last().0 != v {
        lemma_count_place(s.drop_last(), v);
        let j = choose|j: int| 0 <= j < s.drop_last().len() && (#[trigger] s.drop_last()[j]).0 == v;
        assert(s[j] == s.drop_last()[j]);
    } else {
        assert(s[s.len() - 1].0 == v);
    }
}

/// Where all numbers differ, each is carried once at most.
proof fn lemma_count_once(s: Seq<(u32, u64)>, v: u32)
    requires
        forall|a: int, b: int| 0 <= a < b < s.len() ==> (#[trigger] s[a]).0 != (#[trigger] s[b]).0,
    ensures
        count_n(s, v) <= 1,
    decreases s.len(),
{
    if s.len() > 0 {
        let t = s.drop_last();
        assert forall|a: int, b: int| 0 <= a < b < t.len() implies (#[trigger] t[a]).0 != (#[trigger] t[b]).0 by {
            assert(t[a] == s[a] && t[b] == s[b]);
        }
        lemma_count_once(t, v);
        if s.last().0 == v && count_n(t, v) >= 1 {
            lemma_count_place(t, v);
            let j = choose|j: int| 0 <= j < t.len() && (#[trigger] t[j]).0 == v;
            assert(s[j] == t[j]);
            assert(s[s.len() - 1].0 == v);
        }
    }
}

/// What inserting gives holds only the inserted version and those it had.
proof fn lemma_ins_from(s: Seq<(u32, u64)>, x: (u32, u64), j: int)
    requires
        0 <= j < ins(s, x).len(),
    ensures
        ins(s, x)[j] == x || exists|k: int| 0 <= k < s.len() && s[k] == #[trigger] ins(s, x)[j],
    decreases s.len(),
{
    lemma_ins_len(s, x);
    if s.len() > 0 && s.last().0 > x.0 {
        if j < s.len() {
            lemma_ins_from(s.drop_last(), x, j);
            assert(ins(s, x)[j] == ins(s.drop_last(), x)[j]);
            if ins(s, x)[j] != x {
                let k = choose|k: int| 0 <= k < s.drop_last().len() && s.drop_last()[k] == #[trigger] ins(
                    s.drop_last(),
                    x,
                )[j];
                assert(s[k] == s.drop_last()[k]);
            }
        } else {
            assert(ins(s, x)[j] == s[s.len() - 1]);
        }
    } else if s.len() > 0 {
        if j < s.len() {
            assert(ins(s, x)[j] == s[j]);
        }
    }
}

proof fn lemma_ins_sorted(s: Seq<(u32, u64)>, x: (u32, u64))
    requires
        sorted_n(s),
    ensures
        sorted_n(ins(s, x)),
    decreases s.len(),
{
    lemma_ins_len(s, x);
    if s.len() > 0 && s.last().0 > x.0 {
        let t = s.drop_last();
        assert(sorted_n(t)) by {
            assert forall|a: int, b: int| 0 <= a <= b < t.len() implies (#[trigger] t[a]).0 <= (#[trigger] t[b]).0 by {
                assert(t[a] == s[a] && t[b] == s[b]);
            }
        }
        lemma_ins_sorted(t, x);
        let u = ins(t, x);
        let r = ins(s, x);
        assert(r == u.push(s.last()));
        assert forall|a: int, b: int| 0 <= a <= b < r.len() implies (#[trigger] r[a]).0 <= (#[trigger] r[b]).0 by {
            if b == r.len() - 1 {
                assert(r[b] == s.last());
                if a < r.len() - 1 {
                    assert(r[a] == u[a]);
                    lemma_ins_from(t, x, a);
                    if u[a] != x {
                        let k = choose|k: int| 0 <= k < t.len() && t[k] == #[trigger] u[a];
                        assert(s[k] == t[k]);
                        assert(s[k].0 <= s[s.len() - 1].0);
                    }
                }
            } else {
                assert(r[a] == u[a] && r[b] == u[b]);
            }
        }
    } else if s.len() > 0 {
        let r = s.push(x);
        assert forall|a: int, b: int| 0 <= a <= b < r.len() implies (#[trigger] r[a]).0 <= (#[trigger] r[b]).0 by {
            if b < s.len() {
                assert(r[a] == s[a] && r[b] == s[b]);
            } else if a < s.len() {
                assert(r[a] == s[a]);
                assert(s[a].0 <= s[s.len() - 1].0);
            }
        }
    }
}

proof fn lemma_by_number_sorted(s: Seq<(u32, u64)>)
    ensures
        sorted_n(by_number(s)),
    decreases s.len(),
{
    if s.len() > 0 {
        lemma_by_number_sorted(s.drop_last());
        lemma_ins_sorted(by_number(s.drop_last()), s.last());
    }
}

/// The dropping by budget never drops the newest.
proof fn lemma_shed_spares(rest: Seq<(u32, u64)>, left: nat, budget: nat, newest: u32)
    ensures
        !shed(rest, left, budget, newest).contains(newest),
    decreases rest.len(),
{
    if !(rest.len() == 0 || left <= budget || rest[0].0 == newest) {
        let next = if left >= rest[0].1 {
            (left - rest[0].1) as nat
        } else {
            0
        };
        lemma_shed_spares(rest.drop_first(), next, budget, newest);
        let d = shed(rest, left, budget, newest);
        if d.contains(newest) {
            let j = choose|j: int| 0 <= j < d.len() && d[j] == newest;
            if j > 0 {
                assert(shed(rest.drop_first(), next, budget, newest)[j - 1] == newest);
            }
        }
    }
}

/// With a depth, and versions whose numbers all differ, pruning never drops
/// the newest version.
pub proof fn the_newest_is_never_dropped(kept: Seq<Kept>, depth: u32, budget: u64, i: int)
    requires
        depth > 0,
        0 <= i < kept.len(),
        forall|j: int| 0 <= j < kept.len() ==> (#[trigger] kept[j]).n <= kept[i].n,
        forall|a: int, b: int| 0 <= a < b < kept.len() ==> (#[trigger] kept[a]).n != (#[trigger] kept[b]).n,
    ensures
        !prune_of(kept, depth, budget).contains(kept[i].n),
{
    let m = kept[i].n;
    let pairs = kept.map_values(|k: Kept| pair_of(k));
    lemma_by_number_len(pairs);
    lemma_by_number_sorted(pairs);
    let o = by_number(pairs);
    let last = o.len() - 1;
    assert forall|a: int, b: int| 0 <= a < b < pairs.len() implies (#[trigger] pairs[a]).0 != (#[trigger] pairs[b]).0 by {
        assert(pairs[a].0 == kept[a].n && pairs[b].0 == kept[b].n);
    }
    lemma_count_once(pairs, m);
    lemma_count_by(pairs, m);
    assert(pairs[i].0 == m);
    lemma_count_places(pairs, m, i, i);
    lemma_count_place(o, m);
    let at = choose|j: int| 0 <= j < o.len() && (#[trigger] o[j]).0 == m;
    let top = o[last].0;
    lemma_count_by(pairs, top);
    lemma_count_places(o, top, last, last);
    lemma_count_place(pairs, top);
    let from = choose|j: int| 0 <= j < pairs.len() && (#[trigger] pairs[j]).0 == top;
    assert(pairs[from].0 == kept[from].n);
    assert(o[at].0 <= o[last].0);
    assert(top == m);
    let over: int = if o.len() > depth {
        o.len() - depth
    } else {
        0
    };
    let rest = o.skip(over);
    assert(rest.last() == o.last());
    lemma_shed_spares(rest, weight(rest), budget as nat, m);
    let head = o.take(over).map_values(|p: (u32, u64)| p.0);
    if head.contains(m) {
        let j = choose|j: int| 0 <= j < head.len() && head[j] == m;
        assert(o[j].0 == m);
        lemma_count_places(o, m, j, last);
    }
    let d = prune_of(kept, depth, budget);
    assert(d == head + shed(rest, weight(rest), budget as nat, o.last().0));
    if d.contains(m) {
        let j = choose|j: int| 0 <= j < d.len() && d[j] == m;
        if j < head.len() {
            assert(head[j] == m);
        } else {
            assert(shed(rest, weight(rest), budget as nat, o.last().0)[j - head.len()] == m);
        }
    }
}

} // verus!

verus! {

/// The saved versions, each by its number and its size, ordered by number.
pub open spec fn ordered(kept: Seq<Kept>) -> Seq<(u32, u64)> {
    by_number(kept.map_values(|k: Kept| pair_of(k)))
}

/// How many of `len` versions lie beyond the depth.
pub open spec fn beyond(len: nat, depth: u32) -> int {
    if len > depth {
        len - depth
    } else {
        0
    }
}

/// The numbers of the versions, in their order.
pub open spec fn numbers(s: Seq<(u32, u64)>) -> Seq<u32> {
    s.map_values(|p: (u32, u64)| p.0)
}

/// The versions of `o` from `from` up to `c` are dropped one after the other
/// for the budget: before each, the versions from it on weigh more than the
/// budget and it is not numbered as the newest; after them, the rest weighs
/// no more than the budget, or starts at one numbered as the newest, or is
/// empty.
pub open spec fn oldest_run(o: Seq<(u32, u64)>, from: int, c: int, budget: nat) -> bool {
    &&& 0 <= from <= c <= o.len()
    &&& forall|j: int| from <= j < c ==> weight(#[trigger] o.skip(j)) > budget && o[j].0 != o.last().0
    &&& c < o.len() ==> weight(o.skip(c)) <= budget || o[c].0 == o.last().0
}

/// While what is left of `s` weighs `weight(s)`, the budget's dropping takes
/// the oldest of `s` one by one, each weighed off what is left.
proof fn lemma_shed_run(s: Seq<(u32, u64)>, budget: nat, newest: u32) -> (c: int)
    requires
        s.len() > 0 ==> s.last().0 == newest,
    ensures
        oldest_run(s, 0, c, budget),
        shed(s, weight(s), budget, newest) == s.take(c).map_values(|p: (u32, u64)| p.0),
    decreases s.len(),
{
    if s.len() == 0 || weight(s) <= budget || s[0].0 == newest {
        assert(s.skip(0) =~= s);
        assert(s.take(0).map_values(|p: (u32, u64)| p.0) =~= Seq::<u32>::empty());
        0
    } else {
        let t = s.drop_first();
        lemma_weight_split(s, 1);
        assert(s.skip(1) =~= t);
        assert(s.take(1).drop_last() =~= Seq::<(u32, u64)>::empty());
        assert(weight(Seq::<(u32, u64)>::empty()) == 0);
        assert(s.take(1).last() == s[0]);
        assert(weight(s.take(1)) == s[0].1 as nat);
        assert((weight(s) - s[0].1) as nat == weight(t));
        if t.len() > 0 {
            assert(t.last() == s.last());
        }
        let c0 = lemma_shed_run(t, budget, newest);
        let c = c0 + 1;
        assert forall|i: int| 0 <= i < c implies #[trigger] s.take(c)[i] == (seq![s[0]] + t.take(c0))[i] by {
            if i > 0 {
                assert(s[i] == t[i - 1]);
            }
        }
        assert(s.take(c) =~= seq![s[0]] + t.take(c0));
        assert(s.take(c).map_values(|p: (u32, u64)| p.0) =~= seq![s[0].0] + t.take(c0).map_values(
            |p: (u32, u64)| p.0,
        ));
        assert forall|j: int| 0 <= j < c implies weight(#[trigger] s.skip(j)) > budget && s[j].0 != s.last().0 by {
            if j == 0 {
                assert(s.skip(0) =~= s);
            } else {
                assert(s.skip(j) =~= t.skip(j - 1));
                assert(s[j] == t[j - 1]);
                assert(weight(t.skip(j - 1)) > budget && t[j - 1].0 != t.last().0);
            }
        }
        if c < s.len() {
            assert(s.skip(c) =~= t.skip(c0));
            assert(s[c] == t[c0]);
        }
        c
    }
}

/// With a depth, pruning drops the versions beyond the depth, oldest first,
/// and then the shortest run of the oldest that are left after which the rest
/// weighs no more than the budget, never the newest: before each version it
/// drops for the budget, the versions from it on weigh more than the budget,
/// and after the last it drops, the rest fits or starts at the newest.
pub proof fn pruning_drops_the_oldest_until_the_rest_fits(kept: Seq<Kept>, depth: u32, budget: u64)
    requires
        depth > 0,
    ensures
        exists|c: int|
            #[trigger] oldest_run(ordered(kept), beyond(ordered(kept).len(), depth), c, budget as nat) && prune_of(
                kept,
                depth,
                budget,
            ) == numbers(ordered(kept).take(c)),
{
    let o = ordered(kept);
    assert(kept.map_values(|k: Kept| pair_of(k)) =~= kept.map_values(|k: Kept| pair_of(k)));
    let over: int = beyond(o.len(), depth);
    let rest = o.skip(over);
    let newest = o.last().0;
    if rest.len() > 0 {
        assert(rest.last() == o.last());
    }
    let c0 = lemma_shed_run(rest, budget as nat, newest);
    let c = over + c0;
    assert(o.take(c) =~= o.take(over) + rest.take(c0));
    assert(o.take(c).map_values(|p: (u32, u64)| p.0) =~= o.take(over).map_values(|p: (u32, u64)| p.0)
        + rest.take(c0).map_values(|p: (u32, u64)| p.0));
    assert forall|j: int| over <= j < c implies weight(#[trigger] o.skip(j)) > budget && o[j].0 != o.last().0 by {
        assert(o.skip(j) =~= rest.skip(j - over));
        assert(o[j] == rest[j - over]);
        if rest.len() > 0 {
            assert(rest.last() == o.last());
        }
        assert(weight(rest.skip(j - over)) > budget && rest[j - over].0 != rest.last().0);
    }
    if c < o.len() {
        assert(o.skip(c) =~= rest.skip(c0));
        assert(o[c] == rest[c0]);
        assert(rest.last() == o.last());
    }
    assert(oldest_run(o, over, c, budget as nat));
    assert(prune_of(kept, depth, budget) =~= numbers(o.take(c)));
}

} // verus!
