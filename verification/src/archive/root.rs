//! Which directory of an unpacked archive holds its bundle: the one shallowest
//! among those that hold a `roadmap.yaml`, if it is the only one that shallow.
use vstd::prelude::*;

use super::error::ArchiveError;
use super::guard::{comps, components};
use crate::text::texts;

verus! {

/// How deep a path is: the number of its components.
pub open spec fn depth_of(p: Seq<char>) -> nat {
    comps(p).len()
}

/// The least depth among the paths.
pub open spec fn least_depth(found: Seq<Seq<char>>) -> nat
    decreases found.len(),
{
    if found.len() == 0 {
        0
    } else if found.len() == 1 {
        depth_of(found[0])
    } else {
        let rest = least_depth(found.drop_last());
        let d = depth_of(found.last());
        if d < rest {
            d
        } else {
            rest
        }
    }
}

/// How many of the paths are `d` deep.
pub open spec fn at_depth(found: Seq<Seq<char>>, d: nat) -> nat
    decreases found.len(),
{
    if found.len() == 0 {
        0
    } else {
        at_depth(found.drop_last(), d) + if depth_of(found.last()) == d {
            1nat
        } else {
            0nat
        }
    }
}

/// The first of the paths that is `d` deep.
pub open spec fn first_at(found: Seq<Seq<char>>, d: nat) -> Seq<char>
    decreases found.len(),
{
    if found.len() == 0 {
        Seq::empty()
    } else if depth_of(found[0]) == d {
        found[0]
    } else {
        first_at(found.drop_first(), d)
    }
}

/// The root of the bundle among the directories that hold a `roadmap.yaml`.
pub open spec fn root_of(found: Seq<Seq<char>>) -> Result<Seq<char>, ArchiveError> {
    if found.len() == 0 {
        Err(ArchiveError::NoBundle)
    } else if at_depth(found, least_depth(found)) > 1 {
        Err(ArchiveError::ManyBundles)
    } else {
        Ok(first_at(found, least_depth(found)))
    }
}

/// The directory that holds the bundle, among those found to hold a `roadmap.yaml`.
pub fn root(found: &[String]) -> (r: Result<String, ArchiveError>)
    ensures
        match root_of(texts(found@)) {
            Ok(p) => r matches Ok(s) && s@ == p,
            Err(e) => r == Err::<String, ArchiveError>(e),
        },
{
    let ghost f = texts(found@);
    if found.len() == 0 {
        return Err(ArchiveError::NoBundle);
    }
    let mut depths: Vec<usize> = Vec::new();
    let mut i: usize = 0;
    while i < found.len()
        invariant
            i <= found@.len(),
            f == texts(found@),
            depths@.len() == i,
            forall|j: int| 0 <= j < i ==> depths@[j] == depth_of(f[j]),
        decreases found.len() - i,
    {
        let c = components(found[i].as_str());
        depths.push(c.len());
        i = i + 1;
    }
    let mut least = depths[0];
    let mut k: usize = 1;
    assert(f.take(1).len() == 1);
    while k < depths.len()
        invariant
            1 <= k <= depths@.len() == f.len(),
            forall|j: int| 0 <= j < depths@.len() ==> depths@[j] == depth_of(f[j]),
            least == least_depth(f.take(k as int)),
        decreases depths.len() - k,
    {
        assert(f.take(k + 1).drop_last() == f.take(k as int));
        assert(f.take(k + 1).last() == f[k as int]);
        if depths[k] < least {
            least = depths[k];
        }
        k = k + 1;
    }
    assert(f.take(k as int) == f);
    let mut count: usize = 0;
    let mut first: usize = 0;
    let mut j: usize = 0;
    while j < depths.len()
        invariant
            j <= depths@.len() == f.len(),
            f == texts(found@),
            forall|x: int| 0 <= x < depths@.len() ==> depths@[x] == depth_of(f[x]),
            count == at_depth(f.take(j as int), least as nat),
            count <= j,
            count == 0 ==> forall|x: int| 0 <= x < j ==> depth_of(f[x]) != least,
            count > 0 ==> first < j && depth_of(f[first as int]) == least && forall|x: int|
                0 <= x < first ==> depth_of(f[x]) != least,
        decreases depths.len() - j,
    {
        assert(f.take(j + 1).drop_last() == f.take(j as int));
        assert(f.take(j + 1).last() == f[j as int]);
        if depths[j] == least {
            if count == 0 {
                first = j;
            }
            count = count + 1;
        }
        j = j + 1;
    }
    assert(f.take(j as int) == f);
    if count > 1 {
        return Err(ArchiveError::ManyBundles);
    }
    proof {
        lemma_least_attained(f);
        lemma_first_at(f, least as nat, first as int);
    }
    Ok(found[first].clone())
}

proof fn lemma_least_attained(f: Seq<Seq<char>>)
    requires
        f.len() > 0,
    ensures
        exists|j: int| 0 <= j < f.len() && depth_of(f[j]) == least_depth(f),
    decreases f.len(),
{
    if f.len() > 1 {
        lemma_least_attained(f.drop_last());
        let j = choose|j: int|
            0 <= j < f.drop_last().len() && depth_of(f.drop_last()[j]) == least_depth(
                f.drop_last(),
            );
        assert(f[j] == f.drop_last()[j]);
        if depth_of(f.last()) < least_depth(f.drop_last()) {
            assert(depth_of(f[f.len() - 1]) == least_depth(f));
        }
    } else {
        assert(depth_of(f[0]) == least_depth(f));
    }
}

proof fn lemma_first_at(f: Seq<Seq<char>>, d: nat, first: int)
    requires
        0 <= first < f.len(),
        depth_of(f[first]) == d,
        forall|x: int| 0 <= x < first ==> depth_of(f[x]) != d,
    ensures
        first_at(f, d) == f[first],
    decreases first,
{
    if first > 0 {
        assert forall|x: int| 0 <= x < first - 1 implies depth_of(f.drop_first()[x]) != d by {
            assert(f.drop_first()[x] == f[x + 1]);
        }
        assert(f.drop_first()[first - 1] == f[first]);
        lemma_first_at(f.drop_first(), d, first - 1);
    }
}

} // verus!
