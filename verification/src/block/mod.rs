//! The blocks of a stage: their kinds, and the short ids that name them.
pub mod types;
pub mod write;

pub use types::{Block, Kind};

use vstd::prelude::*;

use sha2::{Digest, Sha256};
use vstd::string::StringSliceAdditionalSpecFns;

use crate::text::{decimal, decimal_of, put, put_str, string_of, texts};

verus! {

/// How many hexadecimal digits an id of a block has.
pub const PREFIX: usize = 8;

/// What `sha2::Sha256::digest` gives for some bytes.
pub uninterp spec fn sha256_of(bytes: Seq<u8>) -> Seq<u8>;

/// `sha2::Sha256::digest`: the SHA-256 digest of `bytes`, which is 32 bytes long.
#[verifier::external_body]
fn sha256(bytes: &[u8]) -> (d: Vec<u8>)
    ensures
        d@ == sha256_of(bytes@),
        d@.len() == 32,
{
    Sha256::digest(bytes).to_vec()
}

/// The lower-case hexadecimal digit of `d`.
pub open spec fn low_hex(d: nat) -> char {
    seq!['0', '1', '2', '3', '4', '5', '6', '7', '8', '9', 'a', 'b', 'c', 'd', 'e', 'f'][d as int]
}

/// Bytes in lower-case hexadecimal, two digits each.
pub open spec fn hex_of(b: Seq<u8>) -> Seq<char>
    decreases b.len(),
{
    if b.len() == 0 {
        Seq::<char>::empty()
    } else {
        hex_of(b.drop_last()) + seq![low_hex((b.last() / 16) as nat), low_hex((b.last() % 16) as nat)]
    }
}

/// The first bytes of a digest that an id is made of: as many as there are, up to four.
pub open spec fn prefix_of(digest: Seq<u8>) -> Seq<u8> {
    if digest.len() < (PREFIX / 2) as nat {
        digest
    } else {
        digest.take((PREFIX / 2) as int)
    }
}

/// The id of a text: the first bytes of its SHA-256 digest in hexadecimal.
pub open spec fn id_of(text: Seq<u8>) -> Seq<char> {
    hex_of(prefix_of(sha256_of(text)))
}

fn low_digit(d: u8) -> (c: char)
    requires
        d < 16,
    ensures
        c == low_hex(d as nat),
{
    match d {
        0 => '0',
        1 => '1',
        2 => '2',
        3 => '3',
        4 => '4',
        5 => '5',
        6 => '6',
        7 => '7',
        8 => '8',
        9 => '9',
        10 => 'a',
        11 => 'b',
        12 => 'c',
        13 => 'd',
        14 => 'e',
        _ => 'f',
    }
}

/// An id from a digest: its first bytes, up to four, in hexadecimal.
pub fn hex_prefix(digest: &[u8]) -> (r: String)
    ensures
        r@ == hex_of(prefix_of(digest@)),
{
    let n = if digest.len() < PREFIX / 2 {
        digest.len()
    } else {
        PREFIX / 2
    };
    let mut out: Vec<char> = Vec::new();
    let mut i: usize = 0;
    while i < n
        invariant
            i <= n <= digest@.len(),
            n == prefix_of(digest@).len(),
            out@ == hex_of(digest@.take(i as int)),
        decreases n - i,
    {
        assert(digest@.take(i + 1).drop_last() == digest@.take(i as int));
        let b = digest[i];
        out.push(low_digit(b / 16));
        out.push(low_digit(b % 16));
        i = i + 1;
    }
    assert(digest@.take(n as int) == prefix_of(digest@));
    string_of(out.as_slice())
}

/// The id of a block's text.
pub fn id(text: &str) -> (r: String)
    ensures
        r@ == id_of(text.spec_bytes()),
{
    let digest = sha256(text.as_bytes());
    hex_prefix(digest.as_slice())
}

/// How many times `x` occurs in `s`.
pub open spec fn occurrences(s: Seq<Seq<char>>, x: Seq<char>) -> nat
    decreases s.len(),
{
    if s.len() == 0 {
        0
    } else {
        occurrences(s.drop_last(), x) + if s.last() == x {
            1nat
        } else {
            0nat
        }
    }
}

/// The ids made distinct: the second of two equal ids gets `-2`, the third `-3`, and so on.
pub open spec fn suffixed_of(bases: Seq<Seq<char>>) -> Seq<Seq<char>> {
    Seq::new(
        bases.len(),
        |i: int|
            {
                let c = occurrences(bases.take(i + 1), bases[i]);
                if c == 1 {
                    bases[i]
                } else {
                    bases[i] + seq!['-'] + decimal(c)
                }
            },
    )
}

proof fn lemma_occurrences_le(s: Seq<Seq<char>>, x: Seq<char>)
    ensures
        occurrences(s, x) <= s.len(),
    decreases s.len(),
{
    if s.len() > 0 {
        lemma_occurrences_le(s.drop_last(), x);
    }
}

/// Ids made distinct by a suffix that counts the ones before.
pub fn suffixed(bases: &[String]) -> (r: Vec<String>)
    ensures
        texts(r@) == suffixed_of(texts(bases@)),
{
    let ghost bs = texts(bases@);
    let mut counts: Vec<(String, usize)> = Vec::new();
    let mut out: Vec<String> = Vec::new();
    let mut i: usize = 0;
    while i < bases.len()
        invariant
            i <= bases@.len(),
            bs == texts(bases@),
            texts(out@) == suffixed_of(bs).take(i as int),
            forall|k: int|
                0 <= k < counts@.len() ==> (#[trigger] counts@[k]).1 == occurrences(
                    bs.take(i as int),
                    counts@[k].0@,
                ),
            forall|x: Seq<char>|
                occurrences(bs.take(i as int), x) > 0 ==> exists|k: int|
                    0 <= k < counts@.len() && (#[trigger] counts@[k]).0@ == x,
            forall|k1: int, k2: int|
                0 <= k1 < counts@.len() && 0 <= k2 < counts@.len() && k1 != k2 ==> (
                #[trigger] counts@[k1]).0@ != (#[trigger] counts@[k2]).0@,
        decreases bases.len() - i,
    {
        let base = &bases[i];
        let ghost now = bs.take(i + 1);
        assert(now.drop_last() == bs.take(i as int));
        assert(now.last() == base@);
        let mut k: usize = 0;
        while k < counts.len() && counts[k].0 != *base
            invariant
                k <= counts@.len(),
                forall|j: int| 0 <= j < k ==> (#[trigger] counts@[j]).0@ != base@,
            decreases counts.len() - k,
        {
            k = k + 1;
        }
        let c: usize;
        if k < counts.len() {
            proof {
                lemma_occurrences_le(bs.take(i as int), base@);
            }
            c = counts[k].1 + 1;
            let ghost old_counts = counts@;
            counts.set(k, (base.clone(), c));
            proof {
                assert forall|j: int| 0 <= j < counts@.len() implies (#[trigger] counts@[j]).1
                    == occurrences(now, counts@[j].0@) by {
                    if j != k {
                        assert(counts@[j] == old_counts[j]);
                        assert(old_counts[j].0@ != base@);
                    }
                }
                assert forall|x: Seq<char>| occurrences(now, x) > 0 implies exists|j: int|
                    0 <= j < counts@.len() && (#[trigger] counts@[j]).0@ == x by {
                    if x == base@ {
                        assert(counts@[k as int].0@ == x);
                    } else {
                        assert(occurrences(bs.take(i as int), x) > 0);
                        let j = choose|j: int|
                            0 <= j < old_counts.len() && (#[trigger] old_counts[j]).0@ == x;
                        assert(old_counts[k as int].0@ == base@);
                        assert(j != k);
                        assert(counts@[j] == old_counts[j]);
                    }
                }
                assert forall|k1: int, k2: int|
                    0 <= k1 < counts@.len() && 0 <= k2 < counts@.len() && k1 != k2 implies (
                    #[trigger] counts@[k1]).0@ != (#[trigger] counts@[k2]).0@ by {
                    if k1 != k && k2 != k {
                        assert(counts@[k1] == old_counts[k1]);
                        assert(counts@[k2] == old_counts[k2]);
                    } else if k1 == k {
                        assert(counts@[k2] == old_counts[k2]);
                        assert(old_counts[k2].0@ != old_counts[k as int].0@);
                    } else {
                        assert(counts@[k1] == old_counts[k1]);
                        assert(old_counts[k1].0@ != old_counts[k as int].0@);
                    }
                }
            }
        } else {
            c = 1;
            proof {
                if occurrences(bs.take(i as int), base@) > 0 {
                    let j = choose|j: int|
                        0 <= j < counts@.len() && (#[trigger] counts@[j]).0@ == base@;
                    assert(false);
                }
            }
            let ghost old_counts = counts@;
            counts.push((base.clone(), 1));
            proof {
                assert forall|j: int| 0 <= j < counts@.len() implies (#[trigger] counts@[j]).1
                    == occurrences(now, counts@[j].0@) by {
                    if j < old_counts.len() {
                        assert(counts@[j] == old_counts[j]);
                        assert(old_counts[j].0@ != base@);
                    }
                }
                assert forall|x: Seq<char>| occurrences(now, x) > 0 implies exists|j: int|
                    0 <= j < counts@.len() && (#[trigger] counts@[j]).0@ == x by {
                    if x == base@ {
                        assert(counts@[old_counts.len() as int].0@ == x);
                    } else {
                        assert(occurrences(bs.take(i as int), x) > 0);
                        let j = choose|j: int|
                            0 <= j < old_counts.len() && (#[trigger] old_counts[j]).0@ == x;
                        assert(counts@[j] == old_counts[j]);
                    }
                }
                assert forall|k1: int, k2: int|
                    0 <= k1 < counts@.len() && 0 <= k2 < counts@.len() && k1 != k2 implies (
                    #[trigger] counts@[k1]).0@ != (#[trigger] counts@[k2]).0@ by {
                    if k1 < old_counts.len() && k2 < old_counts.len() {
                        assert(counts@[k1] == old_counts[k1]);
                        assert(counts@[k2] == old_counts[k2]);
                    } else if k1 < old_counts.len() {
                        assert(counts@[k1] == old_counts[k1]);
                    } else {
                        assert(counts@[k2] == old_counts[k2]);
                    }
                }
            }
        }
        assert(c == occurrences(now, base@));
        let ghost was = texts(out@);
        assert(bs[i as int] == base@);
        let ghost elem = suffixed_of(bs)[i as int];
        if c == 1 {
            out.push(base.clone());
            assert(texts(out@) =~= was.push(elem));
        } else {
            let mut line: Vec<char> = Vec::new();
            put_str(&mut line, base.as_str());
            line.push('-');
            let n = decimal_of(c as u64);
            put_str(&mut line, n.as_str());
            assert(line@ == elem);
            out.push(string_of(line.as_slice()));
            assert(texts(out@) =~= was.push(elem));
        }
        assert(suffixed_of(bs).take(i + 1) =~= suffixed_of(bs).take(i as int).push(elem));
        i = i + 1;
    }
    assert(suffixed_of(bs).take(i as int) =~= suffixed_of(bs));
    out
}

/// The ids of the texts' digests.
pub open spec fn bases_of(ts: Seq<&str>) -> Seq<Seq<char>> {
    ts.map_values(|t: &str| id_of(t.spec_bytes()))
}

/// The ids of some texts, made distinct where two texts are equal or their ids collide.
pub fn ids(texts_in: &[&str]) -> (r: Vec<String>)
    ensures
        texts(r@) == suffixed_of(bases_of(texts_in@)),
{
    let mut bases: Vec<String> = Vec::new();
    let mut i: usize = 0;
    while i < texts_in.len()
        invariant
            i <= texts_in@.len(),
            texts(bases@) == bases_of(texts_in@).take(i as int),
        decreases texts_in.len() - i,
    {
        let ghost was = texts(bases@);
        let one = id(texts_in[i]);
        assert(one@ == bases_of(texts_in@)[i as int]);
        bases.push(one);
        assert(texts(bases@) =~= was.push(one@));
        i = i + 1;
        assert(texts(bases@) =~= bases_of(texts_in@).take(i as int));
    }
    assert(bases_of(texts_in@).take(i as int) =~= bases_of(texts_in@));
    suffixed(bases.as_slice())
}

} // verus!

verus! {

proof fn lemma_occurrences_grow(s: Seq<Seq<char>>, x: Seq<char>, a: int, b: int)
    requires
        0 <= a <= b <= s.len(),
    ensures
        occurrences(s.take(a), x) <= occurrences(s.take(b), x),
    decreases b - a,
{
    if a < b {
        lemma_occurrences_grow(s, x, a, b - 1);
        assert(s.take(b).drop_last() == s.take(b - 1));
    }
}

/// Two texts with the same digest get two ids.
pub proof fn equal_bases_get_distinct_ids(bases: Seq<Seq<char>>, i: int, j: int)
    requires
        0 <= i < j < bases.len(),
        bases[i] == bases[j],
    ensures
        suffixed_of(bases)[i] != suffixed_of(bases)[j],
{
    let b = bases[i];
    let ci = occurrences(bases.take(i + 1), b);
    let cj = occurrences(bases.take(j + 1), b);
    assert(bases.take(i + 1).drop_last() == bases.take(i));
    assert(bases.take(i + 1).last() == b);
    assert(bases.take(j + 1).drop_last() == bases.take(j));
    assert(bases.take(j + 1).last() == b);
    lemma_occurrences_grow(bases, b, i + 1, j);
    assert(cj == occurrences(bases.take(j), b) + 1);
    assert(ci >= 1 && cj > ci);
    crate::export::anchors::lemma_counted_apart(b, cj, ci);
}

} // verus!
