//! Anchors of headings: a slug of the heading's text, made unique in a page.
use vstd::prelude::*;

use crate::text::{
    Class, chars_of, decimal, decimal_of, is_space, put, put_str, space, string_of, trim_by,
    trim_chars,
};

verus! {

/// What `char::is_alphanumeric` gives for a character.
pub uninterp spec fn alphanumeric(c: char) -> bool;

/// `char::is_alphanumeric`: whether the character is alphabetic or numeric in Unicode.
#[verifier::external_body]
fn is_alphanumeric(c: char) -> (r: bool)
    ensures
        r == alphanumeric(c),
{
    c.is_alphanumeric()
}

/// What `char::to_lowercase` yields for a character.
pub uninterp spec fn lowercase(c: char) -> Seq<char>;

/// `char::to_lowercase`: the characters of the Unicode lower-case mapping of the character.
#[verifier::external_body]
fn to_lowercase(c: char) -> (r: Vec<char>)
    ensures
        r@ == lowercase(c),
{
    c.to_lowercase().collect()
}

/// What one character of a heading becomes in its slug.
pub open spec fn slugged(c: char) -> Seq<char> {
    if alphanumeric(c) || c == '_' {
        lowercase(c)
    } else if is_space(c) || c == '-' {
        seq!['-']
    } else {
        Seq::empty()
    }
}

/// The characters of a heading as they stand in its slug.
pub open spec fn slug_chars(s: Seq<char>) -> Seq<char>
    decreases s.len(),
{
    if s.len() == 0 {
        Seq::<char>::empty()
    } else {
        slug_chars(s.drop_last()) + slugged(s.last())
    }
}

/// The slug of a heading: letters and digits in lower case, blanks and dashes
/// as dashes, no dash at either end; `section` where nothing is left.
pub open spec fn slug_of(s: Seq<char>) -> Seq<char> {
    let t = trim_by(slug_chars(s), Class::Is('-'));
    if t.len() == 0 {
        seq!['s', 'e', 'c', 't', 'i', 'o', 'n']
    } else {
        t
    }
}

pub fn slug(heading: &str) -> (r: String)
    ensures
        r@ == slug_of(heading@),
{
    let s = chars_of(heading);
    let mut out: Vec<char> = Vec::new();
    let mut i: usize = 0;
    while i < s.len()
        invariant
            i <= s@.len(),
            out@ == slug_chars(s@.take(i as int)),
        decreases s.len() - i,
    {
        assert(s@.take(i + 1).drop_last() == s@.take(i as int));
        let c = s[i];
        if is_alphanumeric(c) || c == '_' {
            let low = to_lowercase(c);
            put(&mut out, low.as_slice());
        } else if space(c) || c == '-' {
            out.push('-');
        }
        i = i + 1;
    }
    assert(s@.take(s@.len() as int) == s@);
    let t = trim_chars(out.as_slice(), &Class::Is('-'));
    if t.len() == 0 {
        let mut r: Vec<char> = Vec::new();
        put_str(&mut r, "section");
        proof {
            reveal_strlit("section");
        }
        assert(r@ =~= seq!['s', 'e', 'c', 't', 'i', 'o', 'n']);
        string_of(r.as_slice())
    } else {
        string_of(t.as_slice())
    }
}

/// How many times `key` has been taken, by the last entry for it.
pub open spec fn count_in(s: Seq<(String, u32)>, key: Seq<char>) -> nat
    decreases s.len(),
{
    if s.len() == 0 {
        0
    } else if s.last().0@ == key {
        s.last().1 as nat
    } else {
        count_in(s.drop_last(), key)
    }
}

/// No key stands twice.
pub open spec fn distinct(s: Seq<(String, u32)>) -> bool {
    forall|i: int, j: int|
        0 <= i < s.len() && 0 <= j < s.len() && i != j ==> (#[trigger] s[i]).0@ != (
        #[trigger] s[j]).0@
}

proof fn lemma_count_at(s: Seq<(String, u32)>, k: int, key: Seq<char>)
    requires
        distinct(s),
        0 <= k < s.len(),
        s[k].0@ == key,
    ensures
        count_in(s, key) == s[k].1 as nat,
    decreases s.len(),
{
    if k < s.len() - 1 {
        assert(s.last().0@ != key) by {
            assert(s[s.len() - 1] == s.last());
        }
        assert(distinct(s.drop_last())) by {
            assert forall|i: int, j: int|
                0 <= i < s.len() - 1 && 0 <= j < s.len() - 1 && i != j implies (
                #[trigger] s.drop_last()[i]).0@ != (#[trigger] s.drop_last()[j]).0@ by {
                assert(s.drop_last()[i] == s[i]);
                assert(s.drop_last()[j] == s[j]);
            }
        }
        assert(s.drop_last()[k] == s[k]);
        lemma_count_at(s.drop_last(), k, key);
    }
}

proof fn lemma_count_none(s: Seq<(String, u32)>, key: Seq<char>)
    requires
        forall|i: int| 0 <= i < s.len() ==> (#[trigger] s[i]).0@ != key,
    ensures
        count_in(s, key) == 0,
    decreases s.len(),
{
    if s.len() > 0 {
        assert(s[s.len() - 1] == s.last());
        assert forall|i: int| 0 <= i < s.len() - 1 implies (#[trigger] s.drop_last()[i]).0@
            != key by {
            assert(s.drop_last()[i] == s[i]);
        }
        lemma_count_none(s.drop_last(), key);
    }
}

/// The count of a key, from either lemma.
proof fn lemma_count(s: Seq<(String, u32)>, key: Seq<char>)
    requires
        distinct(s),
    ensures
        (exists|k: int| 0 <= k < s.len() && (#[trigger] s[k]).0@ == key && count_in(s, key)
            == s[k].1 as nat) || count_in(s, key) == 0,
{
    if exists|k: int| 0 <= k < s.len() && (#[trigger] s[k]).0@ == key {
        let k = choose|k: int| 0 <= k < s.len() && (#[trigger] s[k]).0@ == key;
        lemma_count_at(s, k, key);
    } else {
        lemma_count_none(s, key);
    }
}

/// The anchor of a slug taken `n` times before: the slug itself the first
/// time, and then the slug with the count after a dash.
pub open spec fn anchor_of(base: Seq<char>, n: nat) -> Seq<char> {
    if n == 0 {
        base
    } else {
        base + seq!['-'] + decimal(n)
    }
}

/// A slug with a count after a dash is never the slug alone, and two counts
/// give two texts.
pub proof fn lemma_counted_apart(base: Seq<char>, n: nat, m: nat)
    ensures
        base + seq!['-'] + decimal(n) != base,
        n != m ==> base + seq!['-'] + decimal(n) != base + seq!['-'] + decimal(m),
{
    crate::text::lemma_decimal_value(n);
    crate::text::lemma_decimal_value(m);
    let a = base + seq!['-'] + decimal(n);
    let b = base + seq!['-'] + decimal(m);
    assert(a.len() > base.len());
    if n != m && a == b {
        assert(a.skip((base.len() + 1) as int) =~= decimal(n));
        assert(b.skip((base.len() + 1) as int) =~= decimal(m));
        crate::text::lemma_decimal_injective(n, m);
    }
}

/// One heading taken again and again never gets the same anchor twice.
pub proof fn anchors_differ(base: Seq<char>, n: nat, m: nat)
    requires
        n != m,
    ensures
        anchor_of(base, n) != anchor_of(base, m),
{
    lemma_counted_apart(base, n, m);
    lemma_counted_apart(base, m, n);
}

/// One heading taken: the anchor is its slug with the count of the earlier
/// takes of that slug, and that count grows by one, the others staying.
pub open spec fn took(a: Anchors, heading: Seq<char>, b: Anchors, r: Seq<char>) -> bool {
    let base = slug_of(heading);
    let n = a.count(base);
    &&& forall|k: Seq<char>|
        #[trigger] b.count(k) == if k == base {
            (n + 1) as nat
        } else {
            a.count(k)
        }
    &&& r == anchor_of(base, n)
}

/// How many of the first `i` headings have the slug `base`.
pub open spec fn earlier(hs: Seq<Seq<char>>, i: int, base: Seq<char>) -> nat
    decreases i,
{
    if i <= 0 {
        0
    } else {
        earlier(hs, i - 1, base) + if slug_of(hs[i - 1]) == base {
            1nat
        } else {
            0nat
        }
    }
}

proof fn lemma_counts_earlier(as_: Seq<Anchors>, hs: Seq<Seq<char>>, rs: Seq<Seq<char>>, i: int)
    requires
        as_.len() == hs.len() + 1,
        rs.len() == hs.len(),
        forall|k: Seq<char>| #[trigger] as_[0].count(k) == 0,
        forall|j: int| 0 <= j < hs.len() ==> took(as_[j], hs[j], as_[j + 1], #[trigger] rs[j]),
        0 <= i <= hs.len(),
    ensures
        forall|k: Seq<char>| #[trigger] as_[i].count(k) == earlier(hs, i, k),
    decreases i,
{
    if i > 0 {
        lemma_counts_earlier(as_, hs, rs, i - 1);
        assert(took(as_[i - 1], hs[i - 1], as_[i], rs[i - 1]));
        assert forall|k: Seq<char>| #[trigger] as_[i].count(k) == earlier(hs, i, k) by {
            assert(as_[i - 1].count(k) == earlier(hs, i - 1, k));
        }
    }
}

/// Starting from no anchors and taking headings in turn, each heading gets
/// its slug, with a dash and the number of earlier headings of that slug
/// where there are any.
pub proof fn anchors_count_earlier_takes(as_: Seq<Anchors>, hs: Seq<Seq<char>>, rs: Seq<Seq<char>>)
    requires
        as_.len() == hs.len() + 1,
        rs.len() == hs.len(),
        forall|k: Seq<char>| #[trigger] as_[0].count(k) == 0,
        forall|j: int| 0 <= j < hs.len() ==> took(as_[j], hs[j], as_[j + 1], #[trigger] rs[j]),
    ensures
        forall|i: int|
            0 <= i < hs.len() ==> #[trigger] rs[i] == anchor_of(slug_of(hs[i]), earlier(hs, i, slug_of(hs[i]))),
{
    assert forall|i: int| 0 <= i < hs.len() implies #[trigger] rs[i] == anchor_of(
        slug_of(hs[i]),
        earlier(hs, i, slug_of(hs[i])),
    ) by {
        lemma_counts_earlier(as_, hs, rs, i);
        assert(took(as_[i], hs[i], as_[i + 1], rs[i]));
        assert(as_[i].count(slug_of(hs[i])) == earlier(hs, i, slug_of(hs[i])));
    }
}

/// The anchors taken in a page, and how many times each.
#[derive(Debug)]
pub struct Anchors {
    taken: Vec<(String, u32)>,
}

impl Default for Anchors {
    fn default() -> (a: Self)
        ensures
            a.wf(),
            forall|k: Seq<char>| a.count(k) == 0,
    {
        let a = Anchors { taken: Vec::new() };
        assert forall|k: Seq<char>| a.count(k) == 0 by {
            lemma_count_none(a.taken@, k);
        }
        a
    }
}

impl Anchors {
    /// How many times the anchor `key` has been taken.
    pub closed spec fn count(&self, key: Seq<char>) -> nat {
        count_in(self.taken@, key)
    }

    pub closed spec fn wf(&self) -> bool {
        distinct(self.taken@)
    }

    /// The anchor of a heading: its slug, and the count of the earlier ones
    /// after a dash where the slug was taken before.
    pub fn take(&mut self, heading: &str) -> (r: String)
        requires
            old(self).wf(),
            old(self).count(slug_of(heading@)) < u32::MAX,
        ensures
            final(self).wf(),
            took(*old(self), heading@, *final(self), r@),
    {
        let base = slug(heading);
        let ghost before = self.taken@;
        let mut k: usize = 0;
        while k < self.taken.len() && self.taken[k].0 != base
            invariant
                k <= self.taken@.len(),
                self.taken@ == before,
                forall|j: int| 0 <= j < k ==> (#[trigger] self.taken@[j]).0@ != base@,
            decreases self.taken.len() - k,
        {
            k = k + 1;
        }
        let n: u32;
        if k < self.taken.len() {
            proof {
                lemma_count_at(before, k as int, base@);
            }
            n = self.taken[k].1;
            self.taken.set(k, (base.clone(), n + 1));
            proof {
                let after = self.taken@;
                assert(distinct(after)) by {
                    assert forall|i: int, j: int|
                        0 <= i < after.len() && 0 <= j < after.len() && i != j implies (
                        #[trigger] after[i]).0@ != (#[trigger] after[j]).0@ by {
                        if i != k && j != k {
                            assert(after[i] == before[i] && after[j] == before[j]);
                        } else if i == k {
                            assert(after[j] == before[j]);
                            assert(before[k as int].0@ == base@);
                        } else {
                            assert(after[i] == before[i]);
                            assert(before[k as int].0@ == base@);
                        }
                    }
                }
                assert forall|key: Seq<char>| #[trigger] count_in(after, key) == if key == base@ {
                    (n + 1) as nat
                } else {
                    count_in(before, key)
                } by {
                    if key == base@ {
                        lemma_count_at(after, k as int, key);
                    } else {
                        lemma_count(before, key);
                        if exists|j: int| 0 <= j < before.len() && (#[trigger] before[j]).0@ == key {
                            let j = choose|j: int|
                                0 <= j < before.len() && (#[trigger] before[j]).0@ == key;
                            lemma_count_at(before, j, key);
                            if j == k {
                                assert(before[k as int].0@ == base@);
                            }
                            assert(after[j] == before[j]);
                            lemma_count_at(after, j, key);
                        } else {
                            assert forall|i: int| 0 <= i < after.len() implies (
                            #[trigger] after[i]).0@ != key by {
                                if i != k {
                                    assert(after[i] == before[i]);
                                }
                            }
                            lemma_count_none(after, key);
                            lemma_count_none(before, key);
                        }
                    }
                }
            }
        } else {
            proof {
                lemma_count_none(before, base@);
            }
            n = 0;
            self.taken.push((base.clone(), 1));
            proof {
                let after = self.taken@;
                assert(distinct(after)) by {
                    assert forall|i: int, j: int|
                        0 <= i < after.len() && 0 <= j < after.len() && i != j implies (
                        #[trigger] after[i]).0@ != (#[trigger] after[j]).0@ by {
                        if i < before.len() && j < before.len() {
                            assert(after[i] == before[i] && after[j] == before[j]);
                        } else if i < before.len() {
                            assert(after[i] == before[i]);
                        } else {
                            assert(after[j] == before[j]);
                        }
                    }
                }
                assert forall|key: Seq<char>| #[trigger] count_in(after, key) == if key == base@ {
                    1nat
                } else {
                    count_in(before, key)
                } by {
                    assert(after.drop_last() == before);
                }
            }
        }
        proof {
            assert forall|k: Seq<char>| #[trigger] self.count(k) == if k == slug_of(heading@) {
                (n + 1) as nat
            } else {
                old(self).count(k)
            } by {
                assert(self.count(k) == count_in(self.taken@, k));
                assert(old(self).count(k) == count_in(before, k));
            }
            assert(old(self).count(slug_of(heading@)) == n);
        }
        let r = if n == 0 {
            base
        } else {
            let mut out: Vec<char> = Vec::new();
            put_str(&mut out, base.as_str());
            out.push('-');
            let d = decimal_of(n as u64);
            put_str(&mut out, d.as_str());
            string_of(out.as_slice())
        };
        assert(r@ == anchor_of(slug_of(heading@), n as nat));
        assert(took(*old(self), heading@, *self, r@));
        r
    }
}

} // verus!
