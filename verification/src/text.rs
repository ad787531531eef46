//! Text as sequences of characters: the whitespace, trimming, splitting and
//! joining rules that the rest of the library is stated in.
use vstd::prelude::*;

verus! {

/// `char::is_whitespace`: the Unicode `White_Space` property.
pub open spec fn is_space(c: char) -> bool {
    ||| ('\u{9}' <= c && c <= '\u{d}')
    ||| c == ' '
    ||| c == '\u{85}'
    ||| c == '\u{a0}'
    ||| c == '\u{1680}'
    ||| ('\u{2000}' <= c && c <= '\u{200a}')
    ||| c == '\u{2028}'
    ||| c == '\u{2029}'
    ||| c == '\u{202f}'
    ||| c == '\u{205f}'
    ||| c == '\u{3000}'
}

/// `char::is_ascii_digit`.
pub open spec fn is_digit(c: char) -> bool {
    '0' <= c && c <= '9'
}

/// `char::is_ascii_lowercase`.
pub open spec fn is_lower(c: char) -> bool {
    'a' <= c && c <= 'z'
}

/// The marks that end a sentence or a clause, in Latin and in CJK script.
pub open spec fn is_stop(c: char) -> bool {
    ||| c == '.'
    ||| c == ','
    ||| c == ';'
    ||| c == ':'
    ||| c == '!'
    ||| c == '\u{3002}'
    ||| c == '\u{ff0c}'
    ||| c == '\u{ff1b}'
    ||| c == '\u{ff1a}'
    ||| c == '\u{ff01}'
}

/// The marks that may follow an address in running text without being part of it.
pub open spec fn is_trailing(c: char) -> bool {
    ||| c == '.'
    ||| c == ','
    ||| c == ';'
    ||| c == ':'
    ||| c == '!'
    ||| c == '?'
    ||| c == ')'
    ||| c == '\u{bb}'
    ||| c == '"'
    ||| c == '\''
}

/// `char::is_control`: the Unicode general category `Cc`.
pub open spec fn is_control(c: char) -> bool {
    c <= '\u{1f}' || ('\u{7f}' <= c && c <= '\u{9f}')
}

pub fn space(c: char) -> (r: bool)
    ensures
        r == is_space(c),
{
    ('\u{9}' <= c && c <= '\u{d}') || c == ' ' || c == '\u{85}' || c == '\u{a0}' || c
        == '\u{1680}' || ('\u{2000}' <= c && c <= '\u{200a}') || c == '\u{2028}' || c
        == '\u{2029}' || c == '\u{202f}' || c == '\u{205f}' || c == '\u{3000}'
}

pub fn digit(c: char) -> (r: bool)
    ensures
        r == is_digit(c),
{
    '0' <= c && c <= '9'
}

pub fn control(c: char) -> (r: bool)
    ensures
        r == is_control(c),
{
    c <= '\u{1f}' || ('\u{7f}' <= c && c <= '\u{9f}')
}

/// Whether `c` is one of `v`.
pub fn among(v: &Vec<char>, c: char) -> (r: bool)
    ensures
        r == v@.contains(c),
{
    let mut i: usize = 0;
    while i < v.len()
        invariant
            i <= v.len(),
            forall|j: int| 0 <= j < i ==> v@[j] != c,
        decreases v.len() - i,
    {
        if v[i] == c {
            assert(v@[i as int] == c);
            return true;
        }
        i = i + 1;
    }
    false
}

/// A class of characters that a trim or a split goes by.
pub enum Class {
    Space,
    Is(char),
    Digit,
    Among(Vec<char>),
    Stop,
    Trailing,
    Quote,
}

impl Class {
    pub open spec fn has(&self, c: char) -> bool {
        match self {
            Class::Space => is_space(c),
            Class::Is(d) => c == *d,
            Class::Digit => is_digit(c),
            Class::Among(v) => v@.contains(c),
            Class::Stop => is_stop(c),
            Class::Trailing => is_trailing(c),
            Class::Quote => c == '"' || c == '\'',
        }
    }

    pub fn holds(&self, c: char) -> (r: bool)
        ensures
            r == self.has(c),
    {
        match self {
            Class::Space => space(c),
            Class::Is(d) => c == *d,
            Class::Digit => digit(c),
            Class::Among(v) => among(v, c),
            Class::Stop => c == '.' || c == ',' || c == ';' || c == ':' || c == '!' || c
                == '\u{3002}' || c == '\u{ff0c}' || c == '\u{ff1b}' || c == '\u{ff1a}' || c
                == '\u{ff01}',
            Class::Trailing => c == '.' || c == ',' || c == ';' || c == ':' || c == '!' || c
                == '?' || c == ')' || c == '\u{bb}' || c == '"' || c == '\'',
            Class::Quote => c == '"' || c == '\'',
        }
    }
}

/// The number of characters at the start of `s` that are in `k`.
pub open spec fn lead(s: Seq<char>, k: Class) -> nat
    decreases s.len(),
{
    if s.len() > 0 && k.has(s[0]) {
        1 + lead(s.drop_first(), k)
    } else {
        0
    }
}

/// The number of characters at the end of `s` that are in `k`.
pub open spec fn tail(s: Seq<char>, k: Class) -> nat
    decreases s.len(),
{
    if s.len() > 0 && k.has(s.last()) {
        1 + tail(s.drop_last(), k)
    } else {
        0
    }
}

/// `trim_start_matches`.
pub open spec fn trim_start_by(s: Seq<char>, k: Class) -> Seq<char> {
    s.skip(lead(s, k) as int)
}

/// `trim_end_matches`.
pub open spec fn trim_end_by(s: Seq<char>, k: Class) -> Seq<char> {
    s.take(s.len() - tail(s, k))
}

/// `trim_matches`.
pub open spec fn trim_by(s: Seq<char>, k: Class) -> Seq<char> {
    trim_end_by(trim_start_by(s, k), k)
}

pub open spec fn trim_start(s: Seq<char>) -> Seq<char> {
    trim_start_by(s, Class::Space)
}

pub open spec fn trim_end(s: Seq<char>) -> Seq<char> {
    trim_end_by(s, Class::Space)
}

/// `str::trim`.
pub open spec fn trim(s: Seq<char>) -> Seq<char> {
    trim_by(s, Class::Space)
}

pub proof fn lemma_lead_le(s: Seq<char>, k: Class)
    ensures
        lead(s, k) <= s.len(),
    decreases s.len(),
{
    if s.len() > 0 && k.has(s[0]) {
        lemma_lead_le(s.drop_first(), k);
    }
}

pub proof fn lemma_lead(s: Seq<char>, k: Class, i: int)
    requires
        0 <= i <= s.len(),
        forall|j: int| 0 <= j < i ==> k.has(#[trigger] s[j]),
        i == s.len() || !k.has(s[i]),
    ensures
        lead(s, k) == i,
        lead(s, k) <= s.len(),
    decreases i,
{
    if i > 0 {
        let t = s.drop_first();
        assert forall|j: int| 0 <= j < i - 1 implies k.has(#[trigger] t[j]) by {
            assert(t[j] == s[j + 1]);
        }
        if i - 1 < t.len() {
            assert(t[i - 1] == s[i]);
        }
        lemma_lead(t, k, i - 1);
    }
}

pub proof fn lemma_tail(s: Seq<char>, k: Class, i: int)
    requires
        0 <= i <= s.len(),
        forall|j: int| s.len() - i <= j < s.len() ==> k.has(#[trigger] s[j]),
        i == s.len() || !k.has(s[s.len() - 1 - i]),
    ensures
        tail(s, k) == i,
    decreases i,
{
    if i > 0 {
        let t = s.drop_last();
        assert forall|j: int| t.len() - (i - 1) <= j < t.len() implies k.has(#[trigger] t[j]) by {
            assert(t[j] == s[j]);
        }
        if i - 1 < t.len() {
            assert(t[t.len() - 1 - (i - 1)] == s[s.len() - 1 - i]);
        }
        lemma_tail(t, k, i - 1);
    }
}

/// The run at the start of `s` is of characters of `k`.
pub proof fn lemma_lead_run(s: Seq<char>, k: Class)
    ensures
        lead(s, k) <= s.len(),
        forall|j: int| 0 <= j < lead(s, k) ==> k.has(#[trigger] s[j]),
    decreases s.len(),
{
    if s.len() > 0 && k.has(s[0]) {
        let t = s.drop_first();
        lemma_lead_run(t, k);
        assert forall|j: int| 0 <= j < lead(s, k) implies k.has(#[trigger] s[j]) by {
            if j > 0 {
                assert(s[j] == t[j - 1]);
            }
        }
    }
}

/// The run at the end of `s` is of characters of `k`, and the character
/// before it is not.
pub proof fn lemma_tail_run(s: Seq<char>, k: Class)
    ensures
        tail(s, k) <= s.len(),
        forall|j: int| s.len() - tail(s, k) <= j < s.len() ==> k.has(#[trigger] s[j]),
        tail(s, k) < s.len() ==> !k.has(s[s.len() - 1 - tail(s, k)]),
    decreases s.len(),
{
    if s.len() > 0 && k.has(s.last()) {
        let t = s.drop_last();
        lemma_tail_run(t, k);
        assert forall|j: int| s.len() - tail(s, k) <= j < s.len() implies k.has(#[trigger] s[j]) by {
            if j < s.len() - 1 {
                assert(s[j] == t[j]);
            }
        }
        if tail(s, k) < s.len() {
            assert(s[s.len() - 1 - tail(s, k)] == t[t.len() - 1 - tail(t, k)]);
        }
    }
}

/// The length of the run of characters of `k` at the start of `s`.
pub fn lead_len(s: &[char], k: &Class) -> (n: usize)
    ensures
        n == lead(s@, *k),
        n <= s@.len(),
        forall|j: int| 0 <= j < n ==> k.has(#[trigger] s@[j]),
{
    let mut i: usize = 0;
    while i < s.len() && k.holds(s[i])
        invariant
            i <= s.len(),
            forall|j: int| 0 <= j < i ==> k.has(#[trigger] s@[j]),
        decreases s.len() - i,
    {
        i = i + 1;
    }
    proof {
        lemma_lead(s@, *k, i as int);
    }
    i
}

/// The length of the run of characters of `k` at the end of `s`.
pub fn tail_len(s: &[char], k: &Class) -> (n: usize)
    ensures
        n == tail(s@, *k),
        n <= s@.len(),
        forall|j: int| s@.len() - n <= j < s@.len() ==> k.has(#[trigger] s@[j]),
{
    let mut i: usize = 0;
    while i < s.len() && k.holds(s[s.len() - 1 - i])
        invariant
            i <= s.len(),
            forall|j: int| s@.len() - i <= j < s@.len() ==> k.has(#[trigger] s@[j]),
        decreases s.len() - i,
    {
        i = i + 1;
    }
    proof {
        lemma_tail(s@, *k, i as int);
    }
    i
}

/// The characters of `s`, one by one.
pub fn chars_of(s: &str) -> (out: Vec<char>)
    ensures
        out@ == s@,
{
    let mut out: Vec<char> = Vec::new();
    for c in it: s.chars()
        invariant
            out@ == it.seq().take(it.index() as int),
    {
        out.push(c);
    }
    out
}

/// `String::push`: the text afterwards is the text before with `c` at its end.
#[verifier::external_body]
pub(crate) fn push_char(s: &mut String, c: char)
    ensures
        final(s)@ == old(s)@.push(c),
{
    s.push(c);
}

/// Appends the characters of `v` to `s`.
pub fn push_chars(s: &mut String, v: &[char])
    ensures
        final(s)@ == old(s)@ + v@,
{
    let ghost start = s@;
    let mut i: usize = 0;
    while i < v.len()
        invariant
            i <= v.len(),
            s@ == start + v@.take(i as int),
        decreases v.len() - i,
    {
        push_char(s, v[i]);
        i = i + 1;
        assert(v@.take(i as int) == v@.take(i - 1).push(v@[i - 1]));
    }
    assert(v@.take(v.len() as int) == v@);
}

/// Appends the characters of `t` to `v`.
pub fn put(v: &mut Vec<char>, t: &[char])
    ensures
        final(v)@ == old(v)@ + t@,
{
    let ghost start = v@;
    let mut i: usize = 0;
    while i < t.len()
        invariant
            i <= t.len(),
            v@ == start + t@.take(i as int),
        decreases t.len() - i,
    {
        v.push(t[i]);
        i = i + 1;
        assert(t@.take(i as int) == t@.take(i - 1).push(t@[i - 1]));
    }
    assert(t@.take(t.len() as int) == t@);
}

/// Appends the characters of `t` to `v`.
pub fn put_str(v: &mut Vec<char>, t: &str)
    ensures
        final(v)@ == old(v)@ + t@,
{
    let c = chars_of(t);
    put(v, c.as_slice());
}

/// `n` times the character `c`.
pub open spec fn repeat(c: char, n: nat) -> Seq<char> {
    Seq::new(n, |i: int| c)
}

/// Appends `n` times the character `c` to `v`.
pub fn put_repeat(v: &mut Vec<char>, c: char, n: usize)
    ensures
        final(v)@ == old(v)@ + repeat(c, n as nat),
{
    let ghost start = v@;
    let mut i: usize = 0;
    while i < n
        invariant
            i <= n,
            v@ == start + repeat(c, i as nat),
        decreases n - i,
    {
        v.push(c);
        i = i + 1;
        assert(repeat(c, i as nat) == repeat(c, (i - 1) as nat).push(c));
    }
}

/// `s` opens with `p`.
pub open spec fn opens_with(s: Seq<char>, p: Seq<char>) -> bool {
    p.len() <= s.len() && s.take(p.len() as int) == p
}

/// Whether `s` opens with `p`.
pub fn starts_with(s: &[char], p: &str) -> (r: bool)
    ensures
        r == opens_with(s@, p@),
{
    let q = chars_of(p);
    if q.len() > s.len() {
        return false;
    }
    let mut i: usize = 0;
    while i < q.len()
        invariant
            i <= q@.len() <= s@.len(),
            q@ == p@,
            forall|j: int| 0 <= j < i ==> s@[j] == q@[j],
        decreases q.len() - i,
    {
        if s[i] != q[i] {
            assert(s@.take(q@.len() as int)[i as int] != q@[i as int]);
            return false;
        }
        i = i + 1;
    }
    assert(s@.take(q@.len() as int) =~= q@);
    true
}

/// Whether two texts are the same.
pub fn same(a: &str, b: &str) -> (r: bool)
    ensures
        r == (a@ == b@),
{
    let x = chars_of(a);
    let y = chars_of(b);
    if x.len() != y.len() {
        return false;
    }
    let mut i: usize = 0;
    while i < x.len()
        invariant
            i <= x@.len(),
            x@ == a@,
            y@ == b@,
            x@.len() == y@.len(),
            forall|j: int| 0 <= j < i ==> x@[j] == y@[j],
        decreases x.len() - i,
    {
        if x[i] != y[i] {
            return false;
        }
        i = i + 1;
    }
    assert(x@ =~= y@);
    true
}

/// A `String` that holds the characters of `v`.
pub fn string_of(v: &[char]) -> (s: String)
    ensures
        s@ == v@,
{
    let mut s = String::new();
    push_chars(&mut s, v);
    s
}

/// A `String` that holds `t`.
pub fn owned(t: &str) -> (s: String)
    ensures
        s@ == t@,
{
    let mut s = String::new();
    s.append(t);
    s
}

/// The characters of `s` from `from` up to `to`.
pub fn slice(s: &[char], from: usize, to: usize) -> (out: Vec<char>)
    requires
        from <= to <= s@.len(),
    ensures
        out@ == s@.subrange(from as int, to as int),
{
    let mut out: Vec<char> = Vec::new();
    let mut i = from;
    while i < to
        invariant
            from <= i <= to <= s@.len(),
            out@ == s@.subrange(from as int, i as int),
        decreases to - i,
    {
        out.push(s[i]);
        i = i + 1;
    }
    out
}

/// `trim_start_matches` on characters.
pub fn trim_start_chars(s: &[char], k: &Class) -> (out: Vec<char>)
    ensures
        out@ == trim_start_by(s@, *k),
{
    let n = lead_len(s, k);
    slice(s, n, s.len())
}

/// `trim_end_matches` on characters.
pub fn trim_end_chars(s: &[char], k: &Class) -> (out: Vec<char>)
    ensures
        out@ == trim_end_by(s@, *k),
{
    let n = tail_len(s, k);
    slice(s, 0, s.len() - n)
}

/// `trim_matches` on characters.
pub fn trim_chars(s: &[char], k: &Class) -> (out: Vec<char>)
    ensures
        out@ == trim_by(s@, *k),
{
    let a = trim_start_chars(s, k);
    trim_end_chars(&a, k)
}

/// The characters of each vector.
pub open spec fn views(v: Seq<Vec<char>>) -> Seq<Seq<char>> {
    v.map_values(|x: Vec<char>| x@)
}

/// The characters of each string.
pub open spec fn texts(v: Seq<String>) -> Seq<Seq<char>> {
    v.map_values(|x: String| x@)
}

/// `str::split` by a class of separators; always at least one piece.
pub open spec fn split(s: Seq<char>, k: Class) -> Seq<Seq<char>>
    decreases s.len(),
{
    if s.len() == 0 {
        seq![Seq::<char>::empty()]
    } else {
        let p = split(s.drop_last(), k);
        if k.has(s.last()) {
            p.push(Seq::<char>::empty())
        } else {
            p.update(p.len() - 1, p.last().push(s.last()))
        }
    }
}

pub proof fn lemma_split_len(s: Seq<char>, k: Class)
    ensures
        split(s, k).len() >= 1,
    decreases s.len(),
{
    if s.len() > 0 {
        lemma_split_len(s.drop_last(), k);
    }
}

/// A text with no separator in it is one piece.
pub proof fn lemma_split_single(s: Seq<char>, c: char)
    requires
        !s.contains(c),
    ensures
        split(s, Class::Is(c)) == seq![s],
    decreases s.len(),
{
    if s.len() > 0 {
        assert(!s.drop_last().contains(c)) by {
            if s.drop_last().contains(c) {
                let i = choose|i: int| 0 <= i < s.drop_last().len() && s.drop_last()[i] == c;
                assert(s[i] == c);
            }
        }
        lemma_split_single(s.drop_last(), c);
        assert(s.last() != c) by {
            assert(s[s.len() - 1] == s.last());
        }
        assert(s.drop_last().push(s.last()) =~= s);
        assert(seq![s.drop_last()].update(0, s.drop_last().push(s.last())) =~= seq![s]);
    } else {
        assert(s =~= Seq::<char>::empty());
    }
}

/// A piece with no separator in it, then a separator, then the rest, splits
/// into the piece and the pieces of the rest.
pub proof fn lemma_split_front(a: Seq<char>, c: char, r: Seq<char>)
    requires
        !a.contains(c),
    ensures
        split(a.push(c) + r, Class::Is(c)) == seq![a] + split(r, Class::Is(c)),
    decreases r.len(),
{
    if r.len() == 0 {
        lemma_split_single(a, c);
        assert(a.push(c) + r =~= a.push(c));
        assert((a.push(c)).drop_last() =~= a);
        assert(seq![a].push(Seq::<char>::empty()) =~= seq![a] + seq![Seq::<char>::empty()]);
    } else {
        let w = a.push(c) + r;
        lemma_split_front(a, c, r.drop_last());
        assert(w.drop_last() =~= a.push(c) + r.drop_last());
        assert(w.last() == r.last());
        lemma_split_len(r.drop_last(), Class::Is(c));
        let p = split(r.drop_last(), Class::Is(c));
        if r.last() == c {
            assert((seq![a] + p).push(Seq::<char>::empty()) =~= seq![a] + p.push(Seq::<char>::empty()));
        } else {
            assert((seq![a] + p).update(p.len() as int, p.last().push(r.last())) =~= seq![a] + p.update(
                p.len() - 1,
                p.last().push(r.last()),
            ));
        }
    }
}

/// The pieces of a split hold no separator.
pub proof fn lemma_split_pieces(s: Seq<char>, c: char)
    ensures
        forall|i: int| 0 <= i < split(s, Class::Is(c)).len() ==> !(#[trigger] split(s, Class::Is(c))[i]).contains(c),
    decreases s.len(),
{
    if s.len() > 0 {
        lemma_split_pieces(s.drop_last(), c);
        lemma_split_len(s.drop_last(), Class::Is(c));
        let p = split(s.drop_last(), Class::Is(c));
        if s.last() != c {
            assert forall|i: int| 0 <= i < split(s, Class::Is(c)).len() implies !(#[trigger] split(s, Class::Is(c))[i]).contains(c) by {
                if i == p.len() - 1 {
                    let q = p.last().push(s.last());
                    if q.contains(c) {
                        let j = choose|j: int| 0 <= j < q.len() && q[j] == c;
                        if j < p.last().len() {
                            assert(p[p.len() - 1][j] == c);
                            assert(p[p.len() - 1].contains(c));
                        }
                    }
                }
            }
        } else {
            assert forall|i: int| 0 <= i < split(s, Class::Is(c)).len() implies !(#[trigger] split(s, Class::Is(c))[i]).contains(c) by {
                if i < p.len() {
                    assert(split(s, Class::Is(c))[i] == p[i]);
                }
            }
        }
    }
}

/// Splits `s` at every character of `k`.
pub fn split_chars(s: &[char], k: &Class) -> (out: Vec<Vec<char>>)
    ensures
        views(out@) == split(s@, *k),
        out@.len() >= 1,
{
    let mut done: Vec<Vec<char>> = Vec::new();
    let mut cur: Vec<char> = Vec::new();
    let mut i: usize = 0;
    while i < s.len()
        invariant
            i <= s.len(),
            views(done@).push(cur@) == split(s@.take(i as int), *k),
        decreases s.len() - i,
    {
        proof {
            lemma_split_len(s@.take(i as int), *k);
        }
        let ghost before = views(done@).push(cur@);
        assert(s@.take(i + 1).drop_last() == s@.take(i as int));
        assert(s@.take(i + 1).last() == s@[i as int]);
        if k.holds(s[i]) {
            let c = cur;
            done.push(c);
            cur = Vec::new();
            assert(views(done@).push(cur@) =~= before.push(Seq::<char>::empty()));
        } else {
            cur.push(s[i]);
            assert(views(done@).push(cur@) =~= before.update(
                before.len() - 1,
                before.last().push(s@[i as int]),
            ));
        }
        i = i + 1;
    }
    assert(s@.take(s.len() as int) == s@);
    done.push(cur);
    done
}

/// Drops one carriage return at the end of a line.
pub open spec fn strip_cr(s: Seq<char>) -> Seq<char> {
    if s.len() > 0 && s.last() == '\r' {
        s.drop_last()
    } else {
        s
    }
}

/// `str::lines`: the pieces between line feeds, without a last empty one; a
/// carriage return right before a line feed belongs to the line ending, one at
/// the very end of the text stays in the last line.
pub open spec fn lines(s: Seq<char>) -> Seq<Seq<char>> {
    let p = split(s, Class::Is('\n'));
    let n: int = if s.len() == 0 || s.last() == '\n' {
        p.len() - 1
    } else {
        p.len() as int
    };
    Seq::new(n as nat, |i: int| if i + 1 < p.len() { strip_cr(p[i]) } else { p[i] })
}

/// The lines of `s`, as `str::lines` gives them.
pub fn lines_of(s: &[char]) -> (out: Vec<Vec<char>>)
    ensures
        views(out@) == lines(s@),
{
    let p = split_chars(s, &Class::Is('\n'));
    let ghost q = views(p@);
    let n = if s.len() == 0 || s[s.len() - 1] == '\n' {
        p.len() - 1
    } else {
        p.len()
    };
    let ghost want = lines(s@);
    let mut out: Vec<Vec<char>> = Vec::new();
    let mut i: usize = 0;
    while i < n
        invariant
            i <= n,
            n <= p.len(),
            q == views(p@),
            q == split(s@, Class::Is('\n')),
            want == lines(s@),
            want.len() == n,
            views(out@) == want.take(i as int),
        decreases n - i,
    {
        let l = &p[i];
        let line = if i + 1 < p.len() && l.len() > 0 && l[l.len() - 1] == '\r' {
            slice(l, 0, l.len() - 1)
        } else {
            slice(l, 0, l.len())
        };
        assert(q[i as int] == l@);
        assert(line@ == want[i as int]);
        let ghost before = views(out@);
        out.push(line);
        assert(views(out@) =~= before.push(line@));
        i = i + 1;
        assert(want.take(i as int) =~= want.take(i - 1).push(want[i - 1]));
    }
    assert(want.take(n as int) =~= want);
    out
}

/// `str::split_whitespace`: the maximal runs of characters that are not space.
pub open spec fn words(s: Seq<char>) -> Seq<Seq<char>>
    decreases s.len(),
{
    if s.len() == 0 {
        Seq::<Seq<char>>::empty()
    } else {
        let w = words(s.drop_last());
        let c = s.last();
        if is_space(c) {
            w
        } else if s.len() > 1 && !is_space(s[s.len() - 2]) {
            w.update(w.len() - 1, w.last().push(c))
        } else {
            w.push(seq![c])
        }
    }
}

pub proof fn lemma_words_nonempty(s: Seq<char>)
    ensures
        s.len() > 0 && !is_space(s.last()) ==> words(s).len() > 0,
    decreases s.len(),
{
    if s.len() > 1 {
        lemma_words_nonempty(s.drop_last());
    }
}

/// The words of `s`, as `str::split_whitespace` gives them.
pub fn words_of(s: &[char]) -> (out: Vec<Vec<char>>)
    ensures
        views(out@) == words(s@),
{
    let mut out: Vec<Vec<char>> = Vec::new();
    let mut i: usize = 0;
    while i < s.len()
        invariant
            i <= s.len(),
            views(out@) == words(s@.take(i as int)),
        decreases s.len() - i,
    {
        let ghost t = s@.take(i + 1);
        assert(t.drop_last() == s@.take(i as int));
        assert(t.last() == s@[i as int]);
        let c = s[i];
        if space(c) {
        } else if i > 0 && !space(s[i - 1]) {
            proof {
                assert(s@.take(i as int).last() == s@[i - 1]);
                lemma_words_nonempty(s@.take(i as int));
                assert(t[t.len() - 2] == s@[i - 1]);
            }
            let ghost before = views(out@);
            let last = out.len() - 1;
            let mut w = out.remove(last);
            w.push(c);
            out.push(w);
            assert(views(out@) =~= before.update(before.len() - 1, before.last().push(c)));
        } else {
            let ghost before = views(out@);
            let mut w: Vec<char> = Vec::new();
            w.push(c);
            out.push(w);
            assert(views(out@) =~= before.push(seq![c]));
        }
        i = i + 1;
    }
    assert(s@.take(s.len() as int) == s@);
    out
}

/// `join`: the parts with `sep` between each two.
pub open spec fn join(parts: Seq<Seq<char>>, sep: Seq<char>) -> Seq<char>
    decreases parts.len(),
{
    if parts.len() == 0 {
        Seq::<char>::empty()
    } else if parts.len() == 1 {
        parts[0]
    } else {
        join(parts.drop_last(), sep) + sep + parts.last()
    }
}

/// Joins the parts with `sep` between each two.
pub fn join_chars(parts: &Vec<Vec<char>>, sep: &str) -> (out: String)
    ensures
        out@ == join(views(parts@), sep@),
{
    let mut out = String::new();
    let ghost d = views(parts@);
    let mut i: usize = 0;
    while i < parts.len()
        invariant
            i <= parts.len(),
            d == views(parts@),
            out@ == join(d.take(i as int), sep@),
        decreases parts.len() - i,
    {
        assert(d.take(i + 1).drop_last() == d.take(i as int));
        if i > 0 {
            out.append(sep);
        }
        push_chars(&mut out, parts[i].as_slice());
        i = i + 1;
        assert(d.take(i as int).last() == d[i - 1]);
        if i == 1 {
            assert(d.take(1)[0] == d[0]);
        }
    }
    assert(d.take(parts.len() as int) == d);
    out
}

/// Joins strings with `sep` between each two.
pub fn join_strings(parts: &Vec<String>, sep: &str) -> (out: String)
    ensures
        out@ == join(texts(parts@), sep@),
{
    let mut out = String::new();
    let ghost d = texts(parts@);
    let mut i: usize = 0;
    while i < parts.len()
        invariant
            i <= parts.len(),
            d == texts(parts@),
            out@ == join(d.take(i as int), sep@),
        decreases parts.len() - i,
    {
        assert(d.take(i + 1).drop_last() == d.take(i as int));
        if i > 0 {
            out.append(sep);
        }
        out.append(parts[i].as_str());
        i = i + 1;
        assert(d.take(i as int).last() == d[i - 1]);
        if i == 1 {
            assert(d.take(1)[0] == d[0]);
        }
    }
    assert(d.take(parts.len() as int) == d);
    out
}

} // verus!

verus! {

/// The character of a decimal digit.
pub open spec fn digit_char(d: nat) -> char {
    if d == 0 {
        '0'
    } else if d == 1 {
        '1'
    } else if d == 2 {
        '2'
    } else if d == 3 {
        '3'
    } else if d == 4 {
        '4'
    } else if d == 5 {
        '5'
    } else if d == 6 {
        '6'
    } else if d == 7 {
        '7'
    } else if d == 8 {
        '8'
    } else {
        '9'
    }
}

/// The decimal digits of `n`, as `{}` formats an unsigned integer.
pub open spec fn decimal(n: nat) -> Seq<char>
    decreases n,
{
    if n < 10 {
        seq![digit_char(n)]
    } else {
        decimal(n / 10).push(digit_char(n % 10))
    }
}

fn digit_of(d: u64) -> (c: char)
    requires
        d < 10,
    ensures
        c == digit_char(d as nat),
{
    if d == 0 {
        '0'
    } else if d == 1 {
        '1'
    } else if d == 2 {
        '2'
    } else if d == 3 {
        '3'
    } else if d == 4 {
        '4'
    } else if d == 5 {
        '5'
    } else if d == 6 {
        '6'
    } else if d == 7 {
        '7'
    } else if d == 8 {
        '8'
    } else {
        '9'
    }
}

/// Appends the decimal digits of `n` to `s`.
pub fn push_decimal(s: &mut String, n: u64)
    ensures
        final(s)@ == old(s)@ + decimal(n as nat),
    decreases n,
{
    if n >= 10 {
        push_decimal(s, n / 10);
    }
    push_char(s, digit_of(n % 10));
}

/// The decimal digits of `n`.
pub fn decimal_of(n: u64) -> (s: String)
    ensures
        s@ == decimal(n as nat),
{
    let mut s = String::new();
    push_decimal(&mut s, n);
    s
}

} // verus!

verus! {

/// The value of a decimal digit.
pub open spec fn digit_value(c: char) -> nat {
    ((c as int) - ('0' as int)) as nat
}

/// The value of a run of decimal digits.
pub open spec fn digits_value(s: Seq<char>) -> nat
    decreases s.len(),
{
    if s.len() == 0 {
        0
    } else {
        digits_value(s.drop_last()) * 10 + digit_value(s.last())
    }
}

pub open spec fn all_digits(s: Seq<char>) -> bool {
    forall|i: int| 0 <= i < s.len() ==> is_digit(#[trigger] s[i])
}

/// `str::parse::<u32>`: an optional `+`, then at least one digit, and a value that fits.
pub open spec fn parsed_u32(s: Seq<char>) -> Option<u32> {
    let d = if s.len() > 0 && s[0] == '+' {
        s.drop_first()
    } else {
        s
    };
    if d.len() > 0 && all_digits(d) && digits_value(d) <= u32::MAX {
        Some(digits_value(d) as u32)
    } else {
        None
    }
}

pub proof fn lemma_digits_grow(d: Seq<char>, k: int)
    requires
        0 <= k <= d.len(),
    ensures
        digits_value(d.take(k)) <= digits_value(d),
    decreases d.len(),
{
    if k < d.len() {
        assert(d.drop_last().take(k) == d.take(k));
        lemma_digits_grow(d.drop_last(), k);
    } else {
        assert(d.take(k) == d);
    }
}

/// Reads a `u32` as `str::parse` does.
pub fn parse_u32(s: &[char]) -> (r: Option<u32>)
    ensures
        r == parsed_u32(s@),
{
    let start: usize = if s.len() > 0 && s[0] == '+' {
        1
    } else {
        0
    };
    let ghost d = s@.skip(start as int);
    assert(d == (if s@.len() > 0 && s@[0] == '+' {
        s@.drop_first()
    } else {
        s@
    }));
    if start == s.len() {
        return None;
    }
    let mut value: u64 = 0;
    let mut i = start;
    while i < s.len()
        invariant
            start <= i <= s.len(),
            d == s@.skip(start as int),
            d == (if s@.len() > 0 && s@[0] == '+' {
                s@.drop_first()
            } else {
                s@
            }),
            d.len() == s.len() - start,
            value == digits_value(d.take(i - start)),
            value <= u32::MAX,
            all_digits(d.take(i - start)),
        decreases s.len() - i,
    {
        let c = s[i];
        proof {
            assert(d.take(i - start + 1).drop_last() == d.take(i - start));
            assert(d.take(i - start + 1).last() == c);
        }
        if !digit(c) {
            proof {
                assert(d[i - start] == c);
            }
            return None;
        }
        let next = value * 10 + (c as u64 - '0' as u64);
        assert(next == digits_value(d.take(i - start + 1)));
        if next > u32::MAX as u64 {
            proof {
                lemma_digits_grow(d, i - start + 1);
            }
            return None;
        }
        value = next;
        i = i + 1;
        assert(all_digits(d.take(i - start))) by {
            assert forall|j: int| 0 <= j < i - start implies is_digit(#[trigger] d.take(i - start)[j]) by {
                if j < i - start - 1 {
                    assert(d.take(i - start)[j] == d.take(i - start - 1)[j]);
                }
            }
        }
    }
    assert(d.take(i - start) == d);
    Some(value as u32)
}

} // verus!

verus! {

/// `a` comes before `b` in the order of `str`: by the first character they
/// differ in, a prefix before what it opens.
pub open spec fn lex_lt(a: Seq<char>, b: Seq<char>) -> bool
    decreases a.len(),
{
    if a.len() == 0 {
        b.len() > 0
    } else if b.len() == 0 {
        false
    } else if a[0] < b[0] {
        true
    } else if a[0] == b[0] {
        lex_lt(a.drop_first(), b.drop_first())
    } else {
        false
    }
}

pub proof fn lemma_lex_irreflexive(a: Seq<char>)
    ensures
        !lex_lt(a, a),
    decreases a.len(),
{
    if a.len() > 0 {
        lemma_lex_irreflexive(a.drop_first());
    }
}

pub proof fn lemma_lex_total(a: Seq<char>, b: Seq<char>)
    ensures
        lex_lt(a, b) || a == b || lex_lt(b, a),
    decreases a.len(),
{
    if a.len() > 0 && b.len() > 0 && a[0] == b[0] {
        lemma_lex_total(a.drop_first(), b.drop_first());
        if a.drop_first() == b.drop_first() {
            assert(a =~= seq![a[0]] + a.drop_first());
            assert(b =~= seq![b[0]] + b.drop_first());
        }
    } else if a.len() == 0 && b.len() == 0 {
        assert(a =~= b);
    }
}

pub proof fn lemma_lex_asymmetric(a: Seq<char>, b: Seq<char>)
    ensures
        lex_lt(a, b) ==> !lex_lt(b, a),
    decreases a.len(),
{
    if a.len() > 0 && b.len() > 0 && a[0] == b[0] {
        lemma_lex_asymmetric(a.drop_first(), b.drop_first());
    }
}

pub proof fn lemma_lex_transitive(a: Seq<char>, b: Seq<char>, c: Seq<char>)
    requires
        lex_lt(a, b),
        lex_lt(b, c),
    ensures
        lex_lt(a, c),
    decreases a.len(),
{
    if a.len() > 0 && b.len() > 0 && c.len() > 0 && a[0] == b[0] && b[0] == c[0] {
        lemma_lex_transitive(a.drop_first(), b.drop_first(), c.drop_first());
    }
}

/// Whether `a` comes before `b` in the order of `str`.
pub fn less(a: &Vec<char>, b: &Vec<char>) -> (r: bool)
    ensures
        r == lex_lt(a@, b@),
{
    let mut i: usize = 0;
    assert(a@.skip(0) == a@ && b@.skip(0) == b@);
    while i < a.len() && i < b.len() && a[i] == b[i]
        invariant
            i <= a@.len(),
            i <= b@.len(),
            lex_lt(a@, b@) == lex_lt(a@.skip(i as int), b@.skip(i as int)),
        decreases a.len() - i,
    {
        assert(a@.skip(i as int).drop_first() == a@.skip(i + 1));
        assert(b@.skip(i as int).drop_first() == b@.skip(i + 1));
        assert(a@.skip(i as int)[0] == a@[i as int]);
        assert(b@.skip(i as int)[0] == b@[i as int]);
        i = i + 1;
    }
    if i < a.len() && i < b.len() {
        assert(a@.skip(i as int)[0] == a@[i as int]);
        assert(b@.skip(i as int)[0] == b@[i as int]);
    }
    if i == a.len() {
        b.len() > i
    } else if i == b.len() {
        false
    } else {
        a[i] < b[i]
    }
}

/// The texts stand in strictly increasing order.
pub open spec fn ascending(s: Seq<Seq<char>>) -> bool {
    forall|i: int, j: int| 0 <= i < j < s.len() ==> lex_lt(#[trigger] s[i], #[trigger] s[j])
}

/// Puts `x` into the ascending `v` where it belongs, unless it is there.
pub fn insert_sorted(v: &mut Vec<Vec<char>>, x: Vec<char>)
    requires
        ascending(views(old(v)@)),
    ensures
        ascending(views(final(v)@)),
        views(final(v)@).to_set() == views(old(v)@).to_set().insert(x@),
{
    let ghost before = views(v@);
    let mut p: usize = 0;
    while p < v.len() && less(&v[p], &x)
        invariant
            p <= v@.len(),
            views(v@) == before,
            forall|j: int| 0 <= j < p ==> lex_lt(#[trigger] before[j], x@),
        decreases v.len() - p,
    {
        p = p + 1;
    }
    if p < v.len() && !less(&x, &v[p]) {
        proof {
            lemma_lex_total(x@, before[p as int]);
        }
        assert(before[p as int] == x@);
        assert(before.to_set().insert(x@) =~= before.to_set());
        return;
    }
    proof {
        if p < v@.len() {
            assert(lex_lt(x@, before[p as int]));
        }
    }
    v.insert(p, x);
    proof {
        let after = views(v@);
        assert(after =~= before.take(p as int) + seq![x@] + before.skip(p as int));
        assert forall|i: int, j: int| 0 <= i < j < after.len() implies lex_lt(
            #[trigger] after[i],
            #[trigger] after[j],
        ) by {
            if j < p {
                assert(after[i] == before[i] && after[j] == before[j]);
            } else if j == p {
                assert(after[i] == before[i]);
            } else if i == p {
                assert(after[j] == before[j - 1]);
                if j - 1 > p {
                    lemma_lex_transitive(x@, before[p as int], before[j - 1]);
                }
            } else if i < p {
                assert(after[i] == before[i] && after[j] == before[j - 1]);
            } else {
                assert(after[i] == before[i - 1] && after[j] == before[j - 1]);
            }
        }
        assert(after.to_set() =~= before.to_set().insert(x@)) by {
            assert forall|y: Seq<char>| after.to_set().contains(y) implies before.to_set().insert(
                x@,
            ).contains(y) by {
                let k = choose|k: int| 0 <= k < after.len() && after[k] == y;
                if k < p {
                    assert(before[k] == y);
                } else if k > p {
                    assert(before[k - 1] == y);
                }
            }
            assert forall|y: Seq<char>| before.to_set().insert(x@).contains(y) implies after.to_set().contains(
                y,
            ) by {
                if y == x@ {
                    assert(after[p as int] == y);
                } else {
                    let k = choose|k: int| 0 <= k < before.len() && before[k] == y;
                    if k < p {
                        assert(after[k] == y);
                    } else {
                        assert(after[k + 1] == y);
                    }
                }
            }
        }
    }
}

} // verus!

verus! {

/// The decimal digits of a number read back give the number.
pub proof fn lemma_decimal_value(n: nat)
    ensures
        digits_value(decimal(n)) == n,
        decimal(n).len() > 0,
    decreases n,
{
    if n >= 10 {
        lemma_decimal_value(n / 10);
        let d = decimal(n / 10).push(digit_char(n % 10));
        assert(d.drop_last() == decimal(n / 10));
        assert(d.last() == digit_char(n % 10));
        assert(digit_value(digit_char(n % 10)) == n % 10);
        assert(digits_value(d) == digits_value(decimal(n / 10)) * 10 + digit_value(d.last()));
        assert((n / 10) * 10 + n % 10 == n) by (nonlinear_arith);
        assert(decimal(n) == d);
    } else {
        let d = seq![digit_char(n)];
        assert(d.drop_last() =~= Seq::<char>::empty());
        assert(digit_value(digit_char(n)) == n);
        assert(decimal(n) == d);
        assert(digits_value(d) == digits_value(d.drop_last()) * 10 + digit_value(d.last()));
    }
}

/// Two numbers with the same decimal digits are equal.
pub proof fn lemma_decimal_injective(n: nat, m: nat)
    requires
        decimal(n) == decimal(m),
    ensures
        n == m,
{
    lemma_decimal_value(n);
    lemma_decimal_value(m);
}

} // verus!
