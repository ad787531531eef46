//! A Markdown document built line by line, and the inline rules its lines
//! follow: addresses as autolinks, code spans, labels of links.
use vstd::prelude::*;

use super::escape::{opened, opened_of, titled, titled_of};
use crate::text::{
    Class, chars_of, decimal, decimal_of, join, join_chars, join_strings, lines, lines_of, put,
    is_space, lemma_tail_run, put_repeat, put_str, repeat, string_of, tail, tail_len, texts,
    trim_end_by, trim_end_chars, views, words, words_of,
};

verus! {

/// The lines with a blank line after them, unless they are empty or end in one.
pub open spec fn gapped(ls: Seq<Seq<char>>) -> Seq<Seq<char>> {
    if ls.len() > 0 && ls.last().len() > 0 {
        ls.push(Seq::<char>::empty())
    } else {
        ls
    }
}

/// The lines without the blank lines at their end.
pub open spec fn unpadded(ls: Seq<Seq<char>>) -> Seq<Seq<char>>
    decreases ls.len(),
{
    if ls.len() > 0 && ls.last().len() == 0 {
        unpadded(ls.drop_last())
    } else {
        ls
    }
}

/// A heading of `level` with `text`: nothing where the text comes out empty.
pub open spec fn heading_of(ls: Seq<Seq<char>>, level: nat, text: Seq<char>) -> Seq<Seq<char>> {
    let t = titled_of(flat_of(text));
    if t.len() == 0 {
        ls
    } else {
        gapped(ls).push(repeat('#', level) + seq![' '] + t)
    }
}

/// A paragraph of one line.
pub open spec fn line_of(ls: Seq<Seq<char>>, text: Seq<char>) -> Seq<Seq<char>> {
    gapped(ls).push(opened_of(flat_of(text)))
}

/// Lines as they are, as a block of their own: nothing where there are none.
pub open spec fn raw_of(ls: Seq<Seq<char>>, more: Seq<Seq<char>>) -> Seq<Seq<char>> {
    if more.len() == 0 {
        ls
    } else {
        gapped(ls) + more
    }
}

/// The items as a bulleted list.
pub open spec fn bulleted(items: Seq<Seq<char>>) -> Seq<Seq<char>> {
    items.map_values(|x: Seq<char>| seq!['-', ' '] + opened_of(x))
}

/// The items as a numbered list, from 1.
pub open spec fn counted(items: Seq<Seq<char>>) -> Seq<Seq<char>> {
    Seq::new(items.len(), |i: int| decimal((i + 1) as nat) + seq!['.', ' '] + opened_of(items[i]))
}

/// The text of a document: its lines joined, the blank ones at the end left out,
/// and a line break at the end.
pub open spec fn text_of(ls: Seq<Seq<char>>) -> Seq<char> {
    join(unpadded(ls), seq!['\n']) + seq!['\n']
}

/// A Markdown document, line by line.
#[derive(Debug)]
pub struct Doc {
    lines: Vec<String>,
}

impl View for Doc {
    type V = Seq<Seq<char>>;

    closed spec fn view(&self) -> Seq<Seq<char>> {
        texts(self.lines@)
    }
}

impl Default for Doc {
    fn default() -> (d: Self)
        ensures
            d@ == Seq::<Seq<char>>::empty(),
    {
        let d = Doc { lines: Vec::new() };
        assert(d@ =~= Seq::<Seq<char>>::empty());
        d
    }
}

impl Doc {
    /// A heading of `level` with `text`, made flat and fit for a heading.
    pub fn heading(&mut self, level: usize, text: &str)
        ensures
            final(self)@ == heading_of(old(self)@, level as nat, text@),
    {
        let flat = flat(text);
        let t = titled(flat.as_str());
        let tc = chars_of(t.as_str());
        if tc.len() == 0 {
            return;
        }
        self.gap();
        let mut line: Vec<char> = Vec::new();
        put_repeat(&mut line, '#', level);
        line.push(' ');
        put(&mut line, tc.as_slice());
        let ghost before = self@;
        assert(line@ =~= repeat('#', level as nat) + seq![' '] + titled_of(flat_of(text@)));
        self.lines.push(string_of(line.as_slice()));
        assert(self@ =~= before.push(line@));
    }

    /// A paragraph of one line, made flat and kept from opening a block.
    pub fn line(&mut self, text: &str)
        ensures
            final(self)@ == line_of(old(self)@, text@),
    {
        self.gap();
        let flat = flat(text);
        let ghost before = self@;
        self.lines.push(opened(flat.as_str()));
        assert(self@ =~= before.push(opened_of(flat_of(text@))));
    }

    /// The items as a bulleted list.
    pub fn bullets(&mut self, items: &[String])
        ensures
            final(self)@ == raw_of(old(self)@, bulleted(texts(items@))),
    {
        let mut out: Vec<String> = Vec::new();
        let mut i: usize = 0;
        while i < items.len()
            invariant
                i <= items@.len(),
                texts(out@) == bulleted(texts(items@)).take(i as int),
            decreases items.len() - i,
        {
            let mut line: Vec<char> = Vec::new();
            line.push('-');
            line.push(' ');
            let o = opened(items[i].as_str());
            put_str(&mut line, o.as_str());
            let ghost before = texts(out@);
            assert(line@ == seq!['-', ' '] + opened_of(texts(items@)[i as int]));
            out.push(string_of(line.as_slice()));
            assert(texts(out@) =~= before.push(line@));
            i = i + 1;
            assert(texts(out@) =~= bulleted(texts(items@)).take(i as int));
        }
        assert(bulleted(texts(items@)).take(i as int) =~= bulleted(texts(items@)));
        self.raw(out);
    }

    /// The items as a list numbered from 1.
    pub fn numbered(&mut self, items: &[String])
        ensures
            final(self)@ == raw_of(old(self)@, counted(texts(items@))),
    {
        let mut out: Vec<String> = Vec::new();
        let mut i: usize = 0;
        while i < items.len()
            invariant
                i <= items@.len(),
                texts(out@) == counted(texts(items@)).take(i as int),
            decreases items.len() - i,
        {
            let mut line: Vec<char> = Vec::new();
            let n = decimal_of((i + 1) as u64);
            put_str(&mut line, n.as_str());
            line.push('.');
            line.push(' ');
            let o = opened(items[i].as_str());
            put_str(&mut line, o.as_str());
            let ghost before = texts(out@);
            assert(line@ == decimal((i + 1) as nat) + seq!['.', ' '] + opened_of(texts(items@)[i as int]));
            out.push(string_of(line.as_slice()));
            assert(texts(out@) =~= before.push(line@));
            i = i + 1;
            assert(texts(out@) =~= counted(texts(items@)).take(i as int));
        }
        assert(counted(texts(items@)).take(i as int) =~= counted(texts(items@)));
        self.raw(out);
    }

    /// Lines as they are, as a block of their own.
    pub fn raw(&mut self, lines: Vec<String>)
        ensures
            final(self)@ == raw_of(old(self)@, texts(lines@)),
    {
        if lines.len() == 0 {
            assert(texts(lines@) =~= Seq::<Seq<char>>::empty());
            return;
        }
        self.gap();
        let ghost before = self@;
        let mut i: usize = 0;
        while i < lines.len()
            invariant
                i <= lines@.len(),
                self@ == before + texts(lines@).take(i as int),
            decreases lines.len() - i,
        {
            let ghost mid = self@;
            self.lines.push(lines[i].clone());
            assert(self@ =~= mid.push(lines@[i as int]@));
            i = i + 1;
            assert(texts(lines@).take(i as int) =~= texts(lines@).take(i - 1).push(lines@[i - 1]@));
            assert(self@ =~= before + texts(lines@).take(i as int));
        }
        assert(texts(lines@).take(i as int) =~= texts(lines@));
    }

    /// A block of text as it stands, line by line: nothing where it has no lines.
    pub fn block(&mut self, text: &str)
        ensures
            final(self)@ == raw_of(old(self)@, lines(text@)),
    {
        let c = chars_of(text);
        let ls = lines_of(c.as_slice());
        let mut out: Vec<String> = Vec::new();
        let mut i: usize = 0;
        while i < ls.len()
            invariant
                i <= ls@.len(),
                texts(out@) == views(ls@).take(i as int),
            decreases ls.len() - i,
        {
            let ghost was = texts(out@);
            out.push(string_of(ls[i].as_slice()));
            assert(texts(out@) =~= was.push(ls@[i as int]@));
            i = i + 1;
            assert(views(ls@).take(i as int) =~= views(ls@).take(i - 1).push(ls@[i - 1]@));
        }
        assert(views(ls@).take(i as int) =~= views(ls@));
        self.raw(out);
    }

    /// The document as text.
    pub fn text(self) -> (out: String)
        ensures
            out@ == text_of(self@),
    {
        let ghost whole = self@;
        let mut lines = self.lines;
        assert(texts(lines@) == whole);
        while lines.len() > 0 && lines[lines.len() - 1].as_str().unicode_len() == 0
            invariant
                unpadded(texts(lines@)) == unpadded(whole),
            decreases lines.len(),
        {
            let ghost before = texts(lines@);
            assert(before.last().len() == 0);
            lines.pop();
            assert(texts(lines@) =~= before.drop_last());
        }
        assert(unpadded(texts(lines@)) == texts(lines@));
        let mut out = join_strings(&lines, "\n");
        proof {
            reveal_strlit("\n");
            assert("\n"@ =~= seq!['\n']);
        }
        crate::text::push_char(&mut out, '\n');
        out
    }

    fn gap(&mut self)
        ensures
            final(self)@ == gapped(old(self)@),
    {
        let n = self.lines.len();
        if n > 0 && self.lines[n - 1].as_str().unicode_len() > 0 {
            let ghost before = self@;
            self.lines.push(String::new());
            assert(self@ =~= before.push(Seq::<char>::empty()));
        }
    }
}

/// The number of times `c` occurs in `s`.
pub open spec fn count_of(s: Seq<char>, c: char) -> nat
    decreases s.len(),
{
    if s.len() == 0 {
        0
    } else {
        count_of(s.drop_last(), c) + if s.last() == c {
            1nat
        } else {
            0nat
        }
    }
}

/// Whether the words leave a code span open: an odd count of backticks in an
/// odd count of them.
pub open spec fn spanning(ws: Seq<Seq<char>>) -> bool
    decreases ws.len(),
{
    if ws.len() == 0 {
        false
    } else {
        spanning(ws.drop_last()) != (count_of(ws.last(), '`') % 2 == 1)
    }
}

/// The words, each outside a code span with its address made a link.
pub open spec fn flat_words(ws: Seq<Seq<char>>) -> Seq<Seq<char>>
    decreases ws.len(),
{
    if ws.len() == 0 {
        Seq::<Seq<char>>::empty()
    } else {
        flat_words(ws.drop_last()).push(
            if spanning(ws.drop_last()) {
                ws.last()
            } else {
                linked_of(ws.last())
            },
        )
    }
}

/// Text on one line: its words joined by one space, addresses outside code spans as links.
pub open spec fn flat_of(s: Seq<char>) -> Seq<char> {
    join(flat_words(words(s)), seq![' '])
}

fn odd_ticks(w: &Vec<char>) -> (r: bool)
    ensures
        r == (count_of(w@, '`') % 2 == 1),
{
    let mut odd = false;
    let mut i: usize = 0;
    while i < w.len()
        invariant
            i <= w@.len(),
            odd == (count_of(w@.take(i as int), '`') % 2 == 1),
        decreases w.len() - i,
    {
        assert(w@.take(i + 1).drop_last() == w@.take(i as int));
        if w[i] == '`' {
            odd = !odd;
        }
        i = i + 1;
    }
    assert(w@.take(w@.len() as int) == w@);
    odd
}

/// Text on one line.
pub fn flat(text: &str) -> (out: String)
    ensures
        out@ == flat_of(text@),
{
    let s = chars_of(text);
    let ws = words_of(s.as_slice());
    let mut out: Vec<Vec<char>> = Vec::new();
    let mut spanned = false;
    let mut i: usize = 0;
    while i < ws.len()
        invariant
            i <= ws@.len(),
            views(out@) == flat_words(views(ws@).take(i as int)),
            spanned == spanning(views(ws@).take(i as int)),
        decreases ws.len() - i,
    {
        let ghost w = views(ws@);
        assert(w.take(i + 1).drop_last() == w.take(i as int));
        assert(w.take(i + 1).last() == ws@[i as int]@);
        let word = &ws[i];
        if spanned {
            let mut copy: Vec<char> = Vec::new();
            put(&mut copy, word.as_slice());
            out.push(copy);
        } else {
            out.push(linked(word));
        }
        if odd_ticks(word) {
            spanned = !spanned;
        }
        i = i + 1;
        assert(views(out@) =~= flat_words(views(ws@).take(i as int)));
    }
    assert(views(ws@).take(i as int) == views(ws@));
    let r = join_chars(&out, " ");
    proof {
        reveal_strlit(" ");
        assert(" "@ =~= seq![' ']);
    }
    r
}

/// `s` holds `p` from `at` on.
pub open spec fn has_at(s: Seq<char>, at: int, p: Seq<char>) -> bool {
    0 <= at && at + p.len() <= s.len() && s.subrange(at, at + p.len() as int) == p
}

/// An address opens at `at`.
pub open spec fn scheme_at(s: Seq<char>, at: int) -> bool {
    has_at(s, at, seq!['h', 't', 't', 'p', ':', '/', '/']) || has_at(
        s,
        at,
        seq!['h', 't', 't', 'p', 's', ':', '/', '/'],
    )
}

/// The first place from `from` on where an address opens.
pub open spec fn scheme_from(s: Seq<char>, from: int) -> Option<int>
    decreases s.len() - from,
{
    if from < 0 || from >= s.len() {
        None
    } else if scheme_at(s, from) {
        Some(from)
    } else {
        scheme_from(s, from + 1)
    }
}

/// `s` holds `]` right before `(`.
pub open spec fn has_link_mark(s: Seq<char>) -> bool {
    exists|i: int| 0 <= i < s.len() - 1 && #[trigger] s[i] == ']' && s[i + 1] == '('
}

/// A word with the address in it made an autolink, the punctuation that follows
/// it left outside; a word whose address already stands in a link is left alone.
pub open spec fn linked_of(w: Seq<char>) -> Seq<char> {
    match scheme_from(w, 0) {
        None => w,
        Some(h) => {
            let pre = w.take(h);
            if has_link_mark(pre) || pre.contains('<') {
                w
            } else {
                let bare = w.skip(h);
                let url = trim_end_by(bare, Class::Trailing);
                pre + seq!['<'] + url + seq!['>'] + bare.skip(url.len() as int)
            }
        },
    }
}

proof fn lemma_scheme_from(s: Seq<char>, q: int, p: int)
    requires
        0 <= q <= p <= s.len(),
        forall|k: int| q <= k < p ==> !scheme_at(s, k),
    ensures
        scheme_from(s, q) == scheme_from(s, p),
    decreases p - q,
{
    if q < p {
        lemma_scheme_from(s, q + 1, p);
    }
}

fn opens_at(w: &Vec<char>, at: usize) -> (r: bool)
    requires
        at < w@.len(),
    ensures
        r == scheme_at(w@, at as int),
{
    let n = w.len();
    let http = n - at >= 7 && w[at] == 'h' && w[at + 1] == 't' && w[at + 2] == 't' && w[at + 3]
        == 'p' && w[at + 4] == ':' && w[at + 5] == '/' && w[at + 6] == '/';
    let https = n - at >= 8 && w[at] == 'h' && w[at + 1] == 't' && w[at + 2] == 't' && w[at + 3]
        == 'p' && w[at + 4] == 's' && w[at + 5] == ':' && w[at + 6] == '/' && w[at + 7] == '/';
    proof {
        let a = at as int;
        if at + 7 <= n {
            assert(http == (w@.subrange(a, a + 7) =~= seq!['h', 't', 't', 'p', ':', '/', '/']));
        }
        if at + 8 <= n {
            assert(https == (w@.subrange(a, a + 8) =~= seq![
                'h',
                't',
                't',
                'p',
                's',
                ':',
                '/',
                '/',
            ]));
        }
    }
    http || https
}

/// A word with its address as an autolink.
fn linked(w: &Vec<char>) -> (out: Vec<char>)
    ensures
        out@ == linked_of(w@),
{
    let mut h: usize = 0;
    while h < w.len() && !opens_at(w, h)
        invariant
            h <= w@.len(),
            forall|k: int| 0 <= k < h ==> !scheme_at(w@, k),
        decreases w.len() - h,
    {
        h = h + 1;
    }
    proof {
        lemma_scheme_from(w@, 0, h as int);
    }
    let mut copy: Vec<char> = Vec::new();
    if h == w.len() {
        put(&mut copy, w.as_slice());
        return copy;
    }
    let mut marked = false;
    let mut k: usize = 0;
    while k < h
        invariant
            k <= h < w@.len(),
            marked == (exists|i: int|
                0 <= i < k && (#[trigger] w@[i] == '<' || (i + 1 < h && w@[i] == ']' && w@[i + 1]
                    == '('))),
        decreases h - k,
    {
        if w[k] == '<' || (k + 1 < h && w[k] == ']' && w[k + 1] == '(') {
            marked = true;
        }
        k = k + 1;
    }
    proof {
        let pre = w@.take(h as int);
        assert(marked == (has_link_mark(pre) || pre.contains('<'))) by {
            if marked {
                let i = choose|i: int|
                    0 <= i < h && (#[trigger] w@[i] == '<' || (i + 1 < h && w@[i] == ']' && w@[i
                        + 1] == '('));
                if w@[i] == '<' {
                    assert(pre[i] == '<');
                } else {
                    assert(pre[i] == ']' && pre[i + 1] == '(');
                }
            }
            if has_link_mark(pre) {
                let i = choose|i: int| 0 <= i < pre.len() - 1 && #[trigger] pre[i] == ']' && pre[i + 1] == '(';
                assert(w@[i] == ']' && w@[i + 1] == '(');
            }
            if pre.contains('<') {
                let i = choose|i: int| 0 <= i < pre.len() && pre[i] == '<';
                assert(w@[i] == '<');
            }
        }
    }
    if marked {
        put(&mut copy, w.as_slice());
        return copy;
    }
    let bare = crate::text::slice(w.as_slice(), h, w.len());
    let cut = bare.len() - tail_len(bare.as_slice(), &Class::Trailing);
    let url = crate::text::slice(bare.as_slice(), 0, cut);
    assert(url@ == trim_end_by(bare@, Class::Trailing));
    let pre = crate::text::slice(w.as_slice(), 0, h);
    let mut out: Vec<char> = Vec::new();
    put(&mut out, pre.as_slice());
    out.push('<');
    put(&mut out, url.as_slice());
    out.push('>');
    let rest = crate::text::slice(bare.as_slice(), url.len(), bare.len());
    put(&mut out, rest.as_slice());
    proof {
        assert(bare@ == w@.skip(h as int));
        assert(pre@ == w@.take(h as int));
        assert(rest@ == bare@.skip(url@.len() as int));
    }
    out
}

/// `\`, `[` and `]` escaped with a backslash.
pub open spec fn bracketed(s: Seq<char>) -> Seq<char>
    decreases s.len(),
{
    if s.len() == 0 {
        Seq::<char>::empty()
    } else {
        bracketed(s.drop_last()) + if s.last() == '\\' || s.last() == '[' || s.last() == ']' {
            seq!['\\', s.last()]
        } else {
            seq![s.last()]
        }
    }
}

/// The label of a link: the words of the text on one line, brackets and backslashes escaped.
pub open spec fn label_of(s: Seq<char>) -> Seq<char> {
    bracketed(join(words(s), seq![' ']))
}

pub fn label(text: &str) -> (out: String)
    ensures
        out@ == label_of(text@),
{
    let s = chars_of(text);
    let ws = words_of(s.as_slice());
    let joined = join_chars(&ws, " ");
    proof {
        reveal_strlit(" ");
        assert(" "@ =~= seq![' ']);
    }
    let j = chars_of(joined.as_str());
    let mut out: Vec<char> = Vec::new();
    let mut i: usize = 0;
    while i < j.len()
        invariant
            i <= j@.len(),
            out@ == bracketed(j@.take(i as int)),
        decreases j.len() - i,
    {
        assert(j@.take(i + 1).drop_last() == j@.take(i as int));
        let c = j[i];
        if c == '\\' || c == '[' || c == ']' {
            out.push('\\');
        }
        out.push(c);
        i = i + 1;
    }
    assert(j@.take(j@.len() as int) == j@);
    string_of(out.as_slice())
}

/// The longest run of backticks in `s`.
pub open spec fn longest_of(s: Seq<char>) -> nat
    decreases s.len(),
{
    if s.len() == 0 {
        0
    } else {
        let before = longest_of(s.drop_last());
        let run = tail(s, Class::Is('`'));
        if run > before {
            run
        } else {
            before
        }
    }
}

pub fn longest(text: &str) -> (n: usize)
    ensures
        n == longest_of(text@),
{
    let s = chars_of(text);
    longest_in(&s)
}

fn longest_in(s: &Vec<char>) -> (n: usize)
    ensures
        n == longest_of(s@),
        n <= s@.len(),
{
    let mut best: usize = 0;
    let mut run: usize = 0;
    let mut i: usize = 0;
    while i < s.len()
        invariant
            i <= s@.len(),
            best == longest_of(s@.take(i as int)),
            run == tail(s@.take(i as int), Class::Is('`')),
            run <= i,
            best <= i,
        decreases s.len() - i,
    {
        let ghost t = s@.take(i + 1);
        assert(t.drop_last() == s@.take(i as int));
        if s[i] == '`' {
            run = run + 1;
        } else {
            run = 0;
        }
        assert(run == tail(t, Class::Is('`')));
        if run > best {
            best = run;
        }
        i = i + 1;
    }
    assert(s@.take(s@.len() as int) == s@);
    best
}

/// Code on one line as a code span: fenced by one backtick more than its longest
/// run, padded with a space where it opens or closes with a backtick.
pub open spec fn spanned_of(code: Seq<char>) -> Seq<char> {
    let c = join(lines(code), seq![' ']);
    let ticks = repeat('`', longest_of(c) + 1);
    let pad = if c.len() > 0 && (c[0] == '`' || c.last() == '`') {
        seq![' ']
    } else {
        Seq::<char>::empty()
    };
    ticks + pad + c + pad + ticks
}

pub fn spanned(code: &str) -> (out: String)
    ensures
        out@ == spanned_of(code@),
{
    let s = chars_of(code);
    let ls = lines_of(s.as_slice());
    let joined = join_chars(&ls, " ");
    proof {
        reveal_strlit(" ");
        assert(" "@ =~= seq![' ']);
    }
    let c = chars_of(joined.as_str());
    let n = longest_in(&c);
    let padded = c.len() > 0 && (c[0] == '`' || c[c.len() - 1] == '`');
    let mut out: Vec<char> = Vec::new();
    let mut ticks: Vec<char> = Vec::new();
    put_repeat(&mut ticks, '`', n);
    ticks.push('`');
    assert(ticks@ =~= repeat('`', (n + 1) as nat));
    put(&mut out, ticks.as_slice());
    if padded {
        out.push(' ');
    }
    put(&mut out, c.as_slice());
    if padded {
        out.push(' ');
    }
    put(&mut out, ticks.as_slice());
    proof {
        let pad = if padded {
            seq![' ']
        } else {
            Seq::<char>::empty()
        };
        assert(out@ =~= ticks@ + pad + c@ + pad + ticks@);
    }
    string_of(out.as_slice())
}

/// No character of `x` is a blank.
pub open spec fn blankless(x: Seq<char>) -> bool {
    forall|i: int| 0 <= i < x.len() ==> !is_space(#[trigger] x[i])
}

proof fn lemma_words_blankless(s: Seq<char>)
    ensures
        forall|k: int| 0 <= k < words(s).len() ==> blankless(#[trigger] words(s)[k]),
    decreases s.len(),
{
    if s.len() > 0 {
        let t = s.drop_last();
        lemma_words_blankless(t);
        let w = words(t);
        let c = s.last();
        if !is_space(c) {
            if s.len() > 1 && !is_space(s[s.len() - 2]) {
                crate::text::lemma_words_nonempty(t);
                assert(t.last() == s[s.len() - 2]);
                assert forall|k: int| 0 <= k < words(s).len() implies blankless(#[trigger] words(s)[k]) by {
                    if k == w.len() - 1 {
                        let x = w.last().push(c);
                        assert(blankless(w[w.len() - 1]));
                        assert forall|i: int| 0 <= i < x.len() implies !is_space(#[trigger] x[i]) by {
                            if i < x.len() - 1 {
                                assert(x[i] == w[w.len() - 1][i]);
                            }
                        }
                    } else {
                        assert(words(s)[k] == w[k]);
                    }
                }
            } else {
                assert forall|k: int| 0 <= k < words(s).len() implies blankless(#[trigger] words(s)[k]) by {
                    if k < w.len() {
                        assert(words(s)[k] == w[k]);
                    } else {
                        assert(words(s)[k] == seq![c]);
                    }
                }
            }
        }
    }
}

proof fn lemma_linked_blankless(w: Seq<char>)
    requires
        blankless(w),
    ensures
        blankless(linked_of(w)),
{
    match scheme_from(w, 0) {
        None => {},
        Some(h) => {
            lemma_scheme_bounds(w, 0);
            let pre = w.take(h);
            if !(has_link_mark(pre) || pre.contains('<')) {
                let bare = w.skip(h);
                lemma_tail_run(bare, Class::Trailing);
                let url = trim_end_by(bare, Class::Trailing);
                let rest = bare.skip(url.len() as int);
                let r = linked_of(w);
                assert(r == pre + seq!['<'] + url + seq!['>'] + rest);
                assert forall|i: int| 0 <= i < r.len() implies !is_space(#[trigger] r[i]) by {
                    let a = pre.len() as int;
                    let b = a + 1 + url.len();
                    if i < a {
                        assert(r[i] == w[i]);
                    } else if i == a {
                        assert(r[i] == '<');
                    } else if i < b {
                        assert(r[i] == url[i - a - 1]);
                        assert(url[i - a - 1] == w[h + i - a - 1]);
                    } else if i == b {
                        assert(r[i] == '>');
                    } else {
                        assert(r[i] == rest[i - b - 1]);
                        assert(rest[i - b - 1] == w[h + url.len() + i - b - 1]);
                    }
                }
            }
        },
    }
}

proof fn lemma_scheme_bounds(s: Seq<char>, from: int)
    ensures
        scheme_from(s, from) matches Some(h) ==> from <= h < s.len(),
    decreases s.len() - from,
{
    if 0 <= from < s.len() && !scheme_at(s, from) {
        lemma_scheme_bounds(s, from + 1);
    }
}

proof fn lemma_flat_words_blankless(ws: Seq<Seq<char>>)
    requires
        forall|k: int| 0 <= k < ws.len() ==> blankless(#[trigger] ws[k]),
    ensures
        forall|k: int| 0 <= k < flat_words(ws).len() ==> blankless(#[trigger] flat_words(ws)[k]),
        flat_words(ws).len() == ws.len(),
    decreases ws.len(),
{
    if ws.len() > 0 {
        let t = ws.drop_last();
        assert forall|k: int| 0 <= k < t.len() implies blankless(#[trigger] t[k]) by {
            assert(t[k] == ws[k]);
        }
        lemma_flat_words_blankless(t);
        assert(blankless(ws[ws.len() - 1]));
        lemma_linked_blankless(ws.last());
        assert forall|k: int| 0 <= k < flat_words(ws).len() implies blankless(#[trigger] flat_words(ws)[k]) by {
            if k < t.len() {
                assert(flat_words(ws)[k] == flat_words(t)[k]);
            }
        }
    }
}

proof fn lemma_join_blanks(parts: Seq<Seq<char>>)
    requires
        forall|k: int| 0 <= k < parts.len() ==> blankless(#[trigger] parts[k]),
    ensures
        forall|i: int|
            0 <= i < join(parts, seq![' ']).len() && is_space(#[trigger] join(parts, seq![' '])[i]) ==> join(
                parts,
                seq![' '],
            )[i] == ' ',
    decreases parts.len(),
{
    if parts.len() == 1 {
        assert(blankless(parts[0]));
    } else if parts.len() > 1 {
        let t = parts.drop_last();
        assert forall|k: int| 0 <= k < t.len() implies blankless(#[trigger] t[k]) by {
            assert(t[k] == parts[k]);
        }
        lemma_join_blanks(t);
        let a = join(t, seq![' ']);
        let j = join(parts, seq![' ']);
        assert(j == a + seq![' '] + parts.last());
        assert(blankless(parts[parts.len() - 1]));
        assert forall|i: int| 0 <= i < j.len() && is_space(#[trigger] j[i]) implies j[i] == ' ' by {
            if i < a.len() {
                assert(j[i] == a[i]);
            } else if i > a.len() {
                assert(j[i] == parts.last()[i - a.len() - 1]);
            }
        }
    }
}

/// Flattened text is one line: every blank left in it is a plain space.
pub proof fn flat_is_one_line(s: Seq<char>)
    ensures
        forall|i: int| 0 <= i < flat_of(s).len() && is_space(#[trigger] flat_of(s)[i]) ==> flat_of(s)[i] == ' ',
        !flat_of(s).contains('\n'),
{
    lemma_words_blankless(s);
    lemma_flat_words_blankless(words(s));
    lemma_join_blanks(flat_words(words(s)));
    if flat_of(s).contains('\n') {
        let i = choose|i: int| 0 <= i < flat_of(s).len() && flat_of(s)[i] == '\n';
        assert(is_space(flat_of(s)[i]));
    }
}

proof fn lemma_words_nonempty_all(s: Seq<char>)
    ensures
        forall|k: int| 0 <= k < words(s).len() ==> (#[trigger] words(s)[k]).len() > 0,
    decreases s.len(),
{
    if s.len() > 0 {
        let t = s.drop_last();
        lemma_words_nonempty_all(t);
        crate::text::lemma_words_nonempty(t);
        let w = words(t);
        assert forall|k: int| 0 <= k < words(s).len() implies (#[trigger] words(s)[k]).len() > 0 by {
            if k < w.len() && !(k == w.len() - 1 && !is_space(s.last()) && s.len() > 1 && !is_space(s[s.len() - 2])) {
                assert(words(s)[k] == w[k]);
            }
        }
    }
}

/// A blank, then a word, adds that word.
proof fn lemma_words_after_blank(x: Seq<char>, b: Seq<char>)
    requires
        b.len() > 0,
        blankless(b),
    ensures
        words(x.push(' ') + b) == words(x).push(b),
    decreases b.len(),
{
    let y = x.push(' ');
    assert(y.drop_last() =~= x);
    assert(is_space(' '));
    assert(words(y) == words(x));
    if b.len() == 1 {
        let z = y + b;
        assert(z.drop_last() =~= y);
        assert(z.last() == b[0]);
        assert(!is_space(b[0]));
        assert(z[z.len() - 2] == ' ');
        assert(seq![b[0]] =~= b);
    } else {
        let b0 = b.drop_last();
        assert(blankless(b0)) by {
            assert forall|i: int| 0 <= i < b0.len() implies !is_space(#[trigger] b0[i]) by {
                assert(b0[i] == b[i]);
            }
        }
        lemma_words_after_blank(x, b0);
        let z = y + b;
        assert(z.drop_last() =~= y + b0);
        assert(z.last() == b[b.len() - 1]);
        assert(!is_space(b[b.len() - 1]));
        assert(z[z.len() - 2] == b[b.len() - 2]);
        assert(!is_space(b[b.len() - 2]));
        let w = words(y + b0);
        assert(w == words(x).push(b0));
        assert(w.update(w.len() - 1, w.last().push(z.last())) =~= words(x).push(b)) by {
            assert(b0.push(b.last()) =~= b);
        }
    }
}

/// Words that have no blank in them, joined by single spaces, split back into
/// those words.
proof fn lemma_words_join(ws: Seq<Seq<char>>)
    requires
        forall|k: int| 0 <= k < ws.len() ==> blankless(#[trigger] ws[k]) && ws[k].len() > 0,
    ensures
        words(join(ws, seq![' '])) == ws,
    decreases ws.len(),
{
    if ws.len() == 0 {
        assert(words(Seq::<char>::empty()) =~= ws);
    } else if ws.len() == 1 {
        assert(blankless(ws[0]) && ws[0].len() > 0);
        lemma_words_after_blank(Seq::empty(), ws[0]);
        let e = Seq::<char>::empty();
        assert(words(e.push(' ')) =~= Seq::<Seq<char>>::empty()) by {
            assert(e.push(' ').drop_last() =~= e);
        }
        lemma_words_lead_blank(ws[0]);
        assert(Seq::<Seq<char>>::empty().push(ws[0]) =~= ws);
    } else {
        let t = ws.drop_last();
        assert forall|k: int| 0 <= k < t.len() implies blankless(#[trigger] t[k]) && t[k].len() > 0 by {
            assert(t[k] == ws[k]);
        }
        lemma_words_join(t);
        assert(blankless(ws[ws.len() - 1]) && ws[ws.len() - 1].len() > 0);
        let j = join(t, seq![' ']);
        assert(join(ws, seq![' ']) =~= j.push(' ') + ws.last());
        lemma_words_after_blank(j, ws.last());
        assert(t.push(ws.last()) =~= ws);
    }
}

/// A blank at the start changes no word.
proof fn lemma_words_lead_blank(b: Seq<char>)
    requires
        b.len() > 0,
        blankless(b),
    ensures
        words(seq![' '] + b) == words(b),
        words(b) == seq![b],
    decreases b.len(),
{
    let e = Seq::<char>::empty();
    lemma_words_after_blank(e, b);
    assert(e.push(' ') + b =~= seq![' '] + b);
    assert(words(e.push(' ')) =~= Seq::<Seq<char>>::empty()) by {
        assert(e.push(' ').drop_last() =~= e);
    }
    lemma_words_single(b);
    assert(Seq::<Seq<char>>::empty().push(b) =~= seq![b]);
}

proof fn lemma_words_single(b: Seq<char>)
    requires
        b.len() > 0,
        blankless(b),
    ensures
        words(b) == seq![b],
    decreases b.len(),
{
    if b.len() == 1 {
        assert(b.drop_last() =~= Seq::<char>::empty());
        assert(words(b.drop_last()) == Seq::<Seq<char>>::empty());
        assert(!is_space(b[0]));
        assert(b.last() == b[0]);
        assert(seq![b.last()] =~= b);
        assert(words(b) == Seq::<Seq<char>>::empty().push(seq![b.last()]));
        assert(Seq::<Seq<char>>::empty().push(seq![b.last()]) =~= seq![b]);
    } else {
        let b0 = b.drop_last();
        assert(blankless(b0)) by {
            assert forall|i: int| 0 <= i < b0.len() implies !is_space(#[trigger] b0[i]) by {
                assert(b0[i] == b[i]);
            }
        }
        lemma_words_single(b0);
        assert(!is_space(b[b.len() - 1]) && !is_space(b[b.len() - 2]));
        assert(b.last() == b[b.len() - 1]);
        assert(seq![b0].update(0, b0.push(b.last())) =~= seq![b]) by {
            assert(b0.push(b.last()) =~= b);
        }
    }
}

proof fn lemma_count_concat(a: Seq<char>, b: Seq<char>, c: char)
    ensures
        count_of(a + b, c) == count_of(a, c) + count_of(b, c),
    decreases b.len(),
{
    if b.len() == 0 {
        assert(a + b =~= a);
    } else {
        lemma_count_concat(a, b.drop_last(), c);
        assert((a + b).drop_last() =~= a + b.drop_last());
        assert((a + b).last() == b.last());
    }
}

/// Where `scheme_from` finds an address, none opens before it.
proof fn lemma_scheme_first(s: Seq<char>, from: int)
    ensures
        scheme_from(s, from) matches Some(h) ==> scheme_at(s, h) && from <= h < s.len() && forall|p: int|
            from <= p < h ==> !#[trigger] scheme_at(s, p),
    decreases s.len() - from,
{
    if 0 <= from < s.len() && !scheme_at(s, from) {
        lemma_scheme_first(s, from + 1);
    }
}

/// What `linked_of` writes for a word with an address: the word split at the
/// address, and the address without its trailing marks.
pub open spec fn link_parts(w: Seq<char>, h: int) -> (Seq<char>, Seq<char>, Seq<char>) {
    let bare = w.skip(h);
    let url = trim_end_by(bare, Class::Trailing);
    (w.take(h), url, bare.skip(url.len() as int))
}

proof fn lemma_link_shape(w: Seq<char>)
    ensures
        scheme_from(w, 0) matches Some(h) ==> {
            let (pre, url, rest) = link_parts(w, h);
            &&& w =~= pre + url + rest
            &&& pre.len() == h
            &&& url.len() >= 7
            &&& url.take(7) == w.subrange(h, h + 7)
            &&& (linked_of(w) == w || linked_of(w) == pre + seq!['<'] + url + seq!['>'] + rest)
        },
{
    lemma_scheme_first(w, 0);
    match scheme_from(w, 0) {
        Some(h) => {
            let bare = w.skip(h);
            lemma_tail_run(bare, Class::Trailing);
            let (pre, url, rest) = link_parts(w, h);
            assert(scheme_at(w, h));
            let n = if has_at(w, h, seq!['h', 't', 't', 'p', ':', '/', '/']) {
                7int
            } else {
                8int
            };
            assert(bare[n - 1] == '/') by {
                assert(w.subrange(h, h + n)[n - 1] == w[h + n - 1]);
            }
            assert(!Class::Trailing.has(bare[n - 1]));
            if tail(bare, Class::Trailing) > bare.len() - n {
                assert(Class::Trailing.has(bare[n - 1]));
            }
            assert(url.len() >= n);
            assert(url.take(7) =~= w.subrange(h, h + 7));
            assert(w =~= pre + url + rest);
        },
        None => {},
    }
}

proof fn lemma_linked_count(w: Seq<char>)
    ensures
        count_of(linked_of(w), '`') == count_of(w, '`'),
{
    lemma_link_shape(w);
    match scheme_from(w, 0) {
        Some(h) => {
            let (pre, url, rest) = link_parts(w, h);
            if linked_of(w) != w {
                lemma_count_concat(pre, seq!['<'], '`');
                lemma_count_concat(pre + seq!['<'], url, '`');
                lemma_count_concat(pre + seq!['<'] + url, seq!['>'], '`');
                lemma_count_concat(pre + seq!['<'] + url + seq!['>'], rest, '`');
                lemma_count_concat(pre, url, '`');
                lemma_count_concat(pre + url, rest, '`');
                assert(count_of(seq!['<'], '`') == 0) by {
                    assert(seq!['<'].drop_last() =~= Seq::<char>::empty());
                    assert(count_of(Seq::<char>::empty(), '`') == 0);
                    assert(seq!['<'].last() == '<');
                    assert(count_of(seq!['<'], '`') == count_of(seq!['<'].drop_last(), '`'));
                }
                assert(count_of(seq!['>'], '`') == 0) by {
                    assert(seq!['>'].drop_last() =~= Seq::<char>::empty());
                    assert(count_of(Seq::<char>::empty(), '`') == 0);
                    assert(seq!['>'].last() == '>');
                    assert(count_of(seq!['>'], '`') == count_of(seq!['>'].drop_last(), '`'));
                }
            }
        },
        None => {},
    }
}

/// Linking a word twice links it once: the second time the address stands
/// after a `<`.
proof fn lemma_linked_twice(w: Seq<char>)
    ensures
        linked_of(linked_of(w)) == linked_of(w),
{
    lemma_link_shape(w);
    lemma_scheme_first(w, 0);
    match scheme_from(w, 0) {
        Some(h) => {
            let (pre, url, rest) = link_parts(w, h);
            let v = linked_of(w);
            if v != w {
                let http = seq!['h', 't', 't', 'p', ':', '/', '/'];
                let https = seq!['h', 't', 't', 'p', 's', ':', '/', '/'];
                assert(v[h] == '<');
                assert forall|p: int| 0 <= p <= h implies !#[trigger] scheme_at(v, p) by {
                    if p == h {
                        if has_at(v, p, http) {
                            assert(v.subrange(p, p + 7)[0] == v[p]);
                        }
                        if has_at(v, p, https) {
                            assert(v.subrange(p, p + 8)[0] == v[p]);
                        }
                    } else {
                        assert(!scheme_at(w, p));
                        if has_at(v, p, http) {
                            if p + 7 <= h {
                                assert(v.subrange(p, p + 7) =~= w.subrange(p, p + 7));
                            } else {
                                assert(v.subrange(p, p + 7)[h - p] == v[h]);
                            }
                        }
                        if has_at(v, p, https) {
                            if p + 8 <= h {
                                assert(v.subrange(p, p + 8) =~= w.subrange(p, p + 8));
                            } else {
                                assert(v.subrange(p, p + 8)[h - p] == v[h]);
                            }
                        }
                    }
                }
                assert(scheme_at(v, h + 1)) by {
                    assert(scheme_at(w, h));
                    assert(v.subrange(h + 1, h + 8) =~= url.take(7));
                    if has_at(w, h, http) {
                        assert(v.subrange(h + 1, h + 8) =~= http);
                    } else {
                        assert(w.subrange(h, h + 7) =~= https.take(7)) by {
                            assert(w.subrange(h, h + 8).take(7) =~= w.subrange(h, h + 7));
                        }
                        assert(url.len() >= 8) by {
                            let bare = w.skip(h);
                            lemma_tail_run(bare, Class::Trailing);
                            assert(bare[7] == '/') by {
                                assert(w.subrange(h, h + 8)[7] == w[h + 7]);
                            }
                            if tail(bare, Class::Trailing) > bare.len() - 8 {
                                assert(Class::Trailing.has(bare[7]));
                            }
                        }
                        assert(v.subrange(h + 1, h + 9) =~= url.take(8));
                        assert(url.take(8) =~= w.subrange(h, h + 8));
                        assert(v.subrange(h + 1, h + 9) =~= https);
                    }
                }
                lemma_scheme_from(v, 0, h + 1);
                assert(scheme_from(v, 0) == Some(h + 1));
                assert(v.take(h + 1).contains('<')) by {
                    assert(v.take(h + 1)[h] == '<');
                }
            }
        },
        None => {},
    }
}

proof fn lemma_flat_words_twice(ws: Seq<Seq<char>>)
    ensures
        flat_words(flat_words(ws)) == flat_words(ws),
        spanning(flat_words(ws)) == spanning(ws),
        flat_words(ws).len() == ws.len(),
    decreases ws.len(),
{
    if ws.len() > 0 {
        let t = ws.drop_last();
        lemma_flat_words_twice(t);
        let fw = flat_words(ws);
        assert(fw.drop_last() == flat_words(t));
        let x = ws.last();
        lemma_linked_twice(x);
        lemma_linked_count(x);
        assert(fw.last() == if spanning(t) { x } else { linked_of(x) });
    }
}

/// Flattening text twice flattens it once.
pub proof fn flat_twice_is_flat_once(s: Seq<char>)
    ensures
        flat_of(flat_of(s)) == flat_of(s),
{
    let ws = words(s);
    lemma_words_blankless(s);
    lemma_words_nonempty_all(s);
    lemma_flat_words_blankless(ws);
    let fw = flat_words(ws);
    assert forall|k: int| 0 <= k < fw.len() implies blankless(#[trigger] fw[k]) && fw[k].len() > 0 by {
        lemma_flat_nonempty(ws, k);
    }
    lemma_words_join(fw);
    lemma_flat_words_twice(ws);
}

proof fn lemma_flat_nonempty(ws: Seq<Seq<char>>, k: int)
    requires
        forall|i: int| 0 <= i < ws.len() ==> (#[trigger] ws[i]).len() > 0,
        0 <= k < ws.len(),
    ensures
        flat_words(ws).len() == ws.len(),
        flat_words(ws)[k].len() > 0,
    decreases ws.len(),
{
    let t = ws.drop_last();
    assert forall|i: int| 0 <= i < t.len() implies (#[trigger] t[i]).len() > 0 by {
        assert(t[i] == ws[i]);
    }
    lemma_flat_words_twice(ws);
    if k < ws.len() - 1 {
        lemma_flat_nonempty(t, k);
        lemma_flat_words_twice(t);
    } else {
        let x = ws.last();
        assert(x.len() > 0);
        lemma_link_shape(x);
        if let Some(h) = scheme_from(x, 0) {
            let (pre, url, rest) = link_parts(x, h);
            assert(linked_of(x).len() >= x.len());
        }
    }
}

} // verus!
