//! Free text as Markdown blocks under a heading of a given depth: its headings
//! moved down to that depth, its fences kept whole, its lists kept lists, and
//! what would open a block by accident escaped.
use vstd::prelude::*;

use super::escape::{
    headed, headed_of, info, lang_ok, numbered, numbered_of, ruled, ruled_of, titled, titled_of,
};
use super::lines::{flat, flat_of, gapped, longest, longest_of, unpadded};
use crate::text::{
    Class, chars_of, join, join_strings, lead_len, lines, lines_of, put, put_repeat, repeat,
    string_of, tail_len, texts, trim, trim_by, trim_chars, trim_end, trim_end_by, trim_end_chars,
    trim_start, trim_start_by, trim_start_chars, views,
};

verus! {

/// An open fence: its mark, how many marks opened it, the line it opened on,
/// and its info string.
pub struct FenceV {
    pub mark: char,
    pub size: nat,
    pub open: nat,
    pub info: Seq<char>,
}

/// The state of a reading: the lines so far, the fence that is open, and
/// whether a list is going on.
pub struct ProseV {
    pub lines: Seq<Seq<char>>,
    pub fence: Option<FenceV>,
    pub listed: bool,
}

/// The reading before the first line.
pub open spec fn start_v() -> ProseV {
    ProseV { lines: Seq::empty(), fence: None, listed: false }
}

/// A blank line unless there is none to follow or one already.
pub open spec fn gap_v(p: ProseV) -> ProseV {
    ProseV { lines: gapped(p.lines), fence: p.fence, listed: p.listed }
}

/// `p` with `line` appended.
pub open spec fn push_v(p: ProseV, line: Seq<char>) -> ProseV {
    ProseV { lines: p.lines.push(line), fence: p.fence, listed: p.listed }
}

/// A fence that closes: its opening line gets as many backticks as the
/// code needs and its info string, and a closing line of as many follows.
pub open spec fn close_v(p: ProseV) -> ProseV {
    match p.fence {
        None => p,
        Some(f) => {
            let inner = join(p.lines.skip((f.open + 1) as int), seq!['\n']);
            let longest = longest_of(inner);
            let n = if longest > 2 {
                longest + 1
            } else {
                3nat
            };
            let ticks = repeat('`', n);
            ProseV {
                lines: p.lines.update(f.open as int, ticks + f.info).push(ticks),
                fence: None,
                listed: p.listed,
            }
        },
    }
}

/// The title of a heading line: its `#` marks and blanks taken off both ends.
pub open spec fn title_v(line: Seq<char>) -> Seq<char> {
    titled_of(
        trim_end(trim_end_by(trim(trim_start_by(line, Class::Is('#'))), Class::Is('#'))),
    )
}

/// A heading at `depth`, a break, or a blank line alone.
pub open spec fn block_v(p: ProseV, line: Seq<char>, depth: nat) -> ProseV {
    let q = if headed_of(line) {
        let t = title_v(line);
        if t.len() > 0 {
            push_v(p, repeat('#', depth) + seq![' '] + t)
        } else {
            p
        }
    } else if ruled_of(line) {
        push_v(p, seq!['-', '-', '-'])
    } else {
        p
    };
    gap_v(q)
}

/// The length of the run of `c` at the start of `s`.
pub open spec fn run_of(s: Seq<char>, c: char) -> nat {
    crate::text::lead(s, Class::Is(c))
}

/// Whether the line (without its indent) opens a fence.
pub open spec fn opens_v(line: Seq<char>) -> bool {
    line.len() > 0 && (line[0] == '`' || line[0] == '~') && run_of(line, line[0]) >= 3 && !(
    line[0] == '`' && line.skip(run_of(line, line[0]) as int).contains('`'))
}

/// What opening a fence does: a blank line, the list ended, the fence noted,
/// and a line kept for its opening.
pub open spec fn opened_v(p: ProseV, line: Seq<char>) -> ProseV {
    let mark = line[0];
    let size = run_of(line, mark);
    let rest = trim(line.skip(size as int));
    let g = gap_v(p);
    let info = if lang_ok(rest) {
        rest
    } else {
        seq!['t', 'e', 'x', 't']
    };
    ProseV {
        lines: g.lines.push(Seq::empty()),
        fence: Some(FenceV { mark, size, open: g.lines.len(), info }),
        listed: false,
    }
}

/// Every character of `s` is `=` or `-`.
pub open spec fn underline(s: Seq<char>) -> bool {
    forall|i: int| 0 <= i < s.len() ==> s[i] == '=' || s[i] == '-'
}

/// The rest of a bullet line after its mark and one space.
pub open spec fn item_v(s: Seq<char>) -> Option<Seq<char>> {
    if s.len() >= 2 && (s[0] == '-' || s[0] == '*' || s[0] == '+') && s[1] == ' ' {
        Some(s.skip(2))
    } else {
        None
    }
}

/// Every character of `s` is `c`.
pub open spec fn only(s: Seq<char>, c: char) -> bool {
    forall|i: int| 0 <= i < s.len() ==> s[i] == c
}

/// One line of the text read.
pub open spec fn take_v(p: ProseV, line: Seq<char>, depth: nat) -> ProseV {
    match p.fence {
        Some(f) => {
            let bare = trim(line);
            if bare.len() >= f.size && only(bare, f.mark) {
                gap_v(close_v(p))
            } else {
                push_v(p, trim_end(line))
            }
        },
        None => {
            if opens_v(trim_start(line)) {
                opened_v(p, trim_start(line))
            } else {
                let l = flat_of(line);
                let after = p.lines.len() > 0 && p.lines.last().len() > 0;
                if l.len() == 0 || headed_of(l) || ruled_of(l) {
                    let g = gap_v(p);
                    block_v(ProseV { lines: g.lines, fence: g.fence, listed: false }, l, depth)
                } else if underline(l) {
                    push_v(p, seq!['\\'] + l)
                } else {
                    let item = item_v(l);
                    let ordered = numbered_of(l);
                    let starts = item is Some || (ordered matches Some((_, n)) && n == 1);
                    if !p.listed && ordered is Some && !starts {
                        let d = match ordered {
                            Some((d, _)) => d,
                            None => 0,
                        };
                        push_v(p, l.take(d as int) + seq!['\\'] + l.skip(d as int))
                    } else {
                        let q = if starts && after && !p.listed {
                            gap_v(p)
                        } else {
                            p
                        };
                        let said = match item {
                            Some(rest) => seq!['-', ' '] + rest,
                            None => l,
                        };
                        ProseV {
                            lines: q.lines.push(said),
                            fence: q.fence,
                            listed: p.listed || starts,
                        }
                    }
                }
            }
        },
    }
}

/// The reading after the lines.
pub open spec fn read_v(ls: Seq<Seq<char>>, depth: nat) -> ProseV
    decreases ls.len(),
{
    if ls.len() == 0 {
        start_v()
    } else {
        take_v(read_v(ls.drop_last(), depth), ls.last(), depth)
    }
}

/// The Markdown lines of a free text under a heading of `depth`.
pub open spec fn prose_of(text: Seq<char>, depth: nat) -> Seq<Seq<char>> {
    unpadded(close_v(read_v(lines(text), depth)).lines)
}

struct Fence {
    mark: char,
    size: usize,
    open: usize,
    info: String,
}

struct Prose {
    lines: Vec<String>,
    fence: Option<Fence>,
    listed: bool,
}

impl Prose {
    spec fn v(&self) -> ProseV {
        ProseV {
            lines: texts(self.lines@),
            fence: match self.fence {
                None => None,
                Some(f) => Some(
                    FenceV { mark: f.mark, size: f.size as nat, open: f.open as nat, info: f.info@ },
                ),
            },
            listed: self.listed,
        }
    }

    spec fn wf(&self) -> bool {
        self.fence matches Some(f) ==> f.open < self.lines@.len()
    }

    fn gap(&mut self)
        requires
            old(self).wf(),
        ensures
            final(self).v() == gap_v(old(self).v()),
            final(self).wf(),
    {
        let n = self.lines.len();
        if n > 0 && self.lines[n - 1].as_str().unicode_len() > 0 {
            let ghost before = texts(self.lines@);
            self.lines.push(String::new());
            assert(texts(self.lines@) =~= before.push(Seq::<char>::empty()));
        }
    }

    fn push(&mut self, line: Vec<char>)
        requires
            old(self).wf(),
        ensures
            final(self).v() == push_v(old(self).v(), line@),
            final(self).wf(),
    {
        let ghost before = texts(self.lines@);
        self.lines.push(string_of(line.as_slice()));
        assert(texts(self.lines@) =~= before.push(line@));
    }

    fn close(&mut self)
        requires
            old(self).wf(),
        ensures
            final(self).v() == close_v(old(self).v()),
            final(self).wf(),
            final(self).fence is None,
    {
        let fence = match self.fence.take() {
            None => {
                return ;
            },
            Some(f) => f,
        };
        let ghost before = texts(self.lines@);
        let count = self.lines.len();
        assert(fence.open < count);
        let mut inner: Vec<String> = Vec::new();
        let mut i = fence.open + 1;
        while i < self.lines.len()
            invariant
                fence.open < i <= self.lines@.len(),
                texts(inner@) == before.subrange(fence.open + 1, i as int),
                texts(self.lines@) == before,
            decreases self.lines.len() - i,
        {
            let ghost was = texts(inner@);
            inner.push(self.lines[i].clone());
            assert(texts(inner@) =~= was.push(before[i as int]));
            i = i + 1;
            assert(before.subrange(fence.open + 1, i as int) =~= before.subrange(
                fence.open + 1,
                i - 1,
            ).push(before[i - 1]));
        }
        assert(before.subrange(fence.open + 1, before.len() as int) == before.skip(
            fence.open + 1,
        ));
        let joined = join_strings(&inner, "\n");
        proof {
            reveal_strlit("\n");
            assert("\n"@ =~= seq!['\n']);
        }
        let longest = longest(joined.as_str());
        let mut ticks: Vec<char> = Vec::new();
        if longest > 2 {
            put_repeat(&mut ticks, '`', longest);
            ticks.push('`');
            assert(ticks@ =~= repeat('`', (longest + 1) as nat));
        } else {
            put_repeat(&mut ticks, '`', 3);
        }
        let mut head: Vec<char> = Vec::new();
        put(&mut head, ticks.as_slice());
        let info = chars_of(fence.info.as_str());
        put(&mut head, info.as_slice());
        self.lines.set(fence.open, string_of(head.as_slice()));
        assert(texts(self.lines@) =~= before.update(fence.open as int, ticks@ + fence.info@));
        let ghost mid = texts(self.lines@);
        self.lines.push(string_of(ticks.as_slice()));
        assert(texts(self.lines@) =~= mid.push(ticks@));
    }

    fn opened(&mut self, line: &Vec<char>) -> (r: bool)
        requires
            old(self).wf(),
            old(self).fence is None,
        ensures
            r == opens_v(line@),
            r ==> final(self).v() == opened_v(old(self).v(), line@),
            !r ==> final(self).v() == old(self).v(),
            final(self).wf(),
    {
        if line.len() == 0 || !(line[0] == '`' || line[0] == '~') {
            return false;
        }
        let mark = line[0];
        let size = lead_len(line.as_slice(), &crate::text::Class::Is(mark));
        let rest = crate::text::slice(line.as_slice(), size, line.len());
        let mut tick = false;
        let mut k: usize = 0;
        while k < rest.len()
            invariant
                k <= rest@.len(),
                tick == (exists|j: int| 0 <= j < k && rest@[j] == '`'),
            decreases rest.len() - k,
        {
            if rest[k] == '`' {
                tick = true;
            }
            k = k + 1;
        }
        assert(tick == rest@.contains('`'));
        assert(rest@ == line@.skip(size as int));
        if size < 3 || (mark == '`' && tick) {
            return false;
        }
        self.gap();
        self.listed = false;
        let bare = trim_chars(rest.as_slice(), &Class::Space);
        let bare_text = string_of(bare.as_slice());
        let named = info(Some(bare_text.as_str()));
        let open = self.lines.len();
        self.fence = Some(Fence { mark, size, open, info: crate::text::owned(named) });
        let ghost before = texts(self.lines@);
        self.lines.push(String::new());
        proof {
            reveal_strlit("text");
            assert(texts(self.lines@) =~= before.push(Seq::<char>::empty()));
            assert("text"@ =~= seq!['t', 'e', 'x', 't']);
        }
        true
    }

    fn block(&mut self, line: &Vec<char>, depth: usize)
        requires
            old(self).wf(),
        ensures
            final(self).v() == block_v(old(self).v(), line@, depth as nat),
            final(self).wf(),
    {
        let text = string_of(line.as_slice());
        if headed(text.as_str()) {
            let a = trim_start_chars(line.as_slice(), &Class::Is('#'));
            let b = trim_chars(a.as_slice(), &Class::Space);
            let c = trim_end_chars(b.as_slice(), &Class::Is('#'));
            let d = trim_end_chars(c.as_slice(), &Class::Space);
            let ds = string_of(d.as_slice());
            let title = titled(ds.as_str());
            let t = chars_of(title.as_str());
            if t.len() > 0 {
                let mut out: Vec<char> = Vec::new();
                put_repeat(&mut out, '#', depth);
                out.push(' ');
                put(&mut out, t.as_slice());
                assert(out@ =~= repeat('#', depth as nat) + seq![' '] + title_v(line@));
                self.push(out);
            }
        } else if ruled(text.as_str()) {
            let mut out: Vec<char> = Vec::new();
            out.push('-');
            out.push('-');
            out.push('-');
            assert(out@ =~= seq!['-', '-', '-']);
            self.push(out);
        }
        self.gap();
    }

    fn take(&mut self, line: &Vec<char>, depth: usize)
        requires
            old(self).wf(),
        ensures
            final(self).v() == take_v(old(self).v(), line@, depth as nat),
            final(self).wf(),
    {
        let fenced = match &self.fence {
            Some(f) => Some((f.mark, f.size)),
            None => None,
        };
        if let Some((mark, size)) = fenced {
            let bare = trim_chars(line.as_slice(), &Class::Space);
            let mut all = true;
            let mut k: usize = 0;
            while k < bare.len()
                invariant
                    k <= bare@.len(),
                    all == (forall|j: int| 0 <= j < k ==> bare@[j] == mark),
                decreases bare.len() - k,
            {
                if bare[k] != mark {
                    all = false;
                }
                k = k + 1;
            }
            if bare.len() >= size && all {
                self.close();
                self.gap();
            } else {
                let t = trim_end_chars(line.as_slice(), &Class::Space);
                self.push(t);
            }
            return;
        }
        let ts = trim_start_chars(line.as_slice(), &Class::Space);
        if self.opened(&ts) {
            return;
        }
        let text = string_of(line.as_slice());
        let flat_text = flat(text.as_str());
        let l = chars_of(flat_text.as_str());
        let after = self.lines.len() > 0 && self.lines[self.lines.len() - 1].as_str().unicode_len()
            > 0;
        if l.len() == 0 || headed(flat_text.as_str()) || ruled(flat_text.as_str()) {
            self.gap();
            self.listed = false;
            self.block(&l, depth);
            return;
        }
        let mut under = true;
        let mut k: usize = 0;
        while k < l.len()
            invariant
                k <= l@.len(),
                under == (forall|j: int| 0 <= j < k ==> l@[j] == '=' || l@[j] == '-'),
            decreases l.len() - k,
        {
            if !(l[k] == '=' || l[k] == '-') {
                under = false;
            }
            k = k + 1;
        }
        if under {
            let mut out: Vec<char> = Vec::new();
            out.push('\\');
            put(&mut out, l.as_slice());
            self.push(out);
            return;
        }
        let item = l.len() >= 2 && (l[0] == '-' || l[0] == '*' || l[0] == '+') && l[1] == ' ';
        let ordered = numbered(flat_text.as_str());
        let starts = item || match ordered {
            Some((_, n)) => n == 1,
            None => false,
        };
        if !self.listed && ordered.is_some() && !starts {
            let d = match ordered {
                Some((d, _)) => d,
                None => 0,
            };
            proof {
                crate::text::lemma_lead_le(l@, Class::Digit);
            }
            let pre = crate::text::slice(l.as_slice(), 0, d);
            let post = crate::text::slice(l.as_slice(), d, l.len());
            let mut out: Vec<char> = Vec::new();
            put(&mut out, pre.as_slice());
            out.push('\\');
            put(&mut out, post.as_slice());
            assert(out@ =~= l@.take(d as int) + seq!['\\'] + l@.skip(d as int));
            self.push(out);
            return;
        }
        if starts && after && !self.listed {
            self.gap();
        }
        self.listed = self.listed || starts;
        if item {
            let mut out: Vec<char> = Vec::new();
            out.push('-');
            out.push(' ');
            let rest = crate::text::slice(l.as_slice(), 2, l.len());
            put(&mut out, rest.as_slice());
            assert(out@ =~= seq!['-', ' '] + l@.skip(2));
            self.push(out);
        } else {
            self.push(l);
        }
    }
}

/// The Markdown lines of a free text under a heading of `depth`.
pub fn prose(text: &str, depth: usize) -> (out: Vec<String>)
    ensures
        texts(out@) == prose_of(text@, depth as nat),
{
    let s = chars_of(text);
    let ls = lines_of(s.as_slice());
    let mut p = Prose { lines: Vec::new(), fence: None, listed: false };
    assert(p.v().lines =~= start_v().lines);
    let mut i: usize = 0;
    while i < ls.len()
        invariant
            i <= ls@.len(),
            p.wf(),
            p.v() == read_v(views(ls@).take(i as int), depth as nat),
        decreases ls.len() - i,
    {
        assert(views(ls@).take(i + 1).drop_last() == views(ls@).take(i as int));
        assert(views(ls@).take(i + 1).last() == ls@[i as int]@);
        p.take(&ls[i], depth);
        i = i + 1;
    }
    assert(views(ls@).take(i as int) == lines(s@));
    p.close();
    let mut lines = p.lines;
    let ghost whole = texts(lines@);
    while lines.len() > 0 && lines[lines.len() - 1].as_str().unicode_len() == 0
        invariant
            unpadded(texts(lines@)) == unpadded(whole),
        decreases lines.len(),
    {
        let ghost before = texts(lines@);
        assert(before.last().len() == 0);
        lines.pop();
        assert(texts(lines@) =~= before.drop_last());
    }
    assert(unpadded(texts(lines@)) == texts(lines@));
    lines
}

} // verus!
