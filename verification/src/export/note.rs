//! The note a student keeps on a topic, with its headings moved under the
//! heading of the note.
use vstd::prelude::*;

use super::lines::{Doc, heading_of, raw_of};
use crate::notes::Note;
use crate::text::{
    Class, chars_of, join, join_strings, lead, lead_len, lines, lines_of, opens_with, put, put_repeat,
    repeat, same, slice, starts_with, string_of, texts, trim, trim_chars, trim_start, trim_start_chars,
    views,
};

verus! {

/// The level of the heading of a note.
pub const UNDER: usize = 4;

/// The line opens or closes a fence of code.
pub open spec fn fence_of(t: Seq<char>) -> bool {
    opens_with(t, "```"@) || opens_with(t, "~~~"@)
}

/// The depth of a heading that a line opens: one to six marks, then a blank.
pub open spec fn hashes_of(line: Seq<char>) -> Option<nat> {
    let depth = lead(line, Class::Is('#'));
    if depth == 0 || depth > 6 {
        None
    } else if depth < line.len() && line[depth as int] == ' ' {
        Some(depth)
    } else {
        None
    }
}

/// Whether the lines before the `i`th leave a fence open.
pub open spec fn fenced_at(ls: Seq<Seq<char>>, i: int) -> bool
    decreases i,
{
    if i <= 0 {
        false
    } else {
        fenced_at(ls, i - 1) != fence_of(trim_start(ls[i - 1]))
    }
}

/// A line of a note, with a heading outside fences moved under the note's own.
pub open spec fn deepened_line(line: Seq<char>, fenced: bool) -> Seq<char> {
    let t = trim_start(line);
    if fence_of(t) || fenced {
        line
    } else {
        match hashes_of(t) {
            Some(d) => repeat('#', if UNDER + d < 6 { (UNDER + d) as nat } else { 6 }) + seq![' '] + trim(
                t.skip(d as int),
            ),
            None => line,
        }
    }
}

/// The body of a note with its headings moved under the note's own heading.
pub open spec fn deepened_of(body: Seq<char>) -> Seq<char> {
    let ls = lines(body);
    join(Seq::new(ls.len(), |i: int| deepened_line(ls[i], fenced_at(ls, i))), seq!['\n'])
}

/// The depth of a heading that a line opens, if it opens one.
pub fn hashes(line: &[char]) -> (r: Option<usize>)
    ensures
        match hashes_of(line@) {
            Some(d) => r == Some(d as usize),
            None => r is None,
        },
{
    let depth = lead_len(line, &Class::Is('#'));
    if depth == 0 || depth > 6 {
        return None;
    }
    if depth < line.len() && line[depth] == ' ' {
        Some(depth)
    } else {
        None
    }
}

fn fence(t: &[char]) -> (r: bool)
    ensures
        r == fence_of(t@),
{
    starts_with(t, "```") || starts_with(t, "~~~")
}

fn deepen(line: &[char], fenced: bool) -> (r: Vec<char>)
    ensures
        r@ == deepened_line(line@, fenced),
{
    let t = trim_start_chars(line, &Class::Space);
    if fence(t.as_slice()) || fenced {
        return slice(line, 0, line.len());
    }
    match hashes(t.as_slice()) {
        Some(d) => {
            let mut out: Vec<char> = Vec::new();
            let n = if UNDER + d < 6 {
                UNDER + d
            } else {
                6
            };
            put_repeat(&mut out, '#', n);
            out.push(' ');
            let rest = slice(t.as_slice(), d, t.len());
            let bare = trim_chars(rest.as_slice(), &Class::Space);
            put(&mut out, bare.as_slice());
            assert(rest@ == t@.skip(d as int));
            out
        },
        None => slice(line, 0, line.len()),
    }
}

/// The body of a note with its headings moved under the note's own heading;
/// lines inside fences of code stay as they are.
pub fn deepened(body: &str) -> (r: String)
    ensures
        r@ == deepened_of(body@),
{
    let c = chars_of(body);
    let ls = lines_of(c.as_slice());
    let ghost v = views(ls@);
    let ghost want = Seq::new(v.len(), |i: int| deepened_line(v[i], fenced_at(v, i)));
    let mut out: Vec<String> = Vec::new();
    let mut fenced = false;
    let mut i: usize = 0;
    while i < ls.len()
        invariant
            i <= ls@.len(),
            v == views(ls@),
            want == Seq::new(v.len(), |i: int| deepened_line(v[i], fenced_at(v, i))),
            fenced == fenced_at(v, i as int),
            texts(out@) == want.take(i as int),
        decreases ls.len() - i,
    {
        let line = &ls[i];
        let d = deepen(line.as_slice(), fenced);
        let t = trim_start_chars(line.as_slice(), &Class::Space);
        if fence(t.as_slice()) {
            fenced = !fenced;
        }
        let ghost was = texts(out@);
        assert(v[i as int] == line@);
        out.push(string_of(d.as_slice()));
        assert(texts(out@) =~= was.push(want[i as int]));
        i = i + 1;
        assert(want.take(i as int) =~= want.take(i - 1).push(want[i - 1]));
    }
    assert(want.take(i as int) =~= want);
    assert(c@ == body@);
    proof {
        reveal_strlit("\n");
        assert("\n"@ =~= seq!['\n']);
    }
    join_strings(&out, "\n")
}

/// The first note kept on a topic.
pub open spec fn note_for(notes: Seq<Note>, topic: Seq<char>) -> Option<Note>
    decreases notes.len(),
{
    if notes.len() == 0 {
        None
    } else if notes[0].topic@ == topic {
        Some(notes[0])
    } else {
        note_for(notes.drop_first(), topic)
    }
}

/// The note of a topic under a heading of its own: nothing where the topic
/// has no note, or where its note is blank.
pub open spec fn note_of(ls: Seq<Seq<char>>, notes: Seq<Note>, topic: Seq<char>) -> Seq<Seq<char>> {
    match note_for(notes, topic) {
        None => ls,
        Some(n) => {
            let body = deepened_of(n.body@);
            if trim(body).len() == 0 {
                ls
            } else {
                raw_of(heading_of(ls, UNDER as nat, "Конспект"@), lines(body))
            }
        },
    }
}

fn found_note(notes: &[Note], topic: &str) -> (r: Option<usize>)
    ensures
        match r {
            Some(k) => k < notes@.len() && note_for(notes@, topic@) == Some(notes@[k as int]),
            None => note_for(notes@, topic@) is None,
        },
{
    let mut k: usize = 0;
    assert(notes@.skip(0) == notes@);
    while k < notes.len()
        invariant
            k <= notes@.len(),
            note_for(notes@, topic@) == note_for(notes@.skip(k as int), topic@),
        decreases notes.len() - k,
    {
        assert(notes@.skip(k as int)[0] == notes@[k as int]);
        assert(notes@.skip(k as int).drop_first() == notes@.skip(k + 1));
        if same(notes[k].topic.as_str(), topic) {
            return Some(k);
        }
        k = k + 1;
    }
    None
}

/// The note kept on a topic, under a heading of its own.
pub fn note(doc: &mut Doc, notes: &[Note], topic: &str)
    ensures
        final(doc)@ == note_of(old(doc)@, notes@, topic@),
{
    let k = match found_note(notes, topic) {
        Some(k) => k,
        None => {
            return;
        },
    };
    let body = deepened(notes[k].body.as_str());
    let c = chars_of(body.as_str());
    let t = trim_chars(c.as_slice(), &Class::Space);
    if t.len() == 0 {
        return;
    }
    doc.heading(UNDER, "Конспект");
    doc.block(body.as_str());
}

} // verus!
