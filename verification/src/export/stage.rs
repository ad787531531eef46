//! The page of a stage.
use vstd::prelude::*;

use super::blocks::{blocks, blocks_of};
use super::escape::{opened, opened_of};
use super::lines::{
    Doc, bulleted, counted, flat, flat_of, heading_of, label, label_of, line_of, raw_of, spanned,
    spanned_of, text_of,
};
use super::words::Words;
use crate::stage::{Check, Practice, Question, Stage};
use crate::text::{put_str, string_of, texts};

verus! {

/// A check as a list item: its claim, the command where there is one, and
/// what it should show.
pub open spec fn item_of(c: Check, w: Words) -> Seq<char> {
    seq!['-', ' '] + opened_of(flat_of(c.claim@)) + " — "@ + (match c.check {
        Some(command) => w.check@ + seq![':', ' '] + spanned_of(command@) + seq![',', ' '],
        None => Seq::<char>::empty(),
    }) + w.expect@ + seq![':', ' '] + flat_of(c.expect@)
}

fn item(check: &Check, words: &Words) -> (r: String)
    ensures
        r@ == item_of(*check, *words),
{
    let mut out: Vec<char> = Vec::new();
    out.push('-');
    out.push(' ');
    let claim = flat(check.claim.as_str());
    let o = opened(claim.as_str());
    put_str(&mut out, o.as_str());
    put_str(&mut out, " — ");
    let ghost head = out@;
    match &check.check {
        Some(command) => {
            put_str(&mut out, words.check.as_str());
            out.push(':');
            out.push(' ');
            let s = spanned(command.as_str());
            put_str(&mut out, s.as_str());
            out.push(',');
            out.push(' ');
        },
        None => {},
    }
    put_str(&mut out, words.expect.as_str());
    out.push(':');
    out.push(' ');
    let e = flat(check.expect.as_str());
    put_str(&mut out, e.as_str());
    assert(out@ =~= item_of(*check, *words));
    string_of(out.as_slice())
}

/// The checks under a heading; nothing where there are none.
pub open spec fn checks_of(ls: Seq<Seq<char>>, title: Seq<char>, cs: Seq<Check>, w: Words) -> Seq<
    Seq<char>,
> {
    if cs.len() == 0 {
        ls
    } else {
        raw_of(heading_of(ls, 3, title), cs.map_values(|c: Check| item_of(c, w)))
    }
}

fn checks(doc: &mut Doc, title: &str, list: &[Check], words: &Words)
    ensures
        final(doc)@ == checks_of(old(doc)@, title@, list@, *words),
{
    if list.len() == 0 {
        return;
    }
    doc.heading(3, title);
    let ghost m = list@.map_values(|c: Check| item_of(c, *words));
    let mut items: Vec<String> = Vec::new();
    let mut i: usize = 0;
    while i < list.len()
        invariant
            i <= list@.len(),
            m == list@.map_values(|c: Check| item_of(c, *words)),
            texts(items@) == m.take(i as int),
        decreases list.len() - i,
    {
        let one = item(&list[i], words);
        let ghost was = texts(items@);
        items.push(one);
        assert(texts(items@) =~= was.push(m[i as int]));
        i = i + 1;
        assert(m.take(i as int) =~= m.take(i - 1).push(m[i - 1]));
    }
    assert(m.take(i as int) =~= m);
    doc.raw(items);
}

/// The practice of a stage: its task, what to hand in, and its checks.
pub open spec fn practice_of(ls: Seq<Seq<char>>, p: Practice, w: Words) -> Seq<Seq<char>> {
    let a = blocks_of(heading_of(ls, 2, w.practice@), p.task@, 3, w);
    let b = raw_of(a, bulleted(seq![w.deliverable@ + seq![':', ' '] + flat_of(p.deliverable@)]));
    checks_of(checks_of(b, w.constraints@, p.constraints@, w), w.acceptance@, p.acceptance@, w)
}

fn practice(doc: &mut Doc, p: &Practice, words: &Words)
    ensures
        final(doc)@ == practice_of(old(doc)@, *p, *words),
{
    doc.heading(2, words.practice.as_str());
    blocks(doc, p.task.as_slice(), 3, words);
    let mut line: Vec<char> = Vec::new();
    put_str(&mut line, words.deliverable.as_str());
    line.push(':');
    line.push(' ');
    let f = flat(p.deliverable.as_str());
    put_str(&mut line, f.as_str());
    assert(line@ =~= words.deliverable@ + seq![':', ' '] + flat_of(p.deliverable@));
    let mut items: Vec<String> = Vec::new();
    items.push(string_of(line.as_slice()));
    assert(texts(items@) =~= seq![words.deliverable@ + seq![':', ' '] + flat_of(p.deliverable@)]);
    doc.bullets(items.as_slice());
    checks(doc, words.constraints.as_str(), p.constraints.as_slice(), words);
    checks(doc, words.acceptance.as_str(), p.acceptance.as_slice(), words);
}

/// The questions of a stage, numbered, and the note that their answers stay hidden.
pub open spec fn questions_of(ls: Seq<Seq<char>>, qs: Seq<Question>, w: Words) -> Seq<Seq<char>> {
    if qs.len() == 0 {
        ls
    } else {
        line_of(
            raw_of(
                heading_of(ls, 2, w.questions@),
                counted(qs.map_values(|q: Question| flat_of(q.text@))),
            ),
            w.hidden@,
        )
    }
}

fn questions(doc: &mut Doc, qs: &[Question], words: &Words)
    ensures
        final(doc)@ == questions_of(old(doc)@, qs@, *words),
{
    if qs.len() == 0 {
        return;
    }
    doc.heading(2, words.questions.as_str());
    let ghost m = qs@.map_values(|q: Question| flat_of(q.text@));
    let mut texts_v: Vec<String> = Vec::new();
    let mut i: usize = 0;
    while i < qs.len()
        invariant
            i <= qs@.len(),
            m == qs@.map_values(|q: Question| flat_of(q.text@)),
            texts(texts_v@) == m.take(i as int),
        decreases qs.len() - i,
    {
        let one = flat(qs[i].text.as_str());
        let ghost was = texts(texts_v@);
        texts_v.push(one);
        assert(texts(texts_v@) =~= was.push(m[i as int]));
        i = i + 1;
        assert(m.take(i as int) =~= m.take(i - 1).push(m[i - 1]));
    }
    assert(m.take(i as int) =~= m);
    doc.numbered(texts_v.as_slice());
    doc.line(words.hidden.as_str());
}

/// The page of a stage under the program's node.
#[verifier::opaque]
pub open spec fn page_of(s: Stage, node: Seq<char>, w: Words) -> Seq<char> {
    let a = heading_of(Seq::empty(), 1, s.title@);
    let b = raw_of(a, seq!["← ["@ + label_of(node) + "](index.md)"@]);
    let c = blocks_of(b, s.blocks@, 2, w);
    text_of(questions_of(practice_of(c, s.practice, w), s.questions@, w))
}

pub fn page(stage: &Stage, node: &str, words: &Words) -> (r: String)
    ensures
        r@ == page_of(*stage, node@, *words),
{
    proof {
        reveal(page_of);
    }
    let mut doc = Doc::default();
    doc.heading(1, stage.title.as_str());
    let mut back: Vec<char> = Vec::new();
    put_str(&mut back, "← [");
    let l = label(node);
    put_str(&mut back, l.as_str());
    put_str(&mut back, "](index.md)");
    let mut v: Vec<String> = Vec::new();
    v.push(string_of(back.as_slice()));
    assert(texts(v@) =~= seq!["← ["@ + label_of(node@) + "](index.md)"@]);
    doc.raw(v);
    blocks(&mut doc, stage.blocks.as_slice(), 2, words);
    practice(&mut doc, &stage.practice, words);
    questions(&mut doc, stage.questions.as_slice(), words);
    doc.text()
}

} // verus!
