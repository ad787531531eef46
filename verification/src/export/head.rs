//! The head of the book of a program: its title, goal, what it is about, and
//! its table of contents.
use vstd::prelude::*;

use super::lines::{Doc, bulleted, heading_of, line_of, raw_of};
use super::{Chapter, Link};
use crate::roadmap::Roadmap;
use crate::text::{decimal, decimal_of, join, join_strings, lines, put_str, string_of, texts};

verus! {

/// A pinned version: the name, a blank, and the version.
pub open spec fn pin_of(p: (String, String)) -> Seq<char> {
    p.0@ + seq![' '] + p.1@
}

/// What the head says of a program, as list items.
pub open spec fn about_of(r: Roadmap) -> Seq<Seq<char>> {
    seq![
        "Предмет: "@ + r.subject@,
        "Сгенерировано "@ + r.generated_at@ + " — "@ + r.generated_by@,
        "Норма: "@ + decimal(r.weekly_hours as nat) + " ч в неделю"@,
    ] + (if r.env_constraints@.len() == 0 {
        Seq::<Seq<char>>::empty()
    } else {
        seq!["Окружение: "@ + join(texts(r.env_constraints@), "; "@)]
    }) + (if r.version_pins@.len() == 0 {
        Seq::<Seq<char>>::empty()
    } else {
        seq!["Версии: "@ + join(r.version_pins@.map_values(|p: (String, String)| pin_of(p)), ", "@)]
    })
}

/// A line of the table of contents that links to `title` at `anchor`.
pub open spec fn link_line(indent: Seq<char>, title: Seq<char>, anchor: Seq<char>) -> Seq<char> {
    indent + "- ["@ + title + "](#"@ + anchor + seq![')']
}

/// The lines of a chapter in the table of contents: the chapter, then each of
/// its topics, indented.
pub open spec fn chapter_lines(c: Chapter) -> Seq<Seq<char>> {
    seq![link_line(Seq::empty(), c.title@, c.anchor@)] + c.topics@.map_values(
        |l: Link| link_line(seq![' ', ' '], l.title@, l.anchor@),
    )
}

/// The lines of the table of contents.
pub open spec fn contents_lines(cs: Seq<Chapter>) -> Seq<Seq<char>>
    decreases cs.len(),
{
    if cs.len() == 0 {
        Seq::empty()
    } else {
        contents_lines(cs.drop_last()) + chapter_lines(cs.last())
    }
}

/// The table of contents as text.
pub open spec fn contents_of(cs: Seq<Chapter>) -> Seq<char> {
    join(contents_lines(cs), seq!['\n'])
}

/// The head of the book.
pub open spec fn head_of(ls: Seq<Seq<char>>, r: Roadmap, cs: Seq<Chapter>) -> Seq<Seq<char>> {
    let a = raw_of(line_of(heading_of(ls, 1, r.title@), r.goal@), bulleted(about_of(r)));
    raw_of(heading_of(a, 2, "Оглавление"@), lines(contents_of(cs)))
}

fn about(r: &Roadmap) -> (items: Vec<String>)
    ensures
        texts(items@) == about_of(*r),
{
    let mut items: Vec<String> = Vec::new();
    let mut a: Vec<char> = Vec::new();
    put_str(&mut a, "Предмет: ");
    put_str(&mut a, r.subject.as_str());
    items.push(string_of(a.as_slice()));
    let mut b: Vec<char> = Vec::new();
    put_str(&mut b, "Сгенерировано ");
    put_str(&mut b, r.generated_at.as_str());
    put_str(&mut b, " — ");
    put_str(&mut b, r.generated_by.as_str());
    items.push(string_of(b.as_slice()));
    let mut c: Vec<char> = Vec::new();
    put_str(&mut c, "Норма: ");
    let d = decimal_of(r.weekly_hours as u64);
    put_str(&mut c, d.as_str());
    put_str(&mut c, " ч в неделю");
    items.push(string_of(c.as_slice()));
    if r.env_constraints.len() > 0 {
        let joined = join_strings(&r.env_constraints, "; ");
        let mut e: Vec<char> = Vec::new();
        put_str(&mut e, "Окружение: ");
        put_str(&mut e, joined.as_str());
        items.push(string_of(e.as_slice()));
    }
    if r.version_pins.len() > 0 {
        let ghost m = r.version_pins@.map_values(|p: (String, String)| pin_of(p));
        let mut pins: Vec<String> = Vec::new();
        let mut i: usize = 0;
        while i < r.version_pins.len()
            invariant
                i <= r.version_pins@.len(),
                m == r.version_pins@.map_values(|p: (String, String)| pin_of(p)),
                texts(pins@) == m.take(i as int),
            decreases r.version_pins.len() - i,
        {
            let mut one: Vec<char> = Vec::new();
            put_str(&mut one, r.version_pins[i].0.as_str());
            one.push(' ');
            put_str(&mut one, r.version_pins[i].1.as_str());
            let ghost was = texts(pins@);
            assert(one@ == m[i as int]);
            pins.push(string_of(one.as_slice()));
            assert(texts(pins@) =~= was.push(m[i as int]));
            i = i + 1;
            assert(m.take(i as int) =~= m.take(i - 1).push(m[i - 1]));
        }
        assert(m.take(i as int) =~= m);
        let joined = join_strings(&pins, ", ");
        let mut v: Vec<char> = Vec::new();
        put_str(&mut v, "Версии: ");
        put_str(&mut v, joined.as_str());
        items.push(string_of(v.as_slice()));
    }
    assert(texts(items@) =~= about_of(*r));
    items
}

fn link(indent: &str, title: &String, anchor: &String) -> (r: String)
    ensures
        r@ == link_line(indent@, title@, anchor@),
{
    let mut out: Vec<char> = Vec::new();
    put_str(&mut out, indent);
    put_str(&mut out, "- [");
    put_str(&mut out, title.as_str());
    put_str(&mut out, "](#");
    put_str(&mut out, anchor.as_str());
    out.push(')');
    string_of(out.as_slice())
}

/// The table of contents: a line for each chapter, and under it an indented
/// line for each of its topics.
fn contents(chapters: &[Chapter]) -> (r: String)
    ensures
        r@ == contents_of(chapters@),
{
    let mut lines: Vec<String> = Vec::new();
    let mut i: usize = 0;
    proof {
        reveal_strlit("");
        reveal_strlit("  ");
        assert(chapters@.take(0) =~= Seq::<Chapter>::empty());
    }
    while i < chapters.len()
        invariant
            i <= chapters@.len(),
            texts(lines@) == contents_lines(chapters@.take(i as int)),
            ""@ == Seq::<char>::empty(),
            "  "@ == seq![' ', ' '],
        decreases chapters.len() - i,
    {
        let chapter = &chapters[i];
        let ghost was = texts(lines@);
        lines.push(link("", &chapter.title, &chapter.anchor));
        let ghost m = chapter.topics@.map_values(|l: Link| link_line(seq![' ', ' '], l.title@, l.anchor@));
        let mut k: usize = 0;
        while k < chapter.topics.len()
            invariant
                k <= chapter.topics@.len(),
                m == chapter.topics@.map_values(|l: Link| link_line(seq![' ', ' '], l.title@, l.anchor@)),
                "  "@ == seq![' ', ' '],
                texts(lines@) == was + seq![link_line(Seq::empty(), chapter.title@, chapter.anchor@)]
                    + m.take(k as int),
            decreases chapter.topics.len() - k,
        {
            let placed = &chapter.topics[k];
            let ghost mid = texts(lines@);
            lines.push(link("  ", &placed.title, &placed.anchor));
            assert(texts(lines@) =~= mid.push(m[k as int]));
            k = k + 1;
            assert(m.take(k as int) =~= m.take(k - 1).push(m[k - 1]));
        }
        assert(m.take(k as int) =~= m);
        i = i + 1;
        assert(chapters@.take(i as int).drop_last() =~= chapters@.take(i - 1));
        assert(chapters@.take(i as int).last() == chapters@[i - 1]);
        assert(texts(lines@) =~= contents_lines(chapters@.take(i as int)));
    }
    assert(chapters@.take(i as int) =~= chapters@);
    proof {
        reveal_strlit("\n");
        assert("\n"@ =~= seq!['\n']);
    }
    join_strings(&lines, "\n")
}

/// The head of the book: the program's title and goal, what it is about, and
/// the table of contents.
pub fn head(doc: &mut Doc, roadmap: &Roadmap, chapters: &[Chapter])
    ensures
        final(doc)@ == head_of(old(doc)@, *roadmap, chapters@),
{
    doc.heading(1, roadmap.title.as_str());
    doc.line(roadmap.goal.as_str());
    let items = about(roadmap);
    doc.bullets(items.as_slice());
    doc.heading(2, "Оглавление");
    let c = contents(chapters);
    doc.block(c.as_str());
}

} // verus!
