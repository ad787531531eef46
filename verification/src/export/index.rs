//! The index page of a program: its goal, level and estimate, its stages and
//! child programs, and its sources.
use vstd::prelude::*;

use super::escape::{opened_of};
use super::lines::{
    Doc, bulleted, counted, flat, flat_of, heading_of, label, label_of, raw_of, text_of,
};
use super::words::Words;
use super::{file, folder, two_digits};
use crate::hours::Hours;
use crate::program::{Book, ChildRow, Reference, StageRow, Tree};
use crate::stage::Stage;
use crate::text::{decimal, decimal_of, join, join_strings, put, put_str, string_of, texts};

verus! {

/// An estimate in hours: one number where the least and the most agree.
pub open spec fn hours_of(span: Hours, w: Words) -> Seq<char> {
    if span.min == span.max {
        decimal(span.min as nat) + seq![' '] + w.hour@
    } else {
        decimal(span.min as nat) + seq!['\u{2013}'] + decimal(span.max as nat) + seq![' '] + w.hour@
    }
}

fn hours(span: Hours, words: &Words) -> (r: String)
    ensures
        r@ == hours_of(span, *words),
{
    let mut out: Vec<char> = Vec::new();
    let a = decimal_of(span.min as u64);
    put_str(&mut out, a.as_str());
    if span.min != span.max {
        out.push('\u{2013}');
        let b = decimal_of(span.max as u64);
        put_str(&mut out, b.as_str());
    }
    out.push(' ');
    put_str(&mut out, words.hour.as_str());
    string_of(out.as_slice())
}

/// A stage or a child in the list: a link where it has a page, else its title
/// and a note that it is pending.
pub open spec fn entry_of(title: Seq<char>, target: Option<Seq<char>>, span: Hours, w: Words) -> Seq<
    char,
> {
    match target {
        Some(t) => "["@ + label_of(title) + "]("@ + t + ") — "@ + hours_of(span, w),
        None => flat_of(title) + " — "@ + hours_of(span, w) + ", "@ + w.pending@,
    }
}

fn entry(title: &str, target: Option<String>, span: Hours, words: &Words) -> (r: String)
    ensures
        r@ == entry_of(
            title@,
            match target {
                Some(t) => Some(t@),
                None => None,
            },
            span,
            *words,
        ),
{
    let h = hours(span, words);
    let mut out: Vec<char> = Vec::new();
    match target {
        Some(t) => {
            put_str(&mut out, "[");
            let l = label(title);
            put_str(&mut out, l.as_str());
            put_str(&mut out, "](");
            put_str(&mut out, t.as_str());
            put_str(&mut out, ") — ");
            put_str(&mut out, h.as_str());
        },
        None => {
            let f = flat(title);
            put_str(&mut out, f.as_str());
            put_str(&mut out, " — ");
            put_str(&mut out, h.as_str());
            put_str(&mut out, ", ");
            put_str(&mut out, words.pending.as_str());
        },
    }
    string_of(out.as_slice())
}

/// The list under a title, numbered; nothing where it is empty.
pub open spec fn listed_of(ls: Seq<Seq<char>>, title: Seq<char>, items: Seq<Seq<char>>) -> Seq<
    Seq<char>,
> {
    if items.len() == 0 {
        ls
    } else {
        raw_of(heading_of(ls, 2, title), counted(items))
    }
}

fn listed(doc: &mut Doc, title: &str, items: &[String])
    ensures
        final(doc)@ == listed_of(old(doc)@, title@, texts(items@)),
{
    if items.len() == 0 {
        return;
    }
    doc.heading(2, title);
    doc.numbered(items);
}

/// The date a source was checked, after the word for it; nothing without a date.
pub open spec fn checked_of(date: Seq<char>, w: Words) -> Seq<char> {
    if date.len() == 0 {
        Seq::empty()
    } else {
        w.checked@ + seq![' '] + date
    }
}

fn checked(date: &String, words: &Words) -> (r: String)
    ensures
        r@ == checked_of(date@, *words),
{
    if date.as_str().unicode_len() == 0 {
        return String::new();
    }
    let mut out: Vec<char> = Vec::new();
    put_str(&mut out, words.checked.as_str());
    out.push(' ');
    put_str(&mut out, date.as_str());
    string_of(out.as_slice())
}

/// The parts that are not empty.
pub open spec fn filled(parts: Seq<Seq<char>>) -> Seq<Seq<char>>
    decreases parts.len(),
{
    if parts.len() == 0 {
        Seq::empty()
    } else {
        filled(parts.drop_last()) + if parts.last().len() > 0 {
            seq![parts.last()]
        } else {
            Seq::<Seq<char>>::empty()
        }
    }
}

/// The parts that are not empty, a comma between.
pub open spec fn joined_of(parts: Seq<Seq<char>>) -> Seq<char> {
    join(filled(parts), ", "@)
}

fn joined(parts: &Vec<String>) -> (r: String)
    ensures
        r@ == joined_of(texts(parts@)),
{
    let mut kept: Vec<String> = Vec::new();
    let mut i: usize = 0;
    while i < parts.len()
        invariant
            i <= parts@.len(),
            texts(kept@) == filled(texts(parts@).take(i as int)),
        decreases parts.len() - i,
    {
        assert(texts(parts@).take(i + 1).drop_last() == texts(parts@).take(i as int));
        assert(texts(parts@).take(i + 1).last() == parts@[i as int]@);
        let ghost was = texts(kept@);
        if parts[i].as_str().unicode_len() > 0 {
            kept.push(parts[i].clone());
            assert(texts(kept@) =~= was + seq![parts@[i as int]@]);
        } else {
            assert(texts(kept@) =~= was + Seq::<Seq<char>>::empty());
        }
        i = i + 1;
    }
    assert(texts(parts@).take(i as int) == texts(parts@));
    join_strings(&kept, ", ")
}

/// `<` and `>` escaped by their percent codes.
pub open spec fn unangled(s: Seq<char>) -> Seq<char>
    decreases s.len(),
{
    if s.len() == 0 {
        Seq::<char>::empty()
    } else {
        unangled(s.drop_last()) + if s.last() == '<' {
            seq!['%', '3', 'C']
        } else if s.last() == '>' {
            seq!['%', '3', 'E']
        } else {
            seq![s.last()]
        }
    }
}

/// An address fit for a link: angle brackets escaped, and in angle brackets
/// where it holds a blank or a parenthesis.
pub open spec fn address_of(url: Seq<char>) -> Seq<char> {
    let u = unangled(url);
    if u.contains(' ') || u.contains('(') || u.contains(')') {
        seq!['<'] + u + seq!['>']
    } else {
        u
    }
}

fn address(url: &String) -> (r: String)
    ensures
        r@ == address_of(url@),
{
    let s = crate::text::chars_of(url.as_str());
    let mut u: Vec<char> = Vec::new();
    let mut i: usize = 0;
    while i < s.len()
        invariant
            i <= s@.len(),
            u@ == unangled(s@.take(i as int)),
        decreases s.len() - i,
    {
        assert(s@.take(i + 1).drop_last() == s@.take(i as int));
        let c = s[i];
        if c == '<' {
            u.push('%');
            u.push('3');
            u.push('C');
        } else if c == '>' {
            u.push('%');
            u.push('3');
            u.push('E');
        } else {
            u.push(c);
        }
        i = i + 1;
    }
    assert(s@.take(s@.len() as int) == s@);
    let mut odd = false;
    let mut k: usize = 0;
    while k < u.len()
        invariant
            k <= u@.len(),
            odd == (exists|j: int| 0 <= j < k && (u@[j] == ' ' || u@[j] == '(' || u@[j] == ')')),
        decreases u.len() - k,
    {
        if u[k] == ' ' || u[k] == '(' || u[k] == ')' {
            odd = true;
        }
        k = k + 1;
    }
    proof {
        if odd {
            let j = choose|j: int| 0 <= j < u@.len() && (u@[j] == ' ' || u@[j] == '(' || u@[j] == ')');
            if u@[j] == ' ' {
                assert(u@.contains(' '));
            } else if u@[j] == '(' {
                assert(u@.contains('('));
            } else {
                assert(u@.contains(')'));
            }
        } else {
            assert(!u@.contains(' ') && !u@.contains('(') && !u@.contains(')')) by {
                if u@.contains(' ') {
                    let j = choose|j: int| 0 <= j < u@.len() && u@[j] == ' ';
                }
                if u@.contains('(') {
                    let j = choose|j: int| 0 <= j < u@.len() && u@[j] == '(';
                }
                if u@.contains(')') {
                    let j = choose|j: int| 0 <= j < u@.len() && u@[j] == ')';
                }
            }
        }
    }
    if odd {
        let mut out: Vec<char> = Vec::new();
        out.push('<');
        put(&mut out, u.as_slice());
        out.push('>');
        string_of(out.as_slice())
    } else {
        string_of(u.as_slice())
    }
}

/// A book as a list item: its authors and title, its chapter, its ISBN, and
/// when it was checked, whichever it has.
pub open spec fn book_of(b: Book, w: Words) -> Seq<char> {
    let lead = if b.authors@.len() == 0 {
        b.title@
    } else {
        join(texts(b.authors@), ", "@) + " — "@ + b.title@
    };
    let isbn = if b.isbn@.len() == 0 {
        Seq::<char>::empty()
    } else {
        "ISBN "@ + b.isbn@
    };
    joined_of(seq![flat_of(lead), flat_of(b.chapter@), isbn, checked_of(b.checked_at@, w)])
}

fn book(b: &Book, words: &Words) -> (r: String)
    ensures
        r@ == book_of(*b, *words),
{
    let lead = if b.authors.len() == 0 {
        b.title.clone()
    } else {
        let a = join_strings(&b.authors, ", ");
        let mut out: Vec<char> = Vec::new();
        put_str(&mut out, a.as_str());
        put_str(&mut out, " — ");
        put_str(&mut out, b.title.as_str());
        string_of(out.as_slice())
    };
    let isbn = if b.isbn.as_str().unicode_len() == 0 {
        String::new()
    } else {
        let mut out: Vec<char> = Vec::new();
        put_str(&mut out, "ISBN ");
        put_str(&mut out, b.isbn.as_str());
        string_of(out.as_slice())
    };
    let mut parts: Vec<String> = Vec::new();
    parts.push(flat(lead.as_str()));
    parts.push(flat(b.chapter.as_str()));
    parts.push(isbn);
    parts.push(checked(&b.checked_at, words));
    assert(texts(parts@) =~= seq![
        flat_of(lead@),
        flat_of(b.chapter@),
        if b.isbn@.len() == 0 {
            Seq::<char>::empty()
        } else {
            "ISBN "@ + b.isbn@
        },
        checked_of(b.checked_at@, *words),
    ]);
    joined(&parts)
}

/// A page on the web as a list item: a link, and when it was checked.
pub open spec fn reference_of(p: Reference, w: Words) -> Seq<char> {
    joined_of(
        seq![
            "["@ + label_of(p.title@) + "]("@ + address_of(p.url@) + ")"@,
            checked_of(p.checked_at@, w),
        ],
    )
}

fn reference(p: &Reference, words: &Words) -> (r: String)
    ensures
        r@ == reference_of(*p, *words),
{
    let mut link: Vec<char> = Vec::new();
    put_str(&mut link, "[");
    let l = label(p.title.as_str());
    put_str(&mut link, l.as_str());
    put_str(&mut link, "](");
    let a = address(&p.url);
    put_str(&mut link, a.as_str());
    put_str(&mut link, ")");
    let mut parts: Vec<String> = Vec::new();
    parts.push(string_of(link.as_slice()));
    parts.push(checked(&p.checked_at, words));
    assert(texts(parts@) =~= seq![
        "["@ + label_of(p.title@) + "]("@ + address_of(p.url@) + ")"@,
        checked_of(p.checked_at@, *words),
    ]);
    joined(&parts)
}

/// The sources of a program under their heading; nothing where it has none.
pub open spec fn sources_of(ls: Seq<Seq<char>>, t: Tree, w: Words) -> Seq<Seq<char>> {
    let items = t.program.sources.books@.map_values(|b: Book| book_of(b, w))
        + t.program.sources.pages@.map_values(|p: Reference| reference_of(p, w));
    if items.len() == 0 {
        ls
    } else {
        raw_of(heading_of(ls, 2, w.sources@), bulleted(items))
    }
}

fn sources(doc: &mut Doc, tree: &Tree, words: &Words)
    ensures
        final(doc)@ == sources_of(old(doc)@, *tree, *words),
{
    let books = &tree.program.sources.books;
    let pages = &tree.program.sources.pages;
    let ghost m = books@.map_values(|b: Book| book_of(b, *words)) + pages@.map_values(
        |p: Reference| reference_of(p, *words),
    );
    let mut items: Vec<String> = Vec::new();
    let mut i: usize = 0;
    while i < books.len()
        invariant
            i <= books@.len(),
            texts(items@) == books@.map_values(|b: Book| book_of(b, *words)).take(i as int),
        decreases books.len() - i,
    {
        let one = book(&books[i], words);
        let ghost was = texts(items@);
        items.push(one);
        assert(texts(items@) =~= was.push(book_of(books@[i as int], *words)));
        i = i + 1;
        assert(books@.map_values(|b: Book| book_of(b, *words)).take(i as int) =~= books@.map_values(
            |b: Book| book_of(b, *words),
        ).take(i - 1).push(book_of(books@[i - 1], *words)));
    }
    assert(books@.map_values(|b: Book| book_of(b, *words)).take(i as int) =~= books@.map_values(
        |b: Book| book_of(b, *words),
    ));
    let ghost head = texts(items@);
    let mut k: usize = 0;
    while k < pages.len()
        invariant
            k <= pages@.len(),
            texts(items@) == head + pages@.map_values(|p: Reference| reference_of(p, *words)).take(
                k as int,
            ),
        decreases pages.len() - k,
    {
        let one = reference(&pages[k], words);
        let ghost was = texts(items@);
        items.push(one);
        assert(texts(items@) =~= was.push(reference_of(pages@[k as int], *words)));
        k = k + 1;
        assert(pages@.map_values(|p: Reference| reference_of(p, *words)).take(k as int)
            =~= pages@.map_values(|p: Reference| reference_of(p, *words)).take(k - 1).push(
            reference_of(pages@[k - 1], *words),
        ));
    }
    assert(pages@.map_values(|p: Reference| reference_of(p, *words)).take(k as int)
        =~= pages@.map_values(|p: Reference| reference_of(p, *words)));
    assert(texts(items@) =~= m);
    if items.len() == 0 {
        return;
    }
    doc.heading(2, words.sources.as_str());
    doc.bullets(items.as_slice());
}

/// Whether the tree has the page of a stage.
pub open spec fn has_stage(stages: Seq<(String, Stage)>, id: Seq<char>) -> bool {
    exists|k: int| 0 <= k < stages.len() && (#[trigger] stages[k]).0@ == id
}

/// The child program of a uuid: the first one the tree has.
pub open spec fn child_of(children: Seq<(String, Tree)>, uuid: Seq<char>) -> Option<Tree>
    decreases children.len(),
{
    if children.len() == 0 {
        None
    } else if children[0].0@ == uuid {
        Some(children[0].1)
    } else {
        child_of(children.drop_first(), uuid)
    }
}

/// The place of the first child program of a uuid.
pub open spec fn child_at(children: Seq<(String, Tree)>, uuid: Seq<char>) -> int
    decreases children.len(),
{
    if children.len() == 0 || children[0].0@ == uuid {
        0
    } else {
        1 + child_at(children.drop_first(), uuid)
    }
}

pub(crate) fn find_child(children: &Vec<(String, Tree)>, uuid: &String) -> (r: Option<usize>)
    ensures
        match r {
            Some(k) => k < children@.len() && child_of(children@, uuid@) == Some(children@[k as int].1)
                && k == child_at(children@, uuid@),
            None => child_of(children@, uuid@) is None,
        },
{
    let mut k: usize = 0;
    assert(children@.skip(0) == children@);
    while k < children.len()
        invariant
            k <= children@.len(),
            child_of(children@, uuid@) == child_of(children@.skip(k as int), uuid@),
            child_at(children@, uuid@) == k + child_at(children@.skip(k as int), uuid@),
        decreases children.len() - k,
    {
        assert(children@.skip(k as int)[0] == children@[k as int]);
        assert(children@.skip(k as int).drop_first() == children@.skip(k + 1));
        if children[k].0 == *uuid {
            return Some(k);
        }
        k = k + 1;
    }
    None
}

pub(crate) fn find_stage(stages: &Vec<(String, Stage)>, id: &String) -> (r: Option<usize>)
    ensures
        match r {
            Some(k) => k < stages@.len() && stages@[k as int].0@ == id@ && forall|j: int|
                0 <= j < k ==> (#[trigger] stages@[j]).0@ != id@,
            None => !has_stage(stages@, id@),
        },
{
    let mut k: usize = 0;
    while k < stages.len()
        invariant
            k <= stages@.len(),
            forall|j: int| 0 <= j < k ==> (#[trigger] stages@[j]).0@ != id@,
        decreases stages.len() - k,
    {
        if stages[k].0 == *id {
            return Some(k);
        }
        k = k + 1;
    }
    None
}

/// The entry of the stage at `place` in the index.
pub open spec fn stage_entry(t: Tree, place: int, w: Words) -> Seq<char> {
    let row = t.program.map.stages@[place];
    entry_of(
        row.title@,
        if has_stage(t.stages@, row.id@) {
            Some(two_digits((place + 1) as nat) + seq!['-'] + row.id@ + ".md"@)
        } else {
            None
        },
        row.hours,
        w,
    )
}

/// The entry of the child program at `place` in the index.
pub open spec fn child_entry(t: Tree, place: int, w: Words) -> Seq<char> {
    let row = t.program.map.children@[place];
    entry_of(
        row.title@,
        match child_of(t.children@, row.uuid@) {
            Some(c) => Some(two_digits((place + 1) as nat) + seq!['-'] + c.program.slug@ + "/index.md"@),
            None => None,
        },
        row.hours,
        w,
    )
}

/// The index page of a program, under the title of its parent where it has one.
#[verifier::opaque]
pub open spec fn page_of(t: Tree, parent: Option<Seq<char>>, w: Words) -> Seq<char> {
    let p = t.program;
    let a = heading_of(Seq::empty(), 1, p.title@);
    let b = match parent {
        Some(up) => raw_of(a, seq!["← ["@ + label_of(up) + "](../index.md)"@]),
        None => a,
    };
    let c = raw_of(
        b,
        bulleted(
            seq![
                w.goal@ + seq![':', ' '] + flat_of(p.goal@),
                w.level@ + seq![':', ' '] + flat_of(p.level@),
                w.estimate@ + seq![':', ' '] + hours_of(p.map.total, w),
            ],
        ),
    );
    let d = listed_of(
        c,
        w.stages@,
        Seq::new(p.map.stages@.len(), |i: int| stage_entry(t, i, w)),
    );
    let e = listed_of(
        d,
        w.children@,
        Seq::new(p.map.children@.len(), |i: int| child_entry(t, i, w)),
    );
    text_of(sources_of(e, t, w))
}

fn said(word: &String, value: &str) -> (r: String)
    ensures
        r@ == word@ + seq![':', ' '] + value@,
{
    let mut out: Vec<char> = Vec::new();
    put_str(&mut out, word.as_str());
    out.push(':');
    out.push(' ');
    put_str(&mut out, value);
    string_of(out.as_slice())
}

pub fn page(tree: &Tree, parent: Option<&str>, words: &Words) -> (r: String)
    ensures
        r@ == page_of(
            *tree,
            match parent {
                Some(up) => Some(up@),
                None => None,
            },
            *words,
        ),
{
    proof {
        reveal(page_of);
    }
    let program = &tree.program;
    let mut doc = Doc::default();
    doc.heading(1, program.title.as_str());
    match parent {
        Some(up) => {
            let mut back: Vec<char> = Vec::new();
            put_str(&mut back, "← [");
            let l = label(up);
            put_str(&mut back, l.as_str());
            put_str(&mut back, "](../index.md)");
            let mut v: Vec<String> = Vec::new();
            v.push(string_of(back.as_slice()));
            assert(texts(v@) =~= seq!["← ["@ + label_of(up@) + "](../index.md)"@]);
            doc.raw(v);
        },
        None => {},
    }
    let mut about: Vec<String> = Vec::new();
    let g = flat(program.goal.as_str());
    about.push(said(&words.goal, g.as_str()));
    let l = flat(program.level.as_str());
    about.push(said(&words.level, l.as_str()));
    let h = hours(program.map.hours(), words);
    about.push(said(&words.estimate, h.as_str()));
    assert(texts(about@) =~= seq![
        words.goal@ + seq![':', ' '] + flat_of(program.goal@),
        words.level@ + seq![':', ' '] + flat_of(program.level@),
        words.estimate@ + seq![':', ' '] + hours_of(program.map.total, *words),
    ]);
    doc.bullets(about.as_slice());
    let rows = &program.map.stages;
    let ghost sm = Seq::new(rows@.len(), |i: int| stage_entry(*tree, i, *words));
    let mut stages: Vec<String> = Vec::new();
    let mut i: usize = 0;
    while i < rows.len()
        invariant
            i <= rows@.len(),
            rows == &tree.program.map.stages,
            sm == Seq::new(rows@.len(), |i: int| stage_entry(*tree, i, *words)),
            texts(stages@) == sm.take(i as int),
        decreases rows.len() - i,
    {
        let row = &rows[i];
        let target = match find_stage(&tree.stages, &row.id) {
            Some(_) => Some(file(i, row.id.as_str())),
            None => None,
        };
        let one = entry(row.title.as_str(), target, row.hours, words);
        let ghost was = texts(stages@);
        assert(one@ == sm[i as int]);
        stages.push(one);
        assert(texts(stages@) =~= was.push(sm[i as int]));
        i = i + 1;
        assert(sm.take(i as int) =~= sm.take(i - 1).push(sm[i - 1]));
    }
    assert(sm.take(i as int) =~= sm);
    listed(&mut doc, words.stages.as_str(), stages.as_slice());
    let kids = &program.map.children;
    let ghost cm = Seq::new(kids@.len(), |i: int| child_entry(*tree, i, *words));
    let mut children: Vec<String> = Vec::new();
    let mut j: usize = 0;
    while j < kids.len()
        invariant
            j <= kids@.len(),
            kids == &tree.program.map.children,
            cm == Seq::new(kids@.len(), |i: int| child_entry(*tree, i, *words)),
            texts(children@) == cm.take(j as int),
        decreases kids.len() - j,
    {
        let row = &kids[j];
        let target = match find_child(&tree.children, &row.uuid) {
            Some(k) => {
                let f = folder(j, tree.children[k].1.program.slug.as_str());
                let mut t: Vec<char> = Vec::new();
                put_str(&mut t, f.as_str());
                put_str(&mut t, "/index.md");
                Some(string_of(t.as_slice()))
            },
            None => None,
        };
        let one = entry(row.title.as_str(), target, row.hours, words);
        let ghost was = texts(children@);
        assert(one@ == cm[j as int]);
        children.push(one);
        assert(texts(children@) =~= was.push(cm[j as int]));
        j = j + 1;
        assert(cm.take(j as int) =~= cm.take(j - 1).push(cm[j - 1]));
    }
    assert(cm.take(j as int) =~= cm);
    listed(&mut doc, words.children.as_str(), children.as_slice());
    sources(&mut doc, tree, words);
    doc.text()
}

} // verus!
