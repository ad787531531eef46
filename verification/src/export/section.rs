//! The section of one topic in the book of a program: what is said of it,
//! its outcomes, materials, practice, questions, exam, and note.
use vstd::prelude::*;

use super::ask::{exam, exam_of, open, open_of, questions, questions_of};
use super::lines::{Doc, bulleted, heading_of, line_of, raw_of};
use super::note::{note, note_of};
use super::parts::{materials, materials_of, practice, practice_of};
use super::Link;
use crate::notes::Note;
use crate::progress::Status;
use crate::roadmap::TopicEntry;
use crate::text::{decimal, decimal_of, join, join_strings, put_str, same, string_of, texts};
use crate::topic::Topic;

verus! {

/// What the section of a topic sees besides the topic: the links to the
/// sections of other topics, the topic's status, and the notes.
pub struct Sight<'a> {
    pub links: &'a [(String, Link)],
    pub status: Option<Status>,
    pub notes: &'a [Note],
}

/// The link to the section of a topic: the first the book has for it.
pub open spec fn link_for(links: Seq<(String, Link)>, id: Seq<char>) -> Option<Link>
    decreases links.len(),
{
    if links.len() == 0 {
        None
    } else if links[0].0@ == id {
        Some(links[0].1)
    } else {
        link_for(links.drop_first(), id)
    }
}

/// A dependency: a link to its section where the book has one, else its id.
pub open spec fn depend_of(links: Seq<(String, Link)>, id: String) -> Seq<char> {
    match link_for(links, id@) {
        Some(l) => seq!['['] + l.title@ + "](#"@ + l.anchor@ + seq![')'],
        None => id@,
    }
}

/// The dependencies of a topic, each as a link where the book has one.
pub open spec fn depends_of(t: Topic, links: Seq<(String, Link)>) -> Seq<char> {
    join(t.depends_on@.map_values(|id: String| depend_of(links, id)), ", "@)
}

/// The status of a topic as the section names it.
pub open spec fn status_of(status: Option<Status>) -> Seq<char> {
    match status {
        Some(s) => s.label_of(),
        None => "неизвестен"@,
    }
}

/// What the section says of a topic, as list items: its status, estimate and
/// priority, and, where it has a document, when it was checked, how sure and
/// lasting it is, and what it depends on.
pub open spec fn about_of(
    e: TopicEntry,
    d: Option<Topic>,
    links: Seq<(String, Link)>,
    status: Option<Status>,
) -> Seq<Seq<char>> {
    let head = seq![
        "Статус: "@ + status_of(status),
        "Оценка: "@ + decimal(e.est_hours.min as nat) + "–"@ + decimal(e.est_hours.max as nat) + " ч"@,
        "Приоритет: "@ + e.priority@,
    ];
    match d {
        None => head,
        Some(t) => head + seq![
            "Проверено "@ + t.verified_at@ + ", пересмотр через "@ + decimal(
                t.revalidate_after_days as nat,
            ) + " дн., волатильность: "@ + t.volatility@,
            "Уверенность: "@ + t.confidence@ + ", удержание: "@ + t.retention@,
        ] + if t.depends_on@.len() == 0 {
            Seq::<Seq<char>>::empty()
        } else {
            seq!["Зависит от: "@ + depends_of(t, links)]
        },
    }
}

/// Items under a heading of their own: nothing where there are none.
pub open spec fn listed_of(ls: Seq<Seq<char>>, title: Seq<char>, items: Seq<Seq<char>>) -> Seq<
    Seq<char>,
> {
    if items.len() == 0 {
        ls
    } else {
        raw_of(heading_of(ls, 4, title), bulleted(items))
    }
}

/// The topic a reference names, as a value.
pub open spec fn topic_in(d: Option<&Topic>) -> Option<Topic> {
    match d {
        Some(t) => Some(*t),
        None => None,
    }
}

/// The section of a topic.
pub open spec fn section_of(
    ls: Seq<Seq<char>>,
    e: TopicEntry,
    d: Option<Topic>,
    links: Seq<(String, Link)>,
    status: Option<Status>,
    notes: Seq<Note>,
) -> Seq<Seq<char>> {
    let a = raw_of(heading_of(ls, 3, e.title@), bulleted(about_of(e, d, links, status)));
    match d {
        None => line_of(a, "_Тема ещё не сгенерирована: в бандле нет её файла._"@),
        Some(t) => {
            let b = listed_of(
                listed_of(listed_of(a, "Чему научит"@, texts(t.outcomes@)), "Заблуждения"@, texts(t.misconceptions@)),
                "Версии"@,
                texts(t.version_context@),
            );
            let c = practice_of(materials_of(b, t), t);
            let shown = open_of(status);
            note_of(exam_of(questions_of(c, t, shown), t, shown), notes, t.id@)
        },
    }
}

fn found_link(links: &[(String, Link)], id: &String) -> (r: Option<usize>)
    ensures
        match r {
            Some(k) => k < links@.len() && link_for(links@, id@) == Some(links@[k as int].1),
            None => link_for(links@, id@) is None,
        },
{
    let mut k: usize = 0;
    assert(links@.skip(0) == links@);
    while k < links.len()
        invariant
            k <= links@.len(),
            link_for(links@, id@) == link_for(links@.skip(k as int), id@),
        decreases links.len() - k,
    {
        assert(links@.skip(k as int)[0] == links@[k as int]);
        assert(links@.skip(k as int).drop_first() == links@.skip(k + 1));
        if same(links[k].0.as_str(), id.as_str()) {
            return Some(k);
        }
        k = k + 1;
    }
    None
}

/// The dependencies of a topic, each as a link to its section where the book
/// has one, else as its id.
fn depends(topic: &Topic, links: &[(String, Link)]) -> (r: String)
    ensures
        r@ == depends_of(*topic, links@),
{
    let ghost m = topic.depends_on@.map_values(|id: String| depend_of(links@, id));
    let mut items: Vec<String> = Vec::new();
    let mut i: usize = 0;
    while i < topic.depends_on.len()
        invariant
            i <= topic.depends_on@.len(),
            m == topic.depends_on@.map_values(|id: String| depend_of(links@, id)),
            texts(items@) == m.take(i as int),
        decreases topic.depends_on.len() - i,
    {
        let id = &topic.depends_on[i];
        let one = match found_link(links, id) {
            Some(k) => {
                let l = &links[k].1;
                let mut out: Vec<char> = Vec::new();
                out.push('[');
                put_str(&mut out, l.title.as_str());
                put_str(&mut out, "](#");
                put_str(&mut out, l.anchor.as_str());
                out.push(')');
                string_of(out.as_slice())
            },
            None => id.clone(),
        };
        let ghost was = texts(items@);
        assert(one@ == m[i as int]);
        items.push(one);
        assert(texts(items@) =~= was.push(m[i as int]));
        i = i + 1;
        assert(m.take(i as int) =~= m.take(i - 1).push(m[i - 1]));
    }
    assert(m.take(i as int) =~= m);
    join_strings(&items, ", ")
}

fn about(entry: &TopicEntry, document: Option<&Topic>, sight: &Sight) -> (items: Vec<String>)
    ensures
        texts(items@) == about_of(*entry, topic_in(document), sight.links@, sight.status),
{
    let mut items: Vec<String> = Vec::new();
    let mut a: Vec<char> = Vec::new();
    put_str(&mut a, "Статус: ");
    match sight.status {
        Some(s) => put_str(&mut a, s.label()),
        None => put_str(&mut a, "неизвестен"),
    }
    items.push(string_of(a.as_slice()));
    let mut b: Vec<char> = Vec::new();
    put_str(&mut b, "Оценка: ");
    let lo = decimal_of(entry.est_hours.min as u64);
    put_str(&mut b, lo.as_str());
    put_str(&mut b, "–");
    let hi = decimal_of(entry.est_hours.max as u64);
    put_str(&mut b, hi.as_str());
    put_str(&mut b, " ч");
    items.push(string_of(b.as_slice()));
    let mut c: Vec<char> = Vec::new();
    put_str(&mut c, "Приоритет: ");
    put_str(&mut c, entry.priority.as_str());
    items.push(string_of(c.as_slice()));
    let topic = match document {
        Some(t) => t,
        None => {
            assert(texts(items@) =~= about_of(*entry, topic_in(document), sight.links@, sight.status));
            return items;
        },
    };
    let mut d: Vec<char> = Vec::new();
    put_str(&mut d, "Проверено ");
    put_str(&mut d, topic.verified_at.as_str());
    put_str(&mut d, ", пересмотр через ");
    let days = decimal_of(topic.revalidate_after_days as u64);
    put_str(&mut d, days.as_str());
    put_str(&mut d, " дн., волатильность: ");
    put_str(&mut d, topic.volatility.as_str());
    items.push(string_of(d.as_slice()));
    let mut e: Vec<char> = Vec::new();
    put_str(&mut e, "Уверенность: ");
    put_str(&mut e, topic.confidence.as_str());
    put_str(&mut e, ", удержание: ");
    put_str(&mut e, topic.retention.as_str());
    items.push(string_of(e.as_slice()));
    if topic.depends_on.len() > 0 {
        let mut f: Vec<char> = Vec::new();
        put_str(&mut f, "Зависит от: ");
        let deps = depends(topic, sight.links);
        put_str(&mut f, deps.as_str());
        items.push(string_of(f.as_slice()));
    }
    assert(texts(items@) =~= about_of(*entry, topic_in(document), sight.links@, sight.status));
    items
}

fn listed(doc: &mut Doc, title: &str, items: &[String])
    ensures
        final(doc)@ == listed_of(old(doc)@, title@, texts(items@)),
{
    if items.len() == 0 {
        return;
    }
    doc.heading(4, title);
    doc.bullets(items);
}

/// The section of a topic: its heading, what is said of it, and where it has
/// a document, its outcomes, misconceptions, versions, materials, practice,
/// questions, exam and note.
pub fn section(doc: &mut Doc, entry: &TopicEntry, document: Option<&Topic>, sight: &Sight)
    ensures
        final(doc)@ == section_of(
            old(doc)@,
            *entry,
            topic_in(document),
            sight.links@,
            sight.status,
            sight.notes@,
        ),
{
    doc.heading(3, entry.title.as_str());
    let items = about(entry, document, sight);
    doc.bullets(items.as_slice());
    let topic = match document {
        Some(t) => t,
        None => {
            doc.line("_Тема ещё не сгенерирована: в бандле нет её файла._");
            return;
        },
    };
    listed(doc, "Чему научит", topic.outcomes.as_slice());
    listed(doc, "Заблуждения", topic.misconceptions.as_slice());
    listed(doc, "Версии", topic.version_context.as_slice());
    materials(doc, topic);
    practice(doc, topic);
    let shown = open(sight.status);
    questions(doc, topic, shown);
    exam(doc, topic, shown);
    note(doc, sight.notes, topic.id.as_str());
}

} // verus!
