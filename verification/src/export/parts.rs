//! The parts of a topic as Markdown: its materials and its practice.
use vstd::prelude::*;

use super::lines::{Doc, bulleted, heading_of, line_of, raw_of};
use crate::text::{
    Class, chars_of, decimal, decimal_of, join, join_chars, put, put_str, string_of, texts, trim,
    trim_chars, words, words_of,
};
use crate::topic::{Check, Material, Practice, Topic};

verus! {

/// `[` and `]` escaped with a backslash.
pub open spec fn unbracketed(s: Seq<char>) -> Seq<char>
    decreases s.len(),
{
    if s.len() == 0 {
        Seq::<char>::empty()
    } else {
        unbracketed(s.drop_last()) + if s.last() == '[' || s.last() == ']' {
            seq!['\\', s.last()]
        } else {
            seq![s.last()]
        }
    }
}

/// A title on one line with its brackets escaped.
pub open spec fn plain_of(s: Seq<char>) -> Seq<char> {
    unbracketed(join(words(s), seq![' ']))
}

fn plain(title: &Vec<char>) -> (r: Vec<char>)
    ensures
        r@ == plain_of(title@),
{
    let ws = words_of(title.as_slice());
    let j = join_chars(&ws, " ");
    proof {
        reveal_strlit(" ");
        assert(" "@ =~= seq![' ']);
    }
    let s = chars_of(j.as_str());
    let mut out: Vec<char> = Vec::new();
    let mut i: usize = 0;
    while i < s.len()
        invariant
            i <= s@.len(),
            out@ == unbracketed(s@.take(i as int)),
        decreases s.len() - i,
    {
        assert(s@.take(i + 1).drop_last() == s@.take(i as int));
        if s[i] == '[' || s[i] == ']' {
            out.push('\\');
        }
        out.push(s[i]);
        i = i + 1;
    }
    assert(s@.take(s@.len() as int) == s@);
    out
}

/// A material as a list item: a link, then its kind, tier and language, and
/// what else is known of it.
pub open spec fn material_of(m: Material) -> Seq<char> {
    "["@ + plain_of(trim(m.title@)) + "]("@ + trim(m.url@) + ")"@ + " — "@ + m.kind@ + ", "@
        + m.tier@ + ", "@ + m.lang@ + (match m.liveness {
        Some(l) => ", доступ: "@ + l@,
        None => Seq::<char>::empty(),
    }) + (match m.covers_version {
        Some(v) => ", покрывает "@ + v@,
        None => Seq::<char>::empty(),
    }) + (if m.stale {
        ", устарел"@
    } else {
        Seq::<char>::empty()
    }) + (match m.delta {
        Some(d) => " ("@ + d@ + ")"@,
        None => Seq::<char>::empty(),
    }) + (if m.note@.len() > 0 {
        ". "@ + m.note@
    } else {
        Seq::<char>::empty()
    })
}

fn material(m: &Material) -> (r: String)
    ensures
        r@ == material_of(*m),
{
    let mut out: Vec<char> = Vec::new();
    put_str(&mut out, "[");
    let t = chars_of(m.title.as_str());
    let tt = trim_chars(t.as_slice(), &Class::Space);
    let p = plain(&tt);
    put(&mut out, p.as_slice());
    put_str(&mut out, "](");
    let u = chars_of(m.url.as_str());
    let ut = trim_chars(u.as_slice(), &Class::Space);
    put(&mut out, ut.as_slice());
    put_str(&mut out, ")");
    put_str(&mut out, " — ");
    put_str(&mut out, m.kind.as_str());
    put_str(&mut out, ", ");
    put_str(&mut out, m.tier.as_str());
    put_str(&mut out, ", ");
    put_str(&mut out, m.lang.as_str());
    let ghost a = out@;
    match &m.liveness {
        Some(l) => {
            put_str(&mut out, ", доступ: ");
            put_str(&mut out, l.as_str());
        },
        None => {},
    }
    let ghost b = out@;
    match &m.covers_version {
        Some(v) => {
            put_str(&mut out, ", покрывает ");
            put_str(&mut out, v.as_str());
        },
        None => {},
    }
    let ghost c = out@;
    if m.stale {
        put_str(&mut out, ", устарел");
    }
    let ghost d = out@;
    match &m.delta {
        Some(x) => {
            put_str(&mut out, " (");
            put_str(&mut out, x.as_str());
            put_str(&mut out, ")");
        },
        None => {},
    }
    let ghost e = out@;
    if m.note.as_str().unicode_len() > 0 {
        put_str(&mut out, ". ");
        put_str(&mut out, m.note.as_str());
    }
    assert(out@ =~= material_of(*m));
    string_of(out.as_slice())
}

/// The materials of a topic, under their heading; nothing where there are none.
pub open spec fn materials_of(ls: Seq<Seq<char>>, t: Topic) -> Seq<Seq<char>> {
    if t.materials@.len() == 0 {
        ls
    } else {
        raw_of(
            heading_of(ls, 4, "Материалы"@),
            bulleted(t.materials@.map_values(|m: Material| material_of(m))),
        )
    }
}

pub fn materials(doc: &mut Doc, topic: &Topic)
    ensures
        final(doc)@ == materials_of(old(doc)@, *topic),
{
    if topic.materials.len() == 0 {
        return;
    }
    doc.heading(4, "Материалы");
    let ghost m = topic.materials@.map_values(|x: Material| material_of(x));
    let mut items: Vec<String> = Vec::new();
    let mut i: usize = 0;
    while i < topic.materials.len()
        invariant
            i <= topic.materials@.len(),
            m == topic.materials@.map_values(|x: Material| material_of(x)),
            texts(items@) == m.take(i as int),
        decreases topic.materials.len() - i,
    {
        let one = material(&topic.materials[i]);
        let ghost was = texts(items@);
        items.push(one);
        assert(texts(items@) =~= was.push(m[i as int]));
        i = i + 1;
        assert(m.take(i as int) =~= m.take(i - 1).push(m[i - 1]));
    }
    assert(m.take(i as int) =~= m);
    doc.bullets(items.as_slice());
}

/// What is said of a practice as list items.
pub open spec fn about_of(p: Practice) -> Seq<Seq<char>> {
    seq![
        "Результат: "@ + p.deliverable@,
        "Вид: "@ + p.kind@ + ", уровень: "@ + p.tier@,
        "Таймбокс: "@ + decimal(p.time_box_min as nat) + " мин"@,
    ] + match p.starting_point {
        Some(s) => seq!["Отправная точка: "@ + s@],
        None => Seq::<Seq<char>>::empty(),
    }
}

fn cat(a: &str, b: &str) -> (r: String)
    ensures
        r@ == a@ + b@,
{
    let mut out: Vec<char> = Vec::new();
    put_str(&mut out, a);
    put_str(&mut out, b);
    string_of(out.as_slice())
}

fn about(p: &Practice) -> (r: Vec<String>)
    ensures
        texts(r@) == about_of(*p),
{
    let mut items: Vec<String> = Vec::new();
    items.push(cat("Результат: ", p.deliverable.as_str()));
    let mut k: Vec<char> = Vec::new();
    put_str(&mut k, "Вид: ");
    put_str(&mut k, p.kind.as_str());
    put_str(&mut k, ", уровень: ");
    put_str(&mut k, p.tier.as_str());
    items.push(string_of(k.as_slice()));
    let mut t: Vec<char> = Vec::new();
    put_str(&mut t, "Таймбокс: ");
    let d = decimal_of(p.time_box_min as u64);
    put_str(&mut t, d.as_str());
    put_str(&mut t, " мин");
    items.push(string_of(t.as_slice()));
    match &p.starting_point {
        Some(s) => {
            items.push(cat("Отправная точка: ", s.as_str()));
        },
        None => {},
    }
    assert(texts(items@) =~= about_of(*p));
    items
}

/// A check of a practice as a list item.
pub open spec fn check_item(c: Check) -> Seq<char> {
    trim(c.claim@) + " — проверка: `"@ + trim(c.check@) + "`, ожидается: "@ + trim(c.expect@)
}

/// The checks of a practice under a heading; nothing where there are none.
pub open spec fn checks_of(ls: Seq<Seq<char>>, title: Seq<char>, cs: Seq<Check>) -> Seq<Seq<char>> {
    if cs.len() == 0 {
        ls
    } else {
        raw_of(heading_of(ls, 5, title), bulleted(cs.map_values(|c: Check| check_item(c))))
    }
}

fn trimmed(s: &String) -> (r: Vec<char>)
    ensures
        r@ == trim(s@),
{
    let c = chars_of(s.as_str());
    trim_chars(c.as_slice(), &Class::Space)
}

fn checks(doc: &mut Doc, title: &str, list: &[Check])
    ensures
        final(doc)@ == checks_of(old(doc)@, title@, list@),
{
    if list.len() == 0 {
        return;
    }
    doc.heading(5, title);
    let ghost m = list@.map_values(|c: Check| check_item(c));
    let mut items: Vec<String> = Vec::new();
    let mut i: usize = 0;
    while i < list.len()
        invariant
            i <= list@.len(),
            m == list@.map_values(|c: Check| check_item(c)),
            texts(items@) == m.take(i as int),
        decreases list.len() - i,
    {
        let c = &list[i];
        let mut one: Vec<char> = Vec::new();
        let a = trimmed(&c.claim);
        put(&mut one, a.as_slice());
        put_str(&mut one, " — проверка: `");
        let b = trimmed(&c.check);
        put(&mut one, b.as_slice());
        put_str(&mut one, "`, ожидается: ");
        let e = trimmed(&c.expect);
        put(&mut one, e.as_slice());
        let ghost was = texts(items@);
        assert(one@ == m[i as int]);
        items.push(string_of(one.as_slice()));
        assert(texts(items@) =~= was.push(m[i as int]));
        i = i + 1;
        assert(m.take(i as int) =~= m.take(i - 1).push(m[i - 1]));
    }
    assert(m.take(i as int) =~= m);
    doc.bullets(items.as_slice());
}

/// The practice of a topic: its task, what is said of it, its checks, and its hint.
pub open spec fn practice_of(ls: Seq<Seq<char>>, t: Topic) -> Seq<Seq<char>> {
    let p = t.practice;
    let a = raw_of(
        line_of(heading_of(ls, 4, "Практика"@), p.task@),
        bulleted(about_of(p)),
    );
    let b = checks_of(checks_of(a, "Ограничения"@, p.constraints@), "Приёмка"@, p.acceptance@);
    match p.fallback {
        Some(f) => line_of(b, "Подсказка: "@ + f@),
        None => b,
    }
}

pub fn practice(doc: &mut Doc, topic: &Topic)
    ensures
        final(doc)@ == practice_of(old(doc)@, *topic),
{
    let p = &topic.practice;
    doc.heading(4, "Практика");
    doc.line(p.task.as_str());
    let a = about(p);
    doc.bullets(a.as_slice());
    checks(doc, "Ограничения", p.constraints.as_slice());
    checks(doc, "Приёмка", p.acceptance.as_slice());
    match &p.fallback {
        Some(f) => {
            let t = cat("Подсказка: ", f.as_str());
            doc.line(t.as_str());
        },
        None => {},
    }
}

} // verus!
