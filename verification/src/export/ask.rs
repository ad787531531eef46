//! The questions and the exam of a topic as Markdown: the answers and traps
//! only once the topic is passed.
use vstd::prelude::*;

use super::escape::opened_of;
use super::lines::{Doc, bulleted, counted, flat_of, heading_of, line_of, raw_of};
use crate::progress::Status;
use crate::text::{decimal, decimal_of, put_str, string_of, texts};
use crate::topic::{Question, Topic};

verus! {

/// The answers of a topic are shown once it is passed, stale or not.
pub open spec fn open_of(status: Option<Status>) -> bool {
    status == Some(Status::Passed) || status == Some(Status::StalePassed)
}

pub fn open(status: Option<Status>) -> (r: bool)
    ensures
        r == open_of(status),
{
    match status {
        Some(Status::Passed) => true,
        Some(Status::StalePassed) => true,
        _ => false,
    }
}

/// A question as a list item: its text and its kind.
pub open spec fn asked_of(q: Question) -> Seq<char> {
    q.text@ + " _("@ + q.kind@ + ")_"@
}

/// The review of a question: its signals, its red flags and its follow-up;
/// nothing where it has none of them.
pub open spec fn answers_of(ls: Seq<Seq<char>>, q: Question) -> Seq<Seq<char>> {
    if q.expected_signals@.len() == 0 && q.red_flags@.len() == 0 && q.follow_up is None {
        ls
    } else {
        let a = heading_of(ls, 5, "Разбор: "@ + q.text@);
        let b = if q.expected_signals@.len() > 0 {
            raw_of(line_of(a, "Ожидаемые сигналы:"@), bulleted(texts(q.expected_signals@)))
        } else {
            a
        };
        let c = if q.red_flags@.len() > 0 {
            raw_of(line_of(b, "Красные флаги:"@), bulleted(texts(q.red_flags@)))
        } else {
            b
        };
        match q.follow_up {
            Some(f) => line_of(c, "Уточняющий вопрос: "@ + f@),
            None => c,
        }
    }
}

fn cat(a: &str, b: &str) -> (r: String)
    ensures
        r@ == a@ + b@,
{
    let mut out: Vec<char> = Vec::new();
    put_str(&mut out, a);
    put_str(&mut out, b);
    string_of(out.as_slice())
}

fn answers(doc: &mut Doc, q: &Question)
    ensures
        final(doc)@ == answers_of(old(doc)@, *q),
{
    if q.expected_signals.len() == 0 && q.red_flags.len() == 0 && q.follow_up.is_none() {
        return;
    }
    let h = cat("Разбор: ", q.text.as_str());
    doc.heading(5, h.as_str());
    if q.expected_signals.len() > 0 {
        doc.line("Ожидаемые сигналы:");
        doc.bullets(q.expected_signals.as_slice());
    }
    if q.red_flags.len() > 0 {
        doc.line("Красные флаги:");
        doc.bullets(q.red_flags.as_slice());
    }
    match &q.follow_up {
        Some(f) => {
            let t = cat("Уточняющий вопрос: ", f.as_str());
            doc.line(t.as_str());
        },
        None => {},
    }
}

/// The reviews of the questions, one after the other.
pub open spec fn all_answers(ls: Seq<Seq<char>>, qs: Seq<Question>) -> Seq<Seq<char>>
    decreases qs.len(),
{
    if qs.len() == 0 {
        ls
    } else {
        answers_of(all_answers(ls, qs.drop_last()), qs.last())
    }
}

/// The questions of a topic, numbered, and their reviews where they are shown,
/// else a note that they are not; nothing where there are no questions.
pub open spec fn questions_of(ls: Seq<Seq<char>>, t: Topic, shown: bool) -> Seq<Seq<char>> {
    if t.questions@.len() == 0 {
        ls
    } else {
        let a = raw_of(
            heading_of(ls, 4, "Вопросы"@),
            counted(t.questions@.map_values(|q: Question| asked_of(q))),
        );
        if !shown {
            line_of(
                a,
                "_Ответы, красные флаги и ловушки не экспортированы: тема не зачтена._"@,
            )
        } else {
            all_answers(a, t.questions@)
        }
    }
}

pub fn questions(doc: &mut Doc, topic: &Topic, shown: bool)
    ensures
        final(doc)@ == questions_of(old(doc)@, *topic, shown),
{
    let qs = &topic.questions;
    if qs.len() == 0 {
        return;
    }
    doc.heading(4, "Вопросы");
    let ghost m = qs@.map_values(|q: Question| asked_of(q));
    let mut asked: Vec<String> = Vec::new();
    let mut i: usize = 0;
    while i < qs.len()
        invariant
            i <= qs@.len(),
            m == qs@.map_values(|q: Question| asked_of(q)),
            texts(asked@) == m.take(i as int),
        decreases qs.len() - i,
    {
        let mut one: Vec<char> = Vec::new();
        put_str(&mut one, qs[i].text.as_str());
        put_str(&mut one, " _(");
        put_str(&mut one, qs[i].kind.as_str());
        put_str(&mut one, ")_");
        let ghost was = texts(asked@);
        assert(one@ == m[i as int]);
        asked.push(string_of(one.as_slice()));
        assert(texts(asked@) =~= was.push(m[i as int]));
        i = i + 1;
        assert(m.take(i as int) =~= m.take(i - 1).push(m[i - 1]));
    }
    assert(m.take(i as int) =~= m);
    doc.numbered(asked.as_slice());
    if !shown {
        doc.line("_Ответы, красные флаги и ловушки не экспортированы: тема не зачтена._");
        return;
    }
    let ghost start = doc@;
    let mut k: usize = 0;
    while k < qs.len()
        invariant
            k <= qs@.len(),
            doc@ == all_answers(start, qs@.take(k as int)),
        decreases qs.len() - k,
    {
        assert(qs@.take(k + 1).drop_last() == qs@.take(k as int));
        answers(doc, &qs[k]);
        k = k + 1;
    }
    assert(qs@.take(k as int) == qs@);
}

/// The exam of a topic: its focus, whether an artifact is required, how many
/// exchanges it takes, and its traps where they are shown.
pub open spec fn exam_of(ls: Seq<Seq<char>>, t: Topic, shown: bool) -> Seq<Seq<char>> {
    let e = t.exam;
    let a = raw_of(
        line_of(heading_of(ls, 4, "Экзамен"@), e.focus@),
        bulleted(
            seq![
                "Артефакт обязателен: "@ + if e.artifact_required {
                    "да"@
                } else {
                    "нет"@
                },
                "Обменов не больше: "@ + decimal(e.max_exchanges as nat),
            ],
        ),
    );
    if !shown || e.traps@.len() == 0 {
        a
    } else {
        raw_of(line_of(a, "Ловушки:"@), bulleted(texts(e.traps@)))
    }
}

pub fn exam(doc: &mut Doc, topic: &Topic, shown: bool)
    ensures
        final(doc)@ == exam_of(old(doc)@, *topic, shown),
{
    let e = &topic.exam;
    doc.heading(4, "Экзамен");
    doc.line(e.focus.as_str());
    let mut items: Vec<String> = Vec::new();
    items.push(cat("Артефакт обязателен: ", if e.artifact_required {
        "да"
    } else {
        "нет"
    }));
    let mut x: Vec<char> = Vec::new();
    put_str(&mut x, "Обменов не больше: ");
    let d = decimal_of(e.max_exchanges as u64);
    put_str(&mut x, d.as_str());
    items.push(string_of(x.as_slice()));
    assert(texts(items@) =~= seq![
        "Артефакт обязателен: "@ + if e.artifact_required {
            "да"@
        } else {
            "нет"@
        },
        "Обменов не больше: "@ + decimal(e.max_exchanges as nat),
    ]);
    doc.bullets(items.as_slice());
    if !shown || e.traps.len() == 0 {
        return;
    }
    doc.line("Ловушки:");
    doc.bullets(e.traps.as_slice());
}

/// While the answers are hidden, the questions of a topic say nothing of
/// their expected signals, red flags and follow-ups: two topics whose
/// questions differ only in those give the same lines, which end in the note
/// that the answers are hidden; a topic without questions adds nothing.
pub proof fn hidden_answers_hide_the_reviews(ls: Seq<Seq<char>>, t1: Topic, t2: Topic)
    requires
        t1.questions@.len() == t2.questions@.len(),
        forall|i: int|
            0 <= i < t1.questions@.len() ==> (#[trigger] t1.questions@[i]).text == t2.questions@[i].text
                && t1.questions@[i].kind == t2.questions@[i].kind,
    ensures
        questions_of(ls, t1, false) == questions_of(ls, t2, false),
        t1.questions@.len() == 0 ==> questions_of(ls, t1, false) == ls,
        t1.questions@.len() > 0 ==> questions_of(ls, t1, false).last() == opened_of(
            flat_of("_Ответы, красные флаги и ловушки не экспортированы: тема не зачтена._"@),
        ),
{
    let a = t1.questions@.map_values(|q: Question| asked_of(q));
    let b = t2.questions@.map_values(|q: Question| asked_of(q));
    assert(a =~= b) by {
        assert forall|i: int| 0 <= i < a.len() implies a[i] == b[i] by {
            assert(t1.questions@[i].text == t2.questions@[i].text);
        }
    }
}

/// The answers of a topic are shown exactly when it is done, and a topic that
/// is not yet passed keeps them hidden: a stale pass shows them as a fresh one does.
pub proof fn answers_show_once_done(status: Option<Status>)
    ensures
        open_of(status) <==> (status matches Some(s) && s.done_of()),
        open_of(status) <==> (status is Some && status.unwrap() != Status::Todo),
        open_of(Some(Status::StalePassed)) == open_of(Some(Status::Passed)),
{
}

} // verus!
