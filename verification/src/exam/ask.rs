//! The prompts of the exam's turns: a question, a hint, and the practice.
use vstd::prelude::*;

use super::types::{Line, Side};
use crate::text::{
    Class, chars_of, join, join_chars, join_strings, lines, lines_of, put, put_str, string_of,
    texts, trim, trim_chars, trim_end, trim_end_by, trim_end_chars, views,
};
use crate::topic::{Check, Topic};

verus! {

/// A text on indented lines: trimmed, each line without its trailing blanks,
/// the lines after the first indented by two spaces.
pub open spec fn flow_of(s: Seq<char>) -> Seq<char> {
    join(lines(trim(s)).map_values(|l: Seq<char>| trim_end(l)), "\n  "@)
}

pub fn flow(text: &str) -> (r: String)
    ensures
        r@ == flow_of(text@),
{
    let s = chars_of(text);
    let t = trim_chars(s.as_slice(), &Class::Space);
    let ls = lines_of(t.as_slice());
    let mut out: Vec<Vec<char>> = Vec::new();
    let mut i: usize = 0;
    while i < ls.len()
        invariant
            i <= ls@.len(),
            views(ls@) == lines(trim(text@)),
            views(out@) == lines(trim(text@)).map_values(|l: Seq<char>| trim_end(l)).take(
                i as int,
            ),
        decreases ls.len() - i,
    {
        let ghost m = lines(trim(text@)).map_values(|l: Seq<char>| trim_end(l));
        let ghost was = views(out@);
        let e = trim_end_chars(ls[i].as_slice(), &Class::Space);
        assert(e@ == m[i as int]);
        out.push(e);
        assert(views(out@) =~= was.push(m[i as int]));
        i = i + 1;
        assert(m.take(i as int) =~= m.take(i - 1).push(m[i - 1]));
    }
    assert(lines(trim(text@)).map_values(|l: Seq<char>| trim_end(l)).take(i as int)
        =~= lines(trim(text@)).map_values(|l: Seq<char>| trim_end(l)));
    join_chars(&out, "\n  ")
}

/// A list under a title, each item on a line of its own; `нет` for none.
pub open spec fn listed_of(title: Seq<char>, items: Seq<Seq<char>>) -> Seq<char> {
    if items.len() == 0 {
        "- "@ + title + ": нет"@
    } else {
        "- "@ + title + ":\n"@ + join(items.map_values(|i: Seq<char>| "  - "@ + i), "\n"@)
    }
}

pub fn listed(title: &str, items: &[String]) -> (r: String)
    ensures
        r@ == listed_of(title@, texts(items@)),
{
    let mut out: Vec<char> = Vec::new();
    put_str(&mut out, "- ");
    put_str(&mut out, title);
    if items.len() == 0 {
        put_str(&mut out, ": нет");
        return string_of(out.as_slice());
    }
    put_str(&mut out, ":\n");
    let mut body: Vec<String> = Vec::new();
    let mut i: usize = 0;
    while i < items.len()
        invariant
            i <= items@.len(),
            texts(body@) == texts(items@).map_values(|x: Seq<char>| "  - "@ + x).take(i as int),
        decreases items.len() - i,
    {
        let mut line: Vec<char> = Vec::new();
        put_str(&mut line, "  - ");
        put_str(&mut line, items[i].as_str());
        let ghost m = texts(items@).map_values(|x: Seq<char>| "  - "@ + x);
        let ghost was = texts(body@);
        assert(line@ == m[i as int]);
        body.push(string_of(line.as_slice()));
        assert(texts(body@) =~= was.push(m[i as int]));
        i = i + 1;
        assert(m.take(i as int) =~= m.take(i - 1).push(m[i - 1]));
        assert(texts(body@) =~= texts(items@).map_values(|x: Seq<char>| "  - "@ + x).take(
            i as int,
        ));
    }
    assert(texts(items@).map_values(|x: Seq<char>| "  - "@ + x).take(i as int) =~= texts(
        items@,
    ).map_values(|x: Seq<char>| "  - "@ + x));
    let joined = join_strings(&body, "\n");
    put_str(&mut out, joined.as_str());
    string_of(out.as_slice())
}

/// What the examiner is told of the topic.
pub open spec fn about_of(t: Topic) -> Seq<char> {
    "## Тема\n\n"@ + join(
        seq![
            "- `topic_id`: "@ + t.id@,
            "- Тема: "@ + t.title@,
            "- Фокус проверки: "@ + flow_of(t.exam.focus@),
            listed_of("Ожидаемые умения"@, texts(t.outcomes@)),
            listed_of("Известные заблуждения"@, texts(t.misconceptions@)),
        ],
        "\n"@,
    )
}

fn joined(parts: Vec<String>, sep: &str) -> (r: String)
    ensures
        r@ == join(texts(parts@), sep@),
{
    join_strings(&parts, sep)
}

fn cat(a: &str, b: &str) -> (r: String)
    ensures
        r@ == a@ + b@,
{
    let mut out: Vec<char> = Vec::new();
    put_str(&mut out, a);
    put_str(&mut out, b);
    string_of(out.as_slice())
}

fn about(topic: &Topic) -> (r: String)
    ensures
        r@ == about_of(*topic),
{
    let mut parts: Vec<String> = Vec::new();
    parts.push(cat("- `topic_id`: ", topic.id.as_str()));
    parts.push(cat("- Тема: ", topic.title.as_str()));
    let f = flow(topic.exam.focus.as_str());
    parts.push(cat("- Фокус проверки: ", f.as_str()));
    parts.push(listed("Ожидаемые умения", topic.outcomes.as_slice()));
    parts.push(listed("Известные заблуждения", topic.misconceptions.as_slice()));
    assert(texts(parts@) =~= seq![
        "- `topic_id`: "@ + topic.id@,
        "- Тема: "@ + topic.title@,
        "- Фокус проверки: "@ + flow_of(topic.exam.focus@),
        listed_of("Ожидаемые умения"@, texts(topic.outcomes@)),
        listed_of("Известные заблуждения"@, texts(topic.misconceptions@)),
    ]);
    let body = joined(parts, "\n");
    cat("## Тема\n\n", body.as_str())
}

/// Who says a line, as the examiner is told.
pub open spec fn who_of(side: Side) -> Seq<char> {
    match side {
        Side::Examiner => "Экзаменатор"@,
        Side::Student => "Студент"@,
    }
}

fn who(side: Side) -> (r: &'static str)
    ensures
        r@ == who_of(side),
{
    match side {
        Side::Examiner => "Экзаменатор",
        Side::Student => "Студент",
    }
}

/// A line of the talk as the examiner is told.
pub open spec fn said_of(l: Line) -> Seq<char> {
    "**"@ + who_of(l.side) + ":** "@ + flow_of(l.text@)
}

/// The talk so far.
pub open spec fn talk_of(ls: Seq<Line>) -> Seq<char> {
    if ls.len() == 0 {
        "## Разговор\n\nСтудент ещё ничего не сказал."@
    } else {
        "## Разговор\n\n"@ + join(ls.map_values(|l: Line| said_of(l)), "\n\n"@)
    }
}

fn talk(lines: &[Line]) -> (r: String)
    ensures
        r@ == talk_of(lines@),
{
    if lines.len() == 0 {
        return crate::text::owned("## Разговор\n\nСтудент ещё ничего не сказал.");
    }
    let mut said: Vec<String> = Vec::new();
    let mut i: usize = 0;
    while i < lines.len()
        invariant
            i <= lines@.len(),
            texts(said@) == lines@.map_values(|l: Line| said_of(l)).take(i as int),
        decreases lines.len() - i,
    {
        let line = &lines[i];
        let mut one: Vec<char> = Vec::new();
        put_str(&mut one, "**");
        put_str(&mut one, who(line.side));
        put_str(&mut one, ":** ");
        let f = flow(line.text.as_str());
        put_str(&mut one, f.as_str());
        let ghost m = lines@.map_values(|l: Line| said_of(l));
        let ghost was = texts(said@);
        assert(one@ == m[i as int]);
        said.push(string_of(one.as_slice()));
        assert(texts(said@) =~= was.push(m[i as int]));
        i = i + 1;
        assert(m.take(i as int) =~= m.take(i - 1).push(m[i - 1]));
        assert(texts(said@) =~= lines@.map_values(|l: Line| said_of(l)).take(i as int));
    }
    assert(lines@.map_values(|l: Line| said_of(l)).take(i as int) =~= lines@.map_values(
        |l: Line| said_of(l),
    ));
    let body = joined(said, "\n\n");
    cat("## Разговор\n\n", body.as_str())
}

/// A check of the practice as the examiner is told.
pub open spec fn check_of(c: Check) -> Seq<char> {
    "`"@ + c.id@ + "` — "@ + flow_of(c.claim@) + "\n    команда: `"@ + flow_of(c.check@)
        + "`\n    ожидается: "@ + flow_of(c.expect@)
}

fn checks(list: &[Check]) -> (r: Vec<String>)
    ensures
        texts(r@) == list@.map_values(|c: Check| check_of(c)),
{
    let mut out: Vec<String> = Vec::new();
    let mut i: usize = 0;
    while i < list.len()
        invariant
            i <= list@.len(),
            texts(out@) == list@.map_values(|c: Check| check_of(c)).take(i as int),
        decreases list.len() - i,
    {
        let c = &list[i];
        let mut one: Vec<char> = Vec::new();
        put_str(&mut one, "`");
        put_str(&mut one, c.id.as_str());
        put_str(&mut one, "` — ");
        let a = flow(c.claim.as_str());
        put_str(&mut one, a.as_str());
        put_str(&mut one, "\n    команда: `");
        let b = flow(c.check.as_str());
        put_str(&mut one, b.as_str());
        put_str(&mut one, "`\n    ожидается: ");
        let e = flow(c.expect.as_str());
        put_str(&mut one, e.as_str());
        let ghost m = list@.map_values(|c: Check| check_of(c));
        let ghost was = texts(out@);
        assert(one@ == m[i as int]);
        out.push(string_of(one.as_slice()));
        assert(texts(out@) =~= was.push(m[i as int]));
        i = i + 1;
        assert(m.take(i as int) =~= m.take(i - 1).push(m[i - 1]));
        assert(texts(out@) =~= list@.map_values(|c: Check| check_of(c)).take(i as int));
    }
    assert(list@.map_values(|c: Check| check_of(c)).take(i as int) =~= list@.map_values(
        |c: Check| check_of(c),
    ));
    out
}

/// `да` or `нет`.
pub open spec fn yes_no(b: bool) -> Seq<char> {
    if b {
        "да"@
    } else {
        "нет"@
    }
}

fn told(yes: bool) -> (r: &'static str)
    ensures
        r@ == yes_no(yes),
{
    if yes {
        "да"
    } else {
        "нет"
    }
}

/// A prompt: its lead without trailing blanks, a blank line, the parts one
/// blank line apart, and a line break.
pub open spec fn prompt_of(lead: Seq<char>, parts: Seq<Seq<char>>) -> Seq<char> {
    trim_end(lead) + "\n\n"@ + join(parts, "\n\n"@) + "\n"@
}

fn prompt(lead: &str, parts: Vec<String>) -> (r: String)
    ensures
        r@ == prompt_of(lead@, texts(parts@)),
{
    let l = chars_of(lead);
    let t = trim_end_chars(l.as_slice(), &Class::Space);
    let mut out: Vec<char> = Vec::new();
    put(&mut out, t.as_slice());
    put_str(&mut out, "\n\n");
    let body = joined(parts, "\n\n");
    put_str(&mut out, body.as_str());
    put_str(&mut out, "\n");
    string_of(out.as_slice())
}

/// The question asked, as the examiner is told it.
pub open spec fn question_part(asked: Seq<char>, hinted: bool) -> Seq<char> {
    "## Вопрос\n\n"@ + asked + "\n- Подсказка уже выдана: "@ + yes_no(hinted)
}

/// The prompt of a turn: the examiner's `lead`, the topic, the question as
/// `asked` renders it, whether a hint was given, and the talk so far.
pub fn turn(lead: &str, topic: &Topic, asked: &str, lines: &[Line], hinted: bool) -> (r: String)
    ensures
        r@ == prompt_of(
            lead@,
            seq![about_of(*topic), question_part(asked@, hinted), talk_of(lines@)],
        ),
{
    let mut parts: Vec<String> = Vec::new();
    parts.push(about(topic));
    let mut q: Vec<char> = Vec::new();
    put_str(&mut q, "## Вопрос\n\n");
    put_str(&mut q, asked);
    put_str(&mut q, "\n- Подсказка уже выдана: ");
    put_str(&mut q, told(hinted));
    parts.push(string_of(q.as_slice()));
    parts.push(talk(lines));
    assert(texts(parts@) =~= seq![
        about_of(*topic),
        question_part(asked@, hinted),
        talk_of(lines@),
    ]);
    prompt(lead, parts)
}

/// The prompt of a hint: the examiner's `lead`, the topic, the question as
/// `asked` renders it, and the talk so far.
pub fn hint(lead: &str, topic: &Topic, asked: &str, lines: &[Line]) -> (r: String)
    ensures
        r@ == prompt_of(
            lead@,
            seq![about_of(*topic), "## Вопрос\n\n"@ + asked@, talk_of(lines@)],
        ),
{
    let mut parts: Vec<String> = Vec::new();
    parts.push(about(topic));
    parts.push(cat("## Вопрос\n\n", asked));
    parts.push(talk(lines));
    assert(texts(parts@) =~= seq![
        about_of(*topic),
        "## Вопрос\n\n"@ + asked@,
        talk_of(lines@),
    ]);
    prompt(lead, parts)
}

/// The work of a practice as the examiner is told it.
pub open spec fn work_of(t: Topic) -> Seq<char> {
    "## Практика\n\n"@ + join(
        seq![
            "- Задание: "@ + flow_of(t.practice.task@),
            "- Ожидаемый результат: "@ + flow_of(t.practice.deliverable@),
            listed_of("Критерии приёмки"@, t.practice.acceptance@.map_values(|c: Check| check_of(c))),
            listed_of(
                "Ограничения задания"@,
                t.practice.constraints@.map_values(|c: Check| check_of(c)),
            ),
        ],
        "\n"@,
    )
}

/// The prompt of the practice's review: the examiner's `lead`, the topic, the
/// work, and the talk so far.
pub fn practice(lead: &str, topic: &Topic, lines: &[Line]) -> (r: String)
    ensures
        r@ == prompt_of(lead@, seq![about_of(*topic), work_of(*topic), talk_of(lines@)]),
{
    let mut work: Vec<String> = Vec::new();
    let a = flow(topic.practice.task.as_str());
    work.push(cat("- Задание: ", a.as_str()));
    let b = flow(topic.practice.deliverable.as_str());
    work.push(cat("- Ожидаемый результат: ", b.as_str()));
    let acc = checks(topic.practice.acceptance.as_slice());
    work.push(listed("Критерии приёмки", acc.as_slice()));
    let con = checks(topic.practice.constraints.as_slice());
    work.push(listed("Ограничения задания", con.as_slice()));
    assert(texts(work@) =~= seq![
        "- Задание: "@ + flow_of(topic.practice.task@),
        "- Ожидаемый результат: "@ + flow_of(topic.practice.deliverable@),
        listed_of(
            "Критерии приёмки"@,
            topic.practice.acceptance@.map_values(|c: Check| check_of(c)),
        ),
        listed_of(
            "Ограничения задания"@,
            topic.practice.constraints@.map_values(|c: Check| check_of(c)),
        ),
    ]);
    let w = joined(work, "\n");
    let mut parts: Vec<String> = Vec::new();
    parts.push(about(topic));
    parts.push(cat("## Практика\n\n", w.as_str()));
    parts.push(talk(lines));
    assert(texts(parts@) =~= seq![about_of(*topic), work_of(*topic), talk_of(lines@)]);
    prompt(lead, parts)
}

} // verus!
