//! The prompt of the verdict, once the talk is over: the grades so far and
//! the questions that were never asked.
use vstd::prelude::*;

use super::ask::yes_no;
use super::types::{Artifact, artifact_told};
use crate::progress::Answer;
use crate::text::{
    Class, chars_of, join, join_strings, put, put_str, string_of, texts, trim, trim_chars,
    trim_end, trim_end_chars,
};
use crate::topic::{Question, Topic};

verus! {

/// What the exam collected: the grades, the questions a hint was given for, the
/// state of the artifact, the checks that failed, and the date.
#[derive(Debug, Clone, PartialEq, Eq)]
pub struct Collected {
    pub graded: Vec<Answer>,
    pub hinted: Vec<String>,
    pub artifact: Artifact,
    pub failed_checks: Vec<String>,
    pub today: String,
}

/// A list on one line under a title; `нет` for none.
pub open spec fn inline_of(title: Seq<char>, items: Seq<Seq<char>>) -> Seq<char> {
    if items.len() == 0 {
        "- "@ + title + ": нет"@
    } else {
        "- "@ + title + ": "@ + join(items, ", "@)
    }
}

fn listed(title: &str, items: &[String]) -> (r: String)
    ensures
        r@ == inline_of(title@, texts(items@)),
{
    let mut out: Vec<char> = Vec::new();
    put_str(&mut out, "- ");
    put_str(&mut out, title);
    if items.len() == 0 {
        put_str(&mut out, ": нет");
    } else {
        put_str(&mut out, ": ");
        let mut v: Vec<String> = Vec::new();
        let mut i: usize = 0;
        while i < items.len()
            invariant
                i <= items@.len(),
                texts(v@) == texts(items@).take(i as int),
            decreases items.len() - i,
        {
            let ghost was = texts(v@);
            v.push(items[i].clone());
            assert(texts(v@) =~= was.push(items@[i as int]@));
            i = i + 1;
            assert(texts(items@).take(i as int) =~= texts(items@).take(i - 1).push(
                items@[i - 1]@,
            ));
        }
        assert(texts(items@).take(i as int) =~= texts(items@));
        let j = join_strings(&v, ", ");
        put_str(&mut out, j.as_str());
    }
    string_of(out.as_slice())
}

/// A grade as the examiner is told it.
pub open spec fn told_of(a: Answer, hinted: bool) -> Seq<char> {
    "- `"@ + a.id@ + "` — `"@ + a.outcome@ + "`; подсказка: "@ + yes_no(hinted) + (match a.quote {
        Some(q) => "\n  цитата: «"@ + trim(q@) + "»"@,
        None => Seq::<char>::empty(),
    }) + (if a.missed@.len() > 0 {
        "\n  не прозвучало: "@ + join(texts(a.missed@), "; "@)
    } else {
        Seq::<char>::empty()
    }) + (if a.signal_extension {
        "\n  сигнал передан своими словами"@
    } else {
        Seq::<char>::empty()
    }) + "\n"@
}

fn told(answer: &Answer, hinted: bool) -> (r: String)
    ensures
        r@ == told_of(*answer, hinted),
{
    let mut out: Vec<char> = Vec::new();
    put_str(&mut out, "- `");
    put_str(&mut out, answer.id.as_str());
    put_str(&mut out, "` — `");
    put_str(&mut out, answer.outcome.as_str());
    put_str(&mut out, "`; подсказка: ");
    put_str(&mut out, if hinted {
        "да"
    } else {
        "нет"
    });
    let ghost head = out@;
    match &answer.quote {
        Some(q) => {
            put_str(&mut out, "\n  цитата: «");
            let c = chars_of(q.as_str());
            let t = trim_chars(c.as_slice(), &Class::Space);
            put(&mut out, t.as_slice());
            put_str(&mut out, "»");
        },
        None => {},
    }
    let ghost quoted = out@;
    if answer.missed.len() > 0 {
        put_str(&mut out, "\n  не прозвучало: ");
        let j = join_strings(&answer.missed, "; ");
        put_str(&mut out, j.as_str());
    }
    let ghost missed = out@;
    if answer.signal_extension {
        put_str(&mut out, "\n  сигнал передан своими словами");
    }
    put_str(&mut out, "\n");
    assert(out@ =~= told_of(*answer, hinted));
    string_of(out.as_slice())
}

/// The id occurs among the texts.
pub open spec fn has_text(v: Seq<String>, x: Seq<char>) -> bool {
    exists|i: int| 0 <= i < v.len() && (#[trigger] v[i])@ == x
}

fn contains(v: &Vec<String>, x: &String) -> (r: bool)
    ensures
        r == has_text(v@, x@),
{
    let mut i: usize = 0;
    while i < v.len()
        invariant
            i <= v@.len(),
            forall|j: int| 0 <= j < i ==> (#[trigger] v@[j])@ != x@,
        decreases v.len() - i,
    {
        if v[i] == *x {
            return true;
        }
        i = i + 1;
    }
    false
}

/// The grades, each with whether a hint was given for it; a note where there is none.
pub open spec fn graded_of(got: Collected) -> Seq<char> {
    if got.graded@.len() == 0 {
        "Ни один вопрос не оценён: студент завершил зачёт до первого ответа.\n"@
    } else {
        join(
            got.graded@.map_values(|a: Answer| told_of(a, has_text(got.hinted@, a.id@))),
            "\n"@,
        )
    }
}

fn graded(got: &Collected) -> (r: String)
    ensures
        r@ == graded_of(*got),
{
    if got.graded.len() == 0 {
        return crate::text::owned(
            "Ни один вопрос не оценён: студент завершил зачёт до первого ответа.\n",
        );
    }
    let ghost m = got.graded@.map_values(|a: Answer| told_of(a, has_text(got.hinted@, a.id@)));
    let mut v: Vec<String> = Vec::new();
    let mut i: usize = 0;
    while i < got.graded.len()
        invariant
            i <= got.graded@.len(),
            m == got.graded@.map_values(|a: Answer| told_of(a, has_text(got.hinted@, a.id@))),
            texts(v@) == m.take(i as int),
        decreases got.graded.len() - i,
    {
        let a = &got.graded[i];
        let h = contains(&got.hinted, &a.id);
        let one = told(a, h);
        let ghost was = texts(v@);
        assert(one@ == m[i as int]);
        v.push(one);
        assert(texts(v@) =~= was.push(m[i as int]));
        i = i + 1;
        assert(m.take(i as int) =~= m.take(i - 1).push(m[i - 1]));
    }
    assert(m.take(i as int) =~= m);
    join_strings(&v, "\n")
}

/// Some grade is of the question.
pub open spec fn asked(graded: Seq<Answer>, id: Seq<char>) -> bool {
    exists|i: int| 0 <= i < graded.len() && (#[trigger] graded[i]).id@ == id
}

/// The questions that no grade is of, in the topic's order, as list items.
pub open spec fn left_of(qs: Seq<Question>, graded: Seq<Answer>) -> Seq<Seq<char>>
    decreases qs.len(),
{
    if qs.len() == 0 {
        Seq::<Seq<char>>::empty()
    } else {
        left_of(qs.drop_last(), graded) + if asked(graded, qs.last().id@) {
            Seq::<Seq<char>>::empty()
        } else {
            seq!["- `"@ + qs.last().id@ + "`"@]
        }
    }
}

/// The questions that were never asked, where there are any.
pub open spec fn skipped_of(t: Topic, got: Collected) -> Seq<char> {
    let left = left_of(t.questions@, got.graded@);
    if left.len() == 0 {
        Seq::<char>::empty()
    } else {
        "\n### Не заданы\n\n"@ + join(left, "\n"@)
            + "\n\nЭти вопросы не задавались — зачёт завершён раньше. `miss` за них\nставить нельзя, в `per_question` они не идут: перечисли их в `notes`.\n"@
    }
}

fn skipped(topic: &Topic, got: &Collected) -> (r: String)
    ensures
        r@ == skipped_of(*topic, *got),
{
    let qs = &topic.questions;
    let mut left: Vec<String> = Vec::new();
    let mut i: usize = 0;
    while i < qs.len()
        invariant
            i <= qs@.len(),
            texts(left@) == left_of(qs@.take(i as int), got.graded@),
        decreases qs.len() - i,
    {
        assert(qs@.take(i + 1).drop_last() == qs@.take(i as int));
        let q = &qs[i];
        let mut found = false;
        let mut k: usize = 0;
        while k < got.graded.len()
            invariant
                k <= got.graded@.len(),
                found == (exists|j: int| 0 <= j < k && (#[trigger] got.graded@[j]).id@ == q.id@),
            decreases got.graded.len() - k,
        {
            if got.graded[k].id == q.id {
                found = true;
            }
            k = k + 1;
        }
        let ghost was = texts(left@);
        if !found {
            let mut one: Vec<char> = Vec::new();
            put_str(&mut one, "- `");
            put_str(&mut one, q.id.as_str());
            put_str(&mut one, "`");
            left.push(string_of(one.as_slice()));
            assert(texts(left@) =~= was + seq![one@]);
        } else {
            assert(texts(left@) =~= was + Seq::<Seq<char>>::empty());
        }
        i = i + 1;
    }
    assert(qs@.take(i as int) == qs@);
    if left.len() == 0 {
        return String::new();
    }
    let mut out: Vec<char> = Vec::new();
    put_str(&mut out, "\n### Не заданы\n\n");
    let j = join_strings(&left, "\n");
    put_str(&mut out, j.as_str());
    put_str(
        &mut out,
        "\n\nЭти вопросы не задавались — зачёт завершён раньше. `miss` за них\nставить нельзя, в `per_question` они не идут: перечисли их в `notes`.\n",
    );
    string_of(out.as_slice())
}

/// What the examiner is told of the exam before the grades.
pub open spec fn facts_of(t: Topic, got: Collected) -> Seq<char> {
    join(
        seq![
            "- `topic_id`: "@ + t.id@,
            "- Сегодняшняя дата: "@ + got.today@,
            "- Практика: "@ + artifact_told(got.artifact),
            inline_of("Несошедшиеся критерии приёмки"@, texts(got.failed_checks@)),
        ],
        "\n"@,
    )
}

/// What the examiner is given to judge by: its rules, the facts of the exam,
/// the grades, the questions never asked, and the form of the answer.
pub open spec fn verdict_of(examiner: Seq<char>, t: Topic, got: Collected) -> Seq<char> {
    trim_end(examiner) + "\n\n---\n\n## Диалог уже проведён\n\n"@
        + "Зачёт состоялся: приложение задавало вопросы по одному, ты оценивал ответы по ходу.\nНиже — готовые оценки. Новых вопросов не задавай, прежние оценки не переигрывай, вопросов,\nкоторых нет в теме, не выдумывай: твоё дело — собрать вердикт по цепочке из раздела\n«Правило вердикта» и пройти калибровочный гейт."@
        + "\n\n"@ + facts_of(t, got) + "\n\n### Оценки по вопросам\n\n"@ + graded_of(got) + "\n"@
        + skipped_of(t, got) + "\n## Что вывести\n\n"@
        + "Ровно то, что описано в разделе «Вывод»: разбор для человека и один блок json после\nнего. `per_question` заполни оценками выше слово в слово — `id`, `result`, цитаты и\n`missed` менять нельзя, своих записей не добавляй. `hinted` — `true`, если подсказка\nпонадобилась хоть по одному вопросу. `date` — сегодняшняя дата со входа."@
        + "\n"@
}

pub fn verdict(examiner: &str, topic: &Topic, got: &Collected) -> (r: String)
    ensures
        r@ == verdict_of(examiner@, *topic, *got),
{
    let mut facts: Vec<String> = Vec::new();
    let mut a: Vec<char> = Vec::new();
    put_str(&mut a, "- `topic_id`: ");
    put_str(&mut a, topic.id.as_str());
    facts.push(string_of(a.as_slice()));
    let mut b: Vec<char> = Vec::new();
    put_str(&mut b, "- Сегодняшняя дата: ");
    put_str(&mut b, got.today.as_str());
    facts.push(string_of(b.as_slice()));
    let mut c: Vec<char> = Vec::new();
    put_str(&mut c, "- Практика: ");
    put_str(&mut c, got.artifact.told());
    facts.push(string_of(c.as_slice()));
    facts.push(listed("Несошедшиеся критерии приёмки", got.failed_checks.as_slice()));
    assert(texts(facts@) =~= seq![
        "- `topic_id`: "@ + topic.id@,
        "- Сегодняшняя дата: "@ + got.today@,
        "- Практика: "@ + artifact_told(got.artifact),
        inline_of("Несошедшиеся критерии приёмки"@, texts(got.failed_checks@)),
    ]);
    let told_all = join_strings(&facts, "\n");
    let e = chars_of(examiner);
    let et = trim_end_chars(e.as_slice(), &Class::Space);
    let mut out: Vec<char> = Vec::new();
    put(&mut out, et.as_slice());
    put_str(&mut out, "\n\n---\n\n## Диалог уже проведён\n\n");
    put_str(
        &mut out,
        "Зачёт состоялся: приложение задавало вопросы по одному, ты оценивал ответы по ходу.\nНиже — готовые оценки. Новых вопросов не задавай, прежние оценки не переигрывай, вопросов,\nкоторых нет в теме, не выдумывай: твоё дело — собрать вердикт по цепочке из раздела\n«Правило вердикта» и пройти калибровочный гейт.",
    );
    put_str(&mut out, "\n\n");
    put_str(&mut out, told_all.as_str());
    put_str(&mut out, "\n\n### Оценки по вопросам\n\n");
    let g = graded(got);
    put_str(&mut out, g.as_str());
    put_str(&mut out, "\n");
    let s = skipped(topic, got);
    put_str(&mut out, s.as_str());
    put_str(&mut out, "\n## Что вывести\n\n");
    put_str(
        &mut out,
        "Ровно то, что описано в разделе «Вывод»: разбор для человека и один блок json после\nнего. `per_question` заполни оценками выше слово в слово — `id`, `result`, цитаты и\n`missed` менять нельзя, своих записей не добавляй. `hinted` — `true`, если подсказка\nпонадобилась хоть по одному вопросу. `date` — сегодняшняя дата со входа.",
    );
    put_str(&mut out, "\n");
    string_of(out.as_slice())
}

} // verus!

verus! {

/// A question is listed as never asked exactly when no grade is of it.
pub proof fn unasked_are_listed(qs: Seq<Question>, graded: Seq<Answer>, id: Seq<char>)
    ensures
        left_of(qs, graded).contains("- `"@ + id + "`"@) <==> (exists|k: int|
            0 <= k < qs.len() && (#[trigger] qs[k]).id@ == id) && !asked(graded, id),
    decreases qs.len(),
{
    let item = "- `"@ + id + "`"@;
    reveal_strlit("- `");
    reveal_strlit("`");
    if qs.len() > 0 {
        let d = qs.drop_last();
        unasked_are_listed(d, graded, id);
        let l = left_of(qs, graded);
        let a = left_of(d, graded);
        let last = qs.last();
        let mine = "- `"@ + last.id@ + "`"@;
        assert(mine == item ==> last.id@ == id) by {
            if mine == item {
                assert(mine.subrange(3, mine.len() - 1) =~= last.id@);
                assert(item.subrange(3, item.len() - 1) =~= id);
            }
        }
        if a.contains(item) {
            let k = choose|k: int| 0 <= k < a.len() && a[k] == item;
            assert(l[k] == item);
            let m = choose|m: int| 0 <= m < d.len() && (#[trigger] d[m]).id@ == id;
            assert(qs[m] == d[m]);
        }
        if l.contains(item) {
            let k = choose|k: int| 0 <= k < l.len() && l[k] == item;
            if k >= a.len() {
                assert(l[k] == mine);
                assert(qs[qs.len() - 1].id@ == id);
            } else {
                assert(a[k] == item);
            }
        }
        if (exists|k: int| 0 <= k < qs.len() && (#[trigger] qs[k]).id@ == id) && !asked(graded, id) {
            let k = choose|k: int| 0 <= k < qs.len() && (#[trigger] qs[k]).id@ == id;
            if k < qs.len() - 1 {
                assert(d[k] == qs[k]);
                let j = choose|j: int| 0 <= j < a.len() && a[j] == item;
                assert(l[j] == item);
            } else {
                assert(last.id@ == id);
                assert(l[l.len() - 1] == item);
            }
        }
    }
}

/// How the grade of `a` opens: its question, its result, and whether a hint
/// was given, which is `да` exactly when some hint was for that question.
pub open spec fn grade_head(a: Answer, hinted: Seq<String>) -> Seq<char> {
    "- `"@ + a.id@ + "` — `"@ + a.outcome@ + "`; подсказка: "@ + if exists|j: int|
        0 <= j < hinted.len() && (#[trigger] hinted[j])@ == a.id@ {
        "да"@
    } else {
        "нет"@
    }
}

/// The grades are told one per line, in their order, each saying whether a
/// hint was given for its own question, whatever hints the others had.
pub proof fn each_grade_tells_its_own_hint(got: Collected) -> (lines: Seq<Seq<char>>)
    requires
        got.graded@.len() > 0,
    ensures
        lines.len() == got.graded@.len(),
        graded_of(got) == join(lines, "\n"@),
        forall|i: int|
            0 <= i < lines.len() ==> (#[trigger] lines[i]).take(grade_head(got.graded@[i], got.hinted@).len() as int)
                == grade_head(got.graded@[i], got.hinted@),
{
    let lines = got.graded@.map_values(|a: Answer| told_of(a, has_text(got.hinted@, a.id@)));
    assert forall|i: int| 0 <= i < lines.len() implies (#[trigger] lines[i]).take(
        grade_head(got.graded@[i], got.hinted@).len() as int,
    ) == grade_head(got.graded@[i], got.hinted@) by {
        let a = got.graded@[i];
        let h = grade_head(a, got.hinted@);
        assert(lines[i] == told_of(a, has_text(got.hinted@, a.id@)));
        assert(h == "- `"@ + a.id@ + "` — `"@ + a.outcome@ + "`; подсказка: "@ + yes_no(
            has_text(got.hinted@, a.id@),
        ));
        assert(lines[i].take(h.len() as int) =~= h);
    }
    lines
}

} // verus!
