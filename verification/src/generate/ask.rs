//! The prompts that ask for a program, for a topic of it, and for a repair.
use vstd::prelude::*;

use super::request::{Request, level_told};
use crate::exam::ask::{listed, listed_of};
use crate::roadmap::{Roadmap, Stage, TopicEntry};
use crate::text::{
    Class, chars_of, decimal, decimal_of, join, join_strings, put, put_str, string_of, texts, trim,
    trim_chars, trim_end, trim_end_chars,
};

verus! {

/// A prompt with a section: the prompt without trailing blanks, the title, the body.
pub open spec fn section_of(prompt: Seq<char>, title: Seq<char>, body: Seq<char>) -> Seq<char> {
    trim_end(prompt) + "\n\n"@ + title + "\n\n"@ + body + "\n"@
}

fn section(prompt: &str, title: &str, body: &str) -> (r: String)
    ensures
        r@ == section_of(prompt@, title@, body@),
{
    let p = chars_of(prompt);
    let t = trim_end_chars(p.as_slice(), &Class::Space);
    let mut out: Vec<char> = Vec::new();
    put(&mut out, t.as_slice());
    put_str(&mut out, "\n\n");
    put_str(&mut out, title);
    put_str(&mut out, "\n\n");
    put_str(&mut out, body);
    put_str(&mut out, "\n");
    string_of(out.as_slice())
}

fn cat(a: &str, b: &str) -> (r: String)
    ensures
        r@ == a@ + b@,
{
    let mut out: Vec<char> = Vec::new();
    put_str(&mut out, a);
    put_str(&mut out, b);
    string_of(out.as_slice())
}

fn cat_n(a: &str, n: u32, b: &str) -> (r: String)
    ensures
        r@ == a@ + decimal(n as nat) + b@,
{
    let d = decimal_of(n as u64);
    let mut out: Vec<char> = Vec::new();
    put_str(&mut out, a);
    put_str(&mut out, d.as_str());
    put_str(&mut out, b);
    string_of(out.as_slice())
}

/// What the request asks, line by line.
pub open spec fn asked_of(r: Request) -> Seq<Seq<char>> {
    seq![
        "- Чему хочу научиться: "@ + trim(r.subject@),
        "- Что уже знаю: "@ + level_told(r.level),
        "- Часов в неделю: "@ + decimal(r.weekly_hours as nat),
        "- Срок: "@ + match r.weeks {
            Some(w) => decimal(w as nat) + " недель"@,
            None => "срока нет"@,
        },
        "- Язык программы: "@ + r.locale@,
        "- Сегодня: "@ + r.today@,
    ]
}

/// The prompt that asks for a program: the generator's `lead`, then the request.
pub fn roadmap(lead: &str, request: &Request) -> (r: String)
    ensures
        r@ == section_of(lead@, "## Запрос"@, join(asked_of(*request), "\n"@)),
{
    let mut asked: Vec<String> = Vec::new();
    let s = chars_of(request.subject.as_str());
    let st = trim_chars(s.as_slice(), &Class::Space);
    let sts = string_of(st.as_slice());
    asked.push(cat("- Чему хочу научиться: ", sts.as_str()));
    asked.push(cat("- Что уже знаю: ", request.level.told()));
    asked.push(cat_n("- Часов в неделю: ", request.weekly_hours, ""));
    let deadline = match request.weeks {
        Some(w) => cat_n("", w, " недель"),
        None => crate::text::owned("срока нет"),
    };
    asked.push(cat("- Срок: ", deadline.as_str()));
    asked.push(cat("- Язык программы: ", request.locale.as_str()));
    asked.push(cat("- Сегодня: ", request.today.as_str()));
    proof {
        reveal_strlit("");
    }
    assert(texts(asked@) =~= asked_of(*request));
    let body = join_strings(&asked, "\n");
    section(lead, "## Запрос", body.as_str())
}

/// A topic of the plan as the generator is told it.
pub open spec fn named_of(e: TopicEntry) -> Seq<char> {
    "`"@ + e.id@ + "` — "@ + e.title@ + " (этап "@ + decimal(e.stage as nat) + ")"@
}

/// The number of topics of the plan before the first one with `id`.
pub open spec fn before_count(t: Seq<TopicEntry>, id: Seq<char>) -> nat
    decreases t.len(),
{
    if t.len() == 0 || t[0].id@ == id {
        0
    } else {
        1 + before_count(t.drop_first(), id)
    }
}

/// The topics of the plan before the entry.
pub open spec fn earlier_of(t: Seq<TopicEntry>, id: Seq<char>) -> Seq<Seq<char>> {
    t.take(before_count(t, id) as int).map_values(|e: TopicEntry| named_of(e))
}

/// The topics of the plan after the entry; none where the plan lacks it.
pub open spec fn later_of(t: Seq<TopicEntry>, id: Seq<char>) -> Seq<Seq<char>> {
    let k = before_count(t, id);
    if k < t.len() {
        t.skip((k + 1) as int).map_values(|e: TopicEntry| named_of(e))
    } else {
        Seq::empty()
    }
}

proof fn lemma_before(t: Seq<TopicEntry>, id: Seq<char>, k: int)
    requires
        0 <= k <= t.len(),
        forall|j: int| 0 <= j < k ==> (#[trigger] t[j]).id@ != id,
        k == t.len() || t[k].id@ == id,
    ensures
        before_count(t, id) == k,
    decreases k,
{
    if k > 0 {
        assert forall|j: int| 0 <= j < k - 1 implies (#[trigger] t.drop_first()[j]).id@ != id by {
            assert(t.drop_first()[j] == t[j + 1]);
        }
        if k < t.len() {
            assert(t.drop_first()[k - 1] == t[k]);
        }
        lemma_before(t.drop_first(), id, k - 1);
    }
}

fn named(e: &TopicEntry) -> (r: String)
    ensures
        r@ == named_of(*e),
{
    let mut out: Vec<char> = Vec::new();
    put_str(&mut out, "`");
    put_str(&mut out, e.id.as_str());
    put_str(&mut out, "` — ");
    put_str(&mut out, e.title.as_str());
    put_str(&mut out, " (этап ");
    let d = decimal_of(e.stage as u64);
    put_str(&mut out, d.as_str());
    put_str(&mut out, ")");
    string_of(out.as_slice())
}

fn named_range(t: &Vec<TopicEntry>, from: usize, to: usize) -> (r: Vec<String>)
    requires
        from <= to <= t@.len(),
    ensures
        texts(r@) == t@.subrange(from as int, to as int).map_values(|e: TopicEntry| named_of(e)),
{
    let mut out: Vec<String> = Vec::new();
    let mut i = from;
    while i < to
        invariant
            from <= i <= to <= t@.len(),
            texts(out@) == t@.subrange(from as int, i as int).map_values(
                |e: TopicEntry| named_of(e),
            ),
        decreases to - i,
    {
        let ghost was = texts(out@);
        let one = named(&t[i]);
        out.push(one);
        assert(texts(out@) =~= was.push(named_of(t@[i as int])));
        i = i + 1;
        assert(t@.subrange(from as int, i as int).map_values(|e: TopicEntry| named_of(e))
            =~= t@.subrange(from as int, i - 1).map_values(|e: TopicEntry| named_of(e)).push(
            named_of(t@[i - 1]),
        ));
    }
    out
}

fn place(t: &Vec<TopicEntry>, id: &String) -> (k: usize)
    ensures
        k == before_count(t@, id@),
        k <= t@.len(),
{
    let mut k: usize = 0;
    while k < t.len() && t[k].id != *id
        invariant
            k <= t@.len(),
            forall|j: int| 0 <= j < k ==> (#[trigger] t@[j]).id@ != id@,
        decreases t.len() - k,
    {
        k = k + 1;
    }
    proof {
        lemma_before(t@, id@, k as int);
    }
    k
}

/// A pinned version as the generator is told it.
pub open spec fn pin_of(p: (String, String)) -> Seq<char> {
    "`"@ + p.0@ + "`: "@ + p.1@
}

fn pins(roadmap: &Roadmap) -> (r: Vec<String>)
    ensures
        texts(r@) == roadmap.version_pins@.map_values(|p: (String, String)| pin_of(p)),
{
    let v = &roadmap.version_pins;
    let mut out: Vec<String> = Vec::new();
    let mut i: usize = 0;
    while i < v.len()
        invariant
            i <= v@.len(),
            texts(out@) == v@.map_values(|p: (String, String)| pin_of(p)).take(i as int),
        decreases v.len() - i,
    {
        let mut one: Vec<char> = Vec::new();
        put_str(&mut one, "`");
        put_str(&mut one, v[i].0.as_str());
        put_str(&mut one, "`: ");
        put_str(&mut one, v[i].1.as_str());
        let ghost m = v@.map_values(|p: (String, String)| pin_of(p));
        let ghost was = texts(out@);
        assert(one@ == m[i as int]);
        out.push(string_of(one.as_slice()));
        assert(texts(out@) =~= was.push(m[i as int]));
        i = i + 1;
        assert(m.take(i as int) =~= m.take(i - 1).push(m[i - 1]));
    }
    assert(v@.map_values(|p: (String, String)| pin_of(p)).take(i as int) =~= v@.map_values(
        |p: (String, String)| pin_of(p),
    ));
    out
}

/// The title of the stage numbered `n`, or the number where the program has no such stage.
pub open spec fn stage_title(stages: Seq<Stage>, n: u32) -> Seq<char>
    decreases stages.len(),
{
    if stages.len() == 0 {
        decimal(n as nat)
    } else if stages[0].n == n {
        stages[0].title@
    } else {
        stage_title(stages.drop_first(), n)
    }
}

fn stage_named(stages: &Vec<Stage>, n: u32) -> (r: String)
    ensures
        r@ == stage_title(stages@, n),
{
    let mut k: usize = 0;
    assert(stages@.skip(0) == stages@);
    while k < stages.len() && stages[k].n != n
        invariant
            k <= stages@.len(),
            stage_title(stages@, n) == stage_title(stages@.skip(k as int), n),
        decreases stages.len() - k,
    {
        assert(stages@.skip(k as int).drop_first() == stages@.skip(k + 1));
        k = k + 1;
    }
    if k < stages.len() {
        assert(stages@.skip(k as int)[0] == stages@[k as int]);
        stages[k].title.clone()
    } else {
        decimal_of(n as u64)
    }
}

/// What the generator is told of a topic to write.
pub open spec fn told_of(r: Roadmap, e: TopicEntry, today: Seq<char>) -> Seq<Seq<char>> {
    let d = r.defaults.revalidate_after_days;
    seq![
        "- `id`: "@ + e.id@,
        "- `title`: "@ + e.title@,
        "- `stage`: "@ + decimal(e.stage as nat) + " ("@ + stage_title(r.stages@, e.stage) + ")"@,
        "- `est_hours`: ["@ + decimal(e.est_hours.min as nat) + ", "@ + decimal(
            e.est_hours.max as nat,
        ) + "]"@,
        "- `priority`: "@ + e.priority@,
        "- Язык программы: "@ + r.locale@,
        "- Цель программы: "@ + r.goal@,
        "- Сегодня: "@ + today,
        "- `defaults.revalidate_after_days`: stable "@ + decimal(d.stable as nat) + ", evolving "@
            + decimal(d.evolving as nat) + ", volatile "@ + decimal(d.volatile as nat),
        listed_of(
            "Закреплённые версии"@,
            r.version_pins@.map_values(|p: (String, String)| pin_of(p)),
        ),
        listed_of(
            "Темы раньше этой по плану — только их и можно ставить в `depends_on`"@,
            earlier_of(r.topics@, e.id@),
        ),
        listed_of(
            "Темы позже этой по плану — ставить их в `depends_on` нельзя"@,
            later_of(r.topics@, e.id@),
        ),
    ]
}

/// The prompt that asks for a topic: the generator's `lead`, then the topic.
pub fn topic(lead: &str, roadmap: &Roadmap, entry: &TopicEntry, today: &str) -> (r: String)
    ensures
        r@ == section_of(lead@, "## Тема"@, join(told_of(*roadmap, *entry, today@), "\n"@)),
{
    let mut told: Vec<String> = Vec::new();
    told.push(cat("- `id`: ", entry.id.as_str()));
    told.push(cat("- `title`: ", entry.title.as_str()));
    let stage = stage_named(&roadmap.stages, entry.stage);
    let mut a: Vec<char> = Vec::new();
    put_str(&mut a, "- `stage`: ");
    let sn = decimal_of(entry.stage as u64);
    put_str(&mut a, sn.as_str());
    put_str(&mut a, " (");
    put_str(&mut a, stage.as_str());
    put_str(&mut a, ")");
    told.push(string_of(a.as_slice()));
    let mut b: Vec<char> = Vec::new();
    put_str(&mut b, "- `est_hours`: [");
    let lo = decimal_of(entry.est_hours.min as u64);
    put_str(&mut b, lo.as_str());
    put_str(&mut b, ", ");
    let hi = decimal_of(entry.est_hours.max as u64);
    put_str(&mut b, hi.as_str());
    put_str(&mut b, "]");
    told.push(string_of(b.as_slice()));
    told.push(cat("- `priority`: ", entry.priority.as_str()));
    told.push(cat("- Язык программы: ", roadmap.locale.as_str()));
    told.push(cat("- Цель программы: ", roadmap.goal.as_str()));
    told.push(cat("- Сегодня: ", today));
    let d = roadmap.defaults.revalidate_after_days;
    let mut c: Vec<char> = Vec::new();
    put_str(&mut c, "- `defaults.revalidate_after_days`: stable ");
    let x = decimal_of(d.stable as u64);
    put_str(&mut c, x.as_str());
    put_str(&mut c, ", evolving ");
    let y = decimal_of(d.evolving as u64);
    put_str(&mut c, y.as_str());
    put_str(&mut c, ", volatile ");
    let z = decimal_of(d.volatile as u64);
    put_str(&mut c, z.as_str());
    told.push(string_of(c.as_slice()));
    let p = pins(roadmap);
    told.push(listed("Закреплённые версии", p.as_slice()));
    let k = place(&roadmap.topics, &entry.id);
    let before = named_range(&roadmap.topics, 0, k);
    assert(roadmap.topics@.subrange(0, k as int) == roadmap.topics@.take(k as int));
    told.push(
        listed(
            "Темы раньше этой по плану — только их и можно ставить в `depends_on`",
            before.as_slice(),
        ),
    );
    let after = if k < roadmap.topics.len() {
        let r = named_range(&roadmap.topics, k + 1, roadmap.topics.len());
        assert(roadmap.topics@.subrange(k + 1, roadmap.topics@.len() as int)
            == roadmap.topics@.skip(k + 1));
        r
    } else {
        let r: Vec<String> = Vec::new();
        assert(texts(r@) =~= Seq::<Seq<char>>::empty());
        r
    };
    told.push(
        listed("Темы позже этой по плану — ставить их в `depends_on` нельзя", after.as_slice()),
    );
    assert(texts(told@) =~= told_of(*roadmap, *entry, today@));
    let body = join_strings(&told, "\n");
    section(lead, "## Тема", body.as_str())
}

/// The prompt that asks to mend an answer: the prompt asked, the answer that
/// was turned down, and what is wrong with it.
pub open spec fn repair_of(asked: Seq<char>, answered: Seq<char>, complaints: Seq<Seq<char>>) -> Seq<
    char,
> {
    asked + "\n\n## Прошлый ответ\n\nОн отвергнут, вот он целиком:\n\n"@ + trim(answered)
        + "\n\n## Что в нём не так\n\n"@ + join(
        complaints.map_values(|c: Seq<char>| "- "@ + c),
        "\n"@,
    )
        + "\n\nПочини названное и выведи файл целиком заново — правок кусками приложение не принимает.\n"@
}

pub fn repair(asked: &str, answered: &str, complaints: &[String]) -> (r: String)
    ensures
        r@ == repair_of(asked@, answered@, texts(complaints@)),
{
    let ghost m = texts(complaints@).map_values(|c: Seq<char>| "- "@ + c);
    let mut named: Vec<String> = Vec::new();
    let mut i: usize = 0;
    while i < complaints.len()
        invariant
            i <= complaints@.len(),
            m == texts(complaints@).map_values(|c: Seq<char>| "- "@ + c),
            texts(named@) == m.take(i as int),
        decreases complaints.len() - i,
    {
        let one = cat("- ", complaints[i].as_str());
        let ghost was = texts(named@);
        named.push(one);
        assert(texts(named@) =~= was.push(m[i as int]));
        i = i + 1;
        assert(m.take(i as int) =~= m.take(i - 1).push(m[i - 1]));
    }
    assert(m.take(i as int) =~= m);
    let list = join_strings(&named, "\n");
    let a = chars_of(answered);
    let t = trim_chars(a.as_slice(), &Class::Space);
    let mut out: Vec<char> = Vec::new();
    put_str(&mut out, asked);
    put_str(&mut out, "\n\n## Прошлый ответ\n\nОн отвергнут, вот он целиком:\n\n");
    put(&mut out, t.as_slice());
    put_str(&mut out, "\n\n## Что в нём не так\n\n");
    put_str(&mut out, list.as_str());
    put_str(
        &mut out,
        "\n\nПочини названное и выведи файл целиком заново — правок кусками приложение не принимает.\n",
    );
    string_of(out.as_slice())
}

} // verus!
