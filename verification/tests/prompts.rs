use tolearn_core::exam::{hint, practice, turn, verdict, Artifact, Collected, Line, Side, StepError};
use tolearn_core::generate::{fenced, generated, pick, repair, stamped, Level, Request};
use tolearn_core::export::ask::questions;
use tolearn_core::export::lines::Doc;
use tolearn_core::hours::Hours;
use tolearn_core::progress::Answer;
use tolearn_core::topic::{Check, Exam, Practice, Question, Topic};

fn question(id: &str) -> Question {
    Question {
        id: id.to_string(),
        text: format!("What is {id}?"),
        kind: "recall".to_string(),
        expected_signals: Vec::new(),
        red_flags: Vec::new(),
        follow_up: None,
    }
}

fn topic() -> Topic {
    Topic {
        schema: "learning-roadmap/topic/v1".to_string(),
        id: "t1".to_string(),
        title: "T".to_string(),
        depends_on: Vec::new(),
        est_hours: Hours { min: 1, max: 2 },
        verified_at: "2024-01-01".to_string(),
        revalidate_after_days: 90,
        volatility: "stable".to_string(),
        confidence: "high".to_string(),
        retention: "core".to_string(),
        outcomes: Vec::new(),
        misconceptions: vec!["m1".to_string()],
        version_context: Vec::new(),
        materials: Vec::new(),
        practice: Practice {
            task: " build it \n  twice ".to_string(),
            deliverable: "repo".to_string(),
            kind: "build".to_string(),
            tier: "core".to_string(),
            time_box_min: 30,
            starting_point: None,
            constraints: Vec::new(),
            acceptance: vec![Check {
                id: "c1".to_string(),
                claim: "runs".to_string(),
                check: "cargo run".to_string(),
                expect: "ok".to_string(),
            }],
            fallback: None,
        },
        questions: vec![question("q1"), question("q2")],
        exam: Exam { focus: "focus".to_string(), artifact_required: true, max_exchanges: 3, traps: Vec::new() },
    }
}

const ABOUT: &str = "## Тема\n\n- `topic_id`: t1\n- Тема: T\n- Фокус проверки: focus\n- Ожидаемые умения: нет\n- Известные заблуждения:\n  - m1";

#[test]
fn hint_prompt() {
    let got = hint("LEAD  \n", &topic(), "Q?", &[]);
    let want = format!(
        "LEAD\n\n{ABOUT}\n\n## Вопрос\n\nQ?\n\n## Разговор\n\nСтудент ещё ничего не сказал.\n"
    );
    assert_eq!(got, want);
}

#[test]
fn turn_prompt_with_talk() {
    let lines = vec![
        Line { side: Side::Examiner, text: "Why?".to_string() },
        Line { side: Side::Student, text: " Because\n  so  ".to_string() },
    ];
    let got = turn("LEAD", &topic(), "Q?", &lines, true);
    let want = format!(
        "LEAD\n\n{ABOUT}\n\n## Вопрос\n\nQ?\n- Подсказка уже выдана: да\n\n## Разговор\n\n**Экзаменатор:** Why?\n\n**Студент:** Because\n    so\n"
    );
    assert_eq!(got, want);
}

#[test]
fn practice_prompt() {
    let got = practice("LEAD", &topic(), &[]);
    let work = "## Практика\n\n- Задание: build it\n    twice\n- Ожидаемый результат: repo\n- Критерии приёмки:\n  - `c1` — runs\n    команда: `cargo run`\n    ожидается: ok\n- Ограничения задания: нет";
    let want = format!(
        "LEAD\n\n{ABOUT}\n\n{work}\n\n## Разговор\n\nСтудент ещё ничего не сказал.\n"
    );
    assert_eq!(got, want);
}

#[test]
fn verdict_lists_grades_and_unasked_questions() {
    let got = Collected {
        graded: vec![Answer {
            id: "q1".to_string(),
            outcome: "pass".to_string(),
            quote: Some(" said it ".to_string()),
            missed: vec!["x".to_string(), "y".to_string()],
            signal_extension: true,
        }],
        hinted: vec!["q1".to_string()],
        artifact: Artifact::Passed,
        failed_checks: Vec::new(),
        today: "2024-05-06".to_string(),
    };
    let text = verdict("RULES\n", &topic(), &got);
    assert!(text.starts_with("RULES\n\n---\n\n## Диалог уже проведён\n\n"));
    assert!(text.contains("- `topic_id`: t1\n- Сегодняшняя дата: 2024-05-06\n- Практика: артефакт предъявлен и принят\n- Несошедшиеся критерии приёмки: нет\n\n### Оценки по вопросам\n\n"));
    assert!(text.contains("- `q1` — `pass`; подсказка: да\n  цитата: «said it»\n  не прозвучало: x; y\n  сигнал передан своими словами\n\n"));
    assert!(text.contains("\n### Не заданы\n\n- `q2`\n\n"));
    assert!(text.ends_with("`date` — сегодняшняя дата со входа.\n"));
}

#[test]
fn verdict_without_grades() {
    let got = Collected {
        graded: Vec::new(),
        hinted: Vec::new(),
        artifact: Artifact::Missing,
        failed_checks: vec!["c1".to_string(), "c2".to_string()],
        today: "2024-05-06".to_string(),
    };
    let text = verdict("R", &topic(), &got);
    assert!(text.contains("- Практика: артефакт не предъявлен вовсе\n- Несошедшиеся критерии приёмки: c1, c2\n"));
    assert!(text.contains("Ни один вопрос не оценён: студент завершил зачёт до первого ответа.\n\n\n### Не заданы\n\n- `q1`\n- `q2`\n\n"));
}

#[test]
fn sides_and_artifacts_by_label() {
    assert_eq!(Side::read("student"), Some(Side::Student));
    assert_eq!(Side::read("teacher"), None);
    assert_eq!(Side::Examiner.label(), "examiner");
    assert_eq!(Artifact::read("aside"), Some(Artifact::Aside));
    assert_eq!(Artifact::read("none"), Some(Artifact::Missing));
    assert_eq!(Artifact::read("zzz"), None);
    assert_eq!(Artifact::Missing.label(), "none");
}

#[test]
fn step_errors() {
    assert_eq!(StepError::NoJson.code(), "exam.no-json");
    assert_eq!(StepError::NoJson.message(), "в ответе нет блока JSON с оценкой");
    assert_eq!(
        StepError::Malformed { reason: "bad".to_string() }.message(),
        "блок оценки не разобран: bad"
    );
    let wrong = StepError::WrongQuestion { expected: "q1".to_string(), found: "q2".to_string() };
    assert_eq!(wrong.code(), "exam.wrong-question");
    assert_eq!(wrong.message(), "оценка о вопросе `q2`, а спрашивали `q1`");
}

#[test]
fn pick_finds_the_declared_block() {
    let answer = "text\n```yaml\nschema: learning-roadmap/v1\nx: 1\n```\n";
    assert_eq!(
        pick(answer, "learning-roadmap/v1"),
        Some("schema: learning-roadmap/v1\nx: 1\n".to_string())
    );
    assert_eq!(pick(answer, "learning-roadmap/topic/v1"), None);
}

#[test]
fn pick_reads_an_unfenced_answer() {
    assert_eq!(pick("schema: \"a/v1\"\n", "a/v1"), Some("schema: \"a/v1\"\n".to_string()));
}

#[test]
fn fenced_closes_an_open_block() {
    assert_eq!(fenced("```\na\n```\n```\nb"), vec!["a\n", "b\n"]);
    assert!(fenced("no fences").is_empty());
}

#[test]
fn stamped_sets_the_date() {
    assert_eq!(
        stamped("schema: x\ngenerated_at: 2020-01-01\r\nrest", "2024-05-06"),
        "schema: x\ngenerated_at: 2024-05-06\r\nrest"
    );
}

#[test]
fn generated_marks_stages() {
    assert_eq!(
        generated("  - generated: false\n    generated: false  \nother"),
        "  - generated: true\n    generated: true\nother"
    );
    assert_eq!(generated("generated: falsey\n"), "generated: falsey\n");
}

#[test]
fn levels_by_label() {
    assert_eq!(Level::read("basics"), Some(Level::Basics));
    assert_eq!(Level::read("expert"), None);
    assert_eq!(Level::Confident.label(), "confident");
    assert_eq!(Level::Beginner.told(), "с темой не сталкивался");
}

#[test]
fn repair_prompt() {
    let got = repair("ASK", "  ans  ", &["bad".to_string(), "worse".to_string()]);
    assert_eq!(
        got,
        "ASK\n\n## Прошлый ответ\n\nОн отвергнут, вот он целиком:\n\nans\n\n## Что в нём не так\n\n- bad\n- worse\n\nПочини названное и выведи файл целиком заново — правок кусками приложение не принимает.\n"
    );
}

#[test]
fn roadmap_prompt() {
    let request = Request {
        subject: "  Rust ".to_string(),
        level: Level::Basics,
        weekly_hours: 6,
        weeks: Some(4),
        locale: "ru".to_string(),
        today: "2024-05-06".to_string(),
    };
    let got = tolearn_core::generate::roadmap("GEN\n", &request);
    assert_eq!(
        got,
        "GEN\n\n## Запрос\n\n- Чему хочу научиться: Rust\n- Что уже знаю: знает основы, но почти не применял\n- Часов в неделю: 6\n- Срок: 4 недель\n- Язык программы: ru\n- Сегодня: 2024-05-06\n"
    );
}

#[test]
fn stamping_twice_changes_nothing_more() {
    let once = stamped("generated_at: 2020-01-01\r\ntitle: x\ngenerated_at:\n", "2024-05-06");
    assert_eq!(once, "generated_at: 2024-05-06\r\ntitle: x\ngenerated_at: 2024-05-06\n");
    assert_eq!(stamped(&once, "2024-05-06"), once);
}

#[test]
fn marking_twice_changes_nothing_more() {
    let once = generated("stages:\n  - - generated: false\r\n  - generated: false\n");
    assert_eq!(once, "stages:\n  - generated: true\r\n  - generated: true\n");
    assert_eq!(generated(&once), once);
}

#[test]
fn hidden_answers_leave_out_signals_red_flags_and_follow_ups() {
    let plain = topic();
    let mut told = topic();
    told.questions[0].expected_signals = vec!["loops".to_string()];
    told.questions[1].red_flags = vec!["guessing".to_string()];
    told.questions[1].follow_up = Some("Why?".to_string());
    let mut first = Doc::default();
    first.line("Before");
    let mut second = Doc::default();
    second.line("Before");
    questions(&mut first, &plain, false);
    questions(&mut second, &told, false);
    let first = first.text();
    assert_eq!(first, second.text());
    assert!(first.ends_with("_Ответы, красные флаги и ловушки не экспортированы: тема не зачтена._\n"));
    let mut shown = Doc::default();
    questions(&mut shown, &told, true);
    assert!(shown.text().contains("loops"));
    let mut none = Doc::default();
    none.line("Before");
    let mut empty = topic();
    empty.questions = Vec::new();
    questions(&mut none, &empty, false);
    assert_eq!(none.text(), "Before\n");
}
