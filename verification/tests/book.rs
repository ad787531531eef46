use tolearn_core::export::head::head;
use tolearn_core::export::lines::Doc;
use tolearn_core::export::note::{deepened, hashes, note};
use tolearn_core::export::section::{section, Sight};
use tolearn_core::export::{Chapter, Link};
use tolearn_core::hours::Hours;
use tolearn_core::notes::Note;
use tolearn_core::progress::Status;
use tolearn_core::roadmap::{Defaults, Revalidate, Roadmap, TopicEntry};
use tolearn_core::topic::{Exam, Practice, Topic};

fn program() -> Roadmap {
    Roadmap {
        schema: "learning-roadmap/v1".to_string(),
        id: "rust".to_string(),
        title: "Rust".to_string(),
        goal: "Learn Rust well".to_string(),
        subject: "Programming".to_string(),
        locale: "ru".to_string(),
        generated_at: "2024-01-01".to_string(),
        generated_by: "model".to_string(),
        weekly_hours: 5,
        env_constraints: vec!["Linux".to_string(), "no GPU".to_string()],
        version_pins: vec![("rustc".to_string(), "1.80".to_string())],
        defaults: Defaults { revalidate_after_days: Revalidate { stable: 180, evolving: 90, volatile: 30 } },
        stages: Vec::new(),
        topics: Vec::new(),
    }
}

fn entry() -> TopicEntry {
    TopicEntry {
        id: "own".to_string(),
        title: "Ownership".to_string(),
        stage: 1,
        est_hours: Hours { min: 2, max: 3 },
        priority: "core".to_string(),
        file: "topics/own.yaml".to_string(),
    }
}

fn topic() -> Topic {
    Topic {
        schema: "learning-roadmap/topic/v1".to_string(),
        id: "own".to_string(),
        title: "Ownership".to_string(),
        depends_on: vec!["basics".to_string(), "ghost".to_string()],
        est_hours: Hours { min: 2, max: 3 },
        verified_at: "2024-01-01".to_string(),
        revalidate_after_days: 90,
        volatility: "stable".to_string(),
        confidence: "high".to_string(),
        retention: "core".to_string(),
        outcomes: vec!["Move values".to_string()],
        misconceptions: Vec::new(),
        version_context: Vec::new(),
        materials: Vec::new(),
        practice: Practice {
            task: "Write code".to_string(),
            deliverable: "A crate".to_string(),
            kind: "build".to_string(),
            tier: "core".to_string(),
            time_box_min: 30,
            starting_point: None,
            constraints: Vec::new(),
            acceptance: Vec::new(),
            fallback: None,
        },
        questions: Vec::new(),
        exam: Exam {
            focus: "Borrowing".to_string(),
            artifact_required: true,
            max_exchanges: 3,
            traps: vec!["Clone everything".to_string()],
        },
    }
}

#[test]
fn a_note_moves_its_headings_under_its_own() {
    let body = "# Title\nText\n```\n# not heading\n```\n## Sub\n   ### Deep\n#nospace\n";
    assert_eq!(
        deepened(body),
        "##### Title\nText\n```\n# not heading\n```\n###### Sub\n###### Deep\n#nospace"
    );
}

#[test]
fn headings_of_a_note_need_a_blank_after_their_marks() {
    let line = |s: &str| s.chars().collect::<Vec<char>>();
    assert_eq!(hashes(&line("## a")), Some(2));
    assert_eq!(hashes(&line("##a")), None);
    assert_eq!(hashes(&line("####### a")), None);
    assert_eq!(hashes(&line("")), None);
}

#[test]
fn the_note_of_a_topic_under_its_heading() {
    let notes = vec![
        Note { topic: "t0".to_string(), body: "x".to_string() },
        Note { topic: "t1".to_string(), body: "# Plan\nDo it".to_string() },
        Note { topic: "t2".to_string(), body: "   \n".to_string() },
    ];
    let mut doc = Doc::default();
    note(&mut doc, &notes, "t1");
    assert_eq!(doc.text(), "#### Конспект\n\n##### Plan\nDo it\n");
    let mut blank = Doc::default();
    note(&mut blank, &notes, "t2");
    note(&mut blank, &notes, "t3");
    assert_eq!(blank.text(), "\n");
}

#[test]
fn the_head_of_the_book() {
    let chapters = vec![Chapter {
        title: "Stage 1".to_string(),
        anchor: "stage-1".to_string(),
        topics: vec![Link { title: "Ownership".to_string(), anchor: "ownership".to_string() }],
    }];
    let mut doc = Doc::default();
    head(&mut doc, &program(), &chapters);
    assert_eq!(
        doc.text(),
        "# Rust\n\nLearn Rust well\n\n- Предмет: Programming\n- Сгенерировано 2024-01-01 — model\n- Норма: 5 ч в неделю\n- Окружение: Linux; no GPU\n- Версии: rustc 1.80\n\n## Оглавление\n\n- [Stage 1](#stage-1)\n  - [Ownership](#ownership)\n"
    );
}

#[test]
fn the_section_of_a_topic_without_a_document() {
    let sight = Sight { links: &[], status: None, notes: &[] };
    let mut doc = Doc::default();
    section(&mut doc, &entry(), None, &sight);
    assert_eq!(
        doc.text(),
        "### Ownership\n\n- Статус: неизвестен\n- Оценка: 2–3 ч\n- Приоритет: core\n\n_Тема ещё не сгенерирована: в бандле нет её файла._\n"
    );
}

#[test]
fn the_section_of_a_passed_topic() {
    let links = vec![("basics".to_string(), Link { title: "Basics".to_string(), anchor: "basics".to_string() })];
    let notes = vec![Note { topic: "own".to_string(), body: "# Plan\nRead".to_string() }];
    let sight = Sight { links: &links, status: Some(Status::Passed), notes: &notes };
    let topic = topic();
    let mut doc = Doc::default();
    section(&mut doc, &entry(), Some(&topic), &sight);
    assert_eq!(
        doc.text(),
        "### Ownership\n\n- Статус: passed\n- Оценка: 2–3 ч\n- Приоритет: core\n- Проверено 2024-01-01, пересмотр через 90 дн., волатильность: stable\n- Уверенность: high, удержание: core\n- Зависит от: [Basics](#basics), ghost\n\n#### Чему научит\n\n- Move values\n\n#### Практика\n\nWrite code\n\n- Результат: A crate\n- Вид: build, уровень: core\n- Таймбокс: 30 мин\n\n#### Экзамен\n\nBorrowing\n\n- Артефакт обязателен: да\n- Обменов не больше: 3\n\nЛовушки:\n\n- Clone everything\n\n#### Конспект\n\n##### Plan\nRead\n"
    );
}
