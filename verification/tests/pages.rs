use tolearn_core::block::types::{Block, Kind};
use tolearn_core::export::words::{Lexicon, Words};
use tolearn_core::export::{index, render, stage as stage_page};
use tolearn_core::hours::Hours;
use tolearn_core::program::{
    Book, ChildRow, Generation, Plan, Program, Reference, Sources, StageRow, Tree,
};
use tolearn_core::stage::{Check, Practice, Question, Stage};

fn english() -> Words {
    Words {
        goal: "Goal".to_string(),
        level: "Level".to_string(),
        estimate: "Estimate".to_string(),
        hour: "h".to_string(),
        pending: "pending".to_string(),
        stages: "Stages".to_string(),
        children: "Programs".to_string(),
        sources: "Sources".to_string(),
        checked: "checked".to_string(),
        practice: "Practice".to_string(),
        deliverable: "Deliverable".to_string(),
        constraints: "Constraints".to_string(),
        acceptance: "Acceptance".to_string(),
        check: "Check".to_string(),
        expect: "Expect".to_string(),
        questions: "Questions".to_string(),
        hidden: "Answers are hidden.".to_string(),
        diagram: "Diagram".to_string(),
        license: "License".to_string(),
        author: "Author".to_string(),
        source: "Source".to_string(),
    }
}

fn french() -> Words {
    let mut words = english();
    words.goal = "Objectif".to_string();
    words.level = "Niveau".to_string();
    words.estimate = "Estimation".to_string();
    words.pending = "à venir".to_string();
    words.stages = "Étapes".to_string();
    words
}

fn lexicon() -> Lexicon {
    Lexicon {
        known: vec![("fr".to_string(), french())],
        fallback: english(),
    }
}

fn loops() -> Stage {
    Stage {
        title: "Loops".to_string(),
        blocks: vec![Block {
            id: "b1".to_string(),
            kind: Kind::Paragraph,
            text: "Loops repeat work.".to_string(),
            lang: None,
            asset: None,
            license: None,
            attribution: None,
            source: None,
        }],
        practice: Practice {
            task: Vec::new(),
            deliverable: "A program".to_string(),
            constraints: Vec::new(),
            acceptance: vec![Check {
                claim: "It runs".to_string(),
                check: Some("cargo run".to_string()),
                expect: "no error".to_string(),
            }],
        },
        questions: vec![Question {
            text: "What is a loop?".to_string(),
        }],
    }
}

fn child() -> Tree {
    Tree {
        program: Program {
            title: "Async".to_string(),
            goal: "Learn async".to_string(),
            level: "advanced".to_string(),
            slug: "async".to_string(),
            map: Plan {
                stages: vec![StageRow {
                    id: "futures".to_string(),
                    title: "Futures".to_string(),
                    hours: Hours { min: 5, max: 8 },
                }],
                children: Vec::new(),
                total: Hours { min: 5, max: 8 },
            },
            generation: Generation {
                locale: "fr".to_string(),
            },
            sources: Sources {
                books: Vec::new(),
                pages: Vec::new(),
            },
        },
        stages: Vec::new(),
        children: Vec::new(),
        assets: vec!["b.svg".to_string()],
    }
}

fn tree() -> Tree {
    Tree {
        program: Program {
            title: "Rust".to_string(),
            goal: "Write Rust".to_string(),
            level: "beginner".to_string(),
            slug: "rust".to_string(),
            map: Plan {
                stages: vec![
                    StageRow {
                        id: "loops".to_string(),
                        title: "Loops".to_string(),
                        hours: Hours { min: 2, max: 3 },
                    },
                    StageRow {
                        id: "traits".to_string(),
                        title: "Traits".to_string(),
                        hours: Hours { min: 4, max: 4 },
                    },
                ],
                children: vec![ChildRow {
                    uuid: "u1".to_string(),
                    title: "Async".to_string(),
                    hours: Hours { min: 5, max: 8 },
                }],
                total: Hours { min: 11, max: 15 },
            },
            generation: Generation {
                locale: "en".to_string(),
            },
            sources: Sources {
                books: vec![Book {
                    authors: vec!["Steve Klabnik".to_string(), "Carol Nichols".to_string()],
                    title: "The Rust Programming Language".to_string(),
                    chapter: "Ch. 3".to_string(),
                    isbn: "978-1718503106".to_string(),
                    checked_at: "2024-01-01".to_string(),
                }],
                pages: vec![Reference {
                    title: "Rust by Example".to_string(),
                    url: "https://doc.rust-lang.org/rust-by-example/".to_string(),
                    checked_at: String::new(),
                }],
            },
        },
        stages: vec![("loops".to_string(), loops())],
        children: vec![("u1".to_string(), child())],
        assets: vec!["img/a.png".to_string()],
    }
}

const STAGE: &str = "# Loops\n\n← [Rust](index.md)\n\nLoops repeat work.\n\n## Practice\n\n- Deliverable: A program\n\n### Acceptance\n\n- It runs — Check: `cargo run`, Expect: no error\n\n## Questions\n\n1. What is a loop?\n\nAnswers are hidden.\n";

const ROOT: &str = "# Rust\n\n- Goal: Write Rust\n- Level: beginner\n- Estimate: 11–15 h\n\n## Stages\n\n1. [Loops](01-loops.md) — 2–3 h\n2. Traits — 4 h, pending\n\n## Programs\n\n1. [Async](01-async/index.md) — 5–8 h\n\n## Sources\n\n- Steve Klabnik, Carol Nichols — The Rust Programming Language, Ch. 3, ISBN 978-1718503106, checked 2024-01-01\n- [Rust by Example](https://doc.rust-lang.org/rust-by-example/)\n";

const CHILD: &str = "# Async\n\n← [Rust](../index.md)\n\n- Objectif: Learn async\n- Niveau: advanced\n- Estimation: 5–8 h\n\n## Étapes\n\n1. Futures — 5–8 h, à venir\n";

#[test]
fn stage_page_has_blocks_practice_and_questions() {
    assert_eq!(stage_page::page(&loops(), "Rust", &english()), STAGE);
}

#[test]
fn index_page_lists_stages_children_and_sources() {
    assert_eq!(index::page(&tree(), None, &english()), ROOT);
}

#[test]
fn index_page_links_back_to_its_parent() {
    assert_eq!(index::page(&child(), Some("Rust"), &french()), CHILD);
}

#[test]
fn lexicon_falls_back_for_unknown_languages() {
    let lexicon = lexicon();
    assert_eq!(lexicon.of("fr").goal, "Objectif");
    assert_eq!(lexicon.of("en").goal, "Goal");
    assert_eq!(lexicon.of("").goal, "Goal");
}

#[test]
fn render_walks_the_whole_tree() {
    let export = render(&tree(), &lexicon());
    let pages: Vec<(&str, &str)> = export
        .pages
        .iter()
        .map(|page| (page.path.as_str(), page.text.as_str()))
        .collect();
    assert_eq!(
        pages,
        vec![
            ("index.md", ROOT),
            ("01-loops.md", STAGE),
            ("01-async/index.md", CHILD),
        ]
    );
    let assets: Vec<(&str, &str)> = export
        .assets
        .iter()
        .map(|asset| (asset.from.as_str(), asset.to.as_str()))
        .collect();
    assert_eq!(
        assets,
        vec![("img/a.png", "img/a.png"), ("children/u1/b.svg", "01-async/b.svg")]
    );
}
