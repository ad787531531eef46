use tolearn_core::bundle::manifest::major;
use tolearn_core::bundle::scc::components;
use tolearn_core::bundle::{ordered, tracking, validate, Violation};
use tolearn_core::hours::Hours;
use tolearn_core::progress::{Progress, State, Status};
use tolearn_core::roadmap::{Defaults, Revalidate, Roadmap, Stage, TopicEntry};
use tolearn_core::topic::{Exam, Practice, Topic};
use std::collections::BTreeSet;

fn entry(id: &str, stage: u32) -> TopicEntry {
    TopicEntry {
        id: id.to_string(),
        title: id.to_uppercase(),
        stage,
        est_hours: Hours { min: 1, max: 2 },
        priority: "core".to_string(),
        file: format!("topics/{id}.yaml"),
    }
}

fn topic(id: &str, depends_on: &[&str]) -> Topic {
    Topic {
        schema: "learning-roadmap/topic/v1".to_string(),
        id: id.to_string(),
        title: id.to_uppercase(),
        depends_on: depends_on.iter().map(|d| d.to_string()).collect(),
        est_hours: Hours { min: 1, max: 2 },
        verified_at: "2024-01-01".to_string(),
        revalidate_after_days: 90,
        volatility: "stable".to_string(),
        confidence: "high".to_string(),
        retention: "core".to_string(),
        outcomes: Vec::new(),
        misconceptions: Vec::new(),
        version_context: Vec::new(),
        materials: Vec::new(),
        practice: Practice {
            task: "do".to_string(),
            deliverable: "it".to_string(),
            kind: "build".to_string(),
            tier: "core".to_string(),
            time_box_min: 30,
            starting_point: None,
            constraints: Vec::new(),
            acceptance: Vec::new(),
            fallback: None,
        },
        questions: Vec::new(),
        exam: Exam {
            focus: "f".to_string(),
            artifact_required: false,
            max_exchanges: 3,
            traps: Vec::new(),
        },
    }
}

fn roadmap(stages: Vec<Stage>, topics: Vec<TopicEntry>) -> Roadmap {
    Roadmap {
        schema: "learning-roadmap/v1".to_string(),
        id: "prog".to_string(),
        title: "Program".to_string(),
        goal: "Goal".to_string(),
        subject: "Subject".to_string(),
        locale: "ru".to_string(),
        generated_at: "2024-01-01".to_string(),
        generated_by: "model".to_string(),
        weekly_hours: 5,
        env_constraints: Vec::new(),
        version_pins: Vec::new(),
        defaults: Defaults { revalidate_after_days: Revalidate { stable: 180, evolving: 90, volatile: 30 } },
        stages,
        topics,
    }
}

fn stage(n: u32, checkpoint: &str) -> Stage {
    Stage { n, title: format!("Stage {n}"), checkpoint: checkpoint.to_string(), generated: false }
}

#[test]
fn an_empty_program() {
    let program = roadmap(Vec::new(), Vec::new());
    assert_eq!(validate(&program, &[]), vec![Violation::EmptyStages, Violation::EmptyTopics]);
}

#[test]
fn a_clean_program_has_nothing_wrong() {
    let program = roadmap(vec![stage(1, "b")], vec![entry("a", 1), entry("b", 1)]);
    let topics = vec![topic("a", &[]), topic("b", &["a"])];
    assert!(validate(&program, &topics).is_empty());
    assert!(ordered(&program, &topics).is_empty());
}

#[test]
fn a_cycle_is_reported_through_its_least_node() {
    let program = roadmap(vec![stage(1, "b")], vec![entry("a", 1), entry("b", 1)]);
    let topics = vec![topic("a", &["b"]), topic("b", &["a"])];
    let found = validate(&program, &topics);
    let cycle = Violation::DependencyCycle { chain: vec!["a".to_string(), "b".to_string()] };
    assert_eq!(found, vec![cycle.clone()]);
    assert_eq!(cycle.code(), "bundle.cycle");
    assert_eq!(cycle.message(), "bundle.cycle: the dependencies close a cycle: a -> b -> a");
    assert_eq!(cycle.topics(), vec!["a", "b"]);
}

#[test]
fn unknown_dependencies_come_before_cycles() {
    let program = roadmap(vec![stage(1, "a")], vec![entry("a", 1)]);
    let topics = vec![topic("a", &["ghost", "a"])];
    let found = validate(&program, &topics);
    assert_eq!(
        found,
        vec![
            Violation::UnknownDependency { topic: "a".to_string(), depends_on: "ghost".to_string() },
            Violation::DependencyCycle { chain: vec!["a".to_string()] },
        ]
    );
}

#[test]
fn manifest_findings() {
    let mut first = entry("a", 2);
    first.est_hours = Hours { min: 3, max: 1 };
    let program = roadmap(vec![stage(1, "zz")], vec![first, entry("a", 1)]);
    let found = validate(&program, &[]);
    assert_eq!(
        found,
        vec![
            Violation::DuplicateTopicId { id: "a".to_string() },
            Violation::StageOutOfRange { topic: "a".to_string(), stage: 2 },
            Violation::UnknownCheckpoint { stage: 1, checkpoint: "zz".to_string() },
            Violation::HoursReversed { topic: "a".to_string(), min: 3, max: 1 },
        ]
    );
}

#[test]
fn forward_dependencies() {
    let program = roadmap(vec![stage(1, "b")], vec![entry("a", 1), entry("b", 1)]);
    let topics = vec![topic("a", &["b", "a"]), topic("b", &["a"])];
    assert_eq!(
        ordered(&program, &topics),
        vec![
            Violation::ForwardDependency { topic: "a".to_string(), depends_on: "b".to_string() },
            Violation::ForwardDependency { topic: "a".to_string(), depends_on: "a".to_string() },
        ]
    );
}

#[test]
fn progress_against_the_program() {
    let program = roadmap(vec![stage(1, "a")], vec![entry("a", 1), entry("b", 1)]);
    let progress = Progress {
        roadmap_id: "other".to_string(),
        topics: vec![("a".to_string(), State { status: Status::Todo }), ("z".to_string(), State { status: Status::Passed })],
    };
    assert_eq!(
        tracking(&program, &progress),
        vec![
            Violation::ProgressForAnotherProgram { program: "prog".to_string(), found: "other".to_string() },
            Violation::UntrackedTopic { topic: "b".to_string() },
            Violation::StrayProgressTopic { topic: "z".to_string() },
        ]
    );
}

#[test]
fn schema_majors() {
    assert_eq!(major("learning-roadmap/v1"), 1);
    assert_eq!(major("learning-roadmap/topic/v12"), 12);
    assert_eq!(major("learning-roadmap/x"), 0);
    assert_eq!(major(""), 0);
}

#[test]
fn components_in_the_order_of_their_least_nodes() {
    let edges = vec![vec![1], vec![0], vec![3], vec![], vec![4]];
    let parts = components(&edges);
    let expected: Vec<BTreeSet<usize>> = vec![
        [0, 1].into_iter().collect(),
        [2].into_iter().collect(),
        [3].into_iter().collect(),
        [4].into_iter().collect(),
    ];
    assert_eq!(parts, expected);
}

#[test]
fn violation_messages() {
    assert_eq!(
        Violation::HoursReversed { topic: "t".to_string(), min: 3, max: 1 }.message(),
        "bundle.hours-reversed: `t` is estimated at 3 hours at the least and 1 at the most"
    );
    assert_eq!(Violation::EmptyStages.message(), "bundle.empty-stages: the program has no stages");
    assert_eq!(Violation::DependencyCycle { chain: Vec::new() }.message(), "bundle.cycle: the dependencies close a cycle: ");
}

#[test]
fn components_are_the_strongly_connected_parts() {
    let edges = vec![vec![1], vec![2], vec![0], vec![0, 4], vec![3], vec![]];
    let parts = components(&edges);
    let expected: Vec<BTreeSet<usize>> = vec![
        [0, 1, 2].into_iter().collect(),
        [3, 4].into_iter().collect(),
        [5].into_iter().collect(),
    ];
    assert_eq!(parts, expected);
}

#[test]
fn each_cycle_of_the_plan_is_reported() {
    let program = roadmap(
        vec![stage(1, "e")],
        vec![entry("a", 1), entry("b", 1), entry("c", 1), entry("d", 1), entry("e", 1)],
    );
    let topics = vec![
        topic("a", &["b"]),
        topic("b", &["a"]),
        topic("c", &["d"]),
        topic("d", &["c"]),
        topic("e", &["a"]),
    ];
    assert_eq!(
        validate(&program, &topics),
        vec![
            Violation::DependencyCycle { chain: vec!["a".to_string(), "b".to_string()] },
            Violation::DependencyCycle { chain: vec!["c".to_string(), "d".to_string()] },
        ]
    );
}

#[test]
fn the_cycle_reported_is_a_shortest_one() {
    let program = roadmap(vec![stage(1, "c")], vec![entry("a", 1), entry("b", 1), entry("c", 1)]);
    let topics = vec![topic("a", &["b", "c"]), topic("b", &["c"]), topic("c", &["a"])];
    assert_eq!(
        validate(&program, &topics),
        vec![Violation::DependencyCycle { chain: vec!["a".to_string(), "c".to_string()] }]
    );
}

#[test]
fn of_two_equally_short_cycles_the_first_dependency_closes_the_one_reported() {
    let program = roadmap(vec![stage(1, "c")], vec![entry("a", 1), entry("b", 1), entry("c", 1)]);
    let topics = vec![topic("a", &["c", "b"]), topic("b", &["a"]), topic("c", &["a"])];
    assert_eq!(
        validate(&program, &topics),
        vec![Violation::DependencyCycle { chain: vec!["a".to_string(), "c".to_string()] }]
    );
}
