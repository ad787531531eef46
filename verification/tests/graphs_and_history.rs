use tolearn_core::graph::{graph, layers, Statuses};
use tolearn_core::history::{diff, prune, Kept, Snapshot};
use tolearn_core::hours::Hours;
use tolearn_core::progress::{Progress, State, Status};
use tolearn_core::roadmap::{Defaults, Revalidate, Roadmap, Stage, TopicEntry};
use tolearn_core::topic::{Exam, Practice, Topic};

fn entry(id: &str) -> TopicEntry {
    TopicEntry {
        id: id.to_string(),
        title: id.to_uppercase(),
        stage: 1,
        est_hours: Hours { min: 1, max: 2 },
        priority: "core".to_string(),
        file: format!("topics/{id}.yaml"),
    }
}

fn topic(id: &str, depends_on: &[&str]) -> Topic {
    Topic {
        schema: "learning-roadmap/topic/v1".to_string(),
        id: id.to_string(),
        title: id.to_uppercase(),
        depends_on: depends_on.iter().map(|d| d.to_string()).collect(),
        est_hours: Hours { min: 1, max: 2 },
        verified_at: "2024-01-01".to_string(),
        revalidate_after_days: 90,
        volatility: "stable".to_string(),
        confidence: "high".to_string(),
        retention: "core".to_string(),
        outcomes: Vec::new(),
        misconceptions: Vec::new(),
        version_context: Vec::new(),
        materials: Vec::new(),
        practice: Practice {
            task: "do".to_string(),
            deliverable: "it".to_string(),
            kind: "build".to_string(),
            tier: "core".to_string(),
            time_box_min: 30,
            starting_point: None,
            constraints: Vec::new(),
            acceptance: Vec::new(),
            fallback: None,
        },
        questions: Vec::new(),
        exam: Exam { focus: "f".to_string(), artifact_required: false, max_exchanges: 3, traps: Vec::new() },
    }
}

fn roadmap(ids: &[&str]) -> Roadmap {
    Roadmap {
        schema: "learning-roadmap/v1".to_string(),
        id: "prog".to_string(),
        title: "Program".to_string(),
        goal: "Goal".to_string(),
        subject: "Subject".to_string(),
        locale: "ru".to_string(),
        generated_at: "2024-01-01".to_string(),
        generated_by: "model".to_string(),
        weekly_hours: 5,
        env_constraints: Vec::new(),
        version_pins: Vec::new(),
        defaults: Defaults { revalidate_after_days: Revalidate { stable: 180, evolving: 90, volatile: 30 } },
        stages: vec![Stage { n: 1, title: "S".to_string(), checkpoint: ids[0].to_string(), generated: true }],
        topics: ids.iter().map(|id| entry(id)).collect(),
    }
}

fn kept(n: u32, bytes: u64) -> Kept {
    Kept { n, saved_at: "2024-01-01".to_string(), bytes }
}

#[test]
fn layers_of_a_chain() {
    let adj = vec![vec![], vec![0], vec![1, 0], vec![]];
    assert_eq!(layers(&adj), vec![0, 1, 2, 0]);
}

#[test]
fn layers_of_a_cycle_break_where_the_walk_meets_it() {
    let adj = vec![vec![1], vec![0]];
    assert_eq!(layers(&adj), vec![2, 1]);
}

#[test]
fn the_graph_orders_nodes_by_layer() {
    let program = roadmap(&["c", "a", "b"]);
    let topics = vec![topic("a", &[]), topic("b", &["a", "ghost"]), topic("c", &["b"])];
    let statuses = Statuses { known: vec![("a".to_string(), Status::Passed)] };
    let g = graph(&program, &topics, &statuses);
    let ids: Vec<&str> = g.nodes.iter().map(|n| n.id.as_str()).collect();
    assert_eq!(ids, vec!["a", "b", "c"]);
    let layers: Vec<usize> = g.nodes.iter().map(|n| n.layer).collect();
    assert_eq!(layers, vec![0, 1, 2]);
    let b = &g.nodes[1];
    assert_eq!(b.depends_on, vec!["a".to_string()]);
    assert!(b.blocked_by.is_empty());
    assert_eq!(b.unlocks, vec!["c".to_string()]);
    assert_eq!(b.status, Status::Todo);
    let c = &g.nodes[2];
    assert_eq!(c.blocked_by, vec!["b".to_string()]);
    assert_eq!(g.nodes[0].status, Status::Passed);
}

#[test]
fn pruning_with_no_depth_drops_everything() {
    assert_eq!(prune(&[kept(3, 10), kept(1, 10), kept(2, 10)], 0, 0), vec![1, 2, 3]);
}

#[test]
fn pruning_beyond_the_depth() {
    assert_eq!(prune(&[kept(3, 10), kept(1, 10), kept(2, 10)], 2, 100), vec![1]);
}

#[test]
fn pruning_over_the_budget_keeps_the_newest() {
    assert_eq!(prune(&[kept(3, 10), kept(1, 10), kept(2, 10)], 3, 15), vec![1, 2]);
    assert_eq!(prune(&[kept(3, 10), kept(1, 10), kept(2, 10)], 5, 0), vec![1, 2]);
    assert!(prune(&[], 2, 0).is_empty());
}

#[test]
fn diff_of_two_versions() {
    let before_plan = roadmap(&["b", "a"]);
    let after_plan = roadmap(&["c", "b"]);
    let before_topics = vec![topic("b", &[])];
    let after_topics = vec![topic("b", &["c"]), topic("c", &[])];
    let progress = Progress {
        roadmap_id: "prog".to_string(),
        topics: vec![("b".to_string(), State { status: Status::StalePassed })],
    };
    let changes = vec![vec!["materials".to_string()], vec!["depends_on".to_string()]];
    let d = diff(
        Snapshot { roadmap: &before_plan, topics: &before_topics },
        Snapshot { roadmap: &after_plan, topics: &after_topics },
        &progress,
        &changes,
    );
    assert_eq!(d.added, vec!["c".to_string()]);
    assert_eq!(d.removed, vec!["a".to_string()]);
    assert_eq!(d.rewritten.len(), 1);
    assert_eq!(d.rewritten[0].id, "b");
    assert_eq!(d.rewritten[0].changed, vec!["depends_on".to_string()]);
    assert!(d.rewritten[0].demoted);
}

#[test]
fn added_ids_come_in_order() {
    let d = diff(
        Snapshot { roadmap: &roadmap(&["x"]), topics: &[] },
        Snapshot { roadmap: &roadmap(&["zeta", "alpha", "mid", "alpha"]), topics: &[] },
        &Progress { roadmap_id: "prog".to_string(), topics: Vec::new() },
        &[Vec::new(), Vec::new(), Vec::new(), Vec::new()],
    );
    assert_eq!(d.added, vec!["alpha", "mid", "zeta"]);
    assert_eq!(d.removed, vec!["x"]);
}

#[test]
fn layers_of_a_longer_cycle_count_the_walk_from_the_first_node() {
    let adj = vec![vec![1], vec![2], vec![0, 3], vec![]];
    assert_eq!(layers(&adj), vec![3, 2, 1, 0]);
    let looped = vec![vec![0]];
    assert_eq!(layers(&looped), vec![1]);
}
