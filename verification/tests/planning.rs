//! Planning: topological order, cycle and missing-task errors, waves.

use rush::config::{ConfigError, RushConfig};
use rush::executor::{ExecError, TaskExecutor};
use rush::graph::{GraphError, Task, TaskGraph};

fn task(name: &str, cmd: &str) -> Task {
    Task {
        name: name.to_string(),
        cmd: cmd.to_string(),
        env: Vec::new(),
        cache_files: Vec::new(),
    }
}

fn graph_of(entries: &[(&str, &[&str])]) -> TaskGraph {
    let mut g = TaskGraph::new();
    for (name, deps) in entries {
        g.add_task(name.to_string(), task(name, "true"));
        for d in *deps {
            g.add_dependency(name.to_string(), d.to_string());
        }
    }
    g
}

fn names(order: &[String]) -> Vec<&str> {
    order.iter().map(|s| s.as_str()).collect()
}

#[test]
fn linear_chain_sequential_order() {
    let g = graph_of(&[("a", &["b"]), ("b", &["c"]), ("c", &[])]);
    let order = g.topological_sort("a").unwrap();
    assert_eq!(names(&order), ["c", "b", "a"]);
}

#[test]
fn linear_chain_partial_target() {
    let g = graph_of(&[("a", &["b"]), ("b", &["c"]), ("c", &[])]);
    let order = g.topological_sort("b").unwrap();
    assert_eq!(names(&order), ["c", "b"]);
}

#[test]
fn unreachable_tasks_are_ignored() {
    let g = graph_of(&[("a", &[]), ("lonely", &[])]);
    let order = g.topological_sort("a").unwrap();
    assert_eq!(names(&order), ["a"]);
}

#[test]
fn duplicate_dependencies_run_once() {
    let g = graph_of(&[("a", &["b", "b"]), ("b", &[])]);
    let order = g.topological_sort("a").unwrap();
    assert_eq!(names(&order), ["b", "a"]);
}

#[test]
fn same_target_twice_same_order() {
    let g = graph_of(&[("build", &["a", "b"]), ("a", &["shared"]), ("b", &["shared"]), (
        "shared",
        &[],
    )]);
    let first = g.topological_sort("build").unwrap();
    let second = g.topological_sort("build").unwrap();
    assert_eq!(first, second);
}

#[test]
fn cycle_is_detected() {
    let g = graph_of(&[("x", &["y"]), ("y", &["x"])]);
    match g.topological_sort("x") {
        Err(GraphError::CircularDependency(n)) => {
            assert!(n == "x" || n == "y");
        }
        _ => panic!("expected a cycle error"),
    }
}

#[test]
fn self_loop_is_a_cycle() {
    let g = graph_of(&[("solo", &["solo"])]);
    match g.topological_sort("solo") {
        Err(GraphError::CircularDependency(n)) => assert_eq!(n, "solo"),
        _ => panic!("expected a cycle error"),
    }
}

#[test]
fn unknown_dependency_fails_at_plan_time() {
    let g = graph_of(&[("a", &["missing"])]);
    match g.topological_sort("a") {
        Err(GraphError::TaskNotFound(n)) => assert_eq!(n, "missing"),
        _ => panic!("expected a missing-task error"),
    }
}

#[test]
fn unknown_root_fails() {
    let g = graph_of(&[("a", &[])]);
    match g.topological_sort("ghost") {
        Err(GraphError::TaskNotFound(n)) => assert_eq!(n, "ghost"),
        _ => panic!("expected a missing-task error"),
    }
}

#[test]
fn add_task_replaces_existing_definition() {
    let mut g = TaskGraph::new();
    g.add_task("a".to_string(), task("a", "old"));
    g.add_task("a".to_string(), task("a", "new"));
    let got = g.get_task(&"a".to_string()).unwrap();
    assert_eq!(got.cmd, "new");
    assert!(g.get_task(&"b".to_string()).is_none());
}

#[test]
fn estimate_never_exceeds_task_count() {
    let g = graph_of(&[("a", &["b", "c"]), ("b", &[]), ("c", &[])]);
    assert_eq!(g.estimate_task_count("a"), 3);
    let single = graph_of(&[("a", &[])]);
    assert_eq!(single.estimate_task_count("a"), 1);
}

#[test]
fn diamond_waves() {
    let g = graph_of(&[("build", &["a", "b"]), ("a", &["shared"]), ("b", &["shared"]), (
        "shared",
        &[],
    )]);
    let ex = TaskExecutor::new(g, false);
    let order = ex.plan_execution("build").unwrap();
    assert_eq!(names(&order), ["shared", "a", "b", "build"]);
    let waves = ex.build_execution_levels(&order).unwrap();
    let wave_names: Vec<Vec<&str>> = waves.iter().map(|w| names(w)).collect();
    assert_eq!(wave_names, [vec!["shared"], vec!["a", "b"], vec!["build"]]);
}

#[test]
fn waves_of_independent_tasks_form_one_level() {
    let g = graph_of(&[("a", &[]), ("b", &[]), ("c", &[])]);
    let ex = TaskExecutor::new(g, false);
    let order = vec!["a".to_string(), "b".to_string(), "c".to_string()];
    let waves = ex.build_execution_levels(&order).unwrap();
    assert_eq!(waves.len(), 1);
    assert_eq!(names(&waves[0]), ["a", "b", "c"]);
}

#[test]
fn waves_may_reorder_across_a_blocked_task() {
    // "b" waits for "a", so ready "c" moves ahead of it: the waves
    // concatenate to a permutation of the order, not always the order
    // itself.
    let g = graph_of(&[("r", &["a", "b", "c"]), ("b", &["a"]), ("a", &[]), ("c", &[])]);
    let ex = TaskExecutor::new(g, false);
    let order = ex.plan_execution("r").unwrap();
    assert_eq!(names(&order), ["a", "b", "c", "r"]);
    let waves = ex.build_execution_levels(&order).unwrap();
    let wave_names: Vec<Vec<&str>> = waves.iter().map(|w| names(w)).collect();
    assert_eq!(wave_names, [vec!["a", "c"], vec!["b"], vec!["r"]]);
}

#[test]
fn waves_reject_an_order_with_a_hole() {
    // "a" depends on a task that is not part of the order: no sweep can
    // ever emit it.
    let g = graph_of(&[("a", &["outside"]), ("outside", &[])]);
    let ex = TaskExecutor::new(g, false);
    let order = vec!["a".to_string()];
    match ex.build_execution_levels(&order) {
        Err(ExecError::InvalidSchedule) => {}
        _ => panic!("expected the defensive schedule error"),
    }
}

#[test]
fn plan_execution_rejects_unknown_target() {
    let g = graph_of(&[("a", &[]), ("b", &[])]);
    let ex = TaskExecutor::new(g, false);
    match ex.plan_execution("zzz") {
        Err(ExecError::TargetNotFound { name, available }) => {
            assert_eq!(name, "zzz");
            assert_eq!(names(&available), ["a", "b"]);
        }
        _ => panic!("expected a target-not-found error"),
    }
}

#[test]
fn find_config_takes_first_candidate() {
    let present = vec![".rush.yaml".to_string(), ".rush.yml".to_string(), "other".to_string()];
    assert_eq!(RushConfig::find_config(&present).unwrap(), ".rush.yml");
    let only_plain = vec![".rush".to_string(), ".rush.yml".to_string()];
    assert_eq!(RushConfig::find_config(&only_plain).unwrap(), ".rush");
    let none = vec!["README.md".to_string()];
    match RushConfig::find_config(&none) {
        Err(ConfigError::NotFound) => {}
        _ => panic!("expected a not-found error"),
    }
}

#[test]
fn build_graph_carries_definitions_over() {
    let cfg = RushConfig {
        tasks: vec![
            (
                "compile".to_string(),
                rush::config::Task {
                    cmd: "cc main.c".to_string(),
                    deps: vec!["generate".to_string()],
                    cache: vec!["main.c".to_string()],
                    env: vec![("CC".to_string(), "gcc".to_string())],
                    description: Some("compile it".to_string()),
                },
            ),
            (
                "generate".to_string(),
                rush::config::Task {
                    cmd: "gen".to_string(),
                    deps: Vec::new(),
                    cache: Vec::new(),
                    env: Vec::new(),
                    description: None,
                },
            ),
        ],
    };
    let g = cfg.build_graph();
    let compile = g.get_task(&"compile".to_string()).unwrap();
    assert_eq!(compile.name, "compile");
    assert_eq!(compile.cmd, "cc main.c");
    assert_eq!(compile.env, [("CC".to_string(), "gcc".to_string())]);
    assert_eq!(compile.cache_files, ["main.c".to_string()]);
    let order = g.topological_sort("compile").unwrap();
    assert_eq!(names(&order), ["generate", "compile"]);
}
