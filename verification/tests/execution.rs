//! The cache lifecycle, fingerprints, run decisions, wave aggregation and
//! the watch step.

use sha2::Digest;

use rush::cache::TaskCache;
use rush::executor::{
    shell_invocation, watch_step, wave_verdict, ExecError, RunDecision, TaskExecutor, WatchAction,
    WatchEvent, WaveOutcome,
};
use rush::graph::{Task, TaskGraph};

fn hex(bytes: &[u8]) -> String {
    let mut s = String::new();
    for b in bytes {
        s.push(char::from_digit((b >> 4) as u32, 16).unwrap());
        s.push(char::from_digit((b & 15) as u32, 16).unwrap());
    }
    s
}

fn sha256_hex(data: &[u8]) -> String {
    hex(&sha2::Sha256::digest(data))
}

fn cached_task(name: &str, cache_files: &[&str]) -> Task {
    Task {
        name: name.to_string(),
        cmd: "touch out".to_string(),
        env: Vec::new(),
        cache_files: cache_files.iter().map(|s| s.to_string()).collect(),
    }
}

#[test]
fn fingerprint_of_name_alone_is_sha256_of_name() {
    let cache = TaskCache::new();
    // SHA-256("abc"), a published test vector.
    assert_eq!(
        cache.compute_task_hash("abc", &Vec::new()),
        "ba7816bf8f01cfea414140de5dae2223b00361a396177a9cb410ff61f20015ad"
    );
    // SHA-256 of the empty input.
    assert_eq!(
        cache.compute_task_hash("", &Vec::new()),
        "e3b0c44298fc1c149afbf4c8996fb92427ae41e4649b934ca495991b7852b855"
    );
}

#[test]
fn fingerprint_feeds_name_then_contents() {
    let cache = TaskCache::new();
    let inputs = vec![Some(b"int main;".to_vec()), Some(b"x".to_vec())];
    let expected = sha256_hex(b"compileint main;x");
    assert_eq!(cache.compute_task_hash("compile", &inputs), expected);
}

#[test]
fn missing_file_contributes_the_sentinel() {
    let cache = TaskCache::new();
    let inputs = vec![None];
    let expected = sha256_hex(b"t<file-not-found>");
    assert_eq!(cache.compute_task_hash("t", &inputs), expected);
    let with_content = vec![Some(b"<file-not-found>".to_vec())];
    // The sentinel is also what a file holding the sentinel text hashes to;
    // the fingerprint only sees bytes.
    assert_eq!(cache.compute_task_hash("t", &with_content), expected);
}

#[test]
fn fingerprint_depends_on_inputs() {
    let cache = TaskCache::new();
    let one = cache.compute_task_hash("t", &vec![Some(b"a".to_vec())]);
    let other = cache.compute_task_hash("t", &vec![Some(b"b".to_vec())]);
    let absent = cache.compute_task_hash("t", &vec![None]);
    assert_ne!(one, other);
    assert_ne!(one, absent);
}

#[test]
fn commit_makes_exactly_one_fingerprint_fresh() {
    let mut cache = TaskCache::new();
    assert!(!cache.is_cached("compile", "f1"));
    cache.mark_cached("compile", "f1");
    assert!(cache.is_cached("compile", "f1"));
    assert!(!cache.is_cached("compile", "f2"));
    assert!(!cache.is_cached("other", "f1"));
    cache.mark_cached("compile", "f2");
    assert!(!cache.is_cached("compile", "f1"));
    assert!(cache.is_cached("compile", "f2"));
    // Exactly one marker file remains for the task.
    assert_eq!(cache.marker_entries().len(), 1);
    assert_eq!(cache.marker_entries()[0], "compile.f2");
}

#[test]
fn commits_of_different_tasks_do_not_interfere() {
    let mut cache = TaskCache::new();
    cache.mark_cached("a", "f1");
    cache.mark_cached("b", "f2");
    assert!(cache.is_cached("a", "f1"));
    assert!(cache.is_cached("b", "f2"));
    assert_eq!(cache.marker_entries().len(), 2);
}

#[test]
fn cache_dir_is_well_known() {
    let cache = TaskCache::new();
    assert_eq!(cache.dir_path(), ".rush-cache");
}

#[test]
fn from_entries_restores_markers() {
    let cache = TaskCache::from_entries(vec![
        "a.f1".to_string(),
        "b.f2".to_string(),
        "a.f1".to_string(),
    ]);
    assert!(cache.is_cached("a", "f1"));
    assert!(cache.is_cached("b", "f2"));
    assert_eq!(cache.marker_entries().len(), 2);
}

#[test]
fn cached_task_runs_once_then_skips() {
    let g = TaskGraph::new();
    let mut ex = TaskExecutor::new(g, false);
    let task = cached_task("compile", &["src/main.c"]);
    let inputs = vec![Some(b"int main() {}".to_vec())];

    let fp = match ex.prepare_task(&task, &inputs) {
        RunDecision::Run { fingerprint: Some(fp) } => fp,
        _ => panic!("first run must not be cached"),
    };
    ex.complete_task(&task, &inputs, true, Some(0)).unwrap();
    assert!(ex.cache.is_cached("compile", &fp));

    // Second run, inputs unchanged: skipped, the command is not invoked.
    match ex.prepare_task(&task, &inputs) {
        RunDecision::CachedSkip => {}
        _ => panic!("second run must be cached"),
    }
}

#[test]
fn changed_input_invalidates_the_cache() {
    let g = TaskGraph::new();
    let mut ex = TaskExecutor::new(g, false);
    let task = cached_task("compile", &["src/main.c"]);
    let before = vec![Some(b"int main() {}".to_vec())];
    let after = vec![Some(b"int main() { return 1; }".to_vec())];

    ex.prepare_task(&task, &before);
    ex.complete_task(&task, &before, true, Some(0)).unwrap();
    match ex.prepare_task(&task, &after) {
        RunDecision::Run { fingerprint: Some(_) } => {}
        _ => panic!("a changed input must run again"),
    }
    ex.complete_task(&task, &after, true, Some(0)).unwrap();
    // One marker for the task, carrying the new fingerprint.
    assert_eq!(ex.cache.marker_entries().len(), 1);
    let new_fp = ex.cache.compute_task_hash("compile", &after);
    assert!(ex.cache.is_cached("compile", &new_fp));
}

#[test]
fn task_without_cache_files_never_touches_the_cache() {
    let g = TaskGraph::new();
    let mut ex = TaskExecutor::new(g, false);
    let task = Task {
        name: "free".to_string(),
        cmd: "true".to_string(),
        env: Vec::new(),
        cache_files: Vec::new(),
    };
    match ex.prepare_task(&task, &Vec::new()) {
        RunDecision::Run { fingerprint: None } => {}
        _ => panic!("a task without cache inputs always runs, without a fingerprint"),
    }
    ex.complete_task(&task, &Vec::new(), true, Some(0)).unwrap();
    assert_eq!(ex.cache.marker_entries().len(), 0);
}

#[test]
fn failed_task_reports_name_and_exit_code() {
    let g = TaskGraph::new();
    let mut ex = TaskExecutor::new(g, false);
    let task = cached_task("broken", &["input"]);
    let inputs = vec![Some(b"data".to_vec())];
    match ex.complete_task(&task, &inputs, false, Some(2)) {
        Err(ExecError::TaskFailed { name, exit_code }) => {
            assert_eq!(name, "broken");
            assert_eq!(exit_code, Some(2));
        }
        _ => panic!("expected a task failure"),
    }
    // A failed run commits nothing.
    assert_eq!(ex.cache.marker_entries().len(), 0);
}

#[test]
fn wave_verdict_succeeds_when_all_succeed() {
    let results = vec![
        ("a".to_string(), WaveOutcome::Succeeded),
        ("b".to_string(), WaveOutcome::Succeeded),
    ];
    assert!(wave_verdict(results).is_ok());
    assert!(wave_verdict(Vec::new()).is_ok());
}

#[test]
fn wave_verdict_reports_first_failure() {
    let failure = ExecError::TaskFailed { name: "b".to_string(), exit_code: Some(1) };
    let results = vec![
        ("a".to_string(), WaveOutcome::Succeeded),
        ("b".to_string(), WaveOutcome::Failed(failure)),
        ("c".to_string(), WaveOutcome::Panicked),
    ];
    match wave_verdict(results) {
        Err(ExecError::TaskFailed { name, exit_code }) => {
            assert_eq!(name, "b");
            assert_eq!(exit_code, Some(1));
        }
        _ => panic!("expected the first failure to win"),
    }
}

#[test]
fn wave_verdict_reports_panicked_workers() {
    let results = vec![("w".to_string(), WaveOutcome::Panicked)];
    match wave_verdict(results) {
        Err(ExecError::TaskPanicked { name }) => assert_eq!(name, "w"),
        _ => panic!("expected a panicked-worker failure"),
    }
}

#[test]
fn shell_invocation_matches_the_host_kind() {
    assert_eq!(shell_invocation(false), ("sh", "-c"));
    assert_eq!(shell_invocation(true), ("cmd", "/C"));
}

#[test]
fn watch_step_decides_the_loop() {
    assert!(matches!(watch_step(&WatchEvent::Changed), WatchAction::InvalidateAndRerun));
    assert!(matches!(watch_step(&WatchEvent::QuietTimeout), WatchAction::KeepWatching));
    assert!(matches!(watch_step(&WatchEvent::Disconnected), WatchAction::Stop));
}

#[test]
fn watch_rerun_wipes_the_cache() {
    let g = TaskGraph::new();
    let mut ex = TaskExecutor::new(g, false);
    let task = cached_task("build", &["file"]);
    let inputs = vec![Some(b"v1".to_vec())];
    ex.complete_task(&task, &inputs, true, Some(0)).unwrap();
    assert_eq!(ex.cache.marker_entries().len(), 1);
    ex.invalidate_cache();
    assert_eq!(ex.cache.marker_entries().len(), 0);
    match ex.prepare_task(&task, &inputs) {
        RunDecision::Run { fingerprint: Some(_) } => {}
        _ => panic!("after an invalidation everything runs again"),
    }
}
