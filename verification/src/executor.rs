//! The executor's decisions: target validation, planning, wave partition for
//! parallel dispatch, the cache check before a run, the cache commit and
//! failure report after one, failure aggregation within a wave, and the watch
//! loop's step decisions.
//!
//! Spawning subprocesses, reading input files and watching the filesystem
//! are the holder's side; every function here computes from plain values.

use vstd::prelude::*;

use crate::cache::commit_markers;
use crate::cache::is_fresh;
use crate::cache::spec_fingerprint;
use crate::cache::TaskCache;
use crate::graph::al_keys;
use crate::graph::GraphError;
use crate::graph::GraphFailure;
use crate::graph::spec_plan;
use crate::graph::Task;
use crate::graph::TaskGraph;

verus! {

/// An execution failure, over mathematical values.
pub enum ExecFailure {
    /// The requested target is not defined; carries every defined name.
    TargetNotFound { name: Seq<char>, available: Seq<Seq<char>> },
    /// Planning failed: a cycle or an undefined dependency.
    Planning(GraphFailure),
    /// A task's command exited unsuccessfully.
    TaskFailed { name: Seq<char>, exit_code: Option<i32> },
    /// A task's worker ended abnormally rather than reporting a result.
    TaskPanicked { name: Seq<char> },
    /// A wave sweep stalled with work remaining; unreachable for planned
    /// orders, kept as a defensive error.
    InvalidSchedule,
}

/// An execution failure as the caller receives it.
#[derive(Debug)]
pub enum ExecError {
    /// The requested target is not defined; carries every defined name.
    TargetNotFound { name: String, available: Vec<String> },
    /// Planning failed: a cycle or an undefined dependency.
    Planning(GraphError),
    /// A task's command exited unsuccessfully.
    TaskFailed { name: String, exit_code: Option<i32> },
    /// A task's worker ended abnormally rather than reporting a result.
    TaskPanicked { name: String },
    /// A wave sweep stalled with work remaining.
    InvalidSchedule,
}

impl View for ExecError {
    type V = ExecFailure;

    open spec fn view(&self) -> ExecFailure {
        match self {
            ExecError::TargetNotFound { name, available } => ExecFailure::TargetNotFound {
                name: name@,
                available: available.deep_view(),
            },
            ExecError::Planning(e) => ExecFailure::Planning(e@),
            ExecError::TaskFailed { name, exit_code } => ExecFailure::TaskFailed {
                name: name@,
                exit_code: *exit_code,
            },
            ExecError::TaskPanicked { name } => ExecFailure::TaskPanicked { name: name@ },
            ExecError::InvalidSchedule => ExecFailure::InvalidSchedule,
        }
    }
}

/// Runs tasks against a graph and a cache model.
pub struct TaskExecutor {
    pub graph: TaskGraph,
    pub cache: TaskCache,
    pub verbose: bool,
}

/// What to do with one task, decided before it runs.
pub enum RunDecision {
    /// A marker for the task's current fingerprint exists: skip the command.
    CachedSkip,
    /// Run the command; `fingerprint` is the pre-run fingerprint where the
    /// task declares cache inputs, and nothing where it declares none.
    Run { fingerprint: Option<String> },
}

/// What one task of a parallel wave reported back.
pub enum WaveOutcome {
    /// The task ran (or was skipped as cached) and reported success.
    Succeeded,
    /// The task reported this failure.
    Failed(ExecError),
    /// The task's worker ended abnormally without reporting.
    Panicked,
}

/// What the watch loop hears while blocked.
pub enum WatchEvent {
    /// Some file under the working directory changed.
    Changed,
    /// Nothing happened within the poll interval.
    QuietTimeout,
    /// The watcher's channel closed.
    Disconnected,
}

/// What the watch loop does next.
pub enum WatchAction {
    /// Drop every cache marker, then run the target again.
    InvalidateAndRerun,
    /// Keep blocking for the next event.
    KeepWatching,
    /// Leave the loop.
    Stop,
}

/// The cache check of a single run decides to skip exactly when the task
/// declares cache inputs and its current fingerprint has a marker.
pub open spec fn spec_should_skip(
    markers: Set<Seq<char>>,
    name: Seq<char>,
    cache_files: Seq<String>,
    inputs: Seq<Option<Seq<u8>>>,
) -> bool {
    cache_files.len() > 0 && is_fresh(markers, name, spec_fingerprint(name, inputs))
}

impl TaskExecutor {
    pub open spec fn wf(self) -> bool {
        self.graph.wf() && self.cache.wf()
    }

    pub fn new(graph: TaskGraph, verbose: bool) -> (e: TaskExecutor)
        ensures
            e.graph == graph,
            e.verbose == verbose,
            e.cache.wf(),
            e.cache.markers() == Set::<Seq<char>>::empty(),
            e.cache.dir() == ".rush-cache"@,
    {
        TaskExecutor { graph, cache: TaskCache::new(), verbose }
    }

    /// Swaps the cache model for one loaded from the marker directory.
    pub fn set_cache(&mut self, cache: TaskCache)
        ensures
            final(self).graph == old(self).graph,
            final(self).verbose == old(self).verbose,
            final(self).cache == cache,
    {
        self.cache = cache;
    }

    /// Validates the target and plans its execution order: dependencies
    /// first, the target last, every reachable task exactly once. An
    /// undefined target is rejected up front, with every defined name in the
    /// error; a planning failure is passed through.
    pub fn plan_execution(&self, task_name: &str) -> (r: Result<Vec<String>, ExecError>)
        requires
            self.graph.wf(),
        ensures
            match r {
                Ok(order) => self.graph.has_task(task_name@) && spec_plan(self.graph, task_name@)
                    == Ok::<Seq<Seq<char>>, GraphFailure>(order.deep_view()),
                Err(e) => match e@ {
                    ExecFailure::TargetNotFound { name, available } => !self.graph.has_task(
                        task_name@,
                    ) && name == task_name@ && available == al_keys(self.graph.tasks@),
                    ExecFailure::Planning(f) => self.graph.has_task(task_name@) && spec_plan(
                        self.graph,
                        task_name@,
                    ) == Err::<Seq<Seq<char>>, GraphFailure>(f),
                    _ => false,
                },
            },
    {
        let name = task_name.to_owned();
        if !self.graph.contains_task(&name) {
            return Err(
                ExecError::TargetNotFound { name, available: self.graph.task_names() },
            );
        }
        match self.graph.topological_sort(task_name) {
            Ok(order) => Ok(order),
            Err(e) => Err(ExecError::Planning(e)),
        }
    }

    /// Decides whether one task may be skipped: a task with declared cache
    /// inputs whose current fingerprint has a marker is skipped; any other
    /// task runs, carrying its pre-run fingerprint where it has cache inputs.
    /// A task without cache inputs never consults the cache.
    pub fn prepare_task(&self, task: &Task, cache_inputs: &Vec<Option<Vec<u8>>>) -> (d:
        RunDecision)
        ensures
            match d {
                RunDecision::CachedSkip => spec_should_skip(
                    self.cache.markers(),
                    task.name@,
                    task.cache_files@,
                    cache_inputs.deep_view(),
                ),
                RunDecision::Run { fingerprint } => {
                    &&& !spec_should_skip(
                        self.cache.markers(),
                        task.name@,
                        task.cache_files@,
                        cache_inputs.deep_view(),
                    )
                    &&& match fingerprint {
                        Some(fp) => task.cache_files@.len() > 0 && fp@ == spec_fingerprint(
                            task.name@,
                            cache_inputs.deep_view(),
                        ),
                        None => task.cache_files@.len() == 0,
                    }
                },
            },
    {
        if task.cache_files.len() == 0 {
            return RunDecision::Run { fingerprint: None };
        }
        let fp = self.cache.compute_task_hash(task.name.as_str(), cache_inputs);
        if self.cache.is_cached(task.name.as_str(), fp.as_str()) {
            RunDecision::CachedSkip
        } else {
            RunDecision::Run { fingerprint: Some(fp) }
        }
    }

    /// Books the end of one run. Success commits the task's post-run
    /// fingerprint where it declares cache inputs (`cache_inputs` are re-read
    /// after the run) and touches nothing where it declares none; failure
    /// changes nothing and reports the task's name with its exit code.
    pub fn complete_task(
        &mut self,
        task: &Task,
        cache_inputs: &Vec<Option<Vec<u8>>>,
        success: bool,
        exit_code: Option<i32>,
    ) -> (r: Result<(), ExecError>)
        requires
            old(self).cache.wf(),
        ensures
            final(self).graph == old(self).graph,
            final(self).verbose == old(self).verbose,
            final(self).cache.wf(),
            final(self).cache.dir() == old(self).cache.dir(),
            success && task.cache_files@.len() > 0 ==> r is Ok && final(self).cache.markers()
                == commit_markers(
                old(self).cache.markers(),
                task.name@,
                spec_fingerprint(task.name@, cache_inputs.deep_view()),
            ),
            success && task.cache_files@.len() == 0 ==> r is Ok && final(self).cache.markers()
                == old(self).cache.markers(),
            !success ==> final(self).cache.markers() == old(self).cache.markers() && (match r {
                Ok(_) => false,
                Err(e) => e@ == (ExecFailure::TaskFailed { name: task.name@, exit_code }),
            }),
    {
        if !success {
            return Err(
                ExecError::TaskFailed { name: task.name.clone(), exit_code },
            );
        }
        if task.cache_files.len() > 0 {
            let fp = self.cache.compute_task_hash(task.name.as_str(), cache_inputs);
            self.cache.mark_cached(task.name.as_str(), fp.as_str());
        }
        Ok(())
    }

    /// Invalidates the whole cache model, as the watch loop does before every
    /// re-run; the holder deletes the cache directory to match.
    pub fn invalidate_cache(&mut self)
        ensures
            final(self).graph == old(self).graph,
            final(self).verbose == old(self).verbose,
            final(self).cache.wf(),
            final(self).cache.markers() == Set::<Seq<char>>::empty(),
            final(self).cache.dir() == old(self).cache.dir(),
    {
        self.cache.clear();
    }
}

/// The shell that runs a task's command: the system command interpreter with
/// `/C` on a Windows-like host, the POSIX shell with `-c` elsewhere.
pub fn shell_invocation(windows: bool) -> (r: (&'static str, &'static str))
    ensures
        windows ==> r.0@ == "cmd"@ && r.1@ == "/C"@,
        !windows ==> r.0@ == "sh"@ && r.1@ == "-c"@,
{
    if windows {
        ("cmd", "/C")
    } else {
        ("sh", "-c")
    }
}

/// Aggregates one parallel wave: success only when every task succeeded;
/// otherwise the first reported failure wins, a panicked worker being
/// reported as its own kind of failure. Peers after the first failure are
/// already complete by the time this runs — a failure never cancels them.
#[verifier::loop_isolation(false)]
pub fn wave_verdict(results: Vec<(String, WaveOutcome)>) -> (r: Result<(), ExecError>)
    ensures
        match r {
            Ok(_) => forall|i: int|
                0 <= i < results@.len() ==> #[trigger] results@[i].1 is Succeeded,
            Err(e) => exists|i: int|
                {
                    &&& 0 <= i < results@.len()
                    &&& (forall|j: int| 0 <= j < i ==> #[trigger] results@[j].1 is Succeeded)
                    &&& match #[trigger] results@[i].1 {
                        WaveOutcome::Succeeded => false,
                        WaveOutcome::Failed(f) => e == f,
                        WaveOutcome::Panicked => e@ == (ExecFailure::TaskPanicked {
                            name: results@[i].0@,
                        }),
                    }
                },
        },
{
    let ghost all = results@;
    let total = results.len();
    proof {
        assert(all.len() == total);
    }
    let mut rest = results;
    let mut taken: usize = 0;
    loop
        invariant
            taken <= all.len(),
            rest@ =~= all.subrange(taken as int, all.len() as int),
            forall|j: int| 0 <= j < taken ==> #[trigger] all[j].1 is Succeeded,
        decreases rest@.len(),
    {
        if rest.len() == 0 {
            break ;
        }
        let (name, outcome) = rest.remove(0);
        proof {
            assert(all[taken as int] == (name, outcome));
            assert(rest@ =~= all.subrange(taken as int + 1, all.len() as int));
        }
        match outcome {
            WaveOutcome::Succeeded => {},
            WaveOutcome::Failed(f) => {
                proof {
                    assert(all[taken as int].1 == WaveOutcome::Failed(f));
                }
                return Err(f);
            },
            WaveOutcome::Panicked => {
                proof {
                    assert(all[taken as int].1 is Panicked);
                }
                return Err(ExecError::TaskPanicked { name });
            },
        }
        taken = taken + 1;
    }
    Ok(())
}

/// One step of the watch loop: a file change forces a full cache
/// invalidation and a re-run; a quiet poll keeps watching; a closed watcher
/// channel ends the loop.
pub fn watch_step(event: &WatchEvent) -> (a: WatchAction)
    ensures
        a == (match event {
            WatchEvent::Changed => WatchAction::InvalidateAndRerun,
            WatchEvent::QuietTimeout => WatchAction::KeepWatching,
            WatchEvent::Disconnected => WatchAction::Stop,
        }),
{
    match event {
        WatchEvent::Changed => WatchAction::InvalidateAndRerun,
        WatchEvent::QuietTimeout => WatchAction::KeepWatching,
        WatchEvent::Disconnected => WatchAction::Stop,
    }
}

/// Committing a fingerprint and deciding again with unchanged inputs skips:
/// running a cached task twice in a row invokes its command at most once.
/// The fingerprint depends only on the name and the input bytes, so the
/// second decision sees the marker the first run committed.
pub proof fn lemma_second_run_skips(
    markers: Set<Seq<char>>,
    name: Seq<char>,
    cache_files: Seq<String>,
    inputs: Seq<Option<Seq<u8>>>,
)
    requires
        cache_files.len() > 0,
    ensures
        spec_should_skip(
            commit_markers(markers, name, spec_fingerprint(name, inputs)),
            name,
            cache_files,
            inputs,
        ),
{
    crate::cache::lemma_commit_establishes_freshness(
        markers,
        name,
        spec_fingerprint(name, inputs),
        spec_fingerprint(name, inputs),
    );
}


// ---------------------------------------------------------------------------
// Wave partition
// ---------------------------------------------------------------------------

/// Whether every declared dependency of `t` is already completed.
pub open spec fn ready_at(g: TaskGraph, completed: Set<Seq<char>>, t: Seq<char>) -> bool {
    forall|di: int|
        0 <= di < g.spec_deps_of(t).len() ==> completed.contains(#[trigger] g.spec_deps_of(t)[di])
}

/// The tasks of `rem[i..]` that are ready, in order.
pub open spec fn sweep_ready(
    g: TaskGraph,
    rem: Seq<Seq<char>>,
    c: Set<Seq<char>>,
    i: int,
) -> Seq<Seq<char>>
    decreases rem.len() - i,
{
    if i < 0 || i >= rem.len() {
        Seq::empty()
    } else if ready_at(g, c, rem[i]) {
        seq![rem[i]] + sweep_ready(g, rem, c, i + 1)
    } else {
        sweep_ready(g, rem, c, i + 1)
    }
}

/// The tasks of `rem[i..]` that are not ready, in order.
pub open spec fn sweep_blocked(
    g: TaskGraph,
    rem: Seq<Seq<char>>,
    c: Set<Seq<char>>,
    i: int,
) -> Seq<Seq<char>>
    decreases rem.len() - i,
{
    if i < 0 || i >= rem.len() {
        Seq::empty()
    } else if !ready_at(g, c, rem[i]) {
        seq![rem[i]] + sweep_blocked(g, rem, c, i + 1)
    } else {
        sweep_blocked(g, rem, c, i + 1)
    }
}

/// Concatenation holds exactly the elements of its parts.
pub proof fn lemma_concat_contains<A>(a: Seq<A>, b: Seq<A>, x: A)
    ensures
        (a + b).contains(x) <==> a.contains(x) || b.contains(x),
{
    if (a + b).contains(x) {
        let k = choose|k: int| 0 <= k < (a + b).len() && (a + b)[k] == x;
        if k < a.len() {
            assert(a[k] == x);
        } else {
            assert(b[k - a.len()] == x);
        }
    }
    if a.contains(x) {
        let k = choose|k: int| 0 <= k < a.len() && a[k] == x;
        assert((a + b)[k] == x);
    }
    if b.contains(x) {
        let k = choose|k: int| 0 <= k < b.len() && b[k] == x;
        assert((a + b)[a.len() + k] == x);
    }
}

/// Concatenating duplicate-free parts with no common element is
/// duplicate-free.
pub proof fn lemma_concat_no_dup<A>(a: Seq<A>, b: Seq<A>)
    requires
        a.no_duplicates(),
        b.no_duplicates(),
        forall|x: A| !(#[trigger] a.contains(x) && b.contains(x)),
    ensures
        (a + b).no_duplicates(),
{
    assert forall|i: int, j: int|
        0 <= i < (a + b).len() && 0 <= j < (a + b).len() && i != j implies (a + b)[i] != (a
        + b)[j] by {
        if i < a.len() && j >= a.len() {
            if (a + b)[i] == (a + b)[j] {
                assert(a.contains(a[i]));
                assert(b.contains(b[j - a.len()]));
            }
        } else if i >= a.len() && j < a.len() {
            if (a + b)[i] == (a + b)[j] {
                assert(a.contains(a[j]));
                assert(b.contains(b[i - a.len()]));
            }
        }
    }
}

/// What the two sweeps hold: exactly the remaining tasks with the matching
/// readiness, position by position.
pub proof fn lemma_sweep_elems(
    g: TaskGraph,
    rem: Seq<Seq<char>>,
    c: Set<Seq<char>>,
    i: int,
    x: Seq<char>,
)
    requires
        0 <= i,
    ensures
        sweep_ready(g, rem, c, i).contains(x) <==> ((exists|j: int|
            i <= j < rem.len() && rem[j] == x) && ready_at(g, c, x)),
        sweep_blocked(g, rem, c, i).contains(x) <==> ((exists|j: int|
            i <= j < rem.len() && rem[j] == x) && !ready_at(g, c, x)),
    decreases rem.len() - i,
{
    if i < rem.len() {
        lemma_sweep_elems(g, rem, c, i + 1, x);
        lemma_concat_contains(seq![rem[i]], sweep_ready(g, rem, c, i + 1), x);
        lemma_concat_contains(seq![rem[i]], sweep_blocked(g, rem, c, i + 1), x);
        assert(seq![rem[i]].contains(x) <==> rem[i] == x) by {
            if seq![rem[i]].contains(x) {
                let k = choose|k: int| 0 <= k < 1 && seq![rem[i]][k] == x;
                assert(seq![rem[i]][0] == x);
            }
            if rem[i] == x {
                assert(seq![rem[i]][0] == x);
            }
        }
        if (exists|j: int| i <= j < rem.len() && rem[j] == x) && rem[i] != x {
            let j = choose|j: int| i <= j < rem.len() && rem[j] == x;
            assert(i + 1 <= j < rem.len() && rem[j] == x);
        }
    }
}

/// The two sweeps split the remaining tasks without loss.
pub proof fn lemma_sweep_lens(g: TaskGraph, rem: Seq<Seq<char>>, c: Set<Seq<char>>, i: int)
    requires
        0 <= i <= rem.len(),
    ensures
        sweep_ready(g, rem, c, i).len() + sweep_blocked(g, rem, c, i).len() == rem.len() - i,
    decreases rem.len() - i,
{
    if i < rem.len() {
        lemma_sweep_lens(g, rem, c, i + 1);
    }
}

/// Sweeping a duplicate-free order gives duplicate-free waves.
pub proof fn lemma_sweep_no_dup(g: TaskGraph, rem: Seq<Seq<char>>, c: Set<Seq<char>>, i: int)
    requires
        rem.no_duplicates(),
        0 <= i,
    ensures
        sweep_ready(g, rem, c, i).no_duplicates(),
        sweep_blocked(g, rem, c, i).no_duplicates(),
    decreases rem.len() - i,
{
    if i < rem.len() {
        lemma_sweep_no_dup(g, rem, c, i + 1);
        assert(!sweep_ready(g, rem, c, i + 1).contains(rem[i])) by {
            lemma_sweep_elems(g, rem, c, i + 1, rem[i]);
            if exists|j: int| i + 1 <= j < rem.len() && rem[j] == rem[i] {
                let j = choose|j: int| i + 1 <= j < rem.len() && rem[j] == rem[i];
            }
        }
        assert(!sweep_blocked(g, rem, c, i + 1).contains(rem[i])) by {
            lemma_sweep_elems(g, rem, c, i + 1, rem[i]);
            if exists|j: int| i + 1 <= j < rem.len() && rem[j] == rem[i] {
                let j = choose|j: int| i + 1 <= j < rem.len() && rem[j] == rem[i];
            }
        }
        if ready_at(g, c, rem[i]) {
            lemma_concat_no_dup_single(rem[i], sweep_ready(g, rem, c, i + 1));
        } else {
            lemma_concat_no_dup_single(rem[i], sweep_blocked(g, rem, c, i + 1));
        }
    }
}

/// Prepending a fresh element keeps a sequence duplicate-free.
pub proof fn lemma_concat_no_dup_single<A>(x: A, s: Seq<A>)
    requires
        s.no_duplicates(),
        !s.contains(x),
    ensures
        (seq![x] + s).no_duplicates(),
{
    assert forall|i: int, j: int|
        0 <= i < (seq![x] + s).len() && 0 <= j < (seq![x] + s).len() && i != j implies (seq![x]
        + s)[i] != (seq![x] + s)[j] by {
        if i == 0 && (seq![x] + s)[i] == (seq![x] + s)[j] {
            assert(s[j - 1] == x);
        }
        if j == 0 && (seq![x] + s)[i] == (seq![x] + s)[j] {
            assert(s[i - 1] == x);
        }
    }
}

/// The greedy wave sweep over the not-yet-emitted tasks: each step emits the
/// ready ones as a wave and marks them completed; it fails if no task is
/// ready while work remains.
pub open spec fn waves_from(g: TaskGraph, rem: Seq<Seq<char>>, c: Set<Seq<char>>) -> Option<
    Seq<Seq<Seq<char>>>,
>
    decreases rem.len(),
{
    if rem.len() == 0 {
        Some(Seq::empty())
    } else {
        let ready = sweep_ready(g, rem, c, 0);
        let blocked = sweep_blocked(g, rem, c, 0);
        if ready.len() == 0 {
            None
        } else {
            proof {
                lemma_sweep_lens(g, rem, c, 0);
            }
            match waves_from(g, blocked, c.union(ready.to_set())) {
                Some(w) => Some(seq![ready] + w),
                None => None,
            }
        }
    }
}

/// The wave partition of a planned order.
pub open spec fn spec_waves(g: TaskGraph, order: Seq<Seq<char>>) -> Option<Seq<Seq<Seq<char>>>> {
    waves_from(g, order, Set::empty())
}

impl TaskExecutor {
    /// Whether every declared dependency of `t` is in `completed`.
    #[verifier::loop_isolation(false)]
    fn all_deps_completed(&self, t: &String, completed: &Vec<String>) -> (b: bool)
        ensures
            b == ready_at(self.graph, completed.deep_view().to_set(), t@),
    {
        match self.graph.get_deps(t) {
            Some(deps) => {
                let n = deps.len();
                for di in 0..n
                    invariant
                        forall|j: int|
                            0 <= j < di ==> completed.deep_view().to_set().contains(
                                #[trigger] deps.deep_view()[j],
                            ),
                {
                    if !crate::graph::vec_contains_string(completed, &deps[di]) {
                        assert(deps.deep_view()[di as int] == deps@[di as int]@);
                        return false;
                    }
                    assert(deps.deep_view()[di as int] == deps@[di as int]@);
                }
                true
            },
            None => true,
        }
    }

    /// Groups a planned order into waves: each wave holds, in order, the
    /// not-yet-emitted tasks whose dependencies are all emitted, and runs
    /// after the wave before it. Fails only if a sweep finds no ready task
    /// while work remains, which planning rules out.
    #[verifier::loop_isolation(false)]
    pub fn build_execution_levels(&self, execution_order: &Vec<String>) -> (r: Result<
        Vec<Vec<String>>,
        ExecError,
    >)
        ensures
            match r {
                Ok(levels) => spec_waves(self.graph, execution_order.deep_view()) == Some(
                    levels.deep_view(),
                ),
                Err(e) => spec_waves(self.graph, execution_order.deep_view()) is None && e@
                    == ExecFailure::InvalidSchedule,
            },
    {
        let ghost order0 = execution_order.deep_view();
        let mut levels: Vec<Vec<String>> = Vec::new();
        let mut completed: Vec<String> = Vec::new();
        let mut remaining: Vec<String> = crate::graph::clone_strings(execution_order);
        proof {
            assert(levels.deep_view() =~= Seq::<Seq<Seq<char>>>::empty());
            assert(completed.deep_view() =~= Seq::<Seq<char>>::empty());
            assert(completed.deep_view().to_set() =~= Set::<Seq<char>>::empty());
        }
        loop
            invariant
                match waves_from(
                    self.graph,
                    remaining.deep_view(),
                    completed.deep_view().to_set(),
                ) {
                    Some(w) => spec_waves(self.graph, order0) == Some(levels.deep_view() + w),
                    None => spec_waves(self.graph, order0) is None,
                },
            decreases remaining@.len(),
        {
            let ghost remv = remaining.deep_view();
            let ghost cset = completed.deep_view().to_set();
            if remaining.len() == 0 {
                break ;
            }
            let mut ready_tasks: Vec<String> = Vec::new();
            let mut blocked: Vec<String> = Vec::new();
            proof {
                assert(ready_tasks.deep_view() =~= Seq::<Seq<char>>::empty());
                assert(blocked.deep_view() =~= Seq::<Seq<char>>::empty());
                assert(sweep_ready(self.graph, remv, cset, 0) =~= ready_tasks.deep_view()
                    + sweep_ready(self.graph, remv, cset, 0));
                assert(sweep_blocked(self.graph, remv, cset, 0) =~= blocked.deep_view()
                    + sweep_blocked(self.graph, remv, cset, 0));
            }
            let n = remaining.len();
            for idx in 0..n
                invariant
                    sweep_ready(self.graph, remv, cset, 0) == ready_tasks.deep_view()
                        + sweep_ready(self.graph, remv, cset, idx as int),
                    sweep_blocked(self.graph, remv, cset, 0) == blocked.deep_view()
                        + sweep_blocked(self.graph, remv, cset, idx as int),
            {
                let ghost rd = ready_tasks.deep_view();
                let ghost bd = blocked.deep_view();
                if self.all_deps_completed(&remaining[idx], &completed) {
                    ready_tasks.push(remaining[idx].clone());
                    proof {
                        assert(ready_tasks.deep_view() =~= rd.push(remv[idx as int]));
                        assert(sweep_ready(self.graph, remv, cset, idx as int) == seq![
                            remv[idx as int],
                        ] + sweep_ready(self.graph, remv, cset, idx + 1));
                        assert(rd + (seq![remv[idx as int]] + sweep_ready(
                            self.graph,
                            remv,
                            cset,
                            idx + 1,
                        )) =~= rd.push(remv[idx as int]) + sweep_ready(
                            self.graph,
                            remv,
                            cset,
                            idx + 1,
                        ));
                    }
                } else {
                    blocked.push(remaining[idx].clone());
                    proof {
                        assert(blocked.deep_view() =~= bd.push(remv[idx as int]));
                        assert(sweep_blocked(self.graph, remv, cset, idx as int) == seq![
                            remv[idx as int],
                        ] + sweep_blocked(self.graph, remv, cset, idx + 1));
                        assert(bd + (seq![remv[idx as int]] + sweep_blocked(
                            self.graph,
                            remv,
                            cset,
                            idx + 1,
                        )) =~= bd.push(remv[idx as int]) + sweep_blocked(
                            self.graph,
                            remv,
                            cset,
                            idx + 1,
                        ));
                    }
                }
            }
            proof {
                assert(ready_tasks.deep_view() =~= ready_tasks.deep_view() + sweep_ready(
                    self.graph,
                    remv,
                    cset,
                    n as int,
                ));
                assert(blocked.deep_view() =~= blocked.deep_view() + sweep_blocked(
                    self.graph,
                    remv,
                    cset,
                    n as int,
                ));
            }
            if ready_tasks.len() == 0 {
                return Err(ExecError::InvalidSchedule);
            }
            proof {
                lemma_sweep_lens(self.graph, remv, cset, 0);
            }
            let ghost readyv = ready_tasks.deep_view();
            let rn = ready_tasks.len();
            for k in 0..rn
                invariant
                    rn == readyv.len(),
                    readyv == ready_tasks.deep_view(),
                    completed.deep_view().to_set() =~= cset.union(
                        readyv.subrange(0, k as int).to_set(),
                    ),
            {
                let ghost cd = completed.deep_view();
                completed.push(ready_tasks[k].clone());
                proof {
                    assert(completed.deep_view() =~= cd.push(readyv[k as int]));
                    cd.lemma_push_to_set_commute(readyv[k as int]);
                    assert(readyv.subrange(0, k + 1 as int) =~= readyv.subrange(
                        0,
                        k as int,
                    ).push(readyv[k as int]));
                    readyv.subrange(0, k as int).lemma_push_to_set_commute(readyv[k as int]);
                    assert(completed.deep_view().to_set() =~= cset.union(
                        readyv.subrange(0, k + 1 as int).to_set(),
                    ));
                }
            }
            proof {
                assert(readyv.subrange(0, readyv.len() as int) =~= readyv);
                assert(completed.deep_view().to_set() =~= cset.union(readyv.to_set()));
            }
            let ghost lv = levels.deep_view();
            levels.push(ready_tasks);
            remaining = blocked;
            proof {
                assert(levels.deep_view() =~= lv.push(readyv));
                match waves_from(self.graph, remaining.deep_view(), completed.deep_view().to_set(),
                ) {
                    Some(w) => {
                        assert(waves_from(self.graph, remv, cset) == Some(seq![readyv] + w));
                        assert(lv + (seq![readyv] + w) =~= lv.push(readyv) + w);
                    },
                    None => {
                        assert(waves_from(self.graph, remv, cset) is None);
                    },
                }
            }
        }
        proof {
            assert(levels.deep_view() + Seq::<Seq<Seq<char>>>::empty() =~= levels.deep_view());
        }
        Ok(levels)
    }
}

/// Taking `w` waves of a partition that starts with `first` takes `first`
/// and `w - 1` waves of the rest.
pub proof fn lemma_take_cons_flatten(first: Seq<Seq<char>>, rest: Seq<Seq<Seq<char>>>, w: int)
    requires
        1 <= w <= rest.len() + 1,
    ensures
        (seq![first] + rest).take(w).flatten() == first + rest.take(w - 1).flatten(),
{
    assert((seq![first] + rest).take(w) =~= seq![first] + rest.take(w - 1));
    assert((seq![first] + rest.take(w - 1)).drop_first() =~= rest.take(w - 1));
    assert((seq![first] + rest.take(w - 1))[0] == first);
    assert((seq![first] + rest.take(w - 1)).flatten() == first + rest.take(w - 1).flatten());
}

/// Induction step of the wave-partition proof: over disjoint `rem` and `c`,
/// a successful sweep partitions `rem` exactly — the waves concatenate to a
/// permutation of `rem` — into non-empty waves with no dependency edge
/// inside any wave.
pub proof fn lemma_waves_from_props(g: TaskGraph, rem: Seq<Seq<char>>, c: Set<Seq<char>>)
    requires
        rem.no_duplicates(),
        forall|x: Seq<char>| #[trigger] c.contains(x) ==> !rem.contains(x),
    ensures
        match waves_from(g, rem, c) {
            Some(waves) => {
                &&& waves.flatten().len() == rem.len()
                &&& waves.flatten().no_duplicates()
                &&& forall|x: Seq<char>|
                    #[trigger] waves.flatten().contains(x) <==> rem.contains(x)
                &&& forall|w: int| 0 <= w < waves.len() ==> #[trigger] waves[w].len() > 0
                &&& forall|w: int, a: int, b: int|
                    #![trigger waves[w][a], waves[w][b]]
                    0 <= w < waves.len() && 0 <= a < waves[w].len() && 0 <= b < waves[w].len()
                        && a != b ==> !g.spec_deps_of(waves[w][a]).contains(waves[w][b])
                &&& forall|w: int, a: int, di: int|
                    #![trigger g.spec_deps_of(waves[w][a])[di]]
                    0 <= w < waves.len() && 0 <= a < waves[w].len() && 0 <= di < g.spec_deps_of(
                        waves[w][a],
                    ).len() ==> c.contains(g.spec_deps_of(waves[w][a])[di]) || waves.take(
                        w,
                    ).flatten().contains(g.spec_deps_of(waves[w][a])[di])
            },
            None => true,
        },
    decreases rem.len(),
{
    if rem.len() == 0 {
        match waves_from(g, rem, c) {
            Some(waves) => {
                assert(waves =~= Seq::<Seq<Seq<char>>>::empty());
                assert(waves.flatten() =~= Seq::<Seq<char>>::empty());
            },
            None => {},
        }
    } else {
        let ready = sweep_ready(g, rem, c, 0);
        let blocked = sweep_blocked(g, rem, c, 0);
        if ready.len() > 0 {
            lemma_sweep_lens(g, rem, c, 0);
            lemma_sweep_no_dup(g, rem, c, 0);
            let c2 = c.union(ready.to_set());
            assert forall|x: Seq<char>| #[trigger] c2.contains(x) implies !blocked.contains(
                x,
            ) by {
                lemma_sweep_elems(g, rem, c, 0, x);
                if c.contains(x) {
                    if blocked.contains(x) {
                        let j = choose|j: int| 0 <= j < rem.len() && rem[j] == x;
                        assert(rem.contains(x));
                    }
                } else {
                    assert(ready.to_set().contains(x) ==> ready.contains(x));
                }
            }
            lemma_waves_from_props(g, blocked, c2);
            match waves_from(g, blocked, c2) {
                Some(w) => {
                    let waves = seq![ready] + w;
                    assert(waves[0] == ready);
                    assert(waves.drop_first() =~= w);
                    assert(waves.flatten() == ready + w.flatten());
                    assert forall|x: Seq<char>| #[trigger] (ready + w.flatten()).contains(x)
                        <==> rem.contains(x) by {
                        lemma_concat_contains(ready, w.flatten(), x);
                        lemma_sweep_elems(g, rem, c, 0, x);
                        if rem.contains(x) {
                            let j = choose|j: int| 0 <= j < rem.len() && rem[j] == x;
                        }
                        if ready.contains(x) || blocked.contains(x) {
                            let j = choose|j: int| 0 <= j < rem.len() && rem[j] == x;
                        }
                    }
                    assert((ready + w.flatten()).no_duplicates()) by {
                        assert forall|x: Seq<char>|
                            !(#[trigger] ready.contains(x) && w.flatten().contains(x)) by {
                            lemma_sweep_elems(g, rem, c, 0, x);
                        }
                        lemma_concat_no_dup(ready, w.flatten());
                    }
                    assert forall|wi: int, a: int, di: int|
                        #![trigger g.spec_deps_of(waves[wi][a])[di]]
                        0 <= wi < waves.len() && 0 <= a < waves[wi].len() && 0 <= di
                            < g.spec_deps_of(waves[wi][a]).len() implies c.contains(
                        g.spec_deps_of(waves[wi][a])[di],
                    ) || waves.take(wi).flatten().contains(
                        g.spec_deps_of(waves[wi][a])[di],
                    ) by {
                        let d = g.spec_deps_of(waves[wi][a])[di];
                        if wi == 0 {
                            assert(waves[0] == ready);
                            assert(ready.contains(ready[a]));
                            lemma_sweep_elems(g, rem, c, 0, ready[a]);
                            assert(ready_at(g, c, ready[a]));
                        } else {
                            assert(waves[wi] == w[wi - 1]);
                            assert(g.spec_deps_of(w[wi - 1][a])[di] == d);
                            lemma_take_cons_flatten(ready, w, wi);
                            lemma_concat_contains(ready, w.take(wi - 1).flatten(), d);
                            if c2.contains(d) && !c.contains(d) {
                                assert(ready.to_set().contains(d));
                                assert(ready.contains(d));
                            }
                        }
                    }
                    assert forall|wi: int, a: int, b: int|
                        #![trigger waves[wi][a], waves[wi][b]]
                        0 <= wi < waves.len() && 0 <= a < waves[wi].len() && 0 <= b
                            < waves[wi].len() && a != b implies !g.spec_deps_of(
                        waves[wi][a],
                    ).contains(waves[wi][b]) by {
                        if wi == 0 {
                            assert(ready.contains(ready[a]));
                            assert(ready.contains(ready[b]));
                            lemma_sweep_elems(g, rem, c, 0, ready[a]);
                            lemma_sweep_elems(g, rem, c, 0, ready[b]);
                            if g.spec_deps_of(ready[a]).contains(ready[b]) {
                                let di = choose|di: int|
                                    0 <= di < g.spec_deps_of(ready[a]).len() && g.spec_deps_of(
                                        ready[a],
                                    )[di] == ready[b];
                                assert(c.contains(ready[b]));
                                assert(rem.contains(ready[b]));
                            }
                        } else {
                            assert(waves[wi] == w[wi - 1]);
                        }
                    }
                },
                None => {},
            }
        }
    }
}

/// What a successful wave partition of a duplicate-free order is: the waves
/// concatenate to a permutation of the order, no wave is empty, no two tasks
/// of one wave share a dependency edge in either direction, and every
/// dependency of a task in wave `w` lies in a wave before `w`.
pub proof fn lemma_waves_partition(g: TaskGraph, order: Seq<Seq<char>>)
    requires
        order.no_duplicates(),
    ensures
        match spec_waves(g, order) {
            Some(waves) => {
                &&& waves.flatten().len() == order.len()
                &&& waves.flatten().no_duplicates()
                &&& forall|x: Seq<char>|
                    #[trigger] waves.flatten().contains(x) <==> order.contains(x)
                &&& forall|w: int| 0 <= w < waves.len() ==> #[trigger] waves[w].len() > 0
                &&& forall|w: int, a: int, b: int|
                    #![trigger waves[w][a], waves[w][b]]
                    0 <= w < waves.len() && 0 <= a < waves[w].len() && 0 <= b < waves[w].len()
                        && a != b ==> !g.spec_deps_of(waves[w][a]).contains(waves[w][b])
                &&& forall|w: int, a: int, di: int|
                    #![trigger g.spec_deps_of(waves[w][a])[di]]
                    0 <= w < waves.len() && 0 <= a < waves[w].len() && 0 <= di < g.spec_deps_of(
                        waves[w][a],
                    ).len() ==> waves.take(w).flatten().contains(
                        g.spec_deps_of(waves[w][a])[di],
                    )
            },
            None => true,
        },
{
    lemma_waves_from_props(g, order, Set::empty());
}


// ---------------------------------------------------------------------------
// Planned orders always partition
// ---------------------------------------------------------------------------

/// The first position at or after `i` whose element is in `rem`; negative if
/// there is none.
pub open spec fn first_hit(order: Seq<Seq<char>>, rem: Seq<Seq<char>>, i: int) -> int
    decreases order.len() - i,
{
    if i < 0 || i >= order.len() {
        -1
    } else if rem.contains(order[i]) {
        i
    } else {
        first_hit(order, rem, i + 1)
    }
}

/// Where some element of `rem` occurs in `order`, `first_hit` finds the
/// earliest such position.
pub proof fn lemma_first_hit(order: Seq<Seq<char>>, rem: Seq<Seq<char>>, i: int)
    requires
        0 <= i,
        exists|k: int| i <= k < order.len() && rem.contains(#[trigger] order[k]),
    ensures
        i <= first_hit(order, rem, i) < order.len(),
        rem.contains(order[first_hit(order, rem, i)]),
        forall|j: int| i <= j < first_hit(order, rem, i) ==> !rem.contains(#[trigger] order[j]),
    decreases order.len() - i,
{
    if i < order.len() && !rem.contains(order[i]) {
        let k = choose|k: int| i <= k < order.len() && rem.contains(#[trigger] order[k]);
        assert(i + 1 <= k < order.len() && rem.contains(order[k]));
        lemma_first_hit(order, rem, i + 1);
    }
}

/// While every dependency of a remaining task is completed or itself
/// remaining, a sweep over a non-empty remainder of a topologically sorted
/// order finds a ready task: the remaining task that comes earliest in the
/// order has no remaining dependency left.
pub proof fn lemma_sweep_finds_ready(
    g: TaskGraph,
    order: Seq<Seq<char>>,
    rem: Seq<Seq<char>>,
    c: Set<Seq<char>>,
)
    requires
        order.no_duplicates(),
        crate::graph::topo_sorted(g, order),
        rem.len() > 0,
        forall|x: Seq<char>| #[trigger] rem.contains(x) ==> order.contains(x),
        forall|x: Seq<char>, di: int|
            #![trigger g.spec_deps_of(x)[di], rem.contains(x)]
            rem.contains(x) && 0 <= di < g.spec_deps_of(x).len() ==> c.contains(
                g.spec_deps_of(x)[di],
            ) || rem.contains(g.spec_deps_of(x)[di]),
    ensures
        sweep_ready(g, rem, c, 0).len() > 0,
{
    assert(rem.contains(rem[0]));
    assert(order.contains(rem[0]));
    let w = choose|w: int| 0 <= w < order.len() && order[w] == rem[0];
    assert(rem.contains(order[w]));
    lemma_first_hit(order, rem, 0);
    let k = first_hit(order, rem, 0);
    let t = order[k];
    assert forall|di: int| 0 <= di < g.spec_deps_of(t).len() implies c.contains(
        #[trigger] g.spec_deps_of(t)[di],
    ) by {
        let d = g.spec_deps_of(t)[di];
        assert(crate::graph::dep_precedes(g, order, k, di));
        let j = choose|j: int| 0 <= j < k && order[j] == g.spec_deps_of(order[k])[di];
        assert(!rem.contains(order[j]));
        assert(rem.contains(t));
        assert(c.contains(d) || rem.contains(d));
    }
    assert(ready_at(g, c, t));
    lemma_sweep_elems(g, rem, c, 0, t);
    assert(sweep_ready(g, rem, c, 0).contains(t));
    let x = choose|x: int|
        0 <= x < sweep_ready(g, rem, c, 0).len() && sweep_ready(g, rem, c, 0)[x] == t;
}

/// The greedy sweep never stalls while dependencies stay completed or
/// remaining: every task of a topologically sorted remainder is emitted.
pub proof fn lemma_waves_total(
    g: TaskGraph,
    order: Seq<Seq<char>>,
    rem: Seq<Seq<char>>,
    c: Set<Seq<char>>,
)
    requires
        order.no_duplicates(),
        crate::graph::topo_sorted(g, order),
        rem.no_duplicates(),
        forall|x: Seq<char>| #[trigger] rem.contains(x) ==> order.contains(x),
        forall|x: Seq<char>, di: int|
            #![trigger g.spec_deps_of(x)[di], rem.contains(x)]
            rem.contains(x) && 0 <= di < g.spec_deps_of(x).len() ==> c.contains(
                g.spec_deps_of(x)[di],
            ) || rem.contains(g.spec_deps_of(x)[di]),
    ensures
        waves_from(g, rem, c) is Some,
    decreases rem.len(),
{
    if rem.len() > 0 {
        lemma_sweep_finds_ready(g, order, rem, c);
        let ready = sweep_ready(g, rem, c, 0);
        let blocked = sweep_blocked(g, rem, c, 0);
        let c2 = c.union(ready.to_set());
        lemma_sweep_lens(g, rem, c, 0);
        lemma_sweep_no_dup(g, rem, c, 0);
        assert forall|x: Seq<char>| #[trigger] blocked.contains(x) implies order.contains(x) by {
            lemma_sweep_elems(g, rem, c, 0, x);
            let j = choose|j: int| 0 <= j < rem.len() && rem[j] == x;
            assert(rem.contains(x));
        }
        assert forall|x: Seq<char>, di: int|
            #![trigger g.spec_deps_of(x)[di], blocked.contains(x)]
            blocked.contains(x) && 0 <= di < g.spec_deps_of(x).len() implies c2.contains(
            g.spec_deps_of(x)[di],
        ) || blocked.contains(g.spec_deps_of(x)[di]) by {
            let d = g.spec_deps_of(x)[di];
            lemma_sweep_elems(g, rem, c, 0, x);
            let j = choose|j: int| 0 <= j < rem.len() && rem[j] == x;
            assert(rem.contains(x));
            assert(c.contains(d) || rem.contains(d));
            if rem.contains(d) {
                lemma_sweep_elems(g, rem, c, 0, d);
                let jd = choose|jd: int| 0 <= jd < rem.len() && rem[jd] == d;
                if ready_at(g, c, d) {
                    assert(ready.contains(d));
                    assert(ready.to_set().contains(d));
                } else {
                    assert(blocked.contains(d));
                }
            }
        }
        lemma_waves_total(g, order, blocked, c2);
    }
}

/// A successfully planned order never runs into the defensive empty-wave
/// error: the wave partition of any planned order exists.
pub proof fn lemma_planned_order_partitions(g: TaskGraph, root: Seq<char>)
    ensures
        match spec_plan(g, root) {
            Ok(order) => spec_waves(g, order) is Some,
            Err(_) => true,
        },
{
    crate::graph::lemma_plan_properties(g, root);
    match spec_plan(g, root) {
        Ok(order) => {
            assert forall|x: Seq<char>, di: int|
                #![trigger g.spec_deps_of(x)[di], order.contains(x)]
                order.contains(x) && 0 <= di < g.spec_deps_of(x).len() implies Set::<
                Seq<char>,
            >::empty().contains(g.spec_deps_of(x)[di]) || order.contains(
                g.spec_deps_of(x)[di],
            ) by {
                let k = choose|k: int| 0 <= k < order.len() && order[k] == x;
                assert(crate::graph::dep_precedes(g, order, k, di));
                let j = choose|j: int| 0 <= j < k && order[j] == g.spec_deps_of(order[k])[di];
                assert(order[j] == g.spec_deps_of(x)[di]);
            }
            lemma_waves_total(g, order, order, Set::empty());
        },
        Err(_) => {},
    }
}

} // verus!
