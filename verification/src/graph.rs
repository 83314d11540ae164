//! The task graph: named tasks with dependency lists, a depth-first
//! topological sort with cycle detection, and the reachability notions its
//! contracts are stated over.
//!
//! Name-keyed tables are kept as vectors of pairs with pairwise-distinct
//! keys; their mathematical model is the partial map [`al_get`] induces.

use vstd::prelude::*;

verus! {

/// The unit of execution: a named shell command with an environment overlay
/// and the input files that define its cache fingerprint.
pub struct Task {
    pub name: String,
    pub cmd: String,
    pub env: Vec<(String, String)>,
    pub cache_files: Vec<String>,
}

impl Clone for Task {
    fn clone(&self) -> (r: Task)
        ensures
            r.name@ == self.name@,
            r.cmd@ == self.cmd@,
            r.env.deep_view() == self.env.deep_view(),
            r.cache_files.deep_view() == self.cache_files.deep_view(),
    {
        let r = Task {
            name: self.name.clone(),
            cmd: self.cmd.clone(),
            env: clone_string_pairs(&self.env),
            cache_files: clone_strings(&self.cache_files),
        };
        proof {
            assert(r.env.deep_view() =~= self.env.deep_view());
            assert(r.cache_files.deep_view() =~= self.cache_files.deep_view());
        }
        r
    }
}

/// Clones a vector of strings, keeping the view.
pub fn clone_strings(v: &Vec<String>) -> (r: Vec<String>)
    ensures
        r.deep_view() == v.deep_view(),
        r@.len() == v@.len(),
{
    let mut r: Vec<String> = Vec::new();
    let n = v.len();
    for i in 0..n
        invariant
            n == v@.len(),
            r@.len() == i,
            forall|j: int| 0 <= j < i ==> r@[j]@ == #[trigger] v@[j]@,
    {
        r.push(v[i].clone());
    }
    proof {
        assert(r.deep_view() =~= v.deep_view());
    }
    r
}

/// Clones a vector of string pairs, keeping the view.
pub fn clone_string_pairs(v: &Vec<(String, String)>) -> (r: Vec<(String, String)>)
    ensures
        r.deep_view() == v.deep_view(),
        r@.len() == v@.len(),
{
    let mut r: Vec<(String, String)> = Vec::new();
    let n = v.len();
    for i in 0..n
        invariant
            n == v@.len(),
            r@.len() == i,
            forall|j: int|
                #![all_triggers]
                0 <= j < i ==> r@[j].0@ == v@[j].0@ && r@[j].1@ == v@[j].1@,
    {
        let a = v[i].0.clone();
        let b = v[i].1.clone();
        r.push((a, b));
    }
    proof {
        assert(r.deep_view() =~= v.deep_view());
    }
    r
}

// ---------------------------------------------------------------------------
// Name-keyed association lists
// ---------------------------------------------------------------------------

/// First value stored under `key`, if any. This is the mathematical content
/// of a name-keyed table; with pairwise-distinct keys it is the only value.
pub open spec fn al_get<V>(entries: Seq<(String, V)>, key: Seq<char>) -> Option<V>
    decreases entries.len(),
{
    if entries.len() == 0 {
        None
    } else if entries[0].0@ == key {
        Some(entries[0].1)
    } else {
        al_get(entries.drop_first(), key)
    }
}

/// The key views of a table, in order.
pub open spec fn al_keys<V>(entries: Seq<(String, V)>) -> Seq<Seq<char>> {
    entries.map_values(|p: (String, V)| p.0@)
}

/// Well-formed table: pairwise-distinct keys.
pub open spec fn al_wf<V>(entries: Seq<(String, V)>) -> bool {
    al_keys(entries).no_duplicates()
}

/// `al_get` finds the entry at the first matching index.
pub proof fn lemma_al_get_at_index<V>(entries: Seq<(String, V)>, key: Seq<char>, i: int)
    requires
        0 <= i < entries.len(),
        entries[i].0@ == key,
        forall|j: int| 0 <= j < i ==> #[trigger] entries[j].0@ != key,
    ensures
        al_get(entries, key) == Some(entries[i].1),
    decreases i,
{
    if i > 0 {
        lemma_al_get_at_index(entries.drop_first(), key, i - 1);
    }
}

/// With no matching key anywhere, `al_get` finds nothing.
pub proof fn lemma_al_get_none<V>(entries: Seq<(String, V)>, key: Seq<char>)
    requires
        forall|j: int| 0 <= j < entries.len() ==> #[trigger] entries[j].0@ != key,
    ensures
        al_get(entries, key) is None,
    decreases entries.len(),
{
    if entries.len() > 0 {
        lemma_al_get_none(entries.drop_first(), key);
    }
}

/// A found value sits at some index with a matching key.
pub proof fn lemma_al_get_to_index<V>(entries: Seq<(String, V)>, key: Seq<char>)
    requires
        al_get(entries, key) is Some,
    ensures
        exists|i: int|
            0 <= i < entries.len() && #[trigger] entries[i].0@ == key && entries[i].1
                == al_get(entries, key).unwrap(),
    decreases entries.len(),
{
    if entries.len() > 0 && entries[0].0@ != key {
        lemma_al_get_to_index(entries.drop_first(), key);
        let i = choose|i: int|
            0 <= i < entries.drop_first().len() && #[trigger] entries.drop_first()[i].0@ == key
                && entries.drop_first()[i].1 == al_get(entries.drop_first(), key).unwrap();
        assert(entries[i + 1].0@ == key && entries[i + 1].1 == al_get(entries, key).unwrap());
    }
}

/// Replacing the value at the unique index holding `key` updates the map at
/// `key` and nowhere else.
pub proof fn lemma_al_update<V>(entries: Seq<(String, V)>, i: int, p: (String, V), k: Seq<char>)
    requires
        al_wf(entries),
        0 <= i < entries.len(),
        p.0@ == entries[i].0@,
    ensures
        al_wf(entries.update(i, p)),
        al_get(entries.update(i, p), k) == if k == p.0@ {
            Some(p.1)
        } else {
            al_get(entries, k)
        },
    decreases i,
{
    assert(al_keys(entries.update(i, p)) =~= al_keys(entries).update(i, p.0@));
    assert(al_keys(entries).update(i, p.0@) =~= al_keys(entries));
    if i == 0 {
        if entries[0].0@ != k {
            assert(entries.update(0, p).drop_first() =~= entries.drop_first());
        }
    } else {
        assert(al_keys(entries)[0] == entries[0].0@ && al_keys(entries)[i] == entries[i].0@);
        assert(entries[0].0@ != p.0@);
        assert(entries.update(i, p)[0] == entries[0]);
        if entries[0].0@ == k {
            assert(al_get(entries.update(i, p), k) == Some(entries[0].1));
        } else {
            assert(entries.update(i, p).drop_first() =~= entries.drop_first().update(i - 1, p));
            assert(al_wf(entries.drop_first())) by {
                assert(al_keys(entries.drop_first()) =~= al_keys(entries).drop_first());
            }
            lemma_al_update(entries.drop_first(), i - 1, p, k);
        }
    }
}

/// Appending a fresh key updates the map at that key and nowhere else.
pub proof fn lemma_al_push<V>(entries: Seq<(String, V)>, p: (String, V), k: Seq<char>)
    requires
        al_get(entries, p.0@) is None,
    ensures
        al_wf(entries) ==> al_wf(entries.push(p)),
        al_get(entries.push(p), k) == if k == p.0@ {
            Some(p.1)
        } else {
            al_get(entries, k)
        },
    decreases entries.len(),
{
    assert(al_keys(entries.push(p)) =~= al_keys(entries).push(p.0@));
    if al_wf(entries) {
        assert forall|j: int| 0 <= j < entries.len() implies #[trigger] entries[j].0@ != p.0@ by {
            if entries[j].0@ == p.0@ {
                lemma_al_get_at_first_match(entries, p.0@);
            }
        }
        assert forall|j: int|
            0 <= j < al_keys(entries).len() implies #[trigger] al_keys(entries)[j] != p.0@ by {
            assert(al_keys(entries)[j] == entries[j].0@);
        }
        assert(al_wf(entries.push(p)));
    }
    if entries.len() == 0 {
        assert(entries.push(p).drop_first() =~= Seq::<(String, V)>::empty());
        assert(entries.push(p)[0] == p);
        assert(al_get(Seq::<(String, V)>::empty(), k) is None);
    } else {
        if entries[0].0@ == p.0@ {
            assert(al_get(entries, p.0@) == Some(entries[0].1));
        }
        assert(entries.push(p)[0] == entries[0]);
        assert(entries.push(p).drop_first() =~= entries.drop_first().push(p));
        lemma_al_push(entries.drop_first(), p, k);
        if entries[0].0@ != k {
            assert(al_get(entries.push(p), k) == al_get(entries.drop_first().push(p), k));
        }
    }
}

/// If some index matches `key`, `al_get` finds a value.
pub proof fn lemma_al_get_at_first_match<V>(entries: Seq<(String, V)>, key: Seq<char>)
    requires
        exists|j: int| 0 <= j < entries.len() && #[trigger] entries[j].0@ == key,
    ensures
        al_get(entries, key) is Some,
    decreases entries.len(),
{
    if entries.len() > 0 && entries[0].0@ != key {
        let j = choose|j: int| 0 <= j < entries.len() && #[trigger] entries[j].0@ == key;
        assert(entries.drop_first()[j - 1].0@ == key);
        lemma_al_get_at_first_match(entries.drop_first(), key);
    }
}

/// Finds the index of `key` in a name-keyed table by linear scan.
fn find_key_index<V>(entries: &Vec<(String, V)>, key: &String) -> (r: Option<usize>)
    ensures
        match r {
            Some(i) => i < entries@.len() && entries@[i as int].0@ == key@ && al_get(
                entries@,
                key@,
            ) == Some(entries@[i as int].1),
            None => al_get(entries@, key@) is None,
        },
{
    let n = entries.len();
    for i in 0..n
        invariant
            n == entries@.len(),
            forall|j: int| 0 <= j < i ==> #[trigger] entries@[j].0@ != key@,
    {
        if entries[i].0.eq(key) {
            proof {
                lemma_al_get_at_index(entries@, key@, i as int);
            }
            return Some(i);
        }
    }
    proof {
        lemma_al_get_none(entries@, key@);
    }
    None
}

/// Whether some element of `v` has the view `s@`.
pub fn vec_contains_string(v: &Vec<String>, s: &String) -> (b: bool)
    ensures
        b == v.deep_view().contains(s@),
{
    let n = v.len();
    for i in 0..n
        invariant
            n == v@.len(),
            forall|j: int| 0 <= j < i ==> v.deep_view()[j] != s@,
    {
        if v[i].eq(s) {
            assert(v.deep_view()[i as int] == s@);
            return true;
        }
    }
    assert(!v.deep_view().contains(s@));
    false
}

// ---------------------------------------------------------------------------
// The graph
// ---------------------------------------------------------------------------

/// Tasks and their adjacency lists, both keyed by task name.
///
/// Well-formed graphs keep the keys of both tables pairwise distinct; every
/// constructor below preserves that.
pub struct TaskGraph {
    pub tasks: Vec<(String, Task)>,
    pub dependencies: Vec<(String, Vec<String>)>,
}

/// A planning failure, over mathematical values.
pub enum GraphFailure {
    /// A dependency cycle runs through the named task.
    Cycle(Seq<char>),
    /// The named task is required but nowhere defined.
    Missing(Seq<char>),
}

/// A planning failure as the caller receives it.
#[derive(Debug)]
pub enum GraphError {
    /// A dependency cycle runs through the named task.
    CircularDependency(String),
    /// The named task is required but nowhere defined.
    TaskNotFound(String),
}

impl View for GraphError {
    type V = GraphFailure;

    open spec fn view(&self) -> GraphFailure {
        match self {
            GraphError::CircularDependency(n) => GraphFailure::Cycle(n@),
            GraphError::TaskNotFound(n) => GraphFailure::Missing(n@),
        }
    }
}

impl TaskGraph {
    /// The map from task name to task that `tasks` represents.
    pub open spec fn task_map(self) -> Map<Seq<char>, Task> {
        Map::new(
            |k: Seq<char>| al_get(self.tasks@, k) is Some,
            |k: Seq<char>| al_get(self.tasks@, k).unwrap(),
        )
    }

    /// Whether a task of this name is defined.
    pub open spec fn has_task(self, name: Seq<char>) -> bool {
        al_get(self.tasks@, name) is Some
    }

    /// The declared dependencies of `name`, in declaration order; empty for
    /// names without an adjacency entry.
    pub open spec fn spec_deps_of(self, name: Seq<char>) -> Seq<Seq<char>> {
        match al_get(self.dependencies@, name) {
            Some(d) => d.deep_view(),
            None => Seq::empty(),
        }
    }

    /// The set of defined task names.
    pub open spec fn key_set(self) -> Set<Seq<char>> {
        al_keys(self.tasks@).to_set()
    }

    pub open spec fn wf(self) -> bool {
        al_wf(self.tasks@) && al_wf(self.dependencies@)
    }

    pub fn new() -> (g: TaskGraph)
        ensures
            g.wf(),
            g.tasks@.len() == 0,
            g.dependencies@.len() == 0,
            forall|n: Seq<char>| !g.has_task(n),
            forall|n: Seq<char>| g.spec_deps_of(n) == Seq::<Seq<char>>::empty(),
    {
        let g = TaskGraph { tasks: Vec::new(), dependencies: Vec::new() };
        proof {
            assert(al_keys(g.tasks@) =~= Seq::<Seq<char>>::empty());
            assert(al_keys(g.dependencies@) =~= Seq::<Seq<char>>::empty());
        }
        g
    }

    /// Defines (or redefines) the task stored under `name`, and makes sure an
    /// adjacency entry for `name` exists.
    pub fn add_task(&mut self, name: String, task: Task)
        requires
            old(self).wf(),
        ensures
            final(self).wf(),
            final(self).task_map() == old(self).task_map().insert(name@, task),
            final(self).key_set() == old(self).key_set().insert(name@),
            forall|n: Seq<char>| final(self).spec_deps_of(n) == old(self).spec_deps_of(n),
            forall|n: Seq<char>|
                #[trigger] al_get(final(self).tasks@, n) == (if n == name@ {
                    Some(task)
                } else {
                    al_get(old(self).tasks@, n)
                }),
    {
        let ghost ts0 = self.tasks@;
        let ghost ds0 = self.dependencies@;
        let key = name.clone();
        match find_key_index(&self.tasks, &name) {
            Some(i) => {
                self.tasks.remove(i);
                self.tasks.insert(i, (key, task));
                proof {
                    let p = self.tasks@[i as int];
                    assert(self.tasks@ =~= ts0.update(i as int, p));
                    assert forall|k: Seq<char>| true implies al_get(self.tasks@, k) == (if k
                        == name@ {
                        Some(p.1)
                    } else {
                        al_get(ts0, k)
                    }) by {
                        lemma_al_update(ts0, i as int, p, k);
                    }
                    lemma_al_update(ts0, i as int, p, name@);
                    assert(p.1 == task);
                    assert(self.task_map() =~= old(self).task_map().insert(name@, task));
                    assert(al_keys(self.tasks@) =~= al_keys(ts0));
                    assert(al_keys(ts0).contains(name@)) by {
                        assert(al_keys(ts0)[i as int] == name@);
                    }
                    assert(self.key_set() =~= old(self).key_set().insert(name@));
                }
            },
            None => {
                self.tasks.push((key, task));
                proof {
                    let p = self.tasks@[ts0.len() as int];
                    assert(self.tasks@ =~= ts0.push(p));
                    assert forall|k: Seq<char>| true implies al_get(self.tasks@, k) == (if k
                        == name@ {
                        Some(p.1)
                    } else {
                        al_get(ts0, k)
                    }) by {
                        lemma_al_push(ts0, p, k);
                    }
                    lemma_al_push(ts0, p, name@);
                    assert(p.1 == task);
                    assert(self.task_map() =~= old(self).task_map().insert(name@, task));
                    assert(al_keys(self.tasks@) =~= al_keys(ts0).push(name@));
                    al_keys(ts0).lemma_push_to_set_commute(name@);
                    assert(self.key_set() =~= old(self).key_set().insert(name@));
                }
            },
        }
        let has_entry = match find_key_index(&self.dependencies, &name) {
            Some(_) => true,
            None => false,
        };
        if !has_entry {
            let empty: Vec<String> = Vec::new();
            self.dependencies.push((name, empty));
            proof {
                let p = self.dependencies@[ds0.len() as int];
                assert(self.dependencies@ =~= ds0.push(p));
                lemma_al_push(ds0, p, p.0@);
                assert forall|n: Seq<char>| true implies self.spec_deps_of(n) == old(
                    self,
                ).spec_deps_of(n) by {
                    lemma_al_push(ds0, p, n);
                    if n == p.0@ {
                        assert(p.1.deep_view() =~= Seq::<Seq<char>>::empty());
                    }
                }
            }
        }
    }

    /// Appends `dependency` to the adjacency list of `task`, creating the
    /// list if it is missing.
    pub fn add_dependency(&mut self, task: String, dependency: String)
        requires
            old(self).wf(),
        ensures
            final(self).wf(),
            final(self).tasks@ == old(self).tasks@,
            final(self).task_map() == old(self).task_map(),
            final(self).key_set() == old(self).key_set(),
            final(self).spec_deps_of(task@) == old(self).spec_deps_of(task@).push(dependency@),
            forall|n: Seq<char>|
                n != task@ ==> final(self).spec_deps_of(n) == old(self).spec_deps_of(n),
    {
        let ghost ds0 = self.dependencies@;
        match find_key_index(&self.dependencies, &task) {
            Some(i) => {
                let ghost old_pair = self.dependencies@[i as int];
                let mut pair = self.dependencies.remove(i);
                pair.1.push(dependency);
                proof {
                    assert(pair.1.deep_view() =~= old_pair.1.deep_view().push(dependency@));
                }
                self.dependencies.insert(i, pair);
                proof {
                    let p = self.dependencies@[i as int];
                    assert(self.dependencies@ =~= ds0.update(i as int, p));
                    lemma_al_update(ds0, i as int, p, task@);
                    assert forall|n: Seq<char>| true implies al_get(self.dependencies@, n) == (if n
                        == task@ {
                        Some(p.1)
                    } else {
                        al_get(ds0, n)
                    }) by {
                        lemma_al_update(ds0, i as int, p, n);
                    }
                }
            },
            None => {
                let mut list: Vec<String> = Vec::new();
                list.push(dependency);
                self.dependencies.push((task, list));
                proof {
                    let p = self.dependencies@[ds0.len() as int];
                    assert(self.dependencies@ =~= ds0.push(p));
                    lemma_al_push(ds0, p, p.0@);
                    assert forall|n: Seq<char>| true implies al_get(self.dependencies@, n) == (if n
                        == p.0@ {
                        Some(p.1)
                    } else {
                        al_get(ds0, n)
                    }) by {
                        lemma_al_push(ds0, p, n);
                    }
                    assert(p.1.deep_view() =~= Seq::<Seq<char>>::empty().push(p.1.deep_view()[0]));
                }
            },
        }
    }

    /// Looks the task stored under `name` up.
    pub fn get_task(&self, name: &String) -> (r: Option<&Task>)
        ensures
            match r {
                Some(t) => al_get(self.tasks@, name@) == Some(*t),
                None => al_get(self.tasks@, name@) is None,
            },
    {
        match find_key_index(&self.tasks, name) {
            Some(i) => Some(&self.tasks[i].1),
            None => None,
        }
    }

    /// Whether a task of this name is defined.
    pub fn contains_task(&self, name: &String) -> (b: bool)
        ensures
            b == self.has_task(name@),
    {
        match find_key_index(&self.tasks, name) {
            Some(_) => true,
            None => false,
        }
    }

    /// Borrows the adjacency list of `name`.
    pub fn get_deps(&self, name: &String) -> (r: Option<&Vec<String>>)
        ensures
            match r {
                Some(d) => al_get(self.dependencies@, name@) == Some(*d) && d.deep_view()
                    == self.spec_deps_of(name@),
                None => al_get(self.dependencies@, name@) is None && self.spec_deps_of(name@)
                    == Seq::<Seq<char>>::empty(),
            },
    {
        match find_key_index(&self.dependencies, name) {
            Some(i) => Some(&self.dependencies[i].1),
            None => None,
        }
    }

    /// The defined task names, in definition order.
    pub fn task_names(&self) -> (r: Vec<String>)
        ensures
            r.deep_view() == al_keys(self.tasks@),
    {
        let mut r: Vec<String> = Vec::new();
        let n = self.tasks.len();
        for i in 0..n
            invariant
                n == self.tasks@.len(),
                r@.len() == i,
                forall|j: int| 0 <= j < i ==> r@[j]@ == #[trigger] self.tasks@[j].0@,
        {
            r.push(self.tasks[i].0.clone());
        }
        proof {
            assert(r.deep_view() =~= al_keys(self.tasks@));
        }
        r
    }
}


// ---------------------------------------------------------------------------
// Planning: depth-first topological sort
// ---------------------------------------------------------------------------

/// Decreases measure for the depth-first search: how many defined task names
/// the current recursion path has not yet entered.
pub open spec fn dfs_measure(g: TaskGraph, temp: Seq<Seq<char>>) -> nat {
    g.key_set().difference(temp.to_set()).len()
}

/// Entering a defined task that is not yet on the recursion path shrinks the
/// measure.
pub proof fn lemma_dfs_measure_decreases(g: TaskGraph, task: Seq<char>, temp: Seq<Seq<char>>)
    requires
        g.has_task(task),
        !temp.contains(task),
    ensures
        dfs_measure(g, temp.push(task)) < dfs_measure(g, temp),
{
    broadcast use vstd::seq_lib::seq_to_set_is_finite;

    lemma_al_get_to_index(g.tasks@, task);
    let i = choose|i: int| 0 <= i < g.tasks@.len() && #[trigger] g.tasks@[i].0@ == task;
    assert(al_keys(g.tasks@)[i] == task);
    assert(g.key_set().contains(task));
    assert(!temp.to_set().contains(task));
    temp.lemma_push_to_set_commute(task);
    g.key_set().lemma_set_insert_diff_decreases(temp.to_set(), task);
}

/// One visit of the depth-first search. `temp` is the current recursion path
/// (the cycle detector), `order` the output so far; a finished visit returns
/// the extended output, with `task` and everything newly reached below it
/// appended in post-order.
pub open spec fn dfs_task(
    g: TaskGraph,
    task: Seq<char>,
    temp: Seq<Seq<char>>,
    order: Seq<Seq<char>>,
) -> Result<Seq<Seq<char>>, GraphFailure>
    decreases dfs_measure(g, temp), 0int, 0int,
{
    if temp.contains(task) {
        Err(GraphFailure::Cycle(task))
    } else if order.contains(task) {
        Ok(order)
    } else if !g.has_task(task) {
        Err(GraphFailure::Missing(task))
    } else {
        proof {
            lemma_dfs_measure_decreases(g, task, temp);
        }
        match dfs_deps(g, g.spec_deps_of(task), 0, temp.push(task), order) {
            Err(e) => Err(e),
            Ok(order2) => Ok(order2.push(task)),
        }
    }
}

/// Visits `deps[i..]` in order, threading the output through.
pub open spec fn dfs_deps(
    g: TaskGraph,
    deps: Seq<Seq<char>>,
    i: int,
    temp: Seq<Seq<char>>,
    order: Seq<Seq<char>>,
) -> Result<Seq<Seq<char>>, GraphFailure>
    decreases dfs_measure(g, temp), 1int, deps.len() - i,
{
    if i < 0 || i >= deps.len() {
        Ok(order)
    } else {
        match dfs_task(g, deps[i], temp, order) {
            Err(e) => Err(e),
            Ok(order2) => dfs_deps(g, deps, i + 1, temp, order2),
        }
    }
}

/// The planned execution order for `root`: the depth-first post-order of its
/// dependency closure, or the first failure the search runs into.
pub open spec fn spec_plan(g: TaskGraph, root: Seq<char>) -> Result<Seq<Seq<char>>, GraphFailure> {
    dfs_task(g, root, Seq::empty(), Seq::empty())
}

/// Every name that occurs in some adjacency list, in table order.
pub open spec fn dep_values(g: TaskGraph) -> Seq<Seq<char>> {
    g.dependencies@.map_values(|p: (String, Vec<String>)| p.1.deep_view()).flatten()
}

/// The names a worklist seeded with `start` can ever hold.
pub open spec fn name_pool(g: TaskGraph, start: Seq<char>) -> Set<Seq<char>> {
    dep_values(g).to_set().insert(start)
}

/// An element of a member sequence is an element of the flattened sequence.
pub proof fn lemma_flatten_contains<A>(s: Seq<Seq<A>>, i: int, x: A)
    requires
        0 <= i < s.len(),
        s[i].contains(x),
    ensures
        s.flatten().contains(x),
    decreases i,
{
    assert(s.flatten() == s[0] + s.drop_first().flatten());
    if i == 0 {
        let k = choose|k: int| 0 <= k < s[0].len() && s[0][k] == x;
        assert(s.flatten()[k] == x);
    } else {
        assert(s.drop_first()[i - 1].contains(x));
        lemma_flatten_contains(s.drop_first(), i - 1, x);
        let k = choose|k: int|
            0 <= k < s.drop_first().flatten().len() && s.drop_first().flatten()[k] == x;
        assert(s.flatten()[s[0].len() + k] == x);
    }
}

/// Every name in the adjacency list of `name` is in the pool.
pub proof fn lemma_deps_in_pool(g: TaskGraph, name: Seq<char>, start: Seq<char>, j: int)
    requires
        al_get(g.dependencies@, name) is Some,
        0 <= j < al_get(g.dependencies@, name).unwrap().deep_view().len(),
    ensures
        name_pool(g, start).contains(al_get(g.dependencies@, name).unwrap().deep_view()[j]),
{
    lemma_al_get_to_index(g.dependencies@, name);
    let i = choose|i: int|
        0 <= i < g.dependencies@.len() && #[trigger] g.dependencies@[i].0@ == name
            && g.dependencies@[i].1 == al_get(g.dependencies@, name).unwrap();
    let mapped = g.dependencies@.map_values(|p: (String, Vec<String>)| p.1.deep_view());
    let d = al_get(g.dependencies@, name).unwrap().deep_view();
    assert(mapped[i] == d);
    assert(d.contains(d[j]));
    lemma_flatten_contains(mapped, i, d[j]);
}

impl TaskGraph {
    /// A cheap upper bound used to pre-size the sort's work vectors: one plus
    /// the dependency counts of every name a worklist from `start_task`
    /// reaches, capped at the number of defined tasks.
    #[verifier::loop_isolation(false)]
    pub fn estimate_task_count(&self, start_task: &str) -> (r: usize)
        ensures
            r <= self.tasks@.len(),
    {
        let mut count: usize = 1;
        let mut queue: Vec<String> = Vec::new();
        let mut seen: Vec<String> = Vec::new();
        queue.push(start_task.to_owned());
        proof {
            assert(name_pool(*self, start_task@).contains(queue.deep_view()[0]));
        }
        loop
            invariant
                forall|j: int|
                    0 <= j < queue.deep_view().len() ==> name_pool(*self, start_task@).contains(
                        #[trigger] queue.deep_view()[j],
                    ),
            decreases
                    name_pool(*self, start_task@).difference(seen.deep_view().to_set()).len(),
                    queue@.len(),
        {
            if queue.len() == 0 {
                break ;
            }
            let ghost queue_before = queue.deep_view();
            let ghost seen_before = seen.deep_view();
            let task = queue.pop().unwrap();
            proof {
                assert(task@ == queue_before[queue_before.len() - 1]);
                assert(queue.deep_view() =~= queue_before.subrange(0, queue_before.len() - 1));
            }
            if vec_contains_string(&seen, &task) {
                continue ;
            }
            seen.push(task.clone());
            proof {
                broadcast use vstd::seq_lib::seq_to_set_is_finite;

                assert(seen.deep_view() =~= seen_before.push(task@));
                seen_before.lemma_push_to_set_commute(task@);
                name_pool(*self, start_task@).lemma_set_insert_diff_decreases(
                    seen_before.to_set(),
                    task@,
                );
            }
            match self.get_deps(&task) {
                Some(deps) => {
                    if count <= usize::MAX - deps.len() {
                        count = count + deps.len();
                    } else {
                        count = usize::MAX;
                    }
                    let n = deps.len();
                    for j in 0..n
                        invariant
                            forall|k: int|
                                0 <= k < queue.deep_view().len() ==> name_pool(
                                    *self,
                                    start_task@,
                                ).contains(#[trigger] queue.deep_view()[k]),
                    {
                        let ghost qb = queue.deep_view();
                        queue.push(deps[j].clone());
                        proof {
                            assert(queue.deep_view() =~= qb.push(deps.deep_view()[j as int]));
                            lemma_deps_in_pool(*self, task@, start_task@, j as int);
                        }
                    }
                },
                None => {},
            }
        }
        let total = self.tasks.len();
        if count < total {
            count
        } else {
            total
        }
    }

    /// Depth-first topological sort from `start_task`: dependencies first,
    /// `start_task` last, each reachable task exactly once; an error on a
    /// dependency cycle or an undefined task name. The result is exactly
    /// [`spec_plan`], so it is the same on every call.
    pub fn topological_sort(&self, start_task: &str) -> (r: Result<Vec<String>, GraphError>)
        requires
            self.wf(),
        ensures
            match r {
                Ok(order) => spec_plan(*self, start_task@) == Ok::<Seq<Seq<char>>, GraphFailure>(
                    order.deep_view(),
                ),
                Err(e) => spec_plan(*self, start_task@) == Err::<Seq<Seq<char>>, GraphFailure>(e@),
            },
    {
        let estimated_size = self.estimate_task_count(start_task);
        let mut temp_visited: Vec<String> = Vec::with_capacity(estimated_size);
        let mut stack: Vec<String> = Vec::with_capacity(estimated_size);
        let root = start_task.to_owned();
        proof {
            assert(temp_visited.deep_view() =~= Seq::<Seq<char>>::empty());
            assert(stack.deep_view() =~= Seq::<Seq<char>>::empty());
        }
        match self.dfs_visit(&root, &mut temp_visited, &mut stack) {
            Ok(()) => Ok(stack),
            Err(e) => Err(e),
        }
    }

    /// The recursive visit behind [`TaskGraph::topological_sort`]; computes
    /// [`dfs_task`] on the current search state, restoring `temp_visited` on
    /// success.
    #[verifier::loop_isolation(false)]
    pub fn dfs_visit(
        &self,
        task: &String,
        temp_visited: &mut Vec<String>,
        stack: &mut Vec<String>,
    ) -> (r: Result<(), GraphError>)
        requires
            self.wf(),
        ensures
            match r {
                Ok(()) => dfs_task(
                    *self,
                    task@,
                    old(temp_visited).deep_view(),
                    old(stack).deep_view(),
                ) == Ok::<Seq<Seq<char>>, GraphFailure>(final(stack).deep_view())
                    && final(temp_visited)@ == old(temp_visited)@,
                Err(e) => dfs_task(
                    *self,
                    task@,
                    old(temp_visited).deep_view(),
                    old(stack).deep_view(),
                ) == Err::<Seq<Seq<char>>, GraphFailure>(e@),
            },
        decreases dfs_measure(*self, temp_visited.deep_view()),
    {
        let ghost temp0 = temp_visited.deep_view();
        let ghost order0 = stack.deep_view();
        if vec_contains_string(temp_visited, task) {
            return Err(GraphError::CircularDependency(task.clone()));
        }
        if vec_contains_string(stack, task) {
            return Ok(());
        }
        if !self.contains_task(task) {
            return Err(GraphError::TaskNotFound(task.clone()));
        }
        temp_visited.push(task.clone());
        proof {
            assert(temp_visited.deep_view() =~= temp0.push(task@));
            lemma_dfs_measure_decreases(*self, task@, temp0);
        }
        let ghost temp1 = temp_visited.deep_view();
        let ghost tempv1 = temp_visited@;
        match self.get_deps(task) {
            Some(deps) => {
                let ghost depsv = deps.deep_view();
                let n = deps.len();
                for j in 0..n
                    invariant
                        temp_visited@ == tempv1,
                        dfs_deps(*self, depsv, 0, temp1, order0) == dfs_deps(
                            *self,
                            depsv,
                            j as int,
                            temp1,
                            stack.deep_view(),
                        ),
                {
                    let ghost before = stack.deep_view();
                    match self.dfs_visit(&deps[j], temp_visited, stack) {
                        Ok(()) => {
                            proof {
                                assert(deps.deep_view()[j as int] == deps@[j as int]@);
                                assert(dfs_task(*self, depsv[j as int], temp1, before)
                                    == Ok::<Seq<Seq<char>>, GraphFailure>(stack.deep_view()));
                            }
                        },
                        Err(e) => {
                            proof {
                                assert(deps.deep_view()[j as int] == deps@[j as int]@);
                                assert(dfs_deps(*self, depsv, j as int, temp1, before)
                                    == Err::<Seq<Seq<char>>, GraphFailure>(e@));
                                assert(dfs_task(*self, task@, temp0, order0)
                                    == Err::<Seq<Seq<char>>, GraphFailure>(e@));
                            }
                            return Err(e);
                        },
                    }
                }
                proof {
                    assert(dfs_deps(*self, depsv, n as int, temp1, stack.deep_view())
                        == Ok::<Seq<Seq<char>>, GraphFailure>(stack.deep_view()));
                }
            },
            None => {
                proof {
                    assert(dfs_deps(*self, self.spec_deps_of(task@), 0, temp1, order0)
                        == Ok::<Seq<Seq<char>>, GraphFailure>(order0));
                }
            },
        }
        let ghost order_done = stack.deep_view();
        proof {
            assert(dfs_deps(*self, self.spec_deps_of(task@), 0, temp0.push(task@), order0)
                == Ok::<Seq<Seq<char>>, GraphFailure>(order_done));
        }
        temp_visited.pop();
        proof {
            assert(temp_visited@ =~= old(temp_visited)@);
        }
        stack.push(task.clone());
        proof {
            assert(stack.deep_view() =~= order_done.push(task@));
            assert(dfs_task(*self, task@, temp0, order0) == Ok::<Seq<Seq<char>>, GraphFailure>(
                order_done.push(task@),
            ));
        }
        Ok(())
    }
}


// ---------------------------------------------------------------------------
// What a successful plan guarantees
// ---------------------------------------------------------------------------

/// The `di`-th declared dependency of the task at position `k` of `order`
/// occurs at an earlier position.
pub open spec fn dep_precedes(g: TaskGraph, order: Seq<Seq<char>>, k: int, di: int) -> bool {
    exists|j: int| 0 <= j < k && order[j] == g.spec_deps_of(order[k])[di]
}

/// Dependencies precede dependents: every declared dependency of a task in
/// `order` occurs at an earlier position.
pub open spec fn topo_sorted(g: TaskGraph, order: Seq<Seq<char>>) -> bool {
    forall|k: int, di: int|
        0 <= k < order.len() && 0 <= di < g.spec_deps_of(order[k]).len()
            ==> #[trigger] dep_precedes(g, order, k, di)
}

/// Every declared dependency of a task in `order` is itself in `order`.
pub open spec fn deps_closed(g: TaskGraph, order: Seq<Seq<char>>) -> bool {
    forall|k: int, di: int|
        0 <= k < order.len() && 0 <= di < g.spec_deps_of(order[k]).len() ==> order.contains(
            #[trigger] g.spec_deps_of(order[k])[di],
        )
}

/// A chain of dependency edges: each element declares the next as one of its
/// dependencies.
pub open spec fn dep_path(g: TaskGraph, p: Seq<Seq<char>>) -> bool {
    forall|i: int| 0 <= i < p.len() - 1 ==> g.spec_deps_of(#[trigger] p[i]).contains(p[i + 1])
}

/// `to` lies in the dependency closure of `from` (trivially including `from`).
pub open spec fn reaches(g: TaskGraph, from: Seq<char>, to: Seq<char>) -> bool {
    exists|p: Seq<Seq<char>>|
        #![trigger dep_path(g, p)]
        p.len() >= 1 && p.first() == from && p.last() == to && dep_path(g, p)
}

pub proof fn lemma_reaches_self(g: TaskGraph, n: Seq<char>)
    ensures
        reaches(g, n, n),
{
    let p = seq![n];
    assert(dep_path(g, p));
    assert(p.len() >= 1 && p.first() == n && p.last() == n);
}

/// A dependency edge in front of a path is still a path.
pub proof fn lemma_reaches_prepend(g: TaskGraph, t: Seq<char>, d: Seq<char>, n: Seq<char>)
    requires
        g.spec_deps_of(t).contains(d),
        reaches(g, d, n),
    ensures
        reaches(g, t, n),
{
    let p = choose|p: Seq<Seq<char>>|
        #![trigger dep_path(g, p)]
        p.len() >= 1 && p.first() == d && p.last() == n && dep_path(g, p);
    let q = seq![t] + p;
    assert(q.len() == p.len() + 1);
    assert forall|i: int| 0 <= i < q.len() - 1 implies g.spec_deps_of(
        #[trigger] q[i],
    ).contains(q[i + 1]) by {
        if i == 0 {
            assert(q[0] == t && q[1] == p[0]);
        } else {
            assert(q[i] == p[i - 1] && q[i + 1] == p[i]);
            assert(g.spec_deps_of(p[i - 1]).contains(p[i]));
        }
    }
    assert(dep_path(g, q));
    assert(q.first() == t && q.last() == n);
}

/// Walking a path that starts inside a dependency-closed order never leaves
/// the order.
pub proof fn lemma_path_in_closed(g: TaskGraph, order: Seq<Seq<char>>, p: Seq<Seq<char>>)
    requires
        deps_closed(g, order),
        dep_path(g, p),
        p.len() >= 1,
        order.contains(p.first()),
    ensures
        order.contains(p.last()),
    decreases p.len(),
{
    if p.len() > 1 {
        let k = choose|k: int| 0 <= k < order.len() && order[k] == p.first();
        assert(g.spec_deps_of(p[0]).contains(p[1]));
        let di = choose|di: int|
            0 <= di < g.spec_deps_of(p[0]).len() && g.spec_deps_of(p[0])[di] == p[1];
        assert(g.spec_deps_of(order[k])[di] == p[1]);
        assert(order.contains(p[1]));
        let q = p.drop_first();
        assert forall|i: int| 0 <= i < q.len() - 1 implies g.spec_deps_of(
            #[trigger] q[i],
        ).contains(q[i + 1]) by {
            assert(q[i] == p[i + 1] && q[i + 1] == p[i + 2]);
            assert(g.spec_deps_of(p[i + 1]).contains(p[i + 2]));
        }
        lemma_path_in_closed(g, order, q);
    }
}

/// Pushing a fresh element keeps a sequence duplicate-free.
pub proof fn lemma_push_no_dup<A>(s: Seq<A>, x: A)
    requires
        s.no_duplicates(),
        !s.contains(x),
    ensures
        s.push(x).no_duplicates(),
{
    assert forall|i: int, j: int|
        0 <= i < s.push(x).len() && 0 <= j < s.push(x).len() && i != j implies s.push(x)[i]
        != s.push(x)[j] by {
        if i < s.len() && j < s.len() {
        } else if i < s.len() {
            assert(s[i] != x);
        } else if j < s.len() {
            assert(s[j] != x);
        }
    }
}

/// An element of a prefix is an element of the whole.
pub proof fn lemma_prefix_contains<A>(a: Seq<A>, b: Seq<A>, x: A)
    requires
        a.is_prefix_of(b),
        a.contains(x),
    ensures
        b.contains(x),
{
    let k = choose|k: int| 0 <= k < a.len() && a[k] == x;
    assert(b[k] == x);
}

/// The shape every intermediate search output keeps: no repetition, only
/// defined tasks, dependencies before dependents.
pub open spec fn plan_inv(g: TaskGraph, order: Seq<Seq<char>>) -> bool {
    &&& order.no_duplicates()
    &&& forall|k: int| 0 <= k < order.len() ==> g.has_task(#[trigger] order[k])
    &&& topo_sorted(g, order)
}

/// Induction step of the planning proof, for one task visit: a successful
/// visit keeps the output shape, only appends, contains the visited task,
/// never adds a task that is on the recursion path, and adds only tasks
/// reachable from the visited one. A missing-task failure names a task that
/// is really undefined.
pub proof fn lemma_dfs_task_props(
    g: TaskGraph,
    task: Seq<char>,
    temp: Seq<Seq<char>>,
    order: Seq<Seq<char>>,
)
    requires
        plan_inv(g, order),
    ensures
        match dfs_task(g, task, temp, order) {
            Ok(order2) => {
                &&& plan_inv(g, order2)
                &&& order.is_prefix_of(order2)
                &&& order2.contains(task)
                &&& forall|n: Seq<char>|
                    #[trigger] temp.contains(n) ==> (order2.contains(n) <==> order.contains(n))
                &&& forall|n: Seq<char>|
                    #[trigger] order2.contains(n) && !order.contains(n) ==> reaches(g, task, n)
            },
            Err(f) => f matches GraphFailure::Missing(m) ==> !g.has_task(m),
        },
    decreases dfs_measure(g, temp), 0int, 0int,
{
    if temp.contains(task) {
    } else if order.contains(task) {
        assert(order =~= order.subrange(0, order.len() as int));
    } else if !g.has_task(task) {
    } else {
        lemma_dfs_measure_decreases(g, task, temp);
        let deps = g.spec_deps_of(task);
        let temp2 = temp.push(task);
        assert(temp2[temp.len() as int] == task);
        assert(temp2.contains(task));
        lemma_dfs_deps_props(g, deps, 0, temp2, order);
        match dfs_deps(g, deps, 0, temp2, order) {
            Err(_) => {},
            Ok(o2) => {
                assert(!o2.contains(task));
                let o3 = o2.push(task);
                lemma_push_no_dup(o2, task);
                assert(o3[o2.len() as int] == task);
                assert(o3.contains(task));
                assert(forall|k: int| 0 <= k < o3.len() ==> g.has_task(#[trigger] o3[k]));
                assert(order.is_prefix_of(o3)) by {
                    assert(order =~= o3.subrange(0, order.len() as int));
                }
                assert(topo_sorted(g, o3)) by {
                    assert forall|k: int, di: int|
                        0 <= k < o3.len() && 0 <= di < g.spec_deps_of(o3[k]).len()
                            implies #[trigger] dep_precedes(g, o3, k, di) by {
                        if k < o2.len() {
                            assert(o3[k] == o2[k]);
                            assert(dep_precedes(g, o2, k, di));
                            let j = choose|j: int|
                                0 <= j < k && o2[j] == g.spec_deps_of(o2[k])[di];
                            assert(o3[j] == g.spec_deps_of(o3[k])[di]);
                        } else {
                            assert(o3[k] == task);
                            assert(o2.contains(deps[di]));
                            let j = choose|j: int| 0 <= j < o2.len() && o2[j] == deps[di];
                            assert(o3[j] == g.spec_deps_of(o3[k])[di]);
                        }
                    }
                }
                assert forall|n: Seq<char>| #[trigger] temp.contains(n) implies (o3.contains(n)
                    <==> order.contains(n)) by {
                    assert(temp2[temp.len() as int] == task);
                    let ki = choose|ki: int| 0 <= ki < temp.len() && temp[ki] == n;
                    assert(temp2[ki] == n);
                    assert(temp2.contains(n));
                    assert(n != task);
                    if o3.contains(n) {
                        let j = choose|j: int| 0 <= j < o3.len() && o3[j] == n;
                        assert(o2[j] == n);
                        assert(o2.contains(n));
                    }
                }
                assert forall|n: Seq<char>|
                    #[trigger] o3.contains(n) && !order.contains(n) implies reaches(
                    g,
                    task,
                    n,
                ) by {
                    if n == task {
                        lemma_reaches_self(g, task);
                    } else {
                        let j = choose|j: int| 0 <= j < o3.len() && o3[j] == n;
                        assert(o2[j] == n);
                        assert(o2.contains(n));
                        let di = choose|di: int|
                            0 <= di < deps.len() && reaches(g, #[trigger] deps[di], n);
                        assert(deps.contains(deps[di]));
                        lemma_reaches_prepend(g, task, deps[di], n);
                    }
                }
            },
        }
    }
}

/// Induction step of the planning proof, for a dependency list visited from
/// position `i` on.
pub proof fn lemma_dfs_deps_props(
    g: TaskGraph,
    deps: Seq<Seq<char>>,
    i: int,
    temp: Seq<Seq<char>>,
    order: Seq<Seq<char>>,
)
    requires
        plan_inv(g, order),
        0 <= i,
    ensures
        match dfs_deps(g, deps, i, temp, order) {
            Ok(o2) => {
                &&& plan_inv(g, o2)
                &&& order.is_prefix_of(o2)
                &&& forall|j: int| i <= j < deps.len() ==> o2.contains(#[trigger] deps[j])
                &&& forall|n: Seq<char>|
                    #[trigger] temp.contains(n) ==> (o2.contains(n) <==> order.contains(n))
                &&& forall|n: Seq<char>|
                    #[trigger] o2.contains(n) && !order.contains(n) ==> exists|j: int|
                        i <= j < deps.len() && reaches(g, #[trigger] deps[j], n)
            },
            Err(f) => f matches GraphFailure::Missing(m) ==> !g.has_task(m),
        },
    decreases dfs_measure(g, temp), 1int, deps.len() - i,
{
    if i < 0 || i >= deps.len() {
        assert(order =~= order.subrange(0, order.len() as int));
    } else {
        lemma_dfs_task_props(g, deps[i], temp, order);
        match dfs_task(g, deps[i], temp, order) {
            Err(_) => {},
            Ok(o1) => {
                lemma_dfs_deps_props(g, deps, i + 1, temp, o1);
                match dfs_deps(g, deps, i + 1, temp, o1) {
                    Err(_) => {},
                    Ok(o2) => {
                        assert(order.is_prefix_of(o2)) by {
                            assert forall|x: int| 0 <= x < order.len() implies order[x]
                                == o2[x] by {
                                assert(order[x] == o1[x]);
                            }
                            assert(order =~= o2.subrange(0, order.len() as int));
                        }
                        assert forall|j: int| i <= j < deps.len() implies o2.contains(
                            #[trigger] deps[j],
                        ) by {
                            if j == i {
                                lemma_prefix_contains(o1, o2, deps[i]);
                            }
                        }
                        assert forall|n: Seq<char>|
                            #[trigger] o2.contains(n) && !order.contains(n) implies exists|j: int|
                            i <= j < deps.len() && reaches(g, #[trigger] deps[j], n) by {
                            if o1.contains(n) {
                                assert(reaches(g, deps[i], n));
                            } else {
                                let j = choose|j: int|
                                    i + 1 <= j < deps.len() && reaches(g, #[trigger] deps[j], n);
                                assert(i <= j < deps.len() && reaches(g, deps[j], n));
                            }
                        }
                    },
                }
            },
        }
    }
}

/// What a successful plan is: a duplicate-free topological order of exactly
/// the dependency closure of `root`, dependencies before dependents. A
/// missing-task failure names a task that is really undefined.
pub proof fn lemma_plan_properties(g: TaskGraph, root: Seq<char>)
    ensures
        match spec_plan(g, root) {
            Ok(order) => {
                &&& order.no_duplicates()
                &&& forall|k: int| 0 <= k < order.len() ==> g.has_task(#[trigger] order[k])
                &&& topo_sorted(g, order)
                &&& order.contains(root)
                &&& forall|n: Seq<char>| #[trigger] order.contains(n) ==> reaches(g, root, n)
                &&& forall|n: Seq<char>| #[trigger] reaches(g, root, n) ==> order.contains(n)
            },
            Err(f) => f matches GraphFailure::Missing(m) ==> !g.has_task(m),
        },
{
    let empty = Seq::<Seq<char>>::empty();
    lemma_dfs_task_props(g, root, empty, empty);
    match spec_plan(g, root) {
        Ok(order) => {
            assert(deps_closed(g, order)) by {
                assert forall|k: int, di: int|
                    0 <= k < order.len() && 0 <= di < g.spec_deps_of(order[k]).len() implies order
                    .contains(#[trigger] g.spec_deps_of(order[k])[di]) by {
                    assert(dep_precedes(g, order, k, di));
                    let j = choose|j: int|
                        0 <= j < k && order[j] == g.spec_deps_of(order[k])[di];
                    assert(order[j] == g.spec_deps_of(order[k])[di]);
                }
            }
            assert forall|n: Seq<char>| #[trigger] reaches(g, root, n) implies order.contains(
                n,
            ) by {
                let p = choose|p: Seq<Seq<char>>|
                    #![trigger dep_path(g, p)]
                    p.len() >= 1 && p.first() == root && p.last() == n && dep_path(g, p);
                lemma_path_in_closed(g, order, p);
            }
        },
        Err(_) => {},
    }
}

/// A task in the closure that depends on itself makes planning fail.
pub proof fn lemma_self_loop_is_error(g: TaskGraph, root: Seq<char>, n: Seq<char>)
    requires
        reaches(g, root, n),
        g.spec_deps_of(n).contains(n),
    ensures
        spec_plan(g, root) is Err,
{
    lemma_plan_properties(g, root);
    if spec_plan(g, root) is Ok {
        let order = spec_plan(g, root)->Ok_0;
        assert(order.contains(n));
        let k = choose|k: int| 0 <= k < order.len() && order[k] == n;
        let di = choose|di: int|
            0 <= di < g.spec_deps_of(n).len() && g.spec_deps_of(n)[di] == n;
        assert(g.spec_deps_of(order[k])[di] == n);
        assert(dep_precedes(g, order, k, di));
        let j = choose|j: int| 0 <= j < k && order[j] == g.spec_deps_of(order[k])[di];
        assert(order[j] == order[k] && j != k);
        assert(false);
    }
}

/// A dependency on an undefined task anywhere in the closure makes planning
/// fail: the bad name is caught while planning, before anything runs.
pub proof fn lemma_unknown_dep_is_error(g: TaskGraph, root: Seq<char>, n: Seq<char>, d: Seq<char>)
    requires
        reaches(g, root, n),
        g.spec_deps_of(n).contains(d),
        !g.has_task(d),
    ensures
        spec_plan(g, root) is Err,
{
    lemma_plan_properties(g, root);
    if spec_plan(g, root) is Ok {
        let order = spec_plan(g, root)->Ok_0;
        assert(order.contains(n));
        let k = choose|k: int| 0 <= k < order.len() && order[k] == n;
        let di = choose|di: int|
            0 <= di < g.spec_deps_of(n).len() && g.spec_deps_of(n)[di] == d;
        assert(g.spec_deps_of(order[k])[di] == d);
        assert(dep_precedes(g, order, k, di));
        let j = choose|j: int| 0 <= j < k && order[j] == g.spec_deps_of(order[k])[di];
        assert(g.has_task(order[j]));
        assert(false);
    }
}


// ---------------------------------------------------------------------------
// What a planning failure guarantees
// ---------------------------------------------------------------------------

/// `n` lies on a dependency cycle.
pub open spec fn on_cycle(g: TaskGraph, n: Seq<char>) -> bool {
    exists|p: Seq<Seq<char>>|
        #![trigger dep_path(g, p)]
        p.len() >= 2 && p.first() == n && p.last() == n && dep_path(g, p)
}

/// A dependency edge at the end of a path extends it.
pub proof fn lemma_reaches_append(g: TaskGraph, a: Seq<char>, b: Seq<char>, c: Seq<char>)
    requires
        reaches(g, a, b),
        g.spec_deps_of(b).contains(c),
    ensures
        reaches(g, a, c),
{
    let p = choose|p: Seq<Seq<char>>|
        #![trigger dep_path(g, p)]
        p.len() >= 1 && p.first() == a && p.last() == b && dep_path(g, p);
    let q = p.push(c);
    assert forall|i: int| 0 <= i < q.len() - 1 implies g.spec_deps_of(
        #[trigger] q[i],
    ).contains(q[i + 1]) by {
        if i < p.len() - 1 {
            assert(q[i] == p[i] && q[i + 1] == p[i + 1]);
            assert(g.spec_deps_of(p[i]).contains(p[i + 1]));
        } else {
            assert(q[i] == b && q[i + 1] == c);
        }
    }
    assert(dep_path(g, q));
    assert(q.first() == a && q.last() == c);
}

/// The recursion path is a dependency chain whose last element declares `t`.
pub open spec fn chain_into(g: TaskGraph, temp: Seq<Seq<char>>, t: Seq<char>) -> bool {
    dep_path(g, temp) && (temp.len() > 0 ==> g.spec_deps_of(temp.last()).contains(t))
}

/// Error side of one task visit: a cycle failure names a task that really
/// lies on a dependency cycle, a missing-task failure names a reachable,
/// undefined task.
pub proof fn lemma_dfs_task_err(
    g: TaskGraph,
    root: Seq<char>,
    task: Seq<char>,
    temp: Seq<Seq<char>>,
    order: Seq<Seq<char>>,
)
    requires
        chain_into(g, temp, task),
        reaches(g, root, task),
    ensures
        match dfs_task(g, task, temp, order) {
            Ok(_) => true,
            Err(f) => match f {
                GraphFailure::Cycle(c) => on_cycle(g, c) && reaches(g, root, c),
                GraphFailure::Missing(m) => reaches(g, root, m) && !g.has_task(m),
            },
        },
    decreases dfs_measure(g, temp), 0int, 0int,
{
    if temp.contains(task) {
        let idx = choose|idx: int| 0 <= idx < temp.len() && temp[idx] == task;
        let p = temp.subrange(idx, temp.len() as int).push(task);
        assert(p.len() >= 2);
        assert(p.first() == task && p.last() == task);
        assert forall|i: int| 0 <= i < p.len() - 1 implies g.spec_deps_of(
            #[trigger] p[i],
        ).contains(p[i + 1]) by {
            if i < p.len() - 2 {
                assert(p[i] == temp[idx + i] && p[i + 1] == temp[idx + i + 1]);
                assert(g.spec_deps_of(temp[idx + i]).contains(temp[idx + i + 1]));
            } else {
                assert(p[i] == temp.last() && p[i + 1] == task);
            }
        }
        assert(dep_path(g, p));
        assert(on_cycle(g, task));
    } else if order.contains(task) {
    } else if !g.has_task(task) {
    } else {
        lemma_dfs_measure_decreases(g, task, temp);
        let deps = g.spec_deps_of(task);
        let temp2 = temp.push(task);
        assert(dep_path(g, temp2)) by {
            assert forall|i: int| 0 <= i < temp2.len() - 1 implies g.spec_deps_of(
                #[trigger] temp2[i],
            ).contains(temp2[i + 1]) by {
                if i < temp.len() - 1 {
                    assert(temp2[i] == temp[i] && temp2[i + 1] == temp[i + 1]);
                    assert(g.spec_deps_of(temp[i]).contains(temp[i + 1]));
                } else {
                    assert(temp2[i] == temp.last() && temp2[i + 1] == task);
                }
            }
        }
        lemma_dfs_deps_err(g, root, deps, 0, temp2, order);
    }
}

/// Error side of a dependency-list visit from position `i` on.
pub proof fn lemma_dfs_deps_err(
    g: TaskGraph,
    root: Seq<char>,
    deps: Seq<Seq<char>>,
    i: int,
    temp: Seq<Seq<char>>,
    order: Seq<Seq<char>>,
)
    requires
        dep_path(g, temp),
        temp.len() > 0,
        forall|j: int| 0 <= j < deps.len() ==> g.spec_deps_of(temp.last()).contains(
            #[trigger] deps[j],
        ),
        reaches(g, root, temp.last()),
    ensures
        match dfs_deps(g, deps, i, temp, order) {
            Ok(_) => true,
            Err(f) => match f {
                GraphFailure::Cycle(c) => on_cycle(g, c) && reaches(g, root, c),
                GraphFailure::Missing(m) => reaches(g, root, m) && !g.has_task(m),
            },
        },
    decreases dfs_measure(g, temp), 1int, deps.len() - i,
{
    if 0 <= i < deps.len() {
        lemma_reaches_append(g, root, temp.last(), deps[i]);
        lemma_dfs_task_err(g, root, deps[i], temp, order);
        match dfs_task(g, deps[i], temp, order) {
            Err(_) => {},
            Ok(order2) => {
                lemma_dfs_deps_err(g, root, deps, i + 1, temp, order2);
            },
        }
    }
}

/// Planning failures are honest: a cycle error names a reachable task on a
/// real dependency cycle, and a missing-task error names a reachable name
/// with no definition.
pub proof fn lemma_plan_error_is_real(g: TaskGraph, root: Seq<char>)
    ensures
        match spec_plan(g, root) {
            Ok(_) => true,
            Err(f) => match f {
                GraphFailure::Cycle(c) => on_cycle(g, c) && reaches(g, root, c),
                GraphFailure::Missing(m) => reaches(g, root, m) && !g.has_task(m),
            },
        },
{
    lemma_reaches_self(g, root);
    lemma_dfs_task_err(g, root, root, Seq::empty(), Seq::empty());
}

/// Planning succeeds on every clean closure: where each name reachable from
/// `root` is defined and none of them lies on a dependency cycle, the plan
/// is an order. With [`lemma_plan_properties`], [`lemma_self_loop_is_error`]
/// and [`lemma_plan_error_is_real`] this pins down exactly when planning
/// returns an order.
pub proof fn lemma_plan_succeeds(g: TaskGraph, root: Seq<char>)
    requires
        forall|n: Seq<char>| #[trigger] reaches(g, root, n) ==> g.has_task(n),
        forall|n: Seq<char>| #[trigger] reaches(g, root, n) ==> !on_cycle(g, n),
    ensures
        spec_plan(g, root) is Ok,
{
    lemma_plan_error_is_real(g, root);
}

} // verus!
