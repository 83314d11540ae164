//! The manifest model: task definitions as the config loader hands them
//! over, the search order for the manifest file, the pre-parse variable
//! substitution over the manifest text, and the translation into a
//! [`TaskGraph`].

use vstd::prelude::*;
use vstd::string::*;

use crate::graph::al_get;
use crate::graph::al_wf;
use crate::graph::clone_string_pairs;
use crate::graph::clone_strings;
use crate::graph::lemma_al_get_none;
use crate::graph::vec_contains_string;
use crate::graph::TaskGraph;

verus! {

/// One task definition as it stands in the manifest.
pub struct Task {
    pub cmd: String,
    pub deps: Vec<String>,
    pub cache: Vec<String>,
    pub env: Vec<(String, String)>,
    pub description: Option<String>,
}

/// The parsed manifest: task definitions keyed by task name.
pub struct RushConfig {
    pub tasks: Vec<(String, Task)>,
}

/// A manifest discovery failure.
#[derive(Debug)]
pub enum ConfigError {
    /// None of the candidate manifest file names exists.
    NotFound,
}

/// The manifest file names that are searched, in order.
pub open spec fn config_candidates() -> Seq<Seq<char>> {
    seq![".rush"@, ".rush.yml"@, ".rush.yaml"@]
}

impl RushConfig {
    pub open spec fn wf(self) -> bool {
        al_wf(self.tasks@)
    }

    /// Picks the manifest file: the first of `.rush`, `.rush.yml`,
    /// `.rush.yaml` among the given directory entries, or an error when none
    /// of them is there.
    pub fn find_config(present: &Vec<String>) -> (r: Result<String, ConfigError>)
        ensures
            match r {
                Ok(name) => exists|ci: int|
                    0 <= ci < config_candidates().len() && name@ == #[trigger] config_candidates()[ci]
                        && present.deep_view().contains(name@) && (forall|cj: int|
                        0 <= cj < ci ==> !present.deep_view().contains(
                            #[trigger] config_candidates()[cj],
                        )),
                Err(e) => e is NotFound && forall|ci: int|
                    0 <= ci < config_candidates().len() ==> !present.deep_view().contains(
                        #[trigger] config_candidates()[ci],
                    ),
            },
    {
        let c0 = ".rush".to_owned();
        if vec_contains_string(present, &c0) {
            proof {
                assert(config_candidates()[0] == ".rush"@);
            }
            return Ok(c0);
        }
        let c1 = ".rush.yml".to_owned();
        if vec_contains_string(present, &c1) {
            proof {
                assert(config_candidates()[1] == ".rush.yml"@);
            }
            return Ok(c1);
        }
        let c2 = ".rush.yaml".to_owned();
        if vec_contains_string(present, &c2) {
            proof {
                assert(config_candidates()[2] == ".rush.yaml"@);
            }
            return Ok(c2);
        }
        proof {
            assert forall|ci: int|
                0 <= ci < config_candidates().len() implies !present.deep_view().contains(
                #[trigger] config_candidates()[ci],
            ) by {
                assert(config_candidates()[0] == ".rush"@);
                assert(config_candidates()[1] == ".rush.yml"@);
                assert(config_candidates()[2] == ".rush.yaml"@);
            }
        }
        Err(ConfigError::NotFound)
    }

    /// Builds the dependency graph the manifest describes: one graph task
    /// per definition, carrying its name, command, environment overlay and
    /// cache inputs, with the declared dependencies in declaration order.
    #[verifier::loop_isolation(false)]
    pub fn build_graph(&self) -> (g: TaskGraph)
        requires
            self.wf(),
        ensures
            g.wf(),
            graph_matches(self.tasks@, g),
    {
        let mut g = TaskGraph::new();
        proof {
            assert(graph_matches(self.tasks@.subrange(0, 0), g)) by {
                assert(self.tasks@.subrange(0, 0) =~= Seq::<(String, Task)>::empty());
            }
        }
        let n = self.tasks.len();
        for i in 0..n
            invariant
                g.wf(),
                graph_matches(self.tasks@.subrange(0, i as int), g),
        {
            let ghost pre = self.tasks@.subrange(0, i as int);
            let ghost entry = self.tasks@[i as int];
            let ghost g_in = g;
            let name = &self.tasks[i].0;
            let task_config = &self.tasks[i].1;
            proof {
                assert(graph_matches(pre, g_in));
                assert forall|j: int| 0 <= j < i implies #[trigger] pre[j].0@ != entry.0@ by {
                    assert(crate::graph::al_keys(self.tasks@)[j] == self.tasks@[j].0@);
                    assert(crate::graph::al_keys(self.tasks@)[i as int] == entry.0@);
                }
                lemma_al_get_none(pre, entry.0@);
            }
            let gt = crate::graph::Task {
                name: name.clone(),
                cmd: task_config.cmd.clone(),
                env: clone_string_pairs(&task_config.env),
                cache_files: clone_strings(&task_config.cache),
            };
            let ghost gtv = gt;
            let ghost g0 = g;
            g.add_task(name.clone(), gt);
            let ghost g1 = g;
            proof {
                assert(g.spec_deps_of(name@) =~= Seq::<Seq<char>>::empty()) by {
                    assert(al_get(pre, name@) is None);
                    assert(g0.spec_deps_of(name@) == Seq::<Seq<char>>::empty());
                }
                assert(task_config.deps.deep_view().subrange(0, 0) =~= Seq::<Seq<char>>::empty());
            }
            let dn = task_config.deps.len();
            for d in 0..dn
                invariant
                    g.wf(),
                    dn == task_config.deps@.len(),
                    g.tasks@ == g1.tasks@,
                    g.spec_deps_of(name@) == task_config.deps.deep_view().subrange(0, d as int),
                    forall|k: Seq<char>|
                        k != name@ ==> #[trigger] g.spec_deps_of(k) == g1.spec_deps_of(k),
            {
                let ghost before = g.spec_deps_of(name@);
                g.add_dependency(name.clone(), task_config.deps[d].clone());
                proof {
                    assert(task_config.deps.deep_view()[d as int] == task_config.deps@[
                        d as int
                    ]@);
                    assert(task_config.deps.deep_view().subrange(0, d as int + 1) =~= before.push(
                        task_config.deps.deep_view()[d as int],
                    ));
                }
            }
            proof {
                assert(task_config.deps.deep_view().subrange(0, dn as int) =~= task_config
                    .deps
                    .deep_view());
                let cur = self.tasks@.subrange(0, i as int + 1);
                assert(cur =~= pre.push(entry));
                assert(entry.0@ == name@ && entry.1 == *task_config);
                assert(graph_matches(cur, g)) by {
                    assert forall|k: Seq<char>| g.has_task(k) <==> #[trigger] al_get(
                        cur,
                        k,
                    ) is Some by {
                        crate::graph::lemma_al_push(pre, entry, k);
                        assert(al_get(g.tasks@, k) == (if k == name@ {
                            Some(gtv)
                        } else {
                            al_get(g0.tasks@, k)
                        }));
                        assert(g0.has_task(k) == (al_get(g0.tasks@, k) is Some));
                        assert(g.has_task(k) == (al_get(g.tasks@, k) is Some));
                    }
                    assert forall|k: Seq<char>| #[trigger] al_get(cur, k) is Some implies al_get(
                        g.tasks@,
                        k,
                    ) is Some && al_get(g.tasks@, k).unwrap().name@ == k && al_get(
                        g.tasks@,
                        k,
                    ).unwrap().cmd@ == al_get(cur, k).unwrap().cmd@ && al_get(
                        g.tasks@,
                        k,
                    ).unwrap().env.deep_view() == al_get(cur, k).unwrap().env.deep_view()
                        && al_get(g.tasks@, k).unwrap().cache_files.deep_view() == al_get(
                        cur,
                        k,
                    ).unwrap().cache.deep_view() && g.spec_deps_of(k) == al_get(
                        cur,
                        k,
                    ).unwrap().deps.deep_view() by {
                        crate::graph::lemma_al_push(pre, entry, k);
                        assert(al_get(g.tasks@, k) == (if k == name@ {
                            Some(gtv)
                        } else {
                            al_get(g0.tasks@, k)
                        }));
                        if k == name@ {
                            assert(al_get(cur, k).unwrap() == entry.1);
                            assert(gtv.name@ == k);
                            assert(gtv.cmd@ == task_config.cmd@);
                            assert(gtv.env.deep_view() == task_config.env.deep_view());
                            assert(gtv.cache_files.deep_view() == task_config.cache.deep_view());
                        } else {
                            assert(al_get(pre, k) is Some);
                            assert(al_get(cur, k) == al_get(pre, k));
                            assert(g.spec_deps_of(k) == g1.spec_deps_of(k));
                            assert(g1.spec_deps_of(k) == g0.spec_deps_of(k));
                        }
                    }
                    assert forall|k: Seq<char>| al_get(cur, k) is None implies #[trigger] g
                        .spec_deps_of(k) == Seq::<Seq<char>>::empty() by {
                        crate::graph::lemma_al_push(pre, entry, k);
                        assert(k != name@);
                        assert(al_get(pre, k) is None);
                        assert(g.spec_deps_of(k) == g1.spec_deps_of(k));
                        assert(g1.spec_deps_of(k) == g0.spec_deps_of(k));
                    }
                }
            }
        }
        proof {
            assert(self.tasks@.subrange(0, self.tasks@.len() as int) =~= self.tasks@);
            assert(graph_matches(self.tasks@, g));
        }
        g
    }
}

/// The graph `g` represents exactly the manifest table `cfg`: the same task
/// names; each task carrying its name, the definition's command, environment
/// overlay and cache inputs; and each task's adjacency holding exactly the
/// declared dependencies, in order.
pub open spec fn graph_matches(cfg: Seq<(String, Task)>, g: TaskGraph) -> bool {
    &&& forall|k: Seq<char>| g.has_task(k) <==> #[trigger] al_get(cfg, k) is Some
    &&& forall|k: Seq<char>|
        #[trigger] al_get(cfg, k) is Some ==> al_get(g.tasks@, k) is Some && al_get(
            g.tasks@,
            k,
        ).unwrap().name@ == k && al_get(g.tasks@, k).unwrap().cmd@ == al_get(
            cfg,
            k,
        ).unwrap().cmd@ && al_get(g.tasks@, k).unwrap().env.deep_view() == al_get(
            cfg,
            k,
        ).unwrap().env.deep_view() && al_get(g.tasks@, k).unwrap().cache_files.deep_view()
            == al_get(cfg, k).unwrap().cache.deep_view() && g.spec_deps_of(k) == al_get(
            cfg,
            k,
        ).unwrap().deps.deep_view()
    &&& forall|k: Seq<char>|
        al_get(cfg, k) is None ==> #[trigger] g.spec_deps_of(k) == Seq::<Seq<char>>::empty()
}


// ---------------------------------------------------------------------------
// Manifest text substitution
// ---------------------------------------------------------------------------

/// The value bound to `k`, under the first binding where several share a
/// name.
pub open spec fn env_lookup(env: Seq<(Seq<char>, Seq<char>)>, k: Seq<char>) -> Option<Seq<char>>
    decreases env.len(),
{
    if env.len() == 0 {
        None
    } else if env[0].0 == k {
        Some(env[0].1)
    } else {
        env_lookup(env.drop_first(), k)
    }
}

/// The position of the first `}` at or after `from`, or a negative number if
/// there is none.
pub open spec fn first_close(s: Seq<char>, from: int) -> int
    decreases s.len() - from,
{
    if from < 0 || from >= s.len() {
        -1
    } else if s[from] == '}' {
        from
    } else {
        first_close(s, from + 1)
    }
}

/// A found closing brace lies between `from` and the end of the text.
pub proof fn lemma_first_close_bounds(s: Seq<char>, from: int)
    requires
        0 <= from,
    ensures
        first_close(s, from) >= 0 ==> from <= first_close(s, from) < s.len(),
    decreases s.len() - from,
{
    if from < s.len() && s[from] != '}' {
        lemma_first_close_bounds(s, from + 1);
    }
}

/// The position of the last `:-` separator at or before `p`, leaving a
/// non-empty name `s[lo..position]`; negative if there is none.
pub open spec fn last_sep(s: Seq<char>, lo: int, p: int) -> int
    decreases p - lo,
{
    if p < lo + 1 {
        -1
    } else if 0 <= p && p + 1 < s.len() && s[p] == ':' && s[p + 1] == '-' {
        p
    } else {
        last_sep(s, lo, p - 1)
    }
}

/// A found separator lies in `[lo + 1, p]`.
pub proof fn lemma_last_sep_bounds(s: Seq<char>, lo: int, p: int)
    ensures
        last_sep(s, lo, p) >= 0 ==> lo + 1 <= last_sep(s, lo, p) <= p && last_sep(s, lo, p) + 1
            < s.len(),
    decreases p - lo,
{
    if p >= lo + 1 && !(0 <= p && p + 1 < s.len() && s[p] == ':' && s[p + 1] == '-') {
        lemma_last_sep_bounds(s, lo, p - 1);
    }
}

/// The first substitution pass over `s[i..]`: each occurrence of
/// `${name:-default}` — splitting at the last `:-` that leaves a non-empty
/// name — becomes the value bound to the name, or the default where it is
/// unbound. Text without a match, including a `${` never closed by `}`, is
/// copied unchanged.
pub open spec fn pass_default(s: Seq<char>, i: int, env: Seq<(Seq<char>, Seq<char>)>) -> Seq<char>
    decreases s.len() - i,
{
    if i < 0 || i >= s.len() {
        Seq::empty()
    } else if i + 1 < s.len() && s[i] == '$' && s[i + 1] == '{' {
        let j = first_close(s, i + 2);
        if j < 0 {
            s.subrange(i, s.len() as int)
        } else {
            proof {
                lemma_first_close_bounds(s, i + 2);
            }
            let p = last_sep(s, i + 2, j - 2);
            if p < 0 {
                s.subrange(i, j + 1) + pass_default(s, j + 1, env)
            } else {
                (match env_lookup(env, s.subrange(i + 2, p)) {
                    Some(v) => v,
                    None => s.subrange(p + 2, j),
                }) + pass_default(s, j + 1, env)
            }
        }
    } else {
        seq![s[i]] + pass_default(s, i + 1, env)
    }
}

/// The second substitution pass over `s[i..]`: each `${name}` with a
/// non-empty name becomes the value bound to the name, or stays as it is
/// where the name is unbound.
pub open spec fn pass_plain(s: Seq<char>, i: int, env: Seq<(Seq<char>, Seq<char>)>) -> Seq<char>
    decreases s.len() - i,
{
    if i < 0 || i >= s.len() {
        Seq::empty()
    } else if i + 1 < s.len() && s[i] == '$' && s[i + 1] == '{' {
        let j = first_close(s, i + 2);
        if j < 0 {
            s.subrange(i, s.len() as int)
        } else {
            proof {
                lemma_first_close_bounds(s, i + 2);
            }
            if j == i + 2 {
                s.subrange(i, j + 1) + pass_plain(s, j + 1, env)
            } else {
                (match env_lookup(env, s.subrange(i + 2, j)) {
                    Some(v) => v,
                    None => s.subrange(i, j + 1),
                }) + pass_plain(s, j + 1, env)
            }
        }
    } else {
        seq![s[i]] + pass_plain(s, i + 1, env)
    }
}

/// The whole substitution: the `${name:-default}` pass over the text, then
/// the `${name}` pass over its output.
pub open spec fn spec_expand(s: Seq<char>, env: Seq<(Seq<char>, Seq<char>)>) -> Seq<char> {
    pass_plain(pass_default(s, 0, env), 0, env)
}

/// The characters of `s`, as a vector.
pub fn str_to_chars(s: &str) -> (v: Vec<char>)
    ensures
        v@ == s@,
{
    let n = s.unicode_len();
    let mut v: Vec<char> = Vec::new();
    for i in 0..n
        invariant
            n == s@.len(),
            v@ =~= s@.subrange(0, i as int),
    {
        v.push(s.get_char(i));
        proof {
            assert(v@ =~= s@.subrange(0, i as int + 1));
        }
    }
    proof {
        assert(s@.subrange(0, s@.len() as int) =~= s@);
    }
    v
}

/// Relies on `String: FromIterator<char>`: collecting characters builds the
/// string that holds exactly those characters in order.
#[verifier::external_body]
fn chars_to_string(v: &Vec<char>) -> (s: String)
    ensures
        s@ == v@,
{
    v.iter().collect()
}

/// Finds the first `}` at or after `from`.
#[verifier::loop_isolation(false)]
fn find_close(s: &Vec<char>, from: usize) -> (r: Option<usize>)
    ensures
        match r {
            Some(j) => first_close(s@, from as int) == j && from <= j < s@.len(),
            None => first_close(s@, from as int) < 0,
        },
{
    let n = s.len();
    let mut k = from;
    loop
        invariant
            from <= k,
            first_close(s@, from as int) == first_close(s@, k as int),
        decreases s@.len() - k,
    {
        if k >= n {
            return None;
        }
        if s[k] == '}' {
            return Some(k);
        }
        k = k + 1;
    }
}

/// Finds the last `:-` separator at or before `p` leaving a non-empty name
/// after `lo`.
#[verifier::loop_isolation(false)]
fn find_last_sep(s: &Vec<char>, lo: usize, p_start: usize) -> (r: Option<usize>)
    requires
        p_start + 1 < s@.len(),
    ensures
        match r {
            Some(p) => last_sep(s@, lo as int, p_start as int) == p && lo < p <= p_start,
            None => last_sep(s@, lo as int, p_start as int) < 0,
        },
{
    let n = s.len();
    proof {
        assert(p_start < n);
    }
    let mut p = p_start;
    loop
        invariant
            p <= p_start,
            last_sep(s@, lo as int, p_start as int) == last_sep(s@, lo as int, p as int),
        decreases p,
    {
        if p <= lo {
            return None;
        }
        if s[p] == ':' && s[p + 1] == '-' {
            return Some(p);
        }
        if p == 0 {
            return None;
        }
        p = p - 1;
    }
}

/// Whether `key` reads the same as `s[lo..hi]`.
#[verifier::loop_isolation(false)]
fn range_eq(key: &String, s: &Vec<char>, lo: usize, hi: usize) -> (b: bool)
    requires
        lo <= hi <= s@.len(),
    ensures
        b == (key@ == s@.subrange(lo as int, hi as int)),
{
    let ks = key.as_str();
    let kn = ks.unicode_len();
    if kn != hi - lo {
        proof {
            assert(key@ != s@.subrange(lo as int, hi as int));
        }
        return false;
    }
    for c in 0..kn
        invariant
            kn == key@.len(),
            kn == hi - lo,
            lo <= hi <= s@.len(),
            forall|x: int| 0 <= x < c ==> key@[x] == s@[lo + x],
    {
        if ks.get_char(c) != s[lo + c] {
            proof {
                assert(key@[c as int] != s@.subrange(lo as int, hi as int)[c as int]);
            }
            return false;
        }
    }
    proof {
        assert(key@ =~= s@.subrange(lo as int, hi as int));
    }
    true
}

/// Looks `s[lo..hi]` up among the bindings; the first binding wins.
#[verifier::loop_isolation(false)]
fn lookup_env<'a>(env: &'a Vec<(String, String)>, s: &Vec<char>, lo: usize, hi: usize) -> (r:
    Option<&'a String>)
    requires
        lo <= hi <= s@.len(),
    ensures
        match r {
            Some(v) => env_lookup(env.deep_view(), s@.subrange(lo as int, hi as int)) == Some(v@),
            None => env_lookup(env.deep_view(), s@.subrange(lo as int, hi as int)) is None,
        },
{
    let ghost name = s@.subrange(lo as int, hi as int);
    proof {
        assert(env.deep_view().subrange(0, env.deep_view().len() as int) =~= env.deep_view());
    }
    let n = env.len();
    for t in 0..n
        invariant
            n == env@.len(),
            env_lookup(env.deep_view(), name) == env_lookup(
                env.deep_view().subrange(t as int, env.deep_view().len() as int),
                name,
            ),
    {
        let ghost suffix = env.deep_view().subrange(t as int, env.deep_view().len() as int);
        proof {
            assert(suffix[0] == env.deep_view()[t as int]);
            assert(suffix.drop_first() =~= env.deep_view().subrange(
                t as int + 1,
                env.deep_view().len() as int,
            ));
        }
        if range_eq(&env[t].0, s, lo, hi) {
            proof {
                assert(env.deep_view()[t as int].0 == env@[t as int].0@);
                assert(env.deep_view()[t as int].1 == env@[t as int].1@);
            }
            return Some(&env[t].1);
        }
        proof {
            assert(env.deep_view()[t as int].0 == env@[t as int].0@);
        }
    }
    proof {
        assert(env.deep_view().subrange(
            env.deep_view().len() as int,
            env.deep_view().len() as int,
        ) =~= Seq::<(Seq<char>, Seq<char>)>::empty());
    }
    None
}

/// Appends `s[lo..hi]` to `out`.
#[verifier::loop_isolation(false)]
fn push_range(out: &mut Vec<char>, s: &Vec<char>, lo: usize, hi: usize)
    requires
        lo <= hi <= s@.len(),
    ensures
        final(out)@ == old(out)@ + s@.subrange(lo as int, hi as int),
{
    for k in lo..hi
        invariant
            lo <= hi <= s@.len(),
            out@ =~= old(out)@ + s@.subrange(lo as int, k as int),
    {
        out.push(s[k]);
        proof {
            assert(s@.subrange(lo as int, k as int + 1) =~= s@.subrange(lo as int, k as int).push(
                s@[k as int],
            ));
        }
    }
}

/// Appends the characters of `v` to `out`.
#[verifier::loop_isolation(false)]
fn push_string(out: &mut Vec<char>, v: &String)
    ensures
        final(out)@ == old(out)@ + v@,
{
    let vs = v.as_str();
    let n = vs.unicode_len();
    for k in 0..n
        invariant
            n == v@.len(),
            out@ =~= old(out)@ + v@.subrange(0, k as int),
    {
        out.push(vs.get_char(k));
        proof {
            assert(v@.subrange(0, k as int + 1) =~= v@.subrange(0, k as int).push(v@[k as int]));
        }
    }
    proof {
        assert(v@.subrange(0, v@.len() as int) =~= v@);
    }
}

/// Runs the `${name:-default}` pass.
#[verifier::loop_isolation(false)]
fn run_pass_default(s: &Vec<char>, env: &Vec<(String, String)>) -> (r: Vec<char>)
    ensures
        r@ == pass_default(s@, 0, env.deep_view()),
{
    let ghost ev = env.deep_view();
    let mut out: Vec<char> = Vec::new();
    let mut i: usize = 0;
    loop
        invariant
            i <= s@.len(),
            out@ + pass_default(s@, i as int, ev) == pass_default(s@, 0, ev),
        decreases s@.len() - i,
    {
        if i >= s.len() {
            proof {
                assert(out@ + pass_default(s@, i as int, ev) =~= out@);
            }
            return out;
        }
        let ghost o0 = out@;
        if i + 1 < s.len() && s[i] == '$' && s[i + 1] == '{' {
            match find_close(s, i + 2) {
                None => {
                    push_range(&mut out, s, i, s.len());
                    proof {
                        assert(pass_default(s@, i as int, ev) == s@.subrange(
                            i as int,
                            s@.len() as int,
                        ));
                        assert(out@ =~= pass_default(s@, 0, ev));
                    }
                    return out;
                },
                Some(j) => {
                    proof {
                        lemma_last_sep_bounds(s@, i as int + 2, j as int - 2);
                        assert(j >= i + 2 && j < s@.len());
                    }
                    match find_last_sep(s, i + 2, j - 2) {
                        None => {
                            push_range(&mut out, s, i, j + 1);
                            proof {
                                assert(last_sep(s@, i as int + 2, j as int - 2) < 0);
                                assert(pass_default(s@, i as int, ev) == s@.subrange(
                                    i as int,
                                    j as int + 1,
                                ) + pass_default(s@, j as int + 1, ev));
                                assert(o0 + (s@.subrange(i as int, j as int + 1) + pass_default(
                                    s@,
                                    j as int + 1,
                                    ev,
                                )) =~= out@ + pass_default(s@, j as int + 1, ev));
                            }
                            i = j + 1;
                        },
                        Some(p) => {
                            proof {
                                assert(last_sep(s@, i as int + 2, j as int - 2) == p);
                                assert(i + 2 < p && p <= j - 2);
                            }
                            let chunk_ghost: Ghost<Seq<char>> = Ghost(
                                match env_lookup(ev, s@.subrange(i as int + 2, p as int)) {
                                    Some(v) => v,
                                    None => s@.subrange(p as int + 2, j as int),
                                },
                            );
                            match lookup_env(env, s, i + 2, p) {
                                Some(v) => {
                                    push_string(&mut out, v);
                                },
                                None => {
                                    push_range(&mut out, s, p + 2, j);
                                },
                            }
                            proof {
                                assert(out@ == o0 + chunk_ghost@);
                                assert(pass_default(s@, i as int, ev) == chunk_ghost@
                                    + pass_default(s@, j as int + 1, ev));
                                assert(o0 + (chunk_ghost@ + pass_default(s@, j as int + 1, ev))
                                    =~= out@ + pass_default(s@, j as int + 1, ev));
                            }
                            i = j + 1;
                        },
                    }
                },
            }
        } else {
            out.push(s[i]);
            proof {
                assert(pass_default(s@, i as int, ev) == seq![s@[i as int]] + pass_default(
                    s@,
                    i as int + 1,
                    ev,
                ));
                assert(o0 + (seq![s@[i as int]] + pass_default(s@, i as int + 1, ev)) =~= out@
                    + pass_default(s@, i as int + 1, ev));
            }
            i = i + 1;
        }
    }
}

/// Runs the `${name}` pass.
#[verifier::loop_isolation(false)]
fn run_pass_plain(s: &Vec<char>, env: &Vec<(String, String)>) -> (r: Vec<char>)
    ensures
        r@ == pass_plain(s@, 0, env.deep_view()),
{
    let ghost ev = env.deep_view();
    let mut out: Vec<char> = Vec::new();
    let mut i: usize = 0;
    loop
        invariant
            i <= s@.len(),
            out@ + pass_plain(s@, i as int, ev) == pass_plain(s@, 0, ev),
        decreases s@.len() - i,
    {
        if i >= s.len() {
            proof {
                assert(out@ + pass_plain(s@, i as int, ev) =~= out@);
            }
            return out;
        }
        let ghost o0 = out@;
        if i + 1 < s.len() && s[i] == '$' && s[i + 1] == '{' {
            match find_close(s, i + 2) {
                None => {
                    push_range(&mut out, s, i, s.len());
                    proof {
                        assert(pass_plain(s@, i as int, ev) == s@.subrange(
                            i as int,
                            s@.len() as int,
                        ));
                        assert(out@ =~= pass_plain(s@, 0, ev));
                    }
                    return out;
                },
                Some(j) => {
                    if j == i + 2 {
                        push_range(&mut out, s, i, j + 1);
                        proof {
                            assert(pass_plain(s@, i as int, ev) == s@.subrange(
                                i as int,
                                j as int + 1,
                            ) + pass_plain(s@, j as int + 1, ev));
                            assert(o0 + (s@.subrange(i as int, j as int + 1) + pass_plain(
                                s@,
                                j as int + 1,
                                ev,
                            )) =~= out@ + pass_plain(s@, j as int + 1, ev));
                        }
                        i = j + 1;
                    } else {
                        let chunk_ghost: Ghost<Seq<char>> = Ghost(
                            match env_lookup(ev, s@.subrange(i as int + 2, j as int)) {
                                Some(v) => v,
                                None => s@.subrange(i as int, j as int + 1),
                            },
                        );
                        match lookup_env(env, s, i + 2, j) {
                            Some(v) => {
                                push_string(&mut out, v);
                            },
                            None => {
                                push_range(&mut out, s, i, j + 1);
                            },
                        }
                        proof {
                            assert(out@ == o0 + chunk_ghost@);
                            assert(pass_plain(s@, i as int, ev) == chunk_ghost@ + pass_plain(
                                s@,
                                j as int + 1,
                                ev,
                            ));
                            assert(o0 + (chunk_ghost@ + pass_plain(s@, j as int + 1, ev)) =~= out@
                                + pass_plain(s@, j as int + 1, ev));
                        }
                        i = j + 1;
                    }
                },
            }
        } else {
            out.push(s[i]);
            proof {
                assert(pass_plain(s@, i as int, ev) == seq![s@[i as int]] + pass_plain(
                    s@,
                    i as int + 1,
                    ev,
                ));
                assert(o0 + (seq![s@[i as int]] + pass_plain(s@, i as int + 1, ev)) =~= out@
                    + pass_plain(s@, i as int + 1, ev));
            }
            i = i + 1;
        }
    }
}

impl RushConfig {
    /// The pre-parse substitution over the manifest text: `${VAR:-default}`
    /// becomes the value of `VAR` among the given bindings, or `default`
    /// where `VAR` is unbound; then, over that result, `${VAR}` becomes the
    /// value of `VAR`, or stays as it is where `VAR` is unbound.
    pub fn expand_env_vars(content: &str, env: &Vec<(String, String)>) -> (r: String)
        ensures
            r@ == spec_expand(content@, env.deep_view()),
    {
        let chars = str_to_chars(content);
        let once = run_pass_default(&chars, env);
        let twice = run_pass_plain(&once, env);
        chars_to_string(&twice)
    }
}

} // verus!
