//! The pre-parse variable substitution over manifest text.

use rush::config::RushConfig;

fn env(pairs: &[(&str, &str)]) -> Vec<(String, String)> {
    pairs.iter().map(|(k, v)| (k.to_string(), v.to_string())).collect()
}

#[test]
fn plain_variable_is_replaced() {
    let e = env(&[("NAME", "world")]);
    assert_eq!(RushConfig::expand_env_vars("hello ${NAME}!", &e), "hello world!");
}

#[test]
fn unset_plain_variable_stays_as_written() {
    let e = env(&[]);
    assert_eq!(RushConfig::expand_env_vars("run ${MISSING} now", &e), "run ${MISSING} now");
}

#[test]
fn default_is_used_when_unset() {
    let e = env(&[]);
    assert_eq!(RushConfig::expand_env_vars("${CC:-gcc} -c", &e), "gcc -c");
}

#[test]
fn value_beats_default() {
    let e = env(&[("CC", "clang")]);
    assert_eq!(RushConfig::expand_env_vars("${CC:-gcc} -c", &e), "clang -c");
}

#[test]
fn empty_default_is_allowed() {
    let e = env(&[]);
    assert_eq!(RushConfig::expand_env_vars("a${X:-}b", &e), "ab");
}

#[test]
fn several_occurrences_are_all_replaced() {
    let e = env(&[("A", "1"), ("B", "2")]);
    assert_eq!(RushConfig::expand_env_vars("${A}${B}${A}", &e), "121");
}

#[test]
fn default_splits_at_the_last_separator() {
    // The name is greedy: it swallows everything up to the last `:-`
    // that still leaves a non-empty name.
    let e = env(&[]);
    assert_eq!(RushConfig::expand_env_vars("${A:-b:-c}", &e), "c");
}

#[test]
fn default_value_is_substituted_by_the_second_pass() {
    // The default pass leaves `${B` + `}` behind, which the plain pass then
    // reads as `${B}`.
    let e = env(&[("B", "bee")]);
    assert_eq!(RushConfig::expand_env_vars("${A:-${B}}", &e), "bee");
}

#[test]
fn unclosed_braces_are_copied() {
    let e = env(&[("A", "x")]);
    assert_eq!(RushConfig::expand_env_vars("tail ${A", &e), "tail ${A");
}

#[test]
fn empty_braces_are_copied() {
    let e = env(&[]);
    assert_eq!(RushConfig::expand_env_vars("a${}b", &e), "a${}b");
}

#[test]
fn dollar_without_brace_is_literal() {
    let e = env(&[("HOME", "/root")]);
    assert_eq!(RushConfig::expand_env_vars("$HOME and $$", &e), "$HOME and $$");
}
