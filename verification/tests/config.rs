use dotchaff::config::{merge_configs, Config};
use dotchaff::matcher::{do_match, prepare_matcher};
use dotchaff::verdict::MatchVerdict;

fn config(groups: &[(&str, &[&str])]) -> Config {
    let mut c = Config::new();
    for (name, patterns) in groups {
        let list: Vec<String> = patterns.iter().map(|p| p.to_string()).collect();
        c.add_group(name, &list);
    }
    c
}

fn patterns(c: &Config, name: &str) -> Vec<String> {
    c.get(name).unwrap().clone()
}

fn verdict_names(v: &MatchVerdict) -> (bool, Vec<String>) {
    match v {
        MatchVerdict::Unique(n) => (true, vec![n.clone()]),
        MatchVerdict::Ambiguous(s) => {
            let mut names = s.names();
            names.sort();
            (false, names)
        }
    }
}

#[test]
fn a_new_configuration_is_empty() {
    let c = Config::new();
    assert!(c.is_empty());
    assert_eq!(c.len(), 0);
    assert_eq!(c.get("a"), None);
    assert!(c.groups().is_empty());
}

#[test]
fn add_pattern_opens_and_appends() {
    let mut c = Config::new();
    c.add_pattern("a", "x".to_string());
    c.add_pattern("b", "y".to_string());
    c.add_pattern("a", "z".to_string());
    assert_eq!(c.len(), 2);
    assert!(!c.is_empty());
    assert_eq!(patterns(&c, "a"), vec!["x", "z"]);
    assert_eq!(patterns(&c, "b"), vec!["y"]);
}

#[test]
fn add_group_opens_a_group_without_patterns() {
    let mut c = Config::new();
    c.add_group("a", &Vec::new());
    assert_eq!(c.len(), 1);
    assert_eq!(c.get("a"), Some(&Vec::new()));
    c.add_group("a", &vec!["p".to_string(), "q".to_string()]);
    assert_eq!(c.len(), 1);
    assert_eq!(patterns(&c, "a"), vec!["p", "q"]);
}

#[test]
fn extend_puts_the_other_patterns_behind() {
    let mut c = config(&[("a", &["1"]), ("b", &["2"])]);
    let d = config(&[("b", &["3"]), ("c", &["4"])]);
    c.extend(&d);
    assert_eq!(c.len(), 3);
    assert_eq!(patterns(&c, "a"), vec!["1"]);
    assert_eq!(patterns(&c, "b"), vec!["2", "3"]);
    assert_eq!(patterns(&c, "c"), vec!["4"]);
}

#[test]
fn merging_nothing_gives_nothing() {
    let merged = merge_configs(Vec::new());
    assert!(merged.is_empty());
}

#[test]
fn merging_one_configuration_gives_it_back() {
    let merged = merge_configs(vec![config(&[("a", &["1", "2"]), ("b", &[])])]);
    assert_eq!(merged.len(), 2);
    assert_eq!(patterns(&merged, "a"), vec!["1", "2"]);
    assert_eq!(patterns(&merged, "b"), Vec::<String>::new());
}

#[test]
fn merging_concatenates_in_the_order_of_the_list() {
    let first = config(&[("a", &["1"]), ("b", &["2"])]);
    let second = config(&[("a", &["3"])]);
    let third = config(&[("c", &["4"]), ("a", &["5"])]);
    let merged = merge_configs(vec![first, second, third]);
    assert_eq!(merged.len(), 3);
    assert_eq!(patterns(&merged, "a"), vec!["1", "3", "5"]);
    assert_eq!(patterns(&merged, "b"), vec!["2"]);
    assert_eq!(patterns(&merged, "c"), vec!["4"]);
}

#[test]
fn merging_is_associative() {
    let a = config(&[("x", &["1"]), ("y", &["2"])]);
    let b = config(&[("y", &["3"]), ("z", &["4"])]);
    let c = config(&[("x", &["5"]), ("z", &["6"])]);
    let left = merge_configs(vec![merge_configs(vec![a.clone(), b.clone()]), c.clone()]);
    let right = merge_configs(vec![a.clone(), merge_configs(vec![b.clone(), c.clone()])]);
    let flat = merge_configs(vec![a, b, c]);
    for name in ["x", "y", "z"] {
        assert_eq!(patterns(&left, name), patterns(&flat, name));
        assert_eq!(patterns(&right, name), patterns(&flat, name));
    }
    assert_eq!(left.len(), 3);
    assert_eq!(right.len(), 3);
}

#[test]
fn the_order_of_merging_keeps_the_pattern_sets() {
    let a = config(&[("x", &["1"]), ("y", &["2"])]);
    let b = config(&[("y", &["3"]), ("x", &["4"])]);
    let ab = merge_configs(vec![a.clone(), b.clone()]);
    let ba = merge_configs(vec![b, a]);
    assert_eq!(ab.len(), ba.len());
    assert_eq!(patterns(&ab, "x"), vec!["1", "4"]);
    assert_eq!(patterns(&ba, "x"), vec!["4", "1"]);
    for name in ["x", "y"] {
        let mut p = patterns(&ab, name);
        let mut q = patterns(&ba, name);
        p.sort();
        q.sort();
        assert_eq!(p, q);
    }
}

#[test]
fn the_order_of_merging_changes_no_verdict() {
    let a = config(&[("conf", &[r"\.conf$"]), ("etc", &["^etc/"])]);
    let b = config(&[("etc", &["^usr/etc/"]), ("conf", &[r"\.cfg$"]), ("tmp", &["^tmp/"])]);
    let ab = prepare_matcher(merge_configs(vec![a.clone(), b.clone()])).unwrap();
    let ba = prepare_matcher(merge_configs(vec![b, a])).unwrap();
    for path in ["etc/a.conf", "usr/etc/x", "b.cfg", "tmp/x.conf", "none", "etc/x", ""] {
        assert_eq!(verdict_names(&do_match(path, &ab)), verdict_names(&do_match(path, &ba)));
    }
}
