use dotchaff::names::NameSet;
use dotchaff::verdict::{longer_of, Fired, MatchVerdict, Tally};

fn names(list: &[&str]) -> NameSet {
    let mut set = NameSet::new();
    for name in list {
        set.insert(name.to_string());
    }
    set
}

fn tally(scores: &[(&str, Option<usize>)]) -> Tally {
    let mut t = Tally::new();
    for (name, len) in scores {
        t.record(name, *len);
    }
    t
}

#[test]
fn the_longer_of_two_offsets() {
    assert_eq!(longer_of(None, None), None);
    assert_eq!(longer_of(Some(0), None), Some(0));
    assert_eq!(longer_of(None, Some(0)), Some(0));
    assert_eq!(longer_of(Some(3), Some(5)), Some(5));
    assert_eq!(longer_of(Some(5), Some(3)), Some(5));
    assert_eq!(longer_of(Some(4), Some(4)), Some(4));
}

#[test]
fn an_empty_tally_is_the_empty_ambiguity() {
    let t = Tally::new();
    assert_eq!(t.longest(), None);
    assert_eq!(t.verdict(), MatchVerdict::Ambiguous(NameSet::new()));
}

#[test]
fn groups_without_a_match_do_not_count() {
    let t = tally(&[("a", None), ("b", None)]);
    assert_eq!(t.longest(), None);
    assert_eq!(t.verdict(), MatchVerdict::Ambiguous(NameSet::new()));
}

#[test]
fn the_greatest_length_leads() {
    let t = tally(&[("a", Some(7)), ("b", Some(5))]);
    assert_eq!(t.longest(), Some(7));
    assert_eq!(t.verdict(), MatchVerdict::Unique("a".to_string()));
    let t = tally(&[("a", Some(3)), ("b", Some(6))]);
    assert_eq!(t.longest(), Some(6));
    assert_eq!(t.verdict(), MatchVerdict::Unique("b".to_string()));
    let t = tally(&[("a", Some(3)), ("b", None), ("c", Some(9)), ("d", Some(1))]);
    assert_eq!(t.verdict(), MatchVerdict::Unique("c".to_string()));
}

#[test]
fn equal_lengths_tie() {
    let t = tally(&[("a", Some(6)), ("b", Some(6))]);
    assert_eq!(t.longest(), Some(6));
    assert_eq!(t.verdict(), MatchVerdict::Ambiguous(names(&["a", "b"])));
    let t = tally(&[("a", Some(6)), ("b", Some(2)), ("c", Some(6)), ("d", None), ("e", Some(6))]);
    assert_eq!(t.verdict(), MatchVerdict::Ambiguous(names(&["a", "c", "e"])));
}

#[test]
fn a_longer_match_ends_a_tie() {
    let t = tally(&[("a", Some(4)), ("b", Some(4)), ("c", Some(5))]);
    assert_eq!(t.verdict(), MatchVerdict::Unique("c".to_string()));
    let t = tally(&[("a", Some(4)), ("b", Some(4)), ("c", Some(5)), ("d", Some(5))]);
    assert_eq!(t.verdict(), MatchVerdict::Ambiguous(names(&["c", "d"])));
}

#[test]
fn a_match_of_length_zero_counts() {
    let t = tally(&[("a", Some(0)), ("b", None)]);
    assert_eq!(t.longest(), Some(0));
    assert_eq!(t.verdict(), MatchVerdict::Unique("a".to_string()));
    let t = tally(&[("a", Some(0)), ("b", Some(0))]);
    assert_eq!(t.verdict(), MatchVerdict::Ambiguous(names(&["a", "b"])));
}

#[test]
fn the_order_of_the_groups_changes_no_verdict() {
    let scores = [("a", Some(4)), ("b", Some(9)), ("c", None), ("d", Some(9))];
    let mut reversed = scores;
    reversed.reverse();
    assert_eq!(tally(&scores).verdict(), tally(&reversed).verdict());
}

#[test]
fn the_quick_verdict() {
    let none = Fired::Nothing;
    assert_eq!(none.verdict(), Some(MatchVerdict::Ambiguous(NameSet::new())));
    let one = Fired::Nothing.hit("a");
    assert!(matches!(&one, Fired::Single(n) if n == "a"));
    assert_eq!(one.verdict(), Some(MatchVerdict::Unique("a".to_string())));
    let two = Fired::Nothing.hit("a").hit("b");
    assert!(matches!(two, Fired::Several));
    assert_eq!(two.verdict(), None);
    let three = Fired::Nothing.hit("a").hit("b").hit("c");
    assert!(matches!(three, Fired::Several));
    assert_eq!(three.verdict(), None);
}

#[test]
fn verdicts_compare_by_what_they_name() {
    let tie = |list: &[&str]| MatchVerdict::Ambiguous(names(list));
    assert_eq!(MatchVerdict::Unique("a".to_string()), MatchVerdict::Unique("a".to_string()));
    assert_ne!(MatchVerdict::Unique("a".to_string()), MatchVerdict::Unique("b".to_string()));
    assert_ne!(MatchVerdict::Unique("a".to_string()), tie(&["a"]));
    assert_ne!(tie(&["a"]), MatchVerdict::Unique("a".to_string()));
    assert_eq!(tie(&["a", "b", "c"]), tie(&["c", "a", "b"]));
    assert_ne!(tie(&["a", "b"]), tie(&["a"]));
    assert_ne!(tie(&["a"]), tie(&["a", "b"]));
    assert_ne!(tie(&["a", "b"]), tie(&["a", "c"]));
    assert_eq!(tie(&[]), tie(&[]));
}
