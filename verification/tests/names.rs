use dotchaff::names::NameSet;

#[test]
fn a_new_set_is_empty() {
    let s = NameSet::new();
    assert!(s.is_empty());
    assert_eq!(s.len(), 0);
    assert!(!s.contains("a"));
    assert_eq!(s.single(), None);
    assert!(s.names().is_empty());
}

#[test]
fn insert_keeps_each_name_once() {
    let mut s = NameSet::new();
    assert!(s.insert("a".to_string()));
    assert!(s.insert("b".to_string()));
    assert!(!s.insert("a".to_string()));
    assert_eq!(s.len(), 2);
    assert!(!s.is_empty());
    assert!(s.contains("a"));
    assert!(s.contains("b"));
    assert!(!s.contains("c"));
    let mut names = s.names();
    names.sort();
    assert_eq!(names, vec!["a", "b"]);
}

#[test]
fn single_gives_the_only_member() {
    let mut s = NameSet::new();
    s.insert("only".to_string());
    assert_eq!(s.single(), Some("only".to_string()));
    s.insert("more".to_string());
    assert_eq!(s.single(), None);
}

fn set(names: &[&str]) -> NameSet {
    let mut s = NameSet::new();
    for name in names {
        s.insert(name.to_string());
    }
    s
}

#[test]
fn sets_are_equal_whatever_the_order() {
    assert_eq!(set(&["a", "b", "c"]), set(&["c", "b", "a"]));
    assert_eq!(set(&[]), NameSet::new());
    assert_eq!(set(&["a", "a"]), set(&["a"]));
    assert_ne!(set(&["a"]), set(&["b"]));
    assert_ne!(set(&["a"]), set(&["a", "b"]));
    assert_ne!(set(&["a", "b"]), set(&["a"]));
}

#[test]
fn subsets() {
    assert!(set(&[]).is_subset_of(&set(&["a"])));
    assert!(set(&["a"]).is_subset_of(&set(&["b", "a"])));
    assert!(set(&["a", "b"]).is_subset_of(&set(&["b", "a"])));
    assert!(!set(&["a", "c"]).is_subset_of(&set(&["b", "a"])));
    assert!(!set(&["a"]).is_subset_of(&set(&[])));
}
