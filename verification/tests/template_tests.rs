use dotty::strmap::StrMap;
use dotty::template::{compare, MergeConflict, TemplateKind, TemplateValue};

fn leaf(text: &str) -> TemplateValue {
    TemplateValue::Value(text.to_string())
}

fn list(items: Vec<TemplateValue>) -> TemplateValue {
    TemplateValue::Sequence(items)
}

fn mapping(entries: Vec<(&str, TemplateValue)>) -> TemplateValue {
    let mut map = StrMap::new();
    for (key, value) in entries {
        map.insert(key.to_string(), value);
    }
    TemplateValue::Mapping(map)
}

fn same(a: &TemplateValue, b: &TemplateValue) -> bool {
    compare(a, b, true) && compare(b, a, true)
}

#[test]
fn sequences_are_concatenated() {
    let mut mine = list(vec![leaf("a"), leaf("b")]);
    let done = mine.combine(list(vec![leaf("b"), leaf("c")]));
    assert!(done.is_ok());
    match mine {
        TemplateValue::Sequence(items) => {
            assert_eq!(items.len(), 4);
            assert!(matches!(&items[0], TemplateValue::Value(s) if s == "a"));
            assert!(matches!(&items[1], TemplateValue::Value(s) if s == "b"));
            assert!(matches!(&items[2], TemplateValue::Value(s) if s == "b"));
            assert!(matches!(&items[3], TemplateValue::Value(s) if s == "c"));
        }
        _ => panic!("the merge of sequences is a sequence"),
    }
}

#[test]
fn mappings_merge_key_by_key() {
    let mut mine = mapping(vec![
        ("colors", mapping(vec![("fg", leaf("white"))])),
        ("fonts", list(vec![leaf("mono")])),
    ]);
    let theirs = mapping(vec![
        ("colors", mapping(vec![("bg", leaf("black"))])),
        ("fonts", list(vec![leaf("serif")])),
        ("shell", leaf("zsh")),
    ]);
    assert!(mine.combine(theirs).is_ok());
    let expected = mapping(vec![
        ("colors", mapping(vec![("fg", leaf("white")), ("bg", leaf("black"))])),
        ("fonts", list(vec![leaf("mono"), leaf("serif")])),
        ("shell", leaf("zsh")),
    ]);
    assert!(same(&mine, &expected));
    match &mine {
        TemplateValue::Mapping(map) => {
            assert_eq!(map.len(), 3);
            assert_eq!(map.key_at(0).as_str(), "colors");
            assert_eq!(map.key_at(1).as_str(), "fonts");
            assert_eq!(map.key_at(2).as_str(), "shell");
        }
        _ => panic!("the merge of mappings is a mapping"),
    }
}

#[test]
fn two_leaves_conflict_in_both_orders() {
    let mut mine = mapping(vec![("editor", leaf("vim"))]);
    let done = mine.combine(mapping(vec![("editor", leaf("emacs"))]));
    match done {
        Err(MergeConflict { path, existing, incoming }) => {
            assert_eq!(path, vec!["editor".to_string()]);
            assert!(same(&existing, &leaf("vim")));
            assert!(same(&incoming, &leaf("emacs")));
        }
        _ => panic!("two leaves under one key conflict"),
    }
    let mut theirs = mapping(vec![("editor", leaf("emacs"))]);
    let back = theirs.combine(mapping(vec![("editor", leaf("vim"))]));
    match back {
        Err(MergeConflict { path, existing, incoming }) => {
            assert_eq!(path, vec!["editor".to_string()]);
            assert!(same(&existing, &leaf("emacs")));
            assert!(same(&incoming, &leaf("vim")));
        }
        _ => panic!("two leaves under one key conflict"),
    }
}

#[test]
fn equal_leaves_conflict_too() {
    let mut mine = leaf("same");
    match mine.combine(leaf("same")) {
        Err(MergeConflict { path, existing, incoming }) => {
            assert!(path.is_empty());
            assert_eq!(existing.kind(), TemplateKind::Value);
            assert_eq!(incoming.kind(), TemplateKind::Value);
        }
        _ => panic!("two leaves conflict"),
    }
}

#[test]
fn different_kinds_conflict() {
    let mut mine = mapping(vec![("a", mapping(vec![("b", leaf("x"))]))]);
    let done = mine.combine(mapping(vec![("a", mapping(vec![("b", list(vec![]))]))]));
    match done {
        Err(MergeConflict { path, existing, incoming }) => {
            assert_eq!(path, vec!["a".to_string(), "b".to_string()]);
            assert!(same(&existing, &leaf("x")));
            assert!(same(&incoming, &list(vec![])));
        }
        _ => panic!("a leaf and a sequence conflict"),
    }
    let mut top = list(vec![]);
    match top.combine(mapping(vec![])) {
        Err(MergeConflict { path, existing, incoming }) => {
            assert!(path.is_empty());
            assert_eq!(existing.kind(), TemplateKind::Sequence);
            assert_eq!(incoming.kind(), TemplateKind::Mapping);
        }
        _ => panic!("a sequence and a mapping conflict"),
    }
}

#[test]
fn a_conflict_changes_nothing() {
    let mut mine = mapping(vec![
        ("a", list(vec![leaf("1")])),
        ("b", leaf("x")),
    ]);
    let theirs = mapping(vec![
        ("a", list(vec![leaf("2")])),
        ("b", leaf("y")),
        ("c", leaf("z")),
    ]);
    assert!(mine.combine(theirs).is_err());
    let before = mapping(vec![("a", list(vec![leaf("1")])), ("b", leaf("x"))]);
    assert!(same(&mine, &before));
}

#[test]
fn conflict_with_reports_without_merging() {
    let mine = mapping(vec![("a", leaf("x"))]);
    assert!(mine.conflict_with(&mapping(vec![("b", leaf("y"))])).is_none());
    assert!(mine.conflict_with(&mapping(vec![("a", leaf("x"))])).is_some());
    assert!(mine.conflict_with(&leaf("x")).is_some());
    assert_eq!(mine.kind(), TemplateKind::Mapping);
    assert_eq!(leaf("x").kind(), TemplateKind::Value);
    assert_eq!(list(vec![]).kind(), TemplateKind::Sequence);
}

#[test]
fn merging_is_associative() {
    let a = || mapping(vec![("x", list(vec![leaf("1")])), ("m", mapping(vec![("p", leaf("a"))]))]);
    let b = || mapping(vec![("x", list(vec![leaf("2")])), ("m", mapping(vec![("q", leaf("b"))]))]);
    let c = || mapping(vec![("x", list(vec![leaf("3")])), ("y", leaf("c"))]);
    let mut left = a();
    assert!(left.combine(b()).is_ok());
    assert!(left.combine(c()).is_ok());
    let mut later = b();
    assert!(later.combine(c()).is_ok());
    let mut right = a();
    assert!(right.combine(later).is_ok());
    assert!(same(&left, &right));
    let expected = mapping(vec![
        ("x", list(vec![leaf("1"), leaf("2"), leaf("3")])),
        ("m", mapping(vec![("p", leaf("a")), ("q", leaf("b"))])),
        ("y", leaf("c")),
    ]);
    assert!(same(&left, &expected));
}

#[test]
fn a_clone_is_the_same_value() {
    let value = mapping(vec![
        ("a", list(vec![leaf("1"), mapping(vec![("b", leaf("2"))])])),
        ("c", leaf("3")),
    ]);
    let copy = value.clone();
    assert!(same(&value, &copy));
    match &copy {
        TemplateValue::Mapping(map) => {
            assert_eq!(map.key_at(0).as_str(), "a");
            assert_eq!(map.key_at(1).as_str(), "c");
        }
        _ => panic!("the clone of a mapping is a mapping"),
    }
}

#[test]
fn comparison_of_leaves_and_kinds() {
    assert!(leaf("a") == leaf("a"));
    assert!(leaf("a") != leaf("b"));
    assert!(leaf("a") != list(vec![leaf("a")]));
    assert!(mapping(vec![]) != list(vec![]));
    assert!(mapping(vec![]) == mapping(vec![]));
}

#[test]
fn comparison_of_mappings_ignores_order() {
    let one = mapping(vec![("a", leaf("1")), ("b", leaf("2"))]);
    let two = mapping(vec![("b", leaf("2")), ("a", leaf("1"))]);
    assert!(one == two);
    assert!(two == one);
    let more = mapping(vec![("a", leaf("1")), ("b", leaf("2")), ("c", leaf("3"))]);
    assert!(one != more);
    assert!(more != one);
    let other = mapping(vec![("a", leaf("1")), ("b", leaf("x"))]);
    assert!(one != other);
}

#[test]
fn comparison_of_sequences_is_not_symmetric() {
    let small = list(vec![leaf("a")]);
    let large = list(vec![leaf("b"), leaf("a")]);
    assert!(small == large);
    assert!(large != small);
    assert!(list(vec![]) == large);
    assert!(large != list(vec![]));
    assert!(list(vec![leaf("a"), leaf("a")]) == small);
}

#[test]
fn comparison_of_nested_sequences_turns_around() {
    let new = list(vec![list(vec![leaf("a"), leaf("b")])]);
    let old = list(vec![list(vec![leaf("a")])]);
    assert!(new == old);
    assert!(old != new);
    assert!(compare(&old, &new, false));
    assert!(!compare(&new, &old, false));
}
