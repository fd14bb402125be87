use dotty::strmap::StrMap;
use dotty::strset::StrSet;

fn names(set: &StrSet) -> Vec<String> {
    set.items().clone()
}

#[test]
fn strmap_insert_replaces_in_place() {
    let mut map: StrMap<u8> = StrMap::new();
    assert!(map.is_empty());
    assert_eq!(map.insert("a".to_string(), 1), None);
    assert_eq!(map.insert("b".to_string(), 2), None);
    assert_eq!(map.insert("a".to_string(), 3), Some(1));
    assert_eq!(map.len(), 2);
    assert_eq!(map.key_at(0).as_str(), "a");
    assert_eq!(*map.value_at(0), 3);
    assert_eq!(map.key_at(1).as_str(), "b");
    assert_eq!(map.get("b"), Some(&2));
    assert_eq!(map.get("c"), None);
    assert!(map.contains_key("a"));
    assert!(!map.contains_key("A"));
    assert_eq!(map.position("b"), Some(1));
    assert_eq!(map.position("z"), None);
}

#[test]
fn strmap_remove_keeps_the_order_of_the_rest() {
    let mut map: StrMap<u8> = StrMap::new();
    map.insert("a".to_string(), 1);
    map.insert("b".to_string(), 2);
    map.insert("c".to_string(), 3);
    assert_eq!(map.remove("b"), Some(2));
    assert_eq!(map.remove("b"), None);
    assert_eq!(map.len(), 2);
    assert_eq!(map.key_at(0).as_str(), "a");
    assert_eq!(map.key_at(1).as_str(), "c");
}

#[test]
fn strmap_extend_lets_the_last_writer_win() {
    let mut left: StrMap<u8> = StrMap::new();
    left.insert("a".to_string(), 1);
    left.insert("b".to_string(), 2);
    let mut right: StrMap<u8> = StrMap::new();
    right.insert("c".to_string(), 30);
    right.insert("a".to_string(), 10);
    left.extend(right);
    assert_eq!(left.len(), 3);
    assert_eq!(left.key_at(0).as_str(), "a");
    assert_eq!(left.key_at(1).as_str(), "b");
    assert_eq!(left.key_at(2).as_str(), "c");
    assert_eq!(left.get("a"), Some(&10));
    assert_eq!(left.get("b"), Some(&2));
    assert_eq!(left.get("c"), Some(&30));
}

#[test]
fn strset_holds_each_item_once() {
    let mut set = StrSet::new();
    assert!(set.is_empty());
    assert!(set.insert("git".to_string()));
    assert!(set.insert("vim".to_string()));
    assert!(!set.insert("git".to_string()));
    assert_eq!(set.len(), 2);
    assert!(set.contains("vim"));
    assert!(!set.contains("emacs"));
    assert_eq!(set.item_at(1).as_str(), "vim");
    assert_eq!(names(&set), vec!["git".to_string(), "vim".to_string()]);
}

#[test]
fn strset_extend_is_the_union() {
    let mut left = StrSet::new();
    left.insert("git".to_string());
    left.insert("vim".to_string());
    let mut right = StrSet::new();
    right.insert("zsh".to_string());
    right.insert("git".to_string());
    left.extend(right);
    assert_eq!(
        names(&left),
        vec!["git".to_string(), "vim".to_string(), "zsh".to_string()]
    );
}

#[test]
fn strset_difference_keeps_order() {
    let mut left = StrSet::new();
    left.insert("vim".to_string());
    left.insert("git".to_string());
    left.insert("zsh".to_string());
    let mut right = StrSet::new();
    right.insert("git".to_string());
    let missing = left.difference(&right);
    assert_eq!(missing, vec!["vim".to_string(), "zsh".to_string()]);
    assert_eq!(right.difference(&left), Vec::<String>::new());
    assert_eq!(left.difference(&StrSet::new()).len(), 3);
}
