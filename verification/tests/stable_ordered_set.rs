use fuss_frontend::collections::stable_ordered_set::StableOrderedSet;

fn set_of(items: &[&str]) -> StableOrderedSet<String> {
    let mut s = StableOrderedSet::new();
    for i in items {
        s.insert(i.to_string());
    }
    s
}

fn items(s: &StableOrderedSet<String>) -> Vec<String> {
    s.iter().clone()
}

#[test]
fn insert_keeps_first_place_and_ignores_repeats() {
    let s = set_of(&["b", "a", "b"]);
    assert_eq!(s.len(), 2);
    assert_eq!(s.get_index(0), Some(&"b".to_string()));
    assert_eq!(s.get_index(1), Some(&"a".to_string()));
    assert_eq!(s.get_index(2), None);
    assert_eq!(s.get_index_of(&"a".to_string()), Some(1));
    assert_eq!(s.get_index_of(&"c".to_string()), None);
    assert!(s.contains(&"b".to_string()));
    assert!(!s.contains(&"c".to_string()));
}

#[test]
fn inserting_again_changes_nothing() {
    let mut s = set_of(&["x", "y"]);
    let before = items(&s);
    s.insert("y".to_string());
    s.insert("x".to_string());
    assert_eq!(items(&s), before);
    s.insert("z".to_string());
    assert_eq!(items(&s), vec!["x".to_string(), "y".to_string(), "z".to_string()]);
}

#[test]
fn union_and_difference_keep_order() {
    let a = set_of(&["a", "b", "c"]);
    let b = set_of(&["c", "d"]);
    assert_eq!(items(&a.union(&b)), vec!["a", "b", "c", "d"]);
    assert_eq!(items(&a.difference(&b)), vec!["a", "b"]);
    assert_eq!(items(&b.difference(&a)), vec!["d"]);
}

#[test]
fn from_vec_drops_repeats() {
    let s = StableOrderedSet::from_vec(vec!["x".to_string(), "y".to_string(), "x".to_string()]);
    assert_eq!(items(&s), vec!["x", "y"]);
    let c = s.clone_set();
    assert_eq!(c.into_iter(), vec!["x".to_string(), "y".to_string()]);
}

#[test]
fn get_index_mut_changes_an_item_in_place() {
    let mut s = set_of(&["p", "q"]);
    if let Some(item) = s.get_index_mut(1) {
        item.push('!');
    }
    assert_eq!(items(&s), vec!["p", "q!"]);
    assert!(s.get_index_mut(5).is_none());
}

#[test]
fn lookup_answers_by_the_inserted_member_after_a_change_in_place() {
    let mut s = set_of(&["p", "q"]);
    if let Some(item) = s.get_index_mut(1) {
        item.push('!');
    }
    assert!(s.contains(&"q".to_string()));
    assert!(!s.contains(&"q!".to_string()));
    assert_eq!(s.get_index_of(&"q".to_string()), Some(1));
    assert_eq!(s.get_index_of(&"q!".to_string()), None);
    assert_eq!(s.get_index(1), Some(&"q!".to_string()));
}
