use fuss_frontend::collections::stable_ordered_set::StableOrderedSet;
use fuss_frontend::frontend_v0::parser::lr1_automata_builder::{
    construct_first_for_state, construct_follow_for_state, LR0ParserItem,
};
use fuss_frontend::frontend_v0::parser::symbol_sets::SymbolSets;

fn alphabet(names: &[&str]) -> StableOrderedSet<String> {
    let mut s = StableOrderedSet::new();
    for n in names {
        s.insert(n.to_string());
    }
    s
}

fn item(source: &str, marker_pos: usize, production: &[&str], rule_id: usize) -> LR0ParserItem {
    LR0ParserItem {
        source: source.to_string(),
        marker_pos,
        production: production.iter().map(|x| x.to_string()).collect(),
        rule_id,
    }
}

fn set_of(sets: &SymbolSets, key: &str) -> Option<Vec<String>> {
    let i = sets.index_of(&key.to_string())?;
    let mut v: Vec<String> = sets.set_at(i).iter().clone();
    v.sort();
    Some(v)
}

#[test]
fn first_needs_repeated_passes_and_reaches_every_source() {
    let a = alphabet(&["a"]);
    let items = vec![item("B", 0, &["a"], 0), item("A", 0, &["B"], 1), item("S", 0, &["A"], 2)];
    let first = construct_first_for_state(&a, &items);
    for k in ["a", "B", "A", "S"] {
        assert_eq!(set_of(&first, k), Some(vec!["a".to_string()]));
    }
    assert_eq!(first.len(), 4);
    assert_eq!(set_of(&first, "x"), None);
}

#[test]
fn first_of_left_recursive_rule_is_the_least() {
    let a = alphabet(&["x", "y"]);
    let items = vec![item("A", 0, &["A", "x"], 0), item("A", 0, &["y"], 1)];
    let first = construct_first_for_state(&a, &items);
    assert_eq!(set_of(&first, "A"), Some(vec!["y".to_string()]));
    assert_eq!(set_of(&first, "x"), Some(vec!["x".to_string()]));
    assert_eq!(first.len(), 3);
}

#[test]
fn follow_is_the_least_over_the_first_sets() {
    let a = alphabet(&["x", "y", "EOF"]);
    // S -> . A EOF, A -> . A x, A -> . y
    let items = vec![item("S", 0, &["A", "EOF"], 0), item("A", 0, &["A", "x"], 1), item("A", 0, &["y"], 2)];
    let follow = construct_follow_for_state(&a, SymbolSets::new(), &items);
    assert_eq!(set_of(&follow, "A"), Some(vec!["EOF".to_string(), "x".to_string()]));
    assert_eq!(set_of(&follow, "y"), Some(vec!["EOF".to_string(), "x".to_string()]));
    assert_eq!(set_of(&follow, "S"), None);
}
