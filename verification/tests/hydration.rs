use fuss_frontend::collections::stable_ordered_set::StableOrderedSet;
use fuss_frontend::frontend_v0::parser::hydration::{dehydrate_state, hydrate_state};
use fuss_frontend::frontend_v0::parser::lr1_automata_builder::LR1ParserItem;

fn item(source: &str, marker: usize, production: &[&str], lookahead: &[&str]) -> LR1ParserItem {
    let mut la = StableOrderedSet::new();
    for x in lookahead {
        la.insert(x.to_string());
    }
    LR1ParserItem {
        source: source.to_string(),
        marker_pos: marker,
        production: production.iter().map(|x| x.to_string()).collect(),
        lookahead: la,
        rule_id: 0,
    }
}

fn describe(items: &[LR1ParserItem]) -> Vec<(String, usize, Vec<String>)> {
    items.iter().map(|i| (i.source.clone(), i.marker_pos, i.lookahead.iter().clone())).collect()
}

#[test]
fn dehydrated_state_reads_back_with_its_items() {
    let mut all = StableOrderedSet::new();
    let state = vec![item("c", 0, &["D"], &["Y"]), item("a", 0, &["B"], &["X"])];
    let ids = dehydrate_state(state, &mut all);
    assert_eq!(ids, vec![0, 1]);
    let back = hydrate_state(&ids, &all);
    assert_eq!(
        describe(&back),
        vec![("c".to_string(), 0, vec!["Y".to_string()]), ("a".to_string(), 0, vec!["X".to_string()])]
    );
    let again = dehydrate_state(vec![item("a", 0, &["B"], &["Z"]), item("a", 1, &["B"], &[])], &mut all);
    assert_eq!(again, vec![1, 2]);
    let back = hydrate_state(&again, &all);
    assert_eq!(
        describe(&back),
        vec![("a".to_string(), 0, vec!["X".to_string(), "Z".to_string()]), ("a".to_string(), 1, vec![])]
    );
    assert_eq!(all.len(), 3);
}
