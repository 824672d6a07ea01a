use crate::collections::stable_ordered_set::{SetItem, StableOrderedSet};
use crate::frontend_v0::parser::symbol_sets::{
    lemma_difference_to_set, lemma_inserted_all_to_set, lemma_inserted_to_set, lemma_string_set_len,
    SymbolSets,
};
use crate::frontend_v0::parser::parser_grammar::{ParserGrammar, RuleView};
use crate::text::{clone_strings, opt_str, strings_equal, strs};
use vstd::prelude::*;
use vstd::seq_lib::seq_to_set_is_finite;

verus! {

/// An LR(0) item: a rule of the grammar with a marker before the symbol that
/// is to come next.
pub struct LR0ParserItem {
    pub source: String,
    pub marker_pos: usize,
    pub production: Vec<String>,
    pub rule_id: usize,
}

/// An LR(1) item: an LR(0) item with the symbols that may follow it.  Two
/// items with the same source, marker and production are the same item,
/// whatever their lookaheads and rule numbers.
pub struct LR1ParserItem {
    pub source: String,
    pub marker_pos: usize,
    pub production: Vec<String>,
    pub lookahead: StableOrderedSet<String>,
    pub rule_id: usize,
}

/// What the parser does on a token: shift it and go to a state, or reduce by
/// a rule of the grammar.
#[derive(Clone, Copy, PartialEq, Eq, Structural, Debug)]
pub enum LR1ParserAction {
    /// Shift the token and go to the state with this number.
    Shift(usize),
    /// Reduce by the rule with this number.
    Reduce(usize),
}

/// The view of an LR(0) item.
pub struct ItemCore {
    pub source: Seq<char>,
    pub marker_pos: nat,
    pub production: Seq<Seq<char>>,
    pub rule_id: nat,
}

/// The view of an LR(1) item.
pub struct Lr1View {
    pub core: ItemCore,
    pub lookahead: Seq<Seq<char>>,
}

impl View for LR0ParserItem {
    type V = ItemCore;

    open spec fn view(&self) -> ItemCore {
        ItemCore {
            source: self.source@,
            marker_pos: self.marker_pos as nat,
            production: strs(self.production@),
            rule_id: self.rule_id as nat,
        }
    }
}

impl View for LR1ParserItem {
    type V = Lr1View;

    open spec fn view(&self) -> Lr1View {
        Lr1View {
            core: ItemCore {
                source: self.source@,
                marker_pos: self.marker_pos as nat,
                production: strs(self.production@),
                rule_id: self.rule_id as nat,
            },
            lookahead: self.lookahead@,
        }
    }
}

/// The symbol after the marker, if the marker is not at the end.
pub open spec fn next_symbol(c: ItemCore) -> Option<Seq<char>> {
    if c.marker_pos < c.production.len() {
        Some(c.production[c.marker_pos as int])
    } else {
        None
    }
}

/// Two items are the same item: same source, marker and production.
pub open spec fn same_core(a: ItemCore, b: ItemCore) -> bool {
    a.source == b.source && a.marker_pos == b.marker_pos && a.production == b.production
}

/// The item of rule `rule_id` with the marker at the start.
pub open spec fn rule_start_item(rules: Seq<RuleView>, rule_id: int) -> ItemCore {
    ItemCore {
        source: rules[rule_id].name,
        marker_pos: 0,
        production: rules[rule_id].production,
        rule_id: rule_id as nat,
    }
}

/// `c` is an item of rule `c.rule_id` of `rules`.
pub open spec fn item_of_rules(rules: Seq<RuleView>, c: ItemCore) -> bool {
    &&& c.rule_id < rules.len()
    &&& c.source == rules[c.rule_id as int].name
    &&& c.production == rules[c.rule_id as int].production
    &&& c.marker_pos <= c.production.len()
}

impl SetItem for LR1ParserItem {
    open spec fn same_as(a: Lr1View, b: Lr1View) -> bool {
        same_core(a.core, b.core)
    }

    proof fn lemma_same_as_equivalence() {
    }

    fn is_same(&self, other: &Self) -> (r: bool) {
        self.source == other.source && self.marker_pos == other.marker_pos && strings_equal(
            &self.production,
            &other.production,
        )
    }

    fn duplicate(&self) -> (r: Self)
        ensures
            r.lookahead.wf() == self.lookahead.wf(),
    {
        LR1ParserItem {
            source: self.source.clone(),
            marker_pos: self.marker_pos,
            production: clone_strings(&self.production),
            lookahead: self.lookahead.clone_set(),
            rule_id: self.rule_id,
        }
    }
}

impl LR0ParserItem {
    pub fn clone_item(&self) -> (r: LR0ParserItem)
        ensures
            r@ == self@,
    {
        LR0ParserItem {
            source: self.source.clone(),
            marker_pos: self.marker_pos,
            production: clone_strings(&self.production),
            rule_id: self.rule_id,
        }
    }

    /// The LR(1) item with this core and the given lookaheads.
    pub fn to_lr1(&self, lookaheads: &StableOrderedSet<String>) -> (r: LR1ParserItem)
        ensures
            r@.core == self@,
            r@.lookahead == lookaheads@,
            r.lookahead.wf() == lookaheads.wf(),
    {
        LR1ParserItem {
            source: self.source.clone(),
            marker_pos: self.marker_pos,
            production: clone_strings(&self.production),
            rule_id: self.rule_id,
            lookahead: lookaheads.clone_set(),
        }
    }

    pub fn get_next_token(&self) -> (r: Option<String>)
        ensures
            opt_str(r) == next_symbol(self@),
    {
        if self.marker_pos < self.production.len() {
            return Some(self.production[self.marker_pos].clone());
        }
        None
    }
}

impl LR1ParserItem {
    /// The LR(0) item of this item, without its lookaheads.
    pub fn to_lr0(&self) -> (r: LR0ParserItem)
        ensures
            r@ == self@.core,
    {
        LR0ParserItem {
            source: self.source.clone(),
            marker_pos: self.marker_pos,
            production: clone_strings(&self.production),
            rule_id: self.rule_id,
        }
    }

    pub fn get_next_token(&self) -> (r: Option<String>)
        ensures
            opt_str(r) == next_symbol(self@.core),
    {
        if self.marker_pos < self.production.len() {
            return Some(self.production[self.marker_pos].clone());
        }
        None
    }

    /// The item with the marker moved past `token`, when `token` comes next.
    pub fn consume_token(&self, token: &String) -> (r: Option<LR1ParserItem>)
        ensures
            next_symbol(self@.core) == Some(token@) <==> r is Some,
            r matches Some(x) ==> x@ == (Lr1View {
                core: ItemCore { marker_pos: self@.core.marker_pos + 1, ..self@.core },
                lookahead: self@.lookahead,
            }),
            r matches Some(x) ==> x.lookahead.wf() == self.lookahead.wf(),
    {
        let next_token = self.get_next_token();
        match next_token {
            None => None,
            Some(next) => {
                if next != *token {
                    return None;
                }
                assert(self.marker_pos < self.production.len());
                Some(
                    LR1ParserItem {
                        source: self.source.clone(),
                        production: clone_strings(&self.production),
                        rule_id: self.rule_id,
                        lookahead: self.lookahead.clone_set(),
                        marker_pos: self.marker_pos + 1,
                    },
                )
            },
        }
    }
}

/// The views of a list of LR(0) items.
pub open spec fn lr0_views(v: Seq<LR0ParserItem>) -> Seq<ItemCore> {
    v.map_values(|x: LR0ParserItem| x@)
}

/// `state` holds the start item of rule `rule_id`.
pub open spec fn holds_rule_start(state: Seq<ItemCore>, rules: Seq<RuleView>, rule_id: int) -> bool {
    exists|i: int| 0 <= i < state.len() && state[i] == rule_start_item(rules, rule_id)
}

/// The symbol that comes next in `c`, if any, is in `alphabet` or in `seen`.
pub open spec fn next_is_known(alphabet: Seq<Seq<char>>, seen: Seq<Seq<char>>, c: ItemCore) -> bool {
    match next_symbol(c) {
        Some(x) => alphabet.contains(x) || seen.contains(x),
        None => true,
    }
}

/// The LR(0) closure of `known`: `known` followed by the start items of the
/// rules of every non-terminal (a symbol outside `alphabet`) that comes next
/// in an item of the state, each rule once.
pub open spec fn is_lr0_closure(
    alphabet: Seq<Seq<char>>,
    rules: Seq<RuleView>,
    known: Seq<ItemCore>,
    state: Seq<ItemCore>,
) -> bool {
    &&& known.len() <= state.len() <= known.len() + rules.len()
    &&& state.take(known.len() as int) == known
    // every added item starts a rule of a non-terminal that comes next in the state
    &&& forall|i: int|
        known.len() <= i < state.len() ==> {
            &&& (#[trigger] state[i]) == rule_start_item(rules, state[i].rule_id as int)
            &&& state[i].rule_id < rules.len()
            &&& !alphabet.contains(state[i].source)
            &&& exists|j: int| 0 <= j < state.len() && next_symbol(#[trigger] state[j]) == Some(state[i].source)
        }
    // no rule is added twice
    &&& forall|i: int, j: int|
        known.len() <= i < state.len() && known.len() <= j < state.len() && i != j ==> (#[trigger] state[i]).rule_id
            != (#[trigger] state[j]).rule_id
    // the state is closed
    &&& forall|j: int, r: int|
        0 <= j < state.len() && 0 <= r < rules.len() && next_symbol(#[trigger] state[j]) == Some(
            #[trigger] rules[r].name,
        ) && !alphabet.contains(rules[r].name) ==> holds_rule_start(state, rules, r)
}

proof fn lemma_distinct_ids_bound(state: Seq<ItemCore>, from: int, bound: nat)
    requires
        0 <= from <= state.len(),
        forall|i: int| from <= i < state.len() ==> (#[trigger] state[i]).rule_id < bound,
        forall|i: int, j: int|
            from <= i < state.len() && from <= j < state.len() && i != j ==> (#[trigger] state[i]).rule_id
                != (#[trigger] state[j]).rule_id,
    ensures
        state.len() - from <= bound,
{
    let ids = state.skip(from).map_values(|c: ItemCore| c.rule_id as int);
    assert forall|a: int, b: int| 0 <= a < ids.len() && 0 <= b < ids.len() && a != b implies ids[a] != ids[b] by {
        assert(state[from + a] == state.skip(from)[a]);
        assert(state[from + b] == state.skip(from)[b]);
    }
    vstd::set_lib::lemma_int_range(0, bound as int);
    assert forall|a: int| 0 <= a < ids.len() implies vstd::set_lib::set_int_range(0, bound as int).contains(
        #[trigger] ids[a],
    ) by {
        assert(state[from + a] == state.skip(from)[a]);
    }
    crate::frontend_v0::parser::symbol_sets::lemma_distinct_in_set_len(
        ids,
        vstd::set_lib::set_int_range(0, bound as int),
    );
}

/// Whether the alphabet holds `symbol`.
fn alphabet_contains(alphabet: &StableOrderedSet<String>, symbol: &String) -> (r: bool)
    requires
        alphabet.wf(),
    ensures
        r == alphabet@.contains(symbol@),
{
    let r = alphabet.contains(symbol);
    proof {
        if alphabet@.contains(symbol@) {
            let i = choose|i: int| 0 <= i < alphabet@.len() && alphabet@[i] == symbol@;
            assert(String::same_as(alphabet@[i], symbol@));
        }
    }
    r
}

/// The items from `from` on are start items of rules named in `names`.
pub open spec fn added_items_ok(rules: Seq<RuleView>, from: int, state: Seq<ItemCore>, names: Seq<Seq<char>>) -> bool {
    forall|i: int|
        from <= i < state.len() ==> {
            &&& (#[trigger] state[i]) == rule_start_item(rules, state[i].rule_id as int)
            &&& state[i].rule_id < rules.len()
            &&& names.contains(state[i].source)
        }
}

/// The items from `from` on belong to different rules.
pub open spec fn distinct_rules_from(from: int, state: Seq<ItemCore>) -> bool {
    forall|i: int, j: int|
        from <= i < state.len() && from <= j < state.len() && i != j ==> (#[trigger] state[i]).rule_id
            != (#[trigger] state[j]).rule_id
}

/// Each name in `seen` is a non-terminal that comes next in an item of `state`.
pub open spec fn seen_justified(alphabet: Seq<Seq<char>>, seen: Seq<Seq<char>>, state: Seq<ItemCore>) -> bool {
    forall|k: int|
        0 <= k < seen.len() ==> {
            &&& !alphabet.contains(#[trigger] seen[k])
            &&& exists|j: int| 0 <= j < state.len() && next_symbol(#[trigger] state[j]) == Some(seen[k])
        }
}

/// Every rule named in `names` has its start item in `state`.
pub open spec fn names_complete(rules: Seq<RuleView>, names: Seq<Seq<char>>, state: Seq<ItemCore>) -> bool {
    forall|k: int, r: int|
        0 <= k < names.len() && 0 <= r < rules.len() && #[trigger] rules[r].name == #[trigger] names[k]
            ==> holds_rule_start(state, rules, r)
}

/// The symbols that come next in the first `n` items are known.
pub open spec fn scanned(alphabet: Seq<Seq<char>>, seen: Seq<Seq<char>>, state: Seq<ItemCore>, n: int) -> bool {
    forall|j: int| 0 <= j < n ==> next_is_known(alphabet, seen, #[trigger] state[j])
}

proof fn lemma_grow_state(
    alphabet: Seq<Seq<char>>,
    rules: Seq<RuleView>,
    seen: Seq<Seq<char>>,
    names: Seq<Seq<char>>,
    state: Seq<ItemCore>,
    state2: Seq<ItemCore>,
    n: int,
)
    requires
        state.len() <= state2.len(),
        state2.take(state.len() as int) == state,
        0 <= n <= state.len(),
    ensures
        seen_justified(alphabet, seen, state) ==> seen_justified(alphabet, seen, state2),
        names_complete(rules, names, state) ==> names_complete(rules, names, state2),
        scanned(alphabet, seen, state, n) ==> scanned(alphabet, seen, state2, n),
        forall|r: int| holds_rule_start(state, rules, r) ==> holds_rule_start(state2, rules, r),
{
    assert forall|j: int| 0 <= j < state.len() implies state2[j] == state[j] by {
        assert(state2.take(state.len() as int)[j] == state2[j]);
    }
    if seen_justified(alphabet, seen, state) {
        assert forall|k: int| 0 <= k < seen.len() implies {
            &&& !alphabet.contains(#[trigger] seen[k])
            &&& exists|j: int| 0 <= j < state2.len() && next_symbol(#[trigger] state2[j]) == Some(seen[k])
        } by {
            let j = choose|j: int| 0 <= j < state.len() && next_symbol(#[trigger] state[j]) == Some(seen[k]);
            assert(state2[j] == state[j]);
        }
    }
    assert forall|r: int| holds_rule_start(state, rules, r) implies holds_rule_start(state2, rules, r) by {
        let i = choose|i: int| 0 <= i < state.len() && state[i] == rule_start_item(rules, r);
        assert(state2[i] == state[i]);
    }
    if scanned(alphabet, seen, state, n) {
        assert forall|j: int| 0 <= j < n implies next_is_known(alphabet, seen, #[trigger] state2[j]) by {
            assert(state2[j] == state[j]);
        }
    }
}

proof fn lemma_grow_seen(
    alphabet: Seq<Seq<char>>,
    seen: Seq<Seq<char>>,
    seen2: Seq<Seq<char>>,
    state: Seq<ItemCore>,
    n: int,
)
    requires
        seen.len() <= seen2.len(),
        seen2.take(seen.len() as int) == seen,
    ensures
        scanned(alphabet, seen, state, n) ==> scanned(alphabet, seen2, state, n),
        forall|x: Seq<char>| seen.contains(x) ==> seen2.contains(x),
{
    assert forall|x: Seq<char>| seen.contains(x) implies seen2.contains(x) by {
        let k = choose|k: int| 0 <= k < seen.len() && seen[k] == x;
        assert(seen2.take(seen.len() as int)[k] == seen2[k]);
    }
}

/// Adds to the items `known` the start items of the rules of every
/// non-terminal that comes next in the state, until nothing more comes.
pub fn construct_lr0_state(
    token_alphabet: &StableOrderedSet<String>,
    grammar: &ParserGrammar,
    known_items: Vec<LR0ParserItem>,
) -> (r: Vec<LR0ParserItem>)
    requires
        token_alphabet.wf(),
    ensures
        is_lr0_closure(token_alphabet@, grammar.spec_rules(), lr0_views(known_items@), lr0_views(r@)),
{
    let ghost alphabet = token_alphabet@;
    let ghost rules = grammar.spec_rules();
    let ghost known = lr0_views(known_items@);
    let known_len = known_items.len();
    let n_rules = grammar.rules.len();
    let mut state = known_items;
    let mut prev_size: usize = 0;
    let mut seen: StableOrderedSet<String> = StableOrderedSet::new();
    while prev_size != state.len()
        invariant
            token_alphabet.wf(),
            seen.wf(),
            alphabet == token_alphabet@,
            rules == grammar.spec_rules(),
            n_rules == rules.len(),
            known_len == known.len(),
            known.len() <= state@.len(),
            prev_size <= state@.len(),
            lr0_views(state@).take(known.len() as int) == known,
            added_items_ok(rules, known.len() as int, lr0_views(state@), seen@),
            distinct_rules_from(known.len() as int, lr0_views(state@)),
            seen_justified(alphabet, seen@, lr0_views(state@)),
            names_complete(rules, seen@, lr0_views(state@)),
            scanned(alphabet, seen@, lr0_views(state@), prev_size as int),
        decreases (n_rules + known_len - state@.len()) * 2 + if prev_size != state@.len() {
            1int
        } else {
            0int
        },
    {
        proof {
            lemma_distinct_ids_bound(lr0_views(state@), known.len() as int, rules.len());
        }
        prev_size = state.len();
        let mut queue: StableOrderedSet<String> = StableOrderedSet::new();
        let ghost seen_before = seen@;
        let ghost sv = lr0_views(state@);
        assert(seen@ =~= seen_before + queue@);
        let mut i: usize = 0;
        while i < state.len()
            invariant
                token_alphabet.wf(),
                seen.wf(),
                queue.wf(),
                alphabet == token_alphabet@,
                sv == lr0_views(state@),
                i <= sv.len(),
                prev_size == sv.len(),
                seen@ == seen_before + queue@,
                forall|k: int| 0 <= k < queue@.len() ==> !seen_before.contains(#[trigger] queue@[k]),
                seen_justified(alphabet, seen@, sv),
                scanned(alphabet, seen@, sv, i as int),
            decreases sv.len() - i,
        {
            let next_token = state[i].get_next_token();
            assert(sv[i as int] == state@[i as int]@);
            match next_token {
                None => {},
                Some(current_token) => {
                    let in_alphabet = alphabet_contains(token_alphabet, &current_token);
                    let in_seen = seen.contains(&current_token);
                    if !in_alphabet && !in_seen {
                        let ghost old_seen = seen@;
                        let ghost old_queue = queue@;
                        proof {
                            if queue.spec_contains(current_token@) {
                                let k = choose|k: int| 0 <= k < queue@.len() && String::same_as(#[trigger] queue@[k], current_token@);
                                assert(seen@[seen_before.len() + k] == queue@[k]);
                                assert(String::same_as(seen@[seen_before.len() + k], current_token@));
                            }
                        }
                        queue.insert(current_token.clone());
                        seen.insert(current_token);
                        proof {
                            assert(queue@ == old_queue.push(current_token@));
                            assert(seen@ == old_seen.push(current_token@));
                            assert(seen@ =~= seen_before + queue@);
                            assert forall|k: int| 0 <= k < queue@.len() implies !seen_before.contains(#[trigger] queue@[k]) by {
                                if k == old_queue.len() {
                                    if seen_before.contains(queue@[k]) {
                                        let m = choose|m: int| 0 <= m < seen_before.len() && seen_before[m] == queue@[k];
                                        assert(old_seen[m] == seen_before[m]);
                                        assert(String::same_as(old_seen[m], current_token@));
                                    }
                                } else {
                                    assert(queue@[k] == old_queue[k]);
                                }
                            }
                            assert forall|k: int| 0 <= k < seen@.len() implies {
                                &&& !alphabet.contains(#[trigger] seen@[k])
                                &&& exists|j: int| 0 <= j < sv.len() && next_symbol(#[trigger] sv[j]) == Some(seen@[k])
                            } by {
                                if k == old_seen.len() {
                                    assert(next_symbol(sv[i as int]) == Some(seen@[k]));
                                } else {
                                    assert(seen@[k] == old_seen[k]);
                                }
                            }
                            assert(seen@.take(old_seen.len() as int) =~= old_seen);
                            lemma_grow_seen(alphabet, old_seen, seen@, sv, i as int);
                            assert(seen@[old_seen.len() as int] == current_token@);
                        }
                    } else {
                        proof {
                            if !in_alphabet {
                                let k = choose|k: int| 0 <= k < seen@.len() && String::same_as(#[trigger] seen@[k], current_token@);
                                assert(seen@.contains(current_token@));
                            }
                        }
                    }
                },
            }
            i += 1;
        }
        let ghost seen_scanned = seen@;
        // add the rules of the names in the queue
        let mut q: usize = 0;
        while q < queue.len()
            invariant
                token_alphabet.wf(),
                seen.wf(),
                queue.wf(),
                alphabet == token_alphabet@,
                rules == grammar.spec_rules(),
                n_rules == rules.len(),
                known_len == known.len(),
                q <= queue@.len(),
                seen@ == seen_before + queue@,
                prev_size <= state@.len(),
                known.len() <= prev_size,
                lr0_views(state@).take(known.len() as int) == known,
                forall|k: int| 0 <= k < queue@.len() ==> !seen_before.contains(#[trigger] queue@[k]),
                added_items_ok(rules, known.len() as int, lr0_views(state@), seen_before + queue@.take(q as int)),
                distinct_rules_from(known.len() as int, lr0_views(state@)),
                seen_justified(alphabet, seen@, lr0_views(state@)),
                names_complete(rules, seen_before + queue@.take(q as int), lr0_views(state@)),
                scanned(alphabet, seen@, lr0_views(state@), prev_size as int),
            decreases queue@.len() - q,
        {
            proof {
                queue.lemma_view();
            }
            let name = &queue.iter()[q];
            assert(name@ == queue@[q as int]);
            let mut r_idx: usize = 0;
            let ghost state_before = lr0_views(state@);
            let ghost names_before = seen_before + queue@.take(q as int);
            assert(lr0_views(state@).take(state_before.len() as int) =~= state_before);
            while r_idx < grammar.rules.len()
                invariant
                    rules == grammar.spec_rules(),
                    n_rules == rules.len(),
                    q < queue@.len(),
                    name@ == queue@[q as int],
                    r_idx <= rules.len(),
                    state_before.len() <= state@.len(),
                    lr0_views(state@).take(state_before.len() as int) == state_before,
                    forall|i: int|
                        state_before.len() <= i < state@.len() ==> {
                            &&& (#[trigger] lr0_views(state@)[i]) == rule_start_item(rules, lr0_views(state@)[i].rule_id as int)
                            &&& lr0_views(state@)[i].rule_id < r_idx
                            &&& lr0_views(state@)[i].source == name@
                        },
                    forall|i: int, j: int|
                        state_before.len() <= i < j < state@.len() ==> (#[trigger] lr0_views(state@)[i]).rule_id
                            < (#[trigger] lr0_views(state@)[j]).rule_id,
                    forall|r: int| 0 <= r < r_idx && rules[r].name == name@ ==> holds_rule_start(lr0_views(state@), rules, r),
                decreases rules.len() - r_idx,
            {
                let rule = &grammar.rules[r_idx];
                assert(rules[r_idx as int] == rule.spec_view());
                if rule.name == *name {
                    let ghost before = lr0_views(state@);
                    let item = LR0ParserItem {
                        source: rule.name.clone(),
                        production: clone_strings(&rule.production),
                        marker_pos: 0,
                        rule_id: r_idx,
                    };
                    state.push(item);
                    proof {
                        assert(lr0_views(state@) =~= before.push(item@));
                        assert(item@ == rule_start_item(rules, r_idx as int));
                        assert(lr0_views(state@).take(before.len() as int) =~= before);
                        assert(lr0_views(state@).take(state_before.len() as int) =~= state_before) by {
                            assert(before.take(state_before.len() as int) == state_before);
                        }
                        lemma_grow_state(alphabet, rules, seen@, names_before, before, lr0_views(state@), 0);
                        assert(lr0_views(state@)[before.len() as int] == rule_start_item(rules, r_idx as int));
                    }
                }
                r_idx += 1;
            }
            proof {
                let sv2 = lr0_views(state@);
                let names_after = seen_before + queue@.take(q + 1);
                assert(names_after =~= names_before.push(queue@[q as int]));
                lemma_grow_state(alphabet, rules, seen@, names_before, state_before, sv2, prev_size as int);
                assert forall|i: int| known.len() <= i < sv2.len() implies {
                    &&& (#[trigger] sv2[i]) == rule_start_item(rules, sv2[i].rule_id as int)
                    &&& sv2[i].rule_id < rules.len()
                    &&& names_after.contains(sv2[i].source)
                } by {
                    if i < state_before.len() {
                        assert(sv2[i] == state_before[i]);
                        let m = choose|m: int| 0 <= m < names_before.len() && names_before[m] == state_before[i].source;
                        assert(names_after[m] == names_before[m]);
                    } else {
                        assert(names_after[names_before.len() as int] == queue@[q as int]);
                    }
                }
                assert forall|i: int, j: int|
                    known.len() <= i < sv2.len() && known.len() <= j < sv2.len() && i != j implies (#[trigger] sv2[i]).rule_id
                        != (#[trigger] sv2[j]).rule_id by {
                    if i < state_before.len() && j < state_before.len() {
                        assert(sv2[i] == state_before[i] && sv2[j] == state_before[j]);
                    } else if i < state_before.len() || j < state_before.len() {
                        let (o, n) = if i < state_before.len() { (i, j) } else { (j, i) };
                        assert(sv2[o] == state_before[o]);
                        if sv2[o].rule_id == sv2[n].rule_id {
                            assert(sv2[o].source == sv2[n].source);
                            let m = choose|m: int| 0 <= m < names_before.len() && names_before[m] == state_before[o].source;
                            if m < seen_before.len() {
                                assert(seen_before.contains(queue@[q as int]));
                            } else {
                                assert(names_before[m] == queue@[m - seen_before.len()]);
                                assert(!String::same_as(queue@[m - seen_before.len()], queue@[q as int]));
                            }
                        }
                    } else if i < j {
                        assert(sv2[i].rule_id < sv2[j].rule_id);
                    } else {
                        assert(sv2[j].rule_id < sv2[i].rule_id);
                    }
                }
                assert forall|k: int, r: int|
                    0 <= k < names_after.len() && 0 <= r < rules.len() && #[trigger] rules[r].name
                        == #[trigger] names_after[k] implies holds_rule_start(sv2, rules, r) by {
                    if k < names_before.len() {
                        assert(names_after[k] == names_before[k]);
                    } else {
                        assert(names_after[k] == queue@[q as int]);
                    }
                }
            }
            q += 1;
        }
        proof {
            let sv2 = lr0_views(state@);
            assert(queue@.take(queue@.len() as int) =~= queue@);
            assert(seen_before + queue@ == seen@);
            lemma_distinct_ids_bound(sv2, known.len() as int, rules.len());
        }
    }
    proof {
        let sv2 = lr0_views(state@);
        lemma_distinct_ids_bound(sv2, known.len() as int, rules.len());
        assert forall|j: int, r: int|
            0 <= j < sv2.len() && 0 <= r < rules.len() && next_symbol(#[trigger] sv2[j]) == Some(
                #[trigger] rules[r].name,
            ) && !alphabet.contains(rules[r].name) implies holds_rule_start(sv2, rules, r) by {
            assert(next_is_known(alphabet, seen@, sv2[j]));
            let k = choose|k: int| 0 <= k < seen@.len() && seen@[k] == rules[r].name;
        }
        assert forall|i: int| known.len() <= i < sv2.len() implies {
            &&& !alphabet.contains((#[trigger] sv2[i]).source)
            &&& exists|j: int| 0 <= j < sv2.len() && next_symbol(#[trigger] sv2[j]) == Some(sv2[i].source)
        } by {
            let k = choose|k: int| 0 <= k < seen@.len() && seen@[k] == sv2[i].source;
        }
    }
    state
}
/// The symbols of `set` that are not in `alphabet`, in order.
fn filter_nonterminals(alphabet: &StableOrderedSet<String>, set: &StableOrderedSet<String>) -> (r: StableOrderedSet<String>)
    requires
        alphabet.wf(),
        set.wf(),
    ensures
        r.wf(),
        r@.to_set() == set@.to_set().filter(|x: Seq<char>| !alphabet@.contains(x)),
{
    let mut r: StableOrderedSet<String> = StableOrderedSet::new();
    proof {
        set.lemma_view();
    }
    let items = set.iter();
    let mut i: usize = 0;
    while i < items.len()
        invariant
            alphabet.wf(),
            r.wf(),
            set@ == items@.map_values(|x: String| x@),
            i <= items@.len(),
            r@.to_set() == set@.take(i as int).to_set().filter(|x: Seq<char>| !alphabet@.contains(x)),
        decreases items@.len() - i,
    {
        let x = &items[i];
        let ghost before = r@;
        if !alphabet_contains(alphabet, x) {
            r.insert(x.clone());
            proof {
                lemma_inserted_to_set(before, x@);
            }
        }
        proof {
            assert(set@.take(i + 1) =~= set@.take(i as int).push(set@[i as int]));
            assert(set@[i as int] == x@);
            assert(set@.take(i + 1).to_set() =~= set@.take(i as int).to_set().insert(x@)) by {
                let t = set@.take(i + 1);
                assert forall|y: Seq<char>| t.contains(y) implies set@.take(i as int).to_set().insert(x@).contains(y) by {
                    let k = choose|k: int| 0 <= k < t.len() && t[k] == y;
                    if k < i {
                        assert(set@.take(i as int)[k] == y);
                    }
                }
                assert forall|y: Seq<char>| set@.take(i as int).contains(y) implies t.contains(y) by {
                    let k = choose|k: int| 0 <= k < i && set@.take(i as int)[k] == y;
                    assert(t[k] == y);
                }
                assert(t[i as int] == x@);
            }
            assert(r@.to_set() =~= set@.take(i + 1).to_set().filter(|x: Seq<char>| !alphabet@.contains(x)));
        }
        i += 1;
    }
    assert(set@.take(items@.len() as int) =~= set@);
    r
}

/// FIRST of a non-terminal `symbol`: the set that `first` holds for it, found
/// by replacing non-terminals with their sets until none is left.
fn first_of_nonterminal(
    alphabet: &StableOrderedSet<String>,
    first: &SymbolSets,
    symbol: &String,
) -> (r: StableOrderedSet<String>)
    requires
        alphabet.wf(),
        first.wf(),
        !alphabet@.contains(symbol@),
        forall|k: Seq<char>, x: Seq<char>| #[trigger] first.get(k).contains(x) ==> alphabet@.contains(x),
    ensures
        r.wf(),
        r@.to_set() == first.get(symbol@),
{
    let mut intermediate: StableOrderedSet<String> = StableOrderedSet::new();
    intermediate.insert(symbol.clone());
    let mut non_terminals = filter_nonterminals(alphabet, &intermediate);
    proof {
        lemma_inserted_to_set(Seq::empty(), symbol@);
        assert(Seq::<Seq<char>>::empty().to_set() =~= Set::<Seq<char>>::empty());
        assert(intermediate@.to_set() =~= set![symbol@]);
        assert(non_terminals@.to_set() =~= set![symbol@]);
    }
    while non_terminals.len() > 0
        invariant
            alphabet.wf(),
            first.wf(),
            intermediate.wf(),
            non_terminals.wf(),
            !alphabet@.contains(symbol@),
            forall|k: Seq<char>, x: Seq<char>| #[trigger] first.get(k).contains(x) ==> alphabet@.contains(x),
            (intermediate@.to_set() == set![symbol@] && non_terminals@.to_set() == set![symbol@]) || (
            intermediate@.to_set() == first.get(symbol@) && non_terminals@.len() == 0),
        decreases non_terminals@.len(),
    {
        proof {
            lemma_string_set_len(non_terminals@);
            assert(non_terminals@.to_set() == set![symbol@]);
            assert(non_terminals@.len() == 1) by {
                assert(set![symbol@].len() == 1);
            }
            assert(non_terminals@.contains(symbol@)) by {
                assert(non_terminals@.to_set().contains(symbol@));
            }
            assert(non_terminals@[0] == symbol@);
            non_terminals.lemma_view();
        }
        let mut recursive: StableOrderedSet<String> = StableOrderedSet::new();
        let nts = non_terminals.iter();
        let mut k: usize = 0;
        while k < nts.len()
            invariant
                first.wf(),
                recursive.wf(),
                nts@.len() == 1,
                nts@[0]@ == symbol@,
                k <= 1,
                recursive@.to_set() == if k == 0 {
                    Set::<Seq<char>>::empty()
                } else {
                    first.get(symbol@)
                },
            decreases nts@.len() - k,
        {
            match first.index_of(&nts[k]) {
                Some(idx) => {
                    let ghost before = recursive@;
                    assert(idx < first.spec_sets().len()) by {
                        first.lemma_wf();
                    }
                    recursive = recursive.union(first.set_at(idx));
                    proof {
                        lemma_inserted_all_to_set(before, first.spec_sets()[idx as int]);
                        first.lemma_get_at(idx as int);
                        assert(before.to_set() =~= Set::<Seq<char>>::empty());
                        assert(recursive@.to_set() =~= first.get(symbol@));
                    }
                },
                None => {
                    assert(first.get(symbol@) =~= Set::<Seq<char>>::empty());
                },
            }
            k += 1;
        }
        proof {
            assert(recursive@.to_set() == first.get(symbol@));
            lemma_difference_to_set(intermediate@, non_terminals@);
        }
        let diff = intermediate.difference(&non_terminals);
        intermediate = diff.union(&recursive);
        proof {
            lemma_inserted_all_to_set(diff@, recursive@);
            assert(diff@.to_set() =~= Set::<Seq<char>>::empty());
            assert(intermediate@.to_set() =~= first.get(symbol@));
        }
        non_terminals = filter_nonterminals(alphabet, &intermediate);
        proof {
            assert(non_terminals@.to_set() =~= Set::<Seq<char>>::empty());
            lemma_string_set_len(non_terminals@);
        }
    }
    proof {
        lemma_string_set_len(non_terminals@);
        if intermediate@.to_set() == set![symbol@] {
            assert(non_terminals@.to_set() == set![symbol@]);
            assert(non_terminals@.to_set().contains(symbol@));
        }
    }
    intermediate
}

/// What item `c` contributes to FIRST of its source: its first symbol if that
/// is a terminal, else FIRST of that non-terminal.
pub open spec fn first_contribution(alphabet: Seq<Seq<char>>, c: ItemCore, first: &SymbolSets) -> Set<Seq<char>> {
    let head = c.production[0];
    if alphabet.contains(head) {
        set![head]
    } else {
        first.get(head)
    }
}

/// What item `c` contributes to the set of its source when the symbols have
/// the sets `g`.
pub open spec fn first_contribution_in(
    alphabet: Seq<Seq<char>>,
    c: ItemCore,
    g: spec_fn(Seq<char>) -> Set<Seq<char>>,
) -> Set<Seq<char>> {
    let head = c.production[0];
    if alphabet.contains(head) {
        set![head]
    } else {
        g(head)
    }
}

/// The sets `g` are closed under the rules of FIRST for `items`: each
/// terminal has itself, and each item's source has what the item contributes.
pub open spec fn first_closed(
    alphabet: Seq<Seq<char>>,
    items: Seq<ItemCore>,
    g: spec_fn(Seq<char>) -> Set<Seq<char>>,
) -> bool {
    &&& forall|i: int| 0 <= i < alphabet.len() ==> g(#[trigger] alphabet[i]).contains(alphabet[i])
    &&& forall|i: int|
        0 <= i < items.len() ==> first_contribution_in(alphabet, #[trigger] items[i], g).subset_of(g(items[i].source))
}

/// Each set of `sets` lies within the set that `g` gives its symbol.
pub open spec fn sets_below(sets: &SymbolSets, g: spec_fn(Seq<char>) -> Set<Seq<char>>) -> bool {
    forall|k: Seq<char>| #[trigger] sets.get(k).subset_of(g(k))
}

/// `first` lies within every closed choice of sets: it is the least one.
pub open spec fn first_least(alphabet: Seq<Seq<char>>, items: Seq<ItemCore>, first: &SymbolSets) -> bool {
    forall|g: spec_fn(Seq<char>) -> Set<Seq<char>>| #[trigger] first_closed(alphabet, items, g) ==> sets_below(first, g)
}

/// The FIRST sets of the symbols of a state: the keys are the terminals and
/// the sources of the items; each terminal has itself, each source has what
/// its items contribute, and the sets are the least that do so.
pub open spec fn is_first_sets(alphabet: Seq<Seq<char>>, items: Seq<ItemCore>, first: &SymbolSets) -> bool {
    &&& first.wf()
    &&& first_keys_bounded(alphabet, items, first)
    &&& first_least(alphabet, items, first)
    // every terminal and every source has a set
    &&& forall|i: int| 0 <= i < alphabet.len() ==> first.has(#[trigger] alphabet[i]) && first.get(alphabet[i]).contains(alphabet[i])
    &&& forall|i: int| 0 <= i < items.len() ==> first.has((#[trigger] items[i]).source)
    // the sets hold terminals only
    &&& forall|k: Seq<char>, x: Seq<char>| #[trigger] first.get(k).contains(x) ==> alphabet.contains(x)
    // closed under what the items contribute
    &&& forall|i: int| 0 <= i < items.len() ==> first_contribution(alphabet, #[trigger] items[i], first).subset_of(first.get(items[i].source))
    // each member is owed to the symbol itself or to an item
    &&& forall|k: Seq<char>, x: Seq<char>|
        #[trigger] first.get(k).contains(x) ==> (alphabet.contains(k) && x == k) || exists|i: int|
            0 <= i < items.len() && (#[trigger] items[i]).source == k && first_contribution(alphabet, items[i], first).contains(x)
}

/// FIRST sets that meet `is_first_sets` are closed under its rules.
proof fn lemma_first_sets_closed(alphabet: Seq<Seq<char>>, items: Seq<ItemCore>, f: &SymbolSets)
    requires
        is_first_sets(alphabet, items, f),
    ensures
        first_closed(alphabet, items, |k: Seq<char>| f.get(k)),
{
    let gf = |k: Seq<char>| f.get(k);
    assert forall|i: int| 0 <= i < items.len() implies first_contribution_in(alphabet, #[trigger] items[i], gf).subset_of(
        gf(items[i].source)) by {
        assert(first_contribution_in(alphabet, items[i], gf) == first_contribution(alphabet, items[i], f));
    }
}

/// Law of FIRST: the sets are determined by the terminals and the items;
/// two maps that both meet `is_first_sets` have the same keys and sets.
pub proof fn law_first_sets_unique(alphabet: Seq<Seq<char>>, items: Seq<ItemCore>, f: &SymbolSets, g: &SymbolSets)
    requires
        is_first_sets(alphabet, items, f),
        is_first_sets(alphabet, items, g),
    ensures
        forall|k: Seq<char>| #[trigger] f.get(k) == g.get(k),
        forall|k: Seq<char>| #[trigger] f.has(k) == g.has(k),
{
    lemma_first_sets_closed(alphabet, items, f);
    lemma_first_sets_closed(alphabet, items, g);
    assert(sets_below(f, |k: Seq<char>| g.get(k)));
    assert(sets_below(g, |k: Seq<char>| f.get(k)));
    assert forall|k: Seq<char>| #[trigger] f.get(k) == g.get(k) by {
        assert(f.get(k).subset_of(g.get(k)));
        assert(g.get(k).subset_of(f.get(k)));
        assert(f.get(k) =~= g.get(k));
    }
    assert forall|k: Seq<char>| #[trigger] f.has(k) == g.has(k) by {
        if f.has(k) && !alphabet.contains(k) {
            let i = choose|i: int| 0 <= i < sources_of(items).len() && sources_of(items)[i] == k;
            assert(g.has(items[i].source));
        }
        if g.has(k) && !alphabet.contains(k) {
            let i = choose|i: int| 0 <= i < sources_of(items).len() && sources_of(items)[i] == k;
            assert(f.has(items[i].source));
        }
        if alphabet.contains(k) {
            let i = choose|i: int| 0 <= i < alphabet.len() && alphabet[i] == k;
            assert(f.has(alphabet[i]) && g.has(alphabet[i]));
        }
    }
}

/// Every item of `items` has a non-empty production.
pub open spec fn productions_nonempty(items: Seq<ItemCore>) -> bool {
    forall|i: int| 0 <= i < items.len() ==> (#[trigger] items[i]).production.len() > 0
}

/// The sources of the items.
pub open spec fn sources_of(items: Seq<ItemCore>) -> Seq<Seq<char>> {
    items.map_values(|c: ItemCore| c.source)
}

/// The keys of `first` lie among the terminals and the sources of `items`.
pub open spec fn first_keys_bounded(alphabet: Seq<Seq<char>>, items: Seq<ItemCore>, first: &SymbolSets) -> bool {
    forall|k: Seq<char>| #[trigger] first.has(k) ==> alphabet.contains(k) || sources_of(items).contains(k)
}

proof fn lemma_first_size_bound(alphabet: Seq<Seq<char>>, items: Seq<ItemCore>, first: &SymbolSets)
    requires
        first.wf(),
        first_keys_bounded(alphabet, items, first),
        forall|k: Seq<char>, x: Seq<char>| #[trigger] first.get(k).contains(x) ==> alphabet.contains(x),
    ensures
        first.size() <= (alphabet.to_set() + sources_of(items).to_set()).len() * (
        alphabet.to_set().len() + 1),
{
    let ku = alphabet.to_set() + sources_of(items).to_set();
    seq_to_set_is_finite(alphabet);
    seq_to_set_is_finite(sources_of(items));
    assert forall|i: int| 0 <= i < first.spec_keys().len() implies ku.contains(#[trigger] first.spec_keys()[i]) by {
        first.lemma_get_at(i);
    }
    assert forall|i: int, j: int|
        0 <= i < first.spec_sets().len() && 0 <= j < first.spec_sets()[i].len() implies alphabet.to_set().contains(
        #[trigger] first.spec_sets()[i][j],
    ) by {
        first.lemma_wf();
        first.lemma_get_at(i);
        assert(first.spec_sets()[i].to_set().contains(first.spec_sets()[i][j]));
    }
    first.lemma_size_bound(ku, alphabet.to_set());
}

/// The facts that hold of `first` throughout its computation.
spec fn first_invariant(alphabet: Seq<Seq<char>>, iv: Seq<ItemCore>, first: &SymbolSets) -> bool {
    &&& first.wf()
    &&& forall|i: int| 0 <= i < alphabet.len() ==> first.has(#[trigger] alphabet[i]) && first.get(alphabet[i]).contains(alphabet[i])
    &&& forall|k: Seq<char>, x: Seq<char>| #[trigger] first.get(k).contains(x) ==> alphabet.contains(x)
    &&& first_keys_bounded(alphabet, iv, first)
    &&& first_least(alphabet, iv, first)
    &&& forall|k: Seq<char>, x: Seq<char>|
        #[trigger] first.get(k).contains(x) ==> (alphabet.contains(k) && x == k) || exists|i: int|
            0 <= i < iv.len() && (#[trigger] iv[i]).source == k && first_contribution(alphabet, iv[i], first).contains(x)
}

/// One step of the FIRST computation keeps its facts: the source of item `j`
/// got a key (`f0` to `f1`) and then what item `j` contributes (`f1` to `f2`).
proof fn lemma_first_step(
    alphabet: Seq<Seq<char>>,
    iv: Seq<ItemCore>,
    j: int,
    f0: &SymbolSets,
    f1: &SymbolSets,
    f2: &SymbolSets,
)
    requires
        0 <= j < iv.len(),
        productions_nonempty(iv),
        first_invariant(alphabet, iv, f0),
        f1.wf(),
        f2.wf(),
        forall|k: Seq<char>| #[trigger] f1.has(k) == (f0.has(k) || k == iv[j].source),
        forall|k: Seq<char>| #[trigger] f1.get(k) == f0.get(k),
        forall|k: Seq<char>| #[trigger] f2.has(k) == f1.has(k),
        forall|k: Seq<char>| k != iv[j].source ==> #[trigger] f2.get(k) == f1.get(k),
        f2.get(iv[j].source) == f1.get(iv[j].source) + first_contribution(alphabet, iv[j], f1),
    ensures
        first_invariant(alphabet, iv, f2),
        f2.has(iv[j].source),
        forall|k: Seq<char>| #[trigger] f0.get(k).subset_of(f2.get(k)),
        first_contribution(alphabet, iv[j], f2).subset_of(f2.get(iv[j].source)) || !(forall|k: Seq<char>| #[trigger] f2.get(k) == f0.get(k)),
        (forall|k: Seq<char>| #[trigger] f2.get(k) == f0.get(k)) ==> first_contribution(alphabet, iv[j], f2).subset_of(f2.get(iv[j].source)),
        forall|i: int| 0 <= i < iv.len() ==> first_contribution(alphabet, #[trigger] iv[i], f0).subset_of(first_contribution(alphabet, iv[i], f2)),
{
    let src = iv[j].source;
    let sources = sources_of(iv);
    assert(sources[j] == src);
    assert forall|k: Seq<char>| #[trigger] f0.get(k).subset_of(f2.get(k)) by {}
    assert forall|i: int| 0 <= i < iv.len() implies first_contribution(alphabet, #[trigger] iv[i], f0).subset_of(
        first_contribution(alphabet, iv[i], f2)) by {
        let h = iv[i].production[0];
        assert(f0.get(h).subset_of(f2.get(h)));
    }
    assert forall|k: Seq<char>| #[trigger] f2.has(k) implies alphabet.contains(k) || sources.contains(k) by {
        if k != src {
            assert(f0.has(k));
        }
    }
    assert forall|k: Seq<char>, x: Seq<char>| #[trigger] f2.get(k).contains(x) implies alphabet.contains(x) by {
        if k == src && !f1.get(k).contains(x) {
            if !alphabet.contains(iv[j].production[0]) {
                assert(f0.get(iv[j].production[0]).contains(x));
            }
        }
    }
    assert forall|k: Seq<char>, x: Seq<char>|
        #[trigger] f2.get(k).contains(x) implies (alphabet.contains(k) && x == k) || exists|i: int|
            0 <= i < iv.len() && (#[trigger] iv[i]).source == k && first_contribution(alphabet, iv[i], f2).contains(x) by {
        if k == src && !f1.get(k).contains(x) {
            assert(first_contribution(alphabet, iv[j], f1).contains(x));
            assert(first_contribution(alphabet, iv[j], f2).contains(x));
        } else {
            assert(f0.get(k).contains(x));
            if !(alphabet.contains(k) && x == k) {
                let i = choose|i: int|
                    0 <= i < iv.len() && (#[trigger] iv[i]).source == k && first_contribution(alphabet, iv[i], f0).contains(x);
                assert(first_contribution(alphabet, iv[i], f2).contains(x));
            }
        }
    }
    assert forall|i: int| 0 <= i < alphabet.len() implies f2.has(#[trigger] alphabet[i]) && f2.get(alphabet[i]).contains(alphabet[i]) by {
        assert(f0.get(alphabet[i]).contains(alphabet[i]));
    }
    assert forall|g: spec_fn(Seq<char>) -> Set<Seq<char>>| #[trigger] first_closed(alphabet, iv, g) implies sets_below(f2, g) by {
        assert(sets_below(f0, g));
        assert(first_contribution_in(alphabet, iv[j], g).subset_of(g(src)));
        let h = iv[j].production[0];
        assert(f1.get(h).subset_of(g(h)));
        assert(first_contribution(alphabet, iv[j], f1).subset_of(first_contribution_in(alphabet, iv[j], g)));
        assert forall|k: Seq<char>| #[trigger] f2.get(k).subset_of(g(k)) by {
            assert(f0.get(k).subset_of(g(k)));
        }
    }
    if forall|k: Seq<char>| #[trigger] f2.get(k) == f0.get(k) {
        assert(f2.get(src) == f0.get(src));
        assert(first_contribution(alphabet, iv[j], f1) == first_contribution(alphabet, iv[j], f2));
        assert(first_contribution(alphabet, iv[j], f2).subset_of(f2.get(src)));
    }
}

/// Adds what item `j` contributes to FIRST of its source.
fn first_add_contribution(
    token_alphabet: &StableOrderedSet<String>,
    first: &mut SymbolSets,
    src_idx: usize,
    first_letter: &String,
    ghost_item: Ghost<ItemCore>,
) -> (changed: bool)
    requires
        token_alphabet.wf(),
        old(first).wf(),
        src_idx < old(first).spec_keys().len(),
        ghost_item@.production.len() > 0,
        first_letter@ == ghost_item@.production[0],
        forall|k: Seq<char>, x: Seq<char>| #[trigger] old(first).get(k).contains(x) ==> token_alphabet@.contains(x),
    ensures
        final(first).wf(),
        final(first).spec_keys() == old(first).spec_keys(),
        forall|k: Seq<char>| #[trigger] final(first).has(k) == old(first).has(k),
        forall|k: Seq<char>| k != old(first).spec_keys()[src_idx as int] ==> #[trigger] final(first).get(k) == old(first).get(k),
        final(first).get(old(first).spec_keys()[src_idx as int]) == old(first).get(old(first).spec_keys()[src_idx as int])
            + first_contribution(token_alphabet@, ghost_item@, old(first)),
        final(first).size() >= old(first).size(),
        changed ==> final(first).size() > old(first).size(),
        !changed ==> forall|k: Seq<char>| #[trigger] final(first).get(k) == old(first).get(k),
{
    let ghost f1 = *first;
    let ghost src = f1.spec_keys()[src_idx as int];
    if alphabet_contains(token_alphabet, first_letter) {
        let changed = first.add(src_idx, first_letter.clone());
        proof {
            assert(f1.get(src).insert(first_letter@) =~= f1.get(src) + set![first_letter@]);
            if !changed {
                assert(f1.get(src).contains(first_letter@)) by {
                    f1.lemma_get_at(src_idx as int);
                }
                assert forall|k: Seq<char>| #[trigger] first.get(k) == f1.get(k) by {
                    if k == src {
                        assert(f1.get(k).insert(first_letter@) =~= f1.get(k));
                    }
                }
            }
        }
        changed
    } else {
        let intermediate_first = first_of_nonterminal(token_alphabet, first, first_letter);
        first.add_all(src_idx, &intermediate_first)
    }
}

/// Computes FIRST for the terminals and for the sources of the items.
pub fn construct_first_for_state(
    token_alphabet: &StableOrderedSet<String>,
    items: &Vec<LR0ParserItem>,
) -> (r: SymbolSets)
    requires
        token_alphabet.wf(),
        productions_nonempty(lr0_views(items@)),
    ensures
        is_first_sets(token_alphabet@, lr0_views(items@), &r),
{
    let ghost alphabet = token_alphabet@;
    let ghost iv = lr0_views(items@);
    let ghost sources = sources_of(iv);
    let ghost bound = (alphabet.to_set() + sources.to_set()).len() * (alphabet.to_set().len() + 1);
    let mut first = SymbolSets::new();
    proof {
        token_alphabet.lemma_view();
        assert forall|g: spec_fn(Seq<char>) -> Set<Seq<char>>| #[trigger] first_closed(alphabet, iv, g) implies sets_below(&first, g) by {
            assert forall|k: Seq<char>| #[trigger] first.get(k).subset_of(g(k)) by {
                assert(!first.has(k));
            }
        }
    }
    let terminals = token_alphabet.iter();
    let mut t: usize = 0;
    while t < terminals.len()
        invariant
            token_alphabet.wf(),
            alphabet == token_alphabet@,
            alphabet == terminals@.map_values(|x: String| x@),
            first.wf(),
            t <= terminals@.len(),
            forall|i: int| 0 <= i < t ==> first.has(#[trigger] alphabet[i]) && first.get(alphabet[i]).contains(alphabet[i]),
            forall|k: Seq<char>, x: Seq<char>| #[trigger] first.get(k).contains(x) ==> alphabet.contains(k) && x == k,
            forall|k: Seq<char>| #[trigger] first.has(k) ==> alphabet.contains(k),
            first_least(alphabet, iv, &first),
        decreases terminals@.len() - t,
    {
        let terminal = &terminals[t];
        assert(alphabet[t as int] == terminal@);
        let ghost f0 = first;
        let idx = first.ensure(terminal);
        first.add(idx, terminal.clone());
        proof {
            assert forall|g: spec_fn(Seq<char>) -> Set<Seq<char>>| #[trigger] first_closed(alphabet, iv, g) implies sets_below(&first, g) by {
                assert(sets_below(&f0, g));
                assert(g(alphabet[t as int]).contains(alphabet[t as int]));
                assert forall|k: Seq<char>| #[trigger] first.get(k).subset_of(g(k)) by {
                    assert(f0.get(k).subset_of(g(k)));
                }
            }
        }
        t += 1;
    }
    proof {
        lemma_first_size_bound(alphabet, iv, &first);
    }
    let mut first_changed = true;
    while first_changed
        invariant
            token_alphabet.wf(),
            alphabet == token_alphabet@,
            iv == lr0_views(items@),
            sources == sources_of(iv),
            productions_nonempty(iv),
            first_invariant(alphabet, iv, &first),
            !first_changed ==> forall|i: int| 0 <= i < iv.len() ==> first.has((#[trigger] iv[i]).source),
            !first_changed ==> forall|i: int|
                0 <= i < iv.len() ==> first_contribution(alphabet, #[trigger] iv[i], &first).subset_of(first.get(iv[i].source)),
            first.size() <= bound,
            bound == (alphabet.to_set() + sources.to_set()).len() * (alphabet.to_set().len() + 1),
        decreases (bound - first.size()) * 2 + if first_changed {
            1int
        } else {
            0int
        },
    {
        first_changed = false;
        let ghost size_start = first.size();
        let mut j = items.len();
        while j > 0
            invariant
                token_alphabet.wf(),
                alphabet == token_alphabet@,
                iv == lr0_views(items@),
                productions_nonempty(iv),
                first_invariant(alphabet, iv, &first),
                j <= iv.len(),
                forall|i: int| j <= i < iv.len() ==> first.has((#[trigger] iv[i]).source),
                !first_changed ==> forall|i: int|
                    j <= i < iv.len() ==> first_contribution(alphabet, #[trigger] iv[i], &first).subset_of(first.get(iv[i].source)),
                first.size() >= size_start,
                first_changed ==> first.size() > size_start,
            decreases j,
        {
            j -= 1;
            let item = &items[j];
            assert(iv[j as int] == item@);
            let ghost f0 = first;
            let src_idx = first.ensure(&item.source);
            let ghost f1 = first;
            let first_letter = item.production[0].clone();
            let changed = first_add_contribution(token_alphabet, &mut first, src_idx, &first_letter, Ghost(item@));
            if changed {
                first_changed = true;
            }
            proof {
                lemma_first_step(alphabet, iv, j as int, &f0, &f1, &first);
                if !first_changed {
                    assert forall|k: Seq<char>| #[trigger] first.get(k) == f0.get(k) by {}
                    assert forall|i: int|
                        j <= i < iv.len() implies first_contribution(alphabet, #[trigger] iv[i], &first).subset_of(first.get(iv[i].source)) by {
                        if i > j {
                            assert(first_contribution(alphabet, iv[i], &f0) =~= first_contribution(alphabet, iv[i], &first));
                        }
                    }
                }
                assert forall|i: int| j <= i < iv.len() implies first.has((#[trigger] iv[i]).source) by {}
            }
        }
        proof {
            lemma_first_size_bound(alphabet, iv, &first);
        }
    }
    first
}

/// The members of the sets `sets`.
pub open spec fn all_members(sets: Seq<Seq<Seq<char>>>) -> Set<Seq<char>>
    decreases sets.len(),
{
    if sets.len() == 0 {
        Set::empty()
    } else {
        all_members(sets.drop_last()) + sets.last().to_set()
    }
}

proof fn lemma_all_members(sets: Seq<Seq<Seq<char>>>)
    ensures
        all_members(sets).finite(),
        forall|i: int, j: int| 0 <= i < sets.len() && 0 <= j < sets[i].len() ==> all_members(sets).contains(#[trigger] sets[i][j]),
    decreases sets.len(),
{
    if sets.len() > 0 {
        lemma_all_members(sets.drop_last());
        seq_to_set_is_finite(sets.last());
        assert forall|i: int, j: int| 0 <= i < sets.len() && 0 <= j < sets[i].len() implies all_members(sets).contains(
            #[trigger] sets[i][j],
        ) by {
            if i < sets.len() - 1 {
                assert(sets.drop_last()[i] == sets[i]);
            } else {
                assert(sets.last().contains(sets[i][j]));
            }
        }
    }
}

/// The symbol that comes next in each item, or its source when the marker is
/// at the end.
pub open spec fn marked_symbols(items: Seq<ItemCore>) -> Seq<Seq<char>> {
    items.map_values(
        |c: ItemCore|
            match next_symbol(c) {
                Some(x) => x,
                None => c.source,
            },
    )
}

/// What item `c`, whose marker is before some symbol B, contributes to
/// FOLLOW of B: FOLLOW of its source when B ends the production, else FIRST
/// of the symbol after B.
pub open spec fn follow_contribution(first: &SymbolSets, c: ItemCore, follow: &SymbolSets) -> Set<Seq<char>> {
    if c.marker_pos + 1 == c.production.len() {
        follow.get(c.source)
    } else {
        first.get(c.production[c.marker_pos + 1int])
    }
}

/// What item `c` contributes to the set of the symbol after its marker when
/// the symbols have the sets `g`.
pub open spec fn follow_contribution_in(
    first: &SymbolSets,
    c: ItemCore,
    g: spec_fn(Seq<char>) -> Set<Seq<char>>,
) -> Set<Seq<char>> {
    if c.marker_pos + 1 == c.production.len() {
        g(c.source)
    } else {
        first.get(c.production[c.marker_pos + 1int])
    }
}

/// The sets `g` hold the known sets and are closed under what each item
/// contributes to the symbol after its marker.
pub open spec fn follow_closed(
    known: &SymbolSets,
    first: &SymbolSets,
    items: Seq<ItemCore>,
    g: spec_fn(Seq<char>) -> Set<Seq<char>>,
) -> bool {
    &&& sets_below(known, g)
    &&& forall|i: int|
        0 <= i < items.len() && next_symbol(#[trigger] items[i]) is Some ==> follow_contribution_in(first, items[i], g).subset_of(
            g(next_symbol(items[i])->0),
        )
}

/// `follow` lies within every closed choice of sets: it is the least one.
pub open spec fn follow_least(known: &SymbolSets, first: &SymbolSets, items: Seq<ItemCore>, follow: &SymbolSets) -> bool {
    forall|g: spec_fn(Seq<char>) -> Set<Seq<char>>| #[trigger] follow_closed(known, first, items, g) ==> sets_below(follow, g)
}

/// The FOLLOW sets of a state: the known sets, closed under what each item
/// contributes to the symbol after its marker, and the least such sets.
pub open spec fn is_follow_sets(known: &SymbolSets, first: &SymbolSets, items: Seq<ItemCore>, follow: &SymbolSets) -> bool {
    &&& follow.wf()
    &&& follow_least(known, first, items, follow)
    &&& forall|k: Seq<char>| #[trigger] known.has(k) ==> follow.has(k)
    &&& forall|k: Seq<char>| #[trigger] known.get(k).subset_of(follow.get(k))
    &&& forall|i: int|
        0 <= i < items.len() && next_symbol(#[trigger] items[i]) is Some ==> {
            &&& follow.has(next_symbol(items[i])->0)
            &&& follow_contribution(first, items[i], follow).subset_of(follow.get(next_symbol(items[i])->0))
        }
    &&& forall|k: Seq<char>, x: Seq<char>|
        #[trigger] follow.get(k).contains(x) ==> known.get(k).contains(x) || exists|i: int|
            0 <= i < items.len() && next_symbol(#[trigger] items[i]) == Some(k) && follow_contribution(first, items[i], follow).contains(x)
}

/// FOLLOW sets that meet `is_follow_sets` are closed under its rules.
proof fn lemma_follow_sets_closed(known: &SymbolSets, first: &SymbolSets, items: Seq<ItemCore>, f: &SymbolSets)
    requires
        is_follow_sets(known, first, items, f),
    ensures
        follow_closed(known, first, items, |k: Seq<char>| f.get(k)),
{
    let gf = |k: Seq<char>| f.get(k);
    assert forall|k: Seq<char>| #[trigger] known.get(k).subset_of(gf(k)) by {}
    assert forall|i: int|
        0 <= i < items.len() && next_symbol(#[trigger] items[i]) is Some implies follow_contribution_in(first, items[i], gf).subset_of(
        gf(next_symbol(items[i])->0)) by {
        assert(follow_contribution_in(first, items[i], gf) == follow_contribution(first, items[i], f));
    }
}

/// Law of FOLLOW: for given known sets, FIRST sets and items, two maps that
/// both meet `is_follow_sets` have the same sets.
pub proof fn law_follow_sets_unique(
    known: &SymbolSets,
    first: &SymbolSets,
    items: Seq<ItemCore>,
    f: &SymbolSets,
    g: &SymbolSets,
)
    requires
        is_follow_sets(known, first, items, f),
        is_follow_sets(known, first, items, g),
    ensures
        forall|k: Seq<char>| #[trigger] f.get(k) == g.get(k),
{
    lemma_follow_sets_closed(known, first, items, f);
    lemma_follow_sets_closed(known, first, items, g);
    let gg = |k: Seq<char>| g.get(k);
    let ff = |k: Seq<char>| f.get(k);
    assert(follow_closed(known, first, items, gg));
    assert(follow_closed(known, first, items, ff));
    assert(sets_below(f, gg));
    assert(sets_below(g, ff));
    assert forall|k: Seq<char>| #[trigger] f.get(k) == g.get(k) by {
        assert(f.get(k).subset_of(gg(k)));
        assert(g.get(k).subset_of(ff(k)));
        assert(f.get(k).subset_of(g.get(k)));
        assert(g.get(k).subset_of(f.get(k)));
        assert(f.get(k) =~= g.get(k));
    }
}

/// The facts that hold of `follow` throughout its computation.
spec fn follow_invariant(
    alphabet: Seq<Seq<char>>,
    known: &SymbolSets,
    first: &SymbolSets,
    iv: Seq<ItemCore>,
    follow: &SymbolSets,
) -> bool {
    &&& follow.wf()
    &&& forall|k: Seq<char>| #[trigger] known.has(k) ==> follow.has(k)
    &&& forall|k: Seq<char>| #[trigger] known.get(k).subset_of(follow.get(k))
    &&& forall|k: Seq<char>| #[trigger] follow.has(k) ==> known.has(k) || sources_of(iv).contains(k) || marked_symbols(iv).contains(k)
    &&& follow_least(known, first, iv, follow)
    &&& forall|k: Seq<char>, x: Seq<char>|
        #[trigger] follow.get(k).contains(x) ==> all_members(known.spec_sets()).contains(x) || alphabet.contains(x)
    &&& forall|k: Seq<char>, x: Seq<char>|
        #[trigger] follow.get(k).contains(x) ==> known.get(k).contains(x) || exists|i: int|
            0 <= i < iv.len() && next_symbol(#[trigger] iv[i]) == Some(k) && follow_contribution(first, iv[i], follow).contains(x)
}

proof fn lemma_follow_size_bound(alphabet: Seq<Seq<char>>, known: &SymbolSets, first: &SymbolSets, iv: Seq<ItemCore>, follow: &SymbolSets)
    requires
        known.wf(),
        follow_invariant(alphabet, known, first, iv, follow),
    ensures
        follow.size() <= (known.spec_keys().to_set() + sources_of(iv).to_set() + marked_symbols(iv).to_set()).len() * (
        (all_members(known.spec_sets()) + alphabet.to_set()).len() + 1),
{
    let ku = known.spec_keys().to_set() + sources_of(iv).to_set() + marked_symbols(iv).to_set();
    let vu = all_members(known.spec_sets()) + alphabet.to_set();
    seq_to_set_is_finite(known.spec_keys());
    seq_to_set_is_finite(sources_of(iv));
    seq_to_set_is_finite(marked_symbols(iv));
    seq_to_set_is_finite(alphabet);
    lemma_all_members(known.spec_sets());
    assert forall|i: int| 0 <= i < follow.spec_keys().len() implies ku.contains(#[trigger] follow.spec_keys()[i]) by {
        follow.lemma_get_at(i);
        let k = follow.spec_keys()[i];
        if known.has(k) {
            assert(known.spec_keys().to_set().contains(k));
        }
    }
    assert forall|i: int, j: int|
        0 <= i < follow.spec_sets().len() && 0 <= j < follow.spec_sets()[i].len() implies vu.contains(
        #[trigger] follow.spec_sets()[i][j],
    ) by {
        follow.lemma_wf();
        follow.lemma_get_at(i);
        assert(follow.spec_sets()[i].to_set().contains(follow.spec_sets()[i][j]));
    }
    follow.lemma_size_bound(ku, vu);
}

/// One step of the FOLLOW computation keeps its facts: item `j` with the
/// marker before `b` got its keys (`f0` to `f1`) and then its contribution
/// was added to FOLLOW of `b` (`f1` to `f2`).
proof fn lemma_follow_step(
    alphabet: Seq<Seq<char>>,
    known: &SymbolSets,
    first: &SymbolSets,
    iv: Seq<ItemCore>,
    j: int,
    f0: &SymbolSets,
    f1: &SymbolSets,
    f2: &SymbolSets,
)
    requires
        0 <= j < iv.len(),
        next_symbol(iv[j]) is Some,
        is_first_sets(alphabet, iv, first),
        follow_invariant(alphabet, known, first, iv, f0),
        f1.wf(),
        f2.wf(),
        forall|k: Seq<char>|
            #[trigger] f1.has(k) == (f0.has(k) || k == next_symbol(iv[j])->0 || (k == iv[j].source && iv[j].marker_pos
                + 1 == iv[j].production.len())),
        forall|k: Seq<char>| #[trigger] f1.get(k) == f0.get(k),
        forall|k: Seq<char>| #[trigger] f2.has(k) == f1.has(k),
        forall|k: Seq<char>| k != next_symbol(iv[j])->0 ==> #[trigger] f2.get(k) == f1.get(k),
        f2.get(next_symbol(iv[j])->0) == f1.get(next_symbol(iv[j])->0) + follow_contribution(first, iv[j], f1),
    ensures
        follow_invariant(alphabet, known, first, iv, f2),
        f2.has(next_symbol(iv[j])->0),
        forall|k: Seq<char>| #[trigger] f0.get(k).subset_of(f2.get(k)),
        follow_contribution(first, iv[j], f2).subset_of(f2.get(next_symbol(iv[j])->0)),
        forall|i: int| 0 <= i < iv.len() ==> follow_contribution(first, #[trigger] iv[i], f0).subset_of(follow_contribution(first, iv[i], f2)),
{
    let b = next_symbol(iv[j])->0;
    let src = iv[j].source;
    assert(marked_symbols(iv)[j] == b);
    assert(sources_of(iv)[j] == src);
    assert forall|k: Seq<char>| #[trigger] f0.get(k).subset_of(f2.get(k)) by {}
    assert forall|i: int| 0 <= i < iv.len() implies follow_contribution(first, #[trigger] iv[i], f0).subset_of(
        follow_contribution(first, iv[i], f2)) by {
        assert(f0.get(iv[i].source).subset_of(f2.get(iv[i].source)));
    }
    // the contribution of item j did not change by adding it: it only changes FOLLOW of b
    assert(follow_contribution(first, iv[j], f2) == follow_contribution(first, iv[j], f1)) by {
        if iv[j].marker_pos + 1 == iv[j].production.len() && src == b {
            assert(f2.get(src) =~= f1.get(src));
        }
    }
    assert forall|k: Seq<char>| #[trigger] f2.has(k) implies known.has(k) || sources_of(iv).contains(k) || marked_symbols(iv).contains(k) by {
        if f0.has(k) {
        } else if k == b {
        } else {
            assert(k == src);
        }
    }
    assert forall|k: Seq<char>, x: Seq<char>| #[trigger] f2.get(k).contains(x) implies all_members(known.spec_sets()).contains(x)
        || alphabet.contains(x) by {
        if k == b && !f1.get(k).contains(x) {
            if iv[j].marker_pos + 1 == iv[j].production.len() {
                assert(f0.get(src).contains(x));
            } else {
                assert(first.get(iv[j].production[iv[j].marker_pos + 1int]).contains(x));
            }
        } else {
            assert(f0.get(k).contains(x));
        }
    }
    assert forall|k: Seq<char>, x: Seq<char>|
        #[trigger] f2.get(k).contains(x) implies known.get(k).contains(x) || exists|i: int|
            0 <= i < iv.len() && next_symbol(#[trigger] iv[i]) == Some(k) && follow_contribution(first, iv[i], f2).contains(x) by {
        if k == b && !f1.get(k).contains(x) {
            assert(follow_contribution(first, iv[j], f2).contains(x));
        } else {
            assert(f0.get(k).contains(x));
            if !known.get(k).contains(x) {
                let i = choose|i: int|
                    0 <= i < iv.len() && next_symbol(#[trigger] iv[i]) == Some(k) && follow_contribution(first, iv[i], f0).contains(x);
                assert(follow_contribution(first, iv[i], f2).contains(x));
            }
        }
    }
    assert forall|k: Seq<char>| #[trigger] known.get(k).subset_of(f2.get(k)) by {
        assert(known.get(k).subset_of(f0.get(k)));
    }
    assert forall|g: spec_fn(Seq<char>) -> Set<Seq<char>>| #[trigger] follow_closed(known, first, iv, g) implies sets_below(f2, g) by {
        assert(sets_below(f0, g));
        assert(follow_contribution_in(first, iv[j], g).subset_of(g(b)));
        assert(f1.get(src).subset_of(g(src)));
        assert(follow_contribution(first, iv[j], f1).subset_of(follow_contribution_in(first, iv[j], g)));
        assert forall|k: Seq<char>| #[trigger] f2.get(k).subset_of(g(k)) by {
            assert(f0.get(k).subset_of(g(k)));
        }
    }
}

/// Computes FOLLOW for the symbols of the state, starting from `known_follow`.
pub fn construct_follow_for_state(
    token_alphabet: &StableOrderedSet<String>,
    known_follow: SymbolSets,
    items: &Vec<LR0ParserItem>,
) -> (r: SymbolSets)
    requires
        token_alphabet.wf(),
        known_follow.wf(),
        productions_nonempty(lr0_views(items@)),
    ensures
        exists|first: SymbolSets|
            is_first_sets(token_alphabet@, lr0_views(items@), &first) && is_follow_sets(
                &known_follow,
                &first,
                lr0_views(items@),
                &r,
            ),
{
    let ghost alphabet = token_alphabet@;
    let ghost iv = lr0_views(items@);
    let ghost known = known_follow;
    let ghost bound = (known.spec_keys().to_set() + sources_of(iv).to_set() + marked_symbols(iv).to_set()).len() * (
        (all_members(known.spec_sets()) + alphabet.to_set()).len() + 1);
    let first = construct_first_for_state(token_alphabet, items);
    let mut follow = known_follow;
    proof {
        assert forall|k: Seq<char>| #[trigger] follow.has(k) implies known.has(k) || sources_of(iv).contains(k) || marked_symbols(iv).contains(k) by {}
        assert forall|k: Seq<char>, x: Seq<char>| #[trigger] follow.get(k).contains(x) implies all_members(known.spec_sets()).contains(x)
            || alphabet.contains(x) by {
            lemma_all_members(known.spec_sets());
            let i = known.spec_keys().index_of(k);
            known.lemma_wf();
            assert(known.spec_sets()[i].to_set().contains(x));
            let m = choose|m: int| 0 <= m < known.spec_sets()[i].len() && known.spec_sets()[i][m] == x;
        }
        assert forall|g: spec_fn(Seq<char>) -> Set<Seq<char>>| #[trigger] follow_closed(&known, &first, iv, g) implies sets_below(&follow, g) by {
            assert(sets_below(&known, g));
        }
        lemma_follow_size_bound(alphabet, &known, &first, iv, &follow);
    }
    let mut follow_changed = true;
    while follow_changed
        invariant
            token_alphabet.wf(),
            known.wf(),
            alphabet == token_alphabet@,
            iv == lr0_views(items@),
            productions_nonempty(iv),
            is_first_sets(alphabet, iv, &first),
            follow_invariant(alphabet, &known, &first, iv, &follow),
            !follow_changed ==> forall|i: int|
                0 <= i < iv.len() && next_symbol(#[trigger] iv[i]) is Some ==> {
                    &&& follow.has(next_symbol(iv[i])->0)
                    &&& follow_contribution(&first, iv[i], &follow).subset_of(follow.get(next_symbol(iv[i])->0))
                },
            follow.size() <= bound,
            bound == (known.spec_keys().to_set() + sources_of(iv).to_set() + marked_symbols(iv).to_set()).len() * (
            (all_members(known.spec_sets()) + alphabet.to_set()).len() + 1),
        decreases (bound - follow.size()) * 2 + if follow_changed {
            1int
        } else {
            0int
        },
    {
        follow_changed = false;
        let ghost size_start = follow.size();
        let mut j: usize = 0;
        while j < items.len()
            invariant
                token_alphabet.wf(),
                known.wf(),
                alphabet == token_alphabet@,
                iv == lr0_views(items@),
                productions_nonempty(iv),
                is_first_sets(alphabet, iv, &first),
                follow_invariant(alphabet, &known, &first, iv, &follow),
                j <= iv.len(),
                forall|i: int| 0 <= i < j && next_symbol(#[trigger] iv[i]) is Some ==> follow.has(next_symbol(iv[i])->0),
                !follow_changed ==> forall|i: int|
                    0 <= i < j && next_symbol(#[trigger] iv[i]) is Some ==> follow_contribution(&first, iv[i], &follow).subset_of(
                        follow.get(next_symbol(iv[i])->0)),
                follow.size() >= size_start,
                follow_changed ==> follow.size() > size_start,
            decreases iv.len() - j,
        {
            let item = &items[j];
            assert(iv[j as int] == item@);
            match item.get_next_token() {
                None => {},
                Some(marked_token) => {
                    let ghost f0 = follow;
                    let changed;
                    if item.marker_pos == item.production.len() - 1 {
                        let src_idx = follow.ensure(&item.source);
                        let source_follow = follow.set_at(src_idx).clone_set();
                        let cur = follow.ensure(&marked_token);
                        let ghost f1 = follow;
                        proof {
                            follow.lemma_get_at(src_idx as int);
                            assert(source_follow@.to_set() == f1.get(item@.source));
                        }
                        changed = follow.add_all(cur, &source_follow);
                        proof {
                            lemma_follow_step(alphabet, &known, &first, iv, j as int, &f0, &f1, &follow);
                        }
                    } else {
                        let after = &item.production[item.marker_pos + 1];
                        assert(after@ == iv[j as int].production[iv[j as int].marker_pos + 1int]);
                        let next_first = match first.index_of(after) {
                            Some(idx) => {
                                proof {
                                    first.lemma_get_at(idx as int);
                                }
                                first.set_at(idx).clone_set()
                            },
                            None => {
                                assert(Seq::<Seq<char>>::empty().to_set() =~= first.get(after@));
                                StableOrderedSet::new()
                            },
                        };
                        let cur = follow.ensure(&marked_token);
                        let ghost f1 = follow;
                        changed = follow.add_all(cur, &next_first);
                        proof {
                            lemma_follow_step(alphabet, &known, &first, iv, j as int, &f0, &f1, &follow);
                        }
                    }
                    if changed {
                        follow_changed = true;
                    }
                    proof {
                        if !follow_changed {
                            assert forall|k: Seq<char>| #[trigger] follow.get(k) == f0.get(k) by {}
                            assert forall|i: int|
                                0 <= i < j && next_symbol(#[trigger] iv[i]) is Some implies follow_contribution(&first, iv[i], &follow)
                                    .subset_of(follow.get(next_symbol(iv[i])->0)) by {
                                assert(follow_contribution(&first, iv[i], &f0) =~= follow_contribution(&first, iv[i], &follow));
                            }
                        }
                    }
                },
            }
            j += 1;
        }
        proof {
            lemma_follow_size_bound(alphabet, &known, &first, iv, &follow);
        }
    }
    follow
}

/// The views of a list of LR(1) items.
pub open spec fn lr1_views(v: Seq<LR1ParserItem>) -> Seq<Lr1View> {
    v.map_values(|x: LR1ParserItem| x@)
}

/// The cores of a list of LR(1) item views.
pub open spec fn cores_of(v: Seq<Lr1View>) -> Seq<ItemCore> {
    v.map_values(|x: Lr1View| x.core)
}

/// `kf` maps the source of each known item to the lookaheads that the known
/// items of that source carry.
pub open spec fn is_known_follow(known: Seq<Lr1View>, kf: &SymbolSets) -> bool {
    &&& kf.wf()
    &&& forall|k: Seq<char>| #[trigger] kf.has(k) == exists|i: int| 0 <= i < known.len() && (#[trigger] known[i]).core.source == k
    &&& forall|k: Seq<char>, x: Seq<char>|
        #[trigger] kf.get(k).contains(x) == exists|i: int|
            0 <= i < known.len() && (#[trigger] known[i]).core.source == k && known[i].lookahead.contains(x)
}

/// Every item of `v` carries a well formed lookahead set.
pub open spec fn lookaheads_wf(v: Seq<LR1ParserItem>) -> bool {
    forall|i: int| 0 <= i < v.len() ==> (#[trigger] v[i]).lookahead.wf()
}

/// The LR(1) state built from the known items `known`: their LR(0) closure,
/// each item with FOLLOW of its source as lookaheads.
pub open spec fn is_state_for_items(
    alphabet: Seq<Seq<char>>,
    rules: Seq<RuleView>,
    known: Seq<Lr1View>,
    state: Seq<Lr1View>,
) -> bool {
    exists|kf: SymbolSets, first: SymbolSets, follow: SymbolSets|
        {
            &&& is_lr0_closure(alphabet, rules, cores_of(known), cores_of(state))
            &&& is_known_follow(known, &kf)
            &&& is_first_sets(alphabet, cores_of(state), &first)
            &&& is_follow_sets(&kf, &first, cores_of(state), &follow)
            &&& forall|i: int| 0 <= i < state.len() ==> (#[trigger] state[i]).lookahead.to_set() == follow.get(state[i].core.source)
        }
}

/// Builds the state whose known items are `known_items`; `None` when an item
/// of its closure has an empty production, whose first symbol does not exist.
pub fn build_state_for_items(
    token_alphabet: &StableOrderedSet<String>,
    grammar: &ParserGrammar,
    known_items: Vec<LR1ParserItem>,
) -> (r: Option<Vec<LR1ParserItem>>)
    requires
        token_alphabet.wf(),
        lookaheads_wf(known_items@),
    ensures
        match r {
            Some(state) => {
                &&& is_state_for_items(token_alphabet@, grammar.spec_rules(), lr1_views(known_items@), lr1_views(state@))
                &&& productions_nonempty(cores_of(lr1_views(state@)))
                &&& lookaheads_wf(state@)
            },
            None => exists|lr0: Seq<ItemCore>|
                is_lr0_closure(token_alphabet@, grammar.spec_rules(), cores_of(lr1_views(known_items@)), lr0)
                    && !productions_nonempty(lr0),
        },
{
    let ghost known = lr1_views(known_items@);
    let mut known_follow = SymbolSets::new();
    let mut k: usize = 0;
    while k < known_items.len()
        invariant
            known == lr1_views(known_items@),
            lookaheads_wf(known_items@),
            k <= known.len(),
            is_known_follow(known.take(k as int), &known_follow),
        decreases known.len() - k,
    {
        let item = &known_items[k];
        assert(known[k as int] == item@);
        let ghost f0 = known_follow;
        let idx = known_follow.ensure(&item.source);
        let ghost f1 = known_follow;
        known_follow.add_all(idx, &item.lookahead);
        proof {
            let kn = known.take(k + 1);
            assert(kn =~= known.take(k as int).push(item@));
            assert forall|key: Seq<char>| #[trigger] known_follow.has(key) == exists|i: int| 0 <= i < kn.len() && (#[trigger] kn[i]).core.source == key by {
                if known_follow.has(key) && key != item@.core.source {
                    assert(f0.has(key));
                    let i = choose|i: int| 0 <= i < k && (#[trigger] known.take(k as int)[i]).core.source == key;
                    assert(kn[i] == known.take(k as int)[i]);
                }
                if key == item@.core.source {
                    assert(kn[k as int].core.source == key);
                }
                if exists|i: int| 0 <= i < kn.len() && (#[trigger] kn[i]).core.source == key {
                    let i = choose|i: int| 0 <= i < kn.len() && (#[trigger] kn[i]).core.source == key;
                    if i < k {
                        assert(known.take(k as int)[i] == kn[i]);
                    }
                }
            }
            assert forall|key: Seq<char>, x: Seq<char>|
                #[trigger] known_follow.get(key).contains(x) == exists|i: int|
                    0 <= i < kn.len() && (#[trigger] kn[i]).core.source == key && kn[i].lookahead.contains(x) by {
                if exists|i: int| 0 <= i < kn.len() && (#[trigger] kn[i]).core.source == key && kn[i].lookahead.contains(x) {
                    let i = choose|i: int| 0 <= i < kn.len() && (#[trigger] kn[i]).core.source == key && kn[i].lookahead.contains(x);
                    if i < k {
                        assert(known.take(k as int)[i] == kn[i]);
                        assert(f0.get(key).contains(x));
                    } else {
                        assert(item.lookahead@.to_set().contains(x));
                    }
                }
                if known_follow.get(key).contains(x) {
                    if key == item@.core.source && !f1.get(key).contains(x) {
                        assert(kn[k as int].lookahead.contains(x));
                    } else {
                        assert(f0.get(key).contains(x));
                        let i = choose|i: int|
                            0 <= i < k && (#[trigger] known.take(k as int)[i]).core.source == key && known.take(k as int)[i].lookahead.contains(x);
                        assert(kn[i] == known.take(k as int)[i]);
                    }
                }
            }
        }
        k += 1;
    }
    assert(known.take(known.len() as int) =~= known);
    let mut known_lr0_state: Vec<LR0ParserItem> = Vec::new();
    let mut m: usize = 0;
    while m < known_items.len()
        invariant
            known == lr1_views(known_items@),
            m <= known.len(),
            lr0_views(known_lr0_state@) == cores_of(known).take(m as int),
        decreases known.len() - m,
    {
        let ghost before = lr0_views(known_lr0_state@);
        let lr0 = known_items[m].to_lr0();
        known_lr0_state.push(lr0);
        assert(lr0_views(known_lr0_state@) =~= before.push(lr0@));
        m += 1;
        assert(cores_of(known).take(m as int) =~= cores_of(known).take(m - 1).push(cores_of(known)[m - 1]));
    }
    assert(cores_of(known).take(known.len() as int) =~= cores_of(known));
    let lr0_state = construct_lr0_state(token_alphabet, grammar, known_lr0_state);
    let ghost lv = lr0_views(lr0_state@);
    let mut e: usize = 0;
    while e < lr0_state.len()
        invariant
            lv == lr0_views(lr0_state@),
            known == lr1_views(known_items@),
            is_lr0_closure(token_alphabet@, grammar.spec_rules(), cores_of(known), lv),
            e <= lv.len(),
            forall|i: int| 0 <= i < e ==> (#[trigger] lv[i]).production.len() > 0,
        decreases lv.len() - e,
    {
        assert(lv[e as int] == lr0_state@[e as int]@);
        if lr0_state[e].production.len() == 0 {
            proof {
                assert(!productions_nonempty(lv));
                assert(is_lr0_closure(token_alphabet@, grammar.spec_rules(), cores_of(known), lv));
            }
            return None;
        }
        e += 1;
    }
    let follow = construct_follow_for_state(token_alphabet, known_follow, &lr0_state);
    let ghost first = choose|first: SymbolSets| is_first_sets(token_alphabet@, lv, &first) && is_follow_sets(&known_follow, &first, lv, &follow);
    let mut lr1_state: Vec<LR1ParserItem> = Vec::new();
    let mut s: usize = 0;
    while s < lr0_state.len()
        invariant
            lv == lr0_views(lr0_state@),
            is_lr0_closure(token_alphabet@, grammar.spec_rules(), cores_of(known), lv),
            is_known_follow(known, &known_follow),
            is_follow_sets(&known_follow, &first, lv, &follow),
            s <= lv.len(),
            lr1_state@.len() == s,
            lookaheads_wf(lr1_state@),
            forall|i: int| 0 <= i < s ==> (#[trigger] lr1_state@[i])@.core == lv[i],
            forall|i: int| 0 <= i < s ==> (#[trigger] lr1_state@[i])@.lookahead.to_set() == follow.get(lv[i].source),
        decreases lv.len() - s,
    {
        let item = &lr0_state[s];
        assert(lv[s as int] == item@);
        proof {
            if s < cores_of(known).len() {
                assert(lv.take(cores_of(known).len() as int)[s as int] == lv[s as int]);
                assert(known[s as int].core.source == item@.source);
                assert(known_follow.has(item@.source));
            } else {
                let j = choose|j: int| 0 <= j < lv.len() && next_symbol(#[trigger] lv[j]) == Some(lv[s as int].source);
                assert(follow.has(next_symbol(lv[j])->0));
            }
        }
        let idx = follow.index_of(&item.source).unwrap();
        proof {
            follow.lemma_get_at(idx as int);
        }
        let lr1 = item.to_lr1(follow.set_at(idx));
        lr1_state.push(lr1);
        s += 1;
    }
    proof {
        let sv = lr1_views(lr1_state@);
        assert(cores_of(sv) =~= lv);
        assert(is_state_for_items(token_alphabet@, grammar.spec_rules(), known, sv));
    }
    Some(lr1_state)
}

} // verus!
