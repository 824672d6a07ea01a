//! The construction of the automaton: its states, reached from the starting
//! state by the tokens that items of a state have next, and its goto table.
use crate::collections::stable_ordered_set::{SetItem, StableOrderedSet};
use crate::frontend_v0::parser::hydration::{dehydrate_state, is_dehydrated, items_extend, position_of};
use crate::frontend_v0::parser::lr0_goto_table::{law_with_all, overrides_view, reduce_overrides, with_all, ActionMap, LR0GotoTable};
use crate::frontend_v0::parser::lr1_automata_builder::{
    build_state_for_items, cores_of, is_lr0_closure, is_state_for_items, item_of_rules, lookaheads_wf,
    lr1_views, next_symbol, productions_nonempty, rule_start_item, same_core, ItemCore, LR1ParserAction,
    LR1ParserItem, Lr1View,
};
use crate::frontend_v0::parser::parser_grammar::{ParserGrammar, RuleView};
use crate::frontend_v0::parser::state_space::{
    advance, advanced, item_key, lemma_advanced_items, lemma_advanced_upto, lemma_closure_items, lemma_closure_upto,
    lemma_map_permutation, lemma_num_upto_keys, num_upto,
};
use crate::text::strs;
use vstd::prelude::*;

verus! {

/// The cores of the items at the positions `s` of `items`.
pub open spec fn state_cores(items: Seq<Lr1View>, s: Seq<usize>) -> Seq<ItemCore> {
    s.map_values(|i: usize| items[i as int].core)
}

/// The symbols that the items of `cs` have next, in order, with repetition.
pub open spec fn next_list(cs: Seq<ItemCore>) -> Seq<Seq<char>>
    decreases cs.len(),
{
    if cs.len() == 0 {
        Seq::empty()
    } else {
        let rest = next_list(cs.drop_last());
        match next_symbol(cs.last()) {
            Some(x) => rest.push(x),
            None => rest,
        }
    }
}

/// `to` is the state reached from `from` on `t`: counted with repetition, its
/// items are those of the LR(0) closure of the items of `from` that have `t`
/// next, with the marker moved past `t`.
pub open spec fn is_goto(
    alphabet: Seq<Seq<char>>,
    rules: Seq<RuleView>,
    from: Seq<ItemCore>,
    t: Seq<char>,
    to: Seq<ItemCore>,
) -> bool {
    exists|closure: Seq<ItemCore>|
        {
            &&& is_lr0_closure(alphabet, rules, advanced(from, t), closure)
            &&& to.map_values(|c: ItemCore| item_key(c)).to_multiset() == closure.map_values(
                |c: ItemCore| item_key(c),
            ).to_multiset()
        }
}

/// The positions in `s` of items of `items`: a state stored into `items`.
pub open spec fn state_in(items: Seq<Lr1View>, s: Seq<usize>) -> bool {
    forall|j: int| 0 <= j < s.len() ==> s[j] < items.len()
}

pub proof fn lemma_state_cores_extend(a: Seq<Lr1View>, b: Seq<Lr1View>, s: Seq<usize>)
    requires
        items_extend(a, b),
        state_in(a, s),
    ensures
        state_cores(b, s) == state_cores(a, s),
        state_in(b, s),
{
    assert forall|j: int| 0 <= j < s.len() implies #[trigger] state_cores(b, s)[j] == state_cores(a, s)[j] by {
        assert(b[s[j] as int].core == a[s[j] as int].core);
    }
    assert(state_cores(b, s) =~= state_cores(a, s));
}

/// The tokens that items of `state` have next, each once, in the order of
/// the items.
pub fn get_consumable_tokens(state: &Vec<usize>, all_items: &StableOrderedSet<LR1ParserItem>) -> (r:
    StableOrderedSet<String>)
    requires
        state_in(all_items@, state@),
    ensures
        r.wf(),
        r@ == StableOrderedSet::<String>::inserted_all(Seq::empty(), next_list(state_cores(all_items@, state@))),
{
    let mut r: StableOrderedSet<String> = StableOrderedSet::new();
    let mut j: usize = 0;
    while j < state.len()
        invariant
            j <= state@.len(),
            state_in(all_items@, state@),
            r.wf(),
            r@ == StableOrderedSet::<String>::inserted_all(
                Seq::empty(),
                next_list(state_cores(all_items@, state@.take(j as int))),
            ),
        decreases state@.len() - j,
    {
        let ghost cs = state_cores(all_items@, state@.take(j as int));
        proof {
            assert(state_cores(all_items@, state@.take(j + 1)) =~= cs.push(all_items@[state@[j as int] as int].core));
            assert(cs.push(all_items@[state@[j as int] as int].core).drop_last() =~= cs);
        }
        match all_items.get_index(state[j]) {
            Some(item) => {
                match item.get_next_token() {
                    Some(token) => {
                        r.insert(token);
                        proof {
                            let l = next_list(cs);
                            assert(l.push(token@).drop_last() =~= l);
                        }
                    },
                    None => {},
                }
            },
            None => {},
        }
        j += 1;
    }
    assert(state@.take(state@.len() as int) =~= state@);
    r
}

/// The stored items at the positions `s`.
pub open spec fn state_views(items: Seq<Lr1View>, s: Seq<usize>) -> Seq<Lr1View> {
    s.map_values(|i: usize| items[i as int])
}

/// The items of `vs` that have `t` next, in order, each with the marker moved
/// past `t` and its lookaheads kept.
pub open spec fn advanced_views(vs: Seq<Lr1View>, t: Seq<char>) -> Seq<Lr1View>
    decreases vs.len(),
{
    if vs.len() == 0 {
        Seq::empty()
    } else {
        let rest = advanced_views(vs.drop_last(), t);
        if next_symbol(vs.last().core) == Some(t) {
            rest.push(Lr1View { core: advance(vs.last().core), lookahead: vs.last().lookahead })
        } else {
            rest
        }
    }
}

/// The items of `state` that have `token` next, with the marker moved past
/// it.
pub fn advance_items(state: &Vec<usize>, token: &String, all_items: &StableOrderedSet<LR1ParserItem>) -> (r: Vec<
    LR1ParserItem,
>)
    requires
        all_items.wf(),
        lookaheads_wf(all_items.spec_values()),
        state_in(all_items@, state@),
    ensures
        cores_of(lr1_views(r@)) == advanced(state_cores(all_items@, state@), token@),
        lr1_views(r@) == advanced_views(state_views(all_items@, state@), token@),
        lookaheads_wf(r@),
{
    let ghost cs = state_cores(all_items@, state@);
    let ghost vs = state_views(all_items@, state@);
    proof {
        all_items.lemma_view();
    }
    let mut known: Vec<LR1ParserItem> = Vec::new();
    let mut j: usize = 0;
    while j < state.len()
        invariant
            j <= state@.len(),
            lookaheads_wf(all_items.spec_values()),
            all_items@ == all_items.spec_values().map_values(|x: LR1ParserItem| x@),
            state_in(all_items@, state@),
            cs == state_cores(all_items@, state@),
            cores_of(lr1_views(known@)) == advanced(cs.take(j as int), token@),
            vs == state_views(all_items@, state@),
            lr1_views(known@) == advanced_views(vs.take(j as int), token@),
            lookaheads_wf(known@),
        decreases state@.len() - j,
    {
        let ghost before = known@;
        proof {
            assert(cs.take(j + 1).drop_last() =~= cs.take(j as int));
            assert(cs.take(j + 1).last() == all_items@[state@[j as int] as int].core);
            assert(vs.take(j + 1).drop_last() =~= vs.take(j as int));
            assert(vs.take(j + 1).last() == all_items@[state@[j as int] as int]);
        }
        match all_items.get_index(state[j]) {
            Some(item) => {
                proof {
                    assert(all_items.spec_values()[state@[j as int] as int]@ == item@);
                    assert(all_items.spec_values()[state@[j as int] as int].lookahead.wf());
                }
                match item.consume_token(token) {
                    Some(next) => {
                        known.push(next);
                        proof {
                            assert(cores_of(lr1_views(known@)) =~= cores_of(lr1_views(before)).push(next@.core));
                            assert(lr1_views(known@) =~= lr1_views(before).push(next@));
                            assert forall|q: int| 0 <= q < known@.len() implies (#[trigger] known@[q]).lookahead.wf() by {
                                if q < before.len() {
                                    assert(known@[q] == before[q]);
                                }
                            }
                        }
                    },
                    None => {},
                }
            },
            None => {},
        }
        j += 1;
    }
    assert(cs.take(state@.len() as int) =~= cs);
    assert(vs.take(state@.len() as int) =~= vs);
    known
}

/// The LR(0) items of a state built from known items are their closure.
proof fn lemma_state_closure(alphabet: Seq<Seq<char>>, rules: Seq<RuleView>, known: Seq<Lr1View>, state: Seq<Lr1View>)
    requires
        is_state_for_items(alphabet, rules, known, state),
    ensures
        is_lr0_closure(alphabet, rules, cores_of(known), cores_of(state)),
{
}

/// What storing the state built from `known` into the items tells of it.
proof fn lemma_stored_state(
    alphabet: Seq<Seq<char>>,
    rules: Seq<RuleView>,
    known_cores: Seq<ItemCore>,
    bseq: Seq<LR1ParserItem>,
    a0: Seq<Lr1View>,
    a2: Seq<Lr1View>,
    n: Seq<usize>,
)
    requires
        is_lr0_closure(alphabet, rules, known_cores, cores_of(lr1_views(bseq))),
        forall|q: int| 0 <= q < known_cores.len() ==> item_of_rules(rules, #[trigger] known_cores[q]),
        forall|k: int| 0 <= k < a0.len() ==> item_of_rules(rules, #[trigger] a0[k].core),
        items_extend(a0, a2),
        forall|k: int|
            a0.len() <= k < a2.len() ==> exists|j: int| 0 <= j < bseq.len() && (#[trigger] a2[k]).core == bseq[j]@.core,
        forall|j: int|
            0 <= j < bseq.len() ==> {
                let p = position_of(a2, (#[trigger] bseq[j])@.core);
                0 <= p < a2.len() && same_core(a2[p].core, bseq[j]@.core)
            },
        n.to_multiset() == Seq::new(bseq.len(), |i: int| position_of(a2, lr1_views(bseq)[i].core) as usize).to_multiset(),
        a2.len() <= usize::MAX,
    ensures
        forall|k: int| 0 <= k < a2.len() ==> item_of_rules(rules, #[trigger] a2[k].core),
        state_cores(a2, n).map_values(|c: ItemCore| item_key(c)).to_multiset() == cores_of(lr1_views(bseq)).map_values(
            |c: ItemCore| item_key(c),
        ).to_multiset(),
        forall|m: int|
            m >= 0 ==> #[trigger] num_upto(state_cores(a2, n), m) <= num_upto(known_cores, m) + rules.len(),
{
    let bc = cores_of(lr1_views(bseq));
    lemma_closure_items(alphabet, rules, known_cores, bc);
    assert forall|k: int| 0 <= k < a2.len() implies item_of_rules(rules, #[trigger] a2[k].core) by {
        if k < a0.len() {
            assert(a2[k].core == a0[k].core);
        } else {
            let q = choose|q: int| 0 <= q < bseq.len() && (#[trigger] a2[k]).core == bseq[q]@.core;
            assert(bc[q] == bseq[q]@.core);
        }
    }
    let p = Seq::new(bseq.len(), |i: int| position_of(a2, lr1_views(bseq)[i].core) as usize);
    let f = |i: usize| item_key(a2[i as int].core);
    lemma_map_permutation(n, p, f);
    let target = state_cores(a2, n);
    assert(n.map_values(f) =~= target.map_values(|c: ItemCore| item_key(c)));
    assert forall|i: int| 0 <= i < bseq.len() implies #[trigger] p.map_values(f)[i] == bc.map_values(|c: ItemCore| item_key(c))[i] by {
        assert(lr1_views(bseq)[i] == bseq[i]@);
        let q = position_of(a2, bseq[i]@.core);
        assert(0 <= q < a2.len() && same_core(a2[q].core, bseq[i]@.core));
    }
    assert(p.map_values(f) =~= bc.map_values(|c: ItemCore| item_key(c)));
    assert forall|m: int| m >= 0 implies #[trigger] num_upto(target, m) <= num_upto(known_cores, m) + rules.len() by {
        lemma_num_upto_keys(target, bc, m);
        lemma_closure_upto(alphabet, rules, known_cores, bc, m);
    }
}

/// The state reached from `state` on `token`: the items of `state` that have
/// `token` next, with the marker moved past it, closed and stored into
/// `all_items`.  `None` when an item of the closure has an empty production.
#[verifier::spinoff_prover]
pub fn goto_state(
    token_alphabet: &StableOrderedSet<String>,
    grammar: &ParserGrammar,
    state: &Vec<usize>,
    token: &String,
    all_items: &mut StableOrderedSet<LR1ParserItem>,
) -> (r: Option<Vec<usize>>)
    requires
        token_alphabet.wf(),
        old(all_items).wf(),
        lookaheads_wf(old(all_items).spec_values()),
        state_in(old(all_items)@, state@),
        forall|k: int|
            0 <= k < old(all_items)@.len() ==> item_of_rules(grammar.spec_rules(), #[trigger] old(all_items)@[k].core),
    ensures
        final(all_items).wf(),
        lookaheads_wf(final(all_items).spec_values()),
        items_extend(old(all_items)@, final(all_items)@),
        forall|k: int|
            0 <= k < final(all_items)@.len() ==> item_of_rules(
                grammar.spec_rules(),
                #[trigger] final(all_items)@[k].core,
            ),
        r is None ==> has_empty_rule(grammar.spec_rules()),
        r matches Some(n) ==> exists|built: Seq<Lr1View>|
            #[trigger] is_state_for_items(
                token_alphabet@,
                grammar.spec_rules(),
                advanced_views(state_views(old(all_items)@, state@), token@),
                built,
            ) && is_dehydrated(old(all_items)@, built, final(all_items)@, n@),
        r matches Some(n) ==> {
            &&& state_in(final(all_items)@, n@)
            &&& is_goto(
                token_alphabet@,
                grammar.spec_rules(),
                state_cores(old(all_items)@, state@),
                token@,
                state_cores(final(all_items)@, n@),
            )
            &&& forall|m: int|
                m >= 0 ==> #[trigger] num_upto(state_cores(final(all_items)@, n@), m) <= num_upto(
                    state_cores(old(all_items)@, state@),
                    m - 1,
                ) + grammar.spec_rules().len()
        },
{
    let ghost a0 = all_items@;
    let ghost rules = grammar.spec_rules();
    let ghost cs = state_cores(a0, state@);
    let known = advance_items(state, token, all_items);
    let ghost known_cores = cores_of(lr1_views(known@));
    proof {
        assert forall|q: int| 0 <= q < cs.len() implies item_of_rules(rules, #[trigger] cs[q]) by {
            assert(cs[q] == a0[state@[q] as int].core);
        }
        lemma_advanced_items(rules, cs, token@);
    }
    let built = match build_state_for_items(token_alphabet, grammar, known) {
        Some(b) => b,
        None => {
            proof {
                lemma_empty_closure_rule(token_alphabet@, rules, known_cores);
            }
            return None;
        },
    };
    let ghost bseq = built@;
    proof {
        lemma_state_closure(token_alphabet@, rules, lr1_views(known@), lr1_views(bseq));
    }
    let n = dehydrate_state(built, all_items);
    let count = all_items.len();
    let ghost a1 = all_items@;
    proof {
        assert forall|k: int|
            a0.len() <= k < all_items@.len() implies exists|j: int| 0 <= j < bseq.len() && (#[trigger] all_items@[k]).core == bseq[j]@.core by {
            let j = choose|j: int| 0 <= j < bseq.len() && (#[trigger] all_items@[k]).core == bseq[j]@.core;
        }
        lemma_stored_state(token_alphabet@, rules, known_cores, bseq, a0, all_items@, n@);
        let target = state_cores(all_items@, n@);
        assert(is_goto(token_alphabet@, rules, cs, token@, target));
        assert forall|m: int| m >= 0 implies #[trigger] num_upto(target, m) <= num_upto(cs, m - 1) + rules.len() by {
            lemma_advanced_upto(cs, token@, m);
        }
        assert(is_state_for_items(
            token_alphabet@,
            rules,
            advanced_views(state_views(a0, state@), token@),
            lr1_views(bseq),
        ) && is_dehydrated(a0, lr1_views(bseq), a1, n@));
    }
    Some(n)
}

/// The items that start the rules named `name` among the first `k` rules, in
/// the order of the rules, with no lookaheads.
pub open spec fn start_items(rules: Seq<RuleView>, name: Seq<char>, k: int) -> Seq<Lr1View>
    decreases k,
{
    if k <= 0 {
        Seq::empty()
    } else {
        let rest = start_items(rules, name, k - 1);
        if rules[k - 1].name == name {
            rest.push(Lr1View { core: rule_start_item(rules, k - 1), lookahead: Seq::empty() })
        } else {
            rest
        }
    }
}

proof fn lemma_start_items(rules: Seq<RuleView>, name: Seq<char>, k: int)
    requires
        0 <= k <= rules.len(),
    ensures
        start_items(rules, name, k).len() <= k,
        forall|i: int|
            0 <= i < start_items(rules, name, k).len() ==> item_of_rules(
                rules,
                #[trigger] start_items(rules, name, k)[i].core,
            ),
    decreases k,
{
    if k > 0 {
        lemma_start_items(rules, name, k - 1);
        let rest = start_items(rules, name, k - 1);
        if rules[k - 1].name == name {
            assert forall|i: int| 0 <= i < start_items(rules, name, k).len() implies item_of_rules(
                rules,
                #[trigger] start_items(rules, name, k)[i].core,
            ) by {
                if i < rest.len() {
                    assert(start_items(rules, name, k)[i] == rest[i]);
                }
            }
        }
    }
}

/// The starting state: the closure of the items that start the rules of
/// `start_non_terminal`.  `None` when an item of the closure has an empty
/// production.
pub fn create_starting_state(
    token_alphabet: &StableOrderedSet<String>,
    grammar: &ParserGrammar,
    start_non_terminal: &String,
) -> (r: Option<Vec<LR1ParserItem>>)
    requires
        token_alphabet.wf(),
    ensures
        r matches Some(st) ==> {
            &&& is_state_for_items(
                token_alphabet@,
                grammar.spec_rules(),
                start_items(grammar.spec_rules(), start_non_terminal@, grammar.spec_rules().len() as int),
                lr1_views(st@),
            )
            &&& lookaheads_wf(st@)
        },
        r is None ==> has_empty_rule(grammar.spec_rules()),
{
    let ghost rules = grammar.spec_rules();
    let mut known: Vec<LR1ParserItem> = Vec::new();
    let mut i: usize = 0;
    while i < grammar.rules.len()
        invariant
            i <= grammar.rules@.len(),
            rules == grammar.spec_rules(),
            lr1_views(known@) == start_items(rules, start_non_terminal@, i as int),
            lookaheads_wf(known@),
        decreases grammar.rules@.len() - i,
    {
        let rule = &grammar.rules[i];
        let ghost before = known@;
        assert(rules[i as int] == rule.spec_view());
        if rule.name == *start_non_terminal {
            let item = LR1ParserItem {
                source: rule.name.clone(),
                production: crate::text::clone_strings(&rule.production),
                marker_pos: 0,
                lookahead: StableOrderedSet::new(),
                rule_id: i,
            };
            known.push(item);
            proof {
                assert(lr1_views(known@) =~= lr1_views(before).push(known@[i as int - i as int + before.len()]@));
                assert(lr1_views(known@) =~= start_items(rules, start_non_terminal@, i + 1));
                assert forall|q: int| 0 <= q < known@.len() implies (#[trigger] known@[q]).lookahead.wf() by {
                    if q < before.len() {
                        assert(known@[q] == before[q]);
                    }
                }
            }
        }
        i += 1;
    }
    proof {
        assert(i == rules.len());
    }
    let built = build_state_for_items(token_alphabet, grammar, known);
    proof {
        if built is None {
            lemma_start_items(rules, start_non_terminal@, rules.len() as int);
            let kc = cores_of(start_items(rules, start_non_terminal@, rules.len() as int));
            assert forall|q: int| 0 <= q < kc.len() implies item_of_rules(rules, #[trigger] kc[q]) by {
                assert(kc[q] == start_items(rules, start_non_terminal@, rules.len() as int)[q].core);
            }
            lemma_empty_closure_rule(token_alphabet@, rules, kc);
        }
    }
    built
}

/// The cores of the items of each state.
pub open spec fn all_cores(items: Seq<Lr1View>, states: Seq<Seq<usize>>) -> Seq<Seq<ItemCore>> {
    states.map_values(|s: Seq<usize>| state_cores(items, s))
}

/// The facts that hold of the states built so far: they are stored in
/// `items`, whose items are items of the rules; each has at most
/// `2 * rules.len() * (m + 1)` items with the marker at most `m`; the first is
/// the closure of the items that start the rules of `start`.
pub open spec fn states_ok(
    alphabet: Seq<Seq<char>>,
    rules: Seq<RuleView>,
    start: Seq<char>,
    items: Seq<Lr1View>,
    states: Seq<Seq<usize>>,
) -> bool {
    &&& states.len() >= 1
    &&& forall|i: int| 0 <= i < states.len() ==> state_in(items, #[trigger] states[i])
    &&& forall|k: int| 0 <= k < items.len() ==> item_of_rules(rules, #[trigger] items[k].core)
    &&& forall|i: int, m: int|
        0 <= i < states.len() && m >= 0 ==> #[trigger] num_upto(state_cores(items, states[i]), m) <= 2 * rules.len() * (
        m + 1)
    &&& exists|closure: Seq<ItemCore>|
        {
            &&& is_lr0_closure(alphabet, rules, cores_of(start_items(rules, start, rules.len() as int)), closure)
            &&& state_cores(items, states[0]).map_values(|c: ItemCore| item_key(c)).to_multiset()
                == closure.map_values(|c: ItemCore| item_key(c)).to_multiset()
        }
}

/// The goto entries of the states before `done`: each such state has a shift
/// on exactly the tokens that its items have next, to the state reached on
/// that token; other states have none.
pub open spec fn shifts_ok(
    alphabet: Seq<Seq<char>>,
    rules: Seq<RuleView>,
    table: &LR0GotoTable,
    cores: Seq<Seq<ItemCore>>,
    done: int,
) -> bool {
    &&& table.wf()
    &&& forall|s: usize| #[trigger] table.spec_maps().contains_key(s) ==> s < done
    &&& forall|s: usize| #[trigger] table.spec_maps().contains_key(s) ==> exists|t: Seq<char>| table.spec_maps()[s].contains_key(t)
    &&& forall|i: usize| i < done ==> (#[trigger] table.actions_of(i)).dom() == next_list(cores[i as int]).to_set()
    &&& forall|i: usize, t: Seq<char>|
        i < done && #[trigger] table.actions_of(i).contains_key(t) ==> {
            let a = table.actions_of(i)[t];
            &&& a is Shift
            &&& a->Shift_0 < cores.len()
            &&& is_goto(alphabet, rules, cores[i as int], t, cores[a->Shift_0 as int])
        }
}

proof fn lemma_bound_step(r: int, m: int, below: int, x: int)
    by (nonlinear_arith)
    requires
        r >= 0,
        m >= 1,
        below <= 2 * r * m,
        x <= below + r,
    ensures
        x <= 2 * r * (m + 1),
{
}

proof fn lemma_bound_start(r: int, m: int, x: int)
    by (nonlinear_arith)
    requires
        r >= 0,
        m >= 0,
        x <= 2 * r,
    ensures
        x <= 2 * r * (m + 1),
{
}

/// The number of states that can ever be built for `rules`.
pub open spec fn state_limit(rules: Seq<RuleView>) -> nat {
    crate::frontend_v0::parser::state_space::bounded_seqs(
        (2 * rules.len() * (crate::frontend_v0::parser::state_space::max_production(rules) + 1)) as nat,
        (rules.len() * (crate::frontend_v0::parser::state_space::max_production(rules) + 1)) as nat,
    ).len()
}

/// The states built so far are distinct states that fit the bounds, so they
/// are at most `state_limit(rules)` many.
proof fn lemma_states_bounded(rules: Seq<RuleView>, items: Seq<Lr1View>, states: Seq<Seq<usize>>)
    requires
        crate::collections::stable_ordered_set::no_same_pair::<Vec<usize>>(states),
        crate::collections::stable_ordered_set::no_same_pair::<LR1ParserItem>(items),
        forall|i: int| 0 <= i < states.len() ==> state_in(items, #[trigger] states[i]),
        forall|k: int| 0 <= k < items.len() ==> item_of_rules(rules, #[trigger] items[k].core),
        forall|i: int, m: int|
            0 <= i < states.len() && m >= 0 ==> #[trigger] num_upto(state_cores(items, states[i]), m) <= 2 * rules.len()
                * (m + 1),
    ensures
        states.len() <= state_limit(rules),
{
    let lmax = crate::frontend_v0::parser::state_space::max_production(rules);
    let b = (2 * rules.len() * (lmax + 1)) as nat;
    let n = (rules.len() * (lmax + 1)) as nat;
    let ic = cores_of(items);
    assert forall|k: int| 0 <= k < ic.len() implies item_of_rules(rules, #[trigger] ic[k]) by {
        assert(ic[k] == items[k].core);
    }
    assert forall|k: int, l: int| 0 <= k < ic.len() && 0 <= l < ic.len() && k != l implies item_key(#[trigger] ic[k])
        != item_key(#[trigger] ic[l]) by {
        crate::collections::stable_ordered_set::lemma_no_same_pair_at::<LR1ParserItem>(items, k, l);
        assert(ic[k] == items[k].core && ic[l] == items[l].core);
    }
    crate::frontend_v0::parser::state_space::lemma_items_bound(rules, ic);
    assert forall|i: int| 0 <= i < states.len() implies crate::frontend_v0::parser::state_space::bounded_seqs(b, n).contains(
        #[trigger] states[i],
    ) by {
        let cs = state_cores(items, states[i]);
        assert forall|q: int| 0 <= q < cs.len() implies (#[trigger] cs[q]).marker_pos <= lmax by {
            assert(cs[q] == items[states[i][q] as int].core);
            assert(item_of_rules(rules, items[states[i][q] as int].core));
            crate::frontend_v0::parser::state_space::lemma_max_production(rules, cs[q].rule_id as int);
        }
        crate::frontend_v0::parser::state_space::lemma_num_upto_all(cs, lmax as int);
        assert(num_upto(state_cores(items, states[i]), lmax as int) <= 2 * rules.len() * (lmax + 1));
        assert(states[i].len() == cs.len());
    }
    assert(states.no_duplicates()) by {
        assert forall|i: int, j: int| 0 <= i < states.len() && 0 <= j < states.len() && i != j implies states[i]
            != states[j] by {
            crate::collections::stable_ordered_set::lemma_no_same_pair_at::<Vec<usize>>(states, i, j);
        }
    }
    crate::frontend_v0::parser::state_space::lemma_distinct_bounded(states, b, n);
}

/// The tokens that the items of state `j` have next, in the order in which
/// the construction makes their shifts.
pub open spec fn state_tokens(cores: Seq<Seq<ItemCore>>, j: int) -> Seq<Seq<char>> {
    StableOrderedSet::<String>::inserted_all(Seq::empty(), next_list(cores[j]))
}

/// The shift on `t2` from state `j2` is made before the shift on `t` from
/// state `j`: states are handled in the order of their numbers, and the
/// tokens of a state in the order of `state_tokens`.
pub open spec fn shift_before(cores: Seq<Seq<ItemCore>>, j2: int, t2: Seq<char>, j: int, t: Seq<char>) -> bool {
    ||| j2 < j
    ||| j2 == j && exists|a: int, b: int|
        0 <= a < b < state_tokens(cores, j).len() && #[trigger] state_tokens(cores, j)[a] == t2 && #[trigger] state_tokens(
            cores,
            j,
        )[b] == t
}

/// State `k` is the target of a shift of `table` made before the shift on
/// `t` from state `j`.
pub open spec fn reached_before(cores: Seq<Seq<ItemCore>>, table: &LR0GotoTable, k: usize, j: usize, t: Seq<char>) -> bool {
    exists|j2: usize, t2: Seq<char>|
        #[trigger] table.actions_of(j2).contains_key(t2) && table.actions_of(j2)[t2] == LR1ParserAction::Shift(k)
            && shift_before(cores, j2 as int, t2, j as int, t)
}

/// The states are numbered in the order in which they are first reached: a
/// shift to state `n` comes after shifts to each of the states `1` to `n - 1`.
pub open spec fn numbered_in_order(cores: Seq<Seq<ItemCore>>, table: &LR0GotoTable) -> bool {
    forall|j: usize, t: Seq<char>, k: usize|
        #![trigger reached_before(cores, table, k, j, t)]
        table.actions_of(j).contains_key(t) && table.actions_of(j)[t] is Shift && 1 <= k < table.actions_of(j)[t]->Shift_0
            ==> reached_before(cores, table, k, j, t)
}

/// The shifts that the construction makes for the states `0` to `n - 1`, in
/// order: each state in turn, its tokens in the order of `state_tokens`.
pub open spec fn moves_upto(cores: Seq<Seq<ItemCore>>, n: int) -> Seq<(int, Seq<char>)>
    decreases n,
{
    if n <= 0 {
        Seq::empty()
    } else {
        moves_upto(cores, n - 1) + state_tokens(cores, n - 1).map_values(|t: Seq<char>| (n - 1, t))
    }
}

/// Step `m` of the construction: the `m`-th shift `(j, t)` leads to state
/// `k`, and the stored items went from `hist[m]` to `hist[m + 1]` by storing
/// the state built from the items of state `j` (with their lookaheads as they
/// were then) that have `t` next, with the marker moved past `t`; the state
/// `k` is the positions of that state among the stored items.
pub open spec fn move_ok(
    alphabet: Seq<Seq<char>>,
    rules: Seq<RuleView>,
    hist: Seq<Seq<Lr1View>>,
    mv: Seq<(int, Seq<char>)>,
    states: Seq<Seq<usize>>,
    sh: Seq<Map<Seq<char>, LR1ParserAction>>,
    m: int,
) -> bool {
    let j = mv[m].0;
    let t = mv[m].1;
    &&& 0 <= j < states.len()
    &&& j < sh.len()
    &&& sh[j].contains_key(t)
    &&& sh[j][t] is Shift
    &&& sh[j][t]->Shift_0 < states.len()
    &&& exists|built: Seq<Lr1View>|
        #[trigger] is_state_for_items(alphabet, rules, advanced_views(state_views(hist[m], states[j]), t), built)
            && is_dehydrated(hist[m], built, hist[m + 1], states[sh[j][t]->Shift_0 as int])
}

/// The stored items after each step of the construction: `hist[0]` holds the
/// starting state, the closure of the items that start the rules of `start`,
/// which is state `0`; each shift of `mv` is a step; the last entry is `items`.
pub open spec fn history_ok(
    alphabet: Seq<Seq<char>>,
    rules: Seq<RuleView>,
    start: Seq<char>,
    hist: Seq<Seq<Lr1View>>,
    mv: Seq<(int, Seq<char>)>,
    states: Seq<Seq<usize>>,
    items: Seq<Lr1View>,
    sh: Seq<Map<Seq<char>, LR1ParserAction>>,
) -> bool {
    &&& hist.len() == mv.len() + 1
    &&& hist.last() == items
    &&& states.len() >= 1
    &&& exists|built: Seq<Lr1View>|
        #[trigger] is_state_for_items(alphabet, rules, start_items(rules, start, rules.len() as int), built)
            && is_dehydrated(Seq::empty(), built, hist[0], states[0])
    &&& forall|m: int| 0 <= m < mv.len() ==> #[trigger] move_ok(alphabet, rules, hist, mv, states, sh, m)
}

/// The shifts of the first `n` states depend on those states only.
proof fn lemma_moves_upto_prefix(c0: Seq<Seq<ItemCore>>, c1: Seq<Seq<ItemCore>>, n: int)
    requires
        0 <= n <= c0.len(),
        c0.len() <= c1.len(),
        c1.take(c0.len() as int) == c0,
    ensures
        moves_upto(c1, n) == moves_upto(c0, n),
    decreases n,
{
    if n > 0 {
        lemma_moves_upto_prefix(c0, c1, n - 1);
        assert(c1[n - 1] == c1.take(c0.len() as int)[n - 1]);
        assert(state_tokens(c1, n - 1) == state_tokens(c0, n - 1));
    }
}

/// One more step of the construction keeps the history.
proof fn lemma_history_step(
    alphabet: Seq<Seq<char>>,
    rules: Seq<RuleView>,
    start: Seq<char>,
    hist: Seq<Seq<Lr1View>>,
    mv: Seq<(int, Seq<char>)>,
    s0: Seq<Seq<usize>>,
    s1: Seq<Seq<usize>>,
    a0: Seq<Lr1View>,
    a1: Seq<Lr1View>,
    g0: &LR0GotoTable,
    g1: &LR0GotoTable,
    cur: usize,
    token: Seq<char>,
    target: usize,
)
    requires
        history_ok(alphabet, rules, start, hist, mv, s0, a0, shift_maps(g0, s0.len() as int)),
        s0.len() <= s1.len(),
        s1.take(s0.len() as int) == s0,
        cur < s0.len(),
        target < s1.len(),
        !g0.actions_of(cur).contains_key(token),
        g1.spec_maps() == g0.spec_maps().insert(cur, g0.actions_of(cur).insert(token, LR1ParserAction::Shift(target))),
        exists|built: Seq<Lr1View>|
            #[trigger] is_state_for_items(alphabet, rules, advanced_views(state_views(a0, s0[cur as int]), token), built)
                && is_dehydrated(a0, built, a1, s1[target as int]),
    ensures
        history_ok(
            alphabet,
            rules,
            start,
            hist.push(a1),
            mv.push((cur as int, token)),
            s1,
            a1,
            shift_maps(g1, s1.len() as int),
        ),
{
    let sh0 = shift_maps(g0, s0.len() as int);
    let sh1 = shift_maps(g1, s1.len() as int);
    let h1 = hist.push(a1);
    let mv1 = mv.push((cur as int, token));
    assert forall|j: int| 0 <= j < s0.len() implies #[trigger] s1[j] == s0[j] by {
        assert(s1.take(s0.len() as int)[j] == s1[j]);
    }
    assert(h1[0] == hist[0]);
    assert forall|m: int| 0 <= m < mv1.len() implies #[trigger] move_ok(alphabet, rules, h1, mv1, s1, sh1, m) by {
        if m < mv.len() {
            assert(move_ok(alphabet, rules, hist, mv, s0, sh0, m));
            let j = mv[m].0;
            let t = mv[m].1;
            assert(mv1[m] == mv[m]);
            assert(h1[m] == hist[m] && h1[m + 1] == hist[m + 1]);
            assert(sh0[j] == g0.actions_of(j as usize));
            assert(sh1[j] == g1.actions_of(j as usize));
            if j == cur {
                assert(t != token);
            }
            assert(sh1[j] == g0.actions_of(j as usize).insert(token, LR1ParserAction::Shift(target)) || sh1[j] == sh0[j]);
            assert(sh1[j].contains_key(t) && sh1[j][t] == sh0[j][t]);
            let built = choose|built: Seq<Lr1View>|
                #[trigger] is_state_for_items(alphabet, rules, advanced_views(state_views(hist[m], s0[j]), t), built)
                    && is_dehydrated(hist[m], built, hist[m + 1], s0[sh0[j][t]->Shift_0 as int]);
            assert(s1[sh0[j][t]->Shift_0 as int] == s0[sh0[j][t]->Shift_0 as int]);
            assert(is_state_for_items(alphabet, rules, advanced_views(state_views(h1[m], s1[j]), t), built));
        } else {
            assert(m == mv.len());
            assert(mv1[m] == (cur as int, token));
            assert(h1[m] == hist.last());
            assert(h1[m + 1] == a1);
            assert(sh1[cur as int] == g1.actions_of(cur));
            assert(sh1[cur as int].contains_key(token));
            assert(sh1[cur as int][token] == LR1ParserAction::Shift(target));
            let built = choose|built: Seq<Lr1View>|
                #[trigger] is_state_for_items(alphabet, rules, advanced_views(state_views(a0, s0[cur as int]), token), built)
                    && is_dehydrated(a0, built, a1, s1[target as int]);
            assert(is_state_for_items(alphabet, rules, advanced_views(state_views(h1[m], s1[cur as int]), token), built));
        }
    }
    let built0 = choose|built: Seq<Lr1View>|
        #[trigger] is_state_for_items(alphabet, rules, start_items(rules, start, rules.len() as int), built)
            && is_dehydrated(Seq::empty(), built, hist[0], s0[0]);
    assert(is_state_for_items(alphabet, rules, start_items(rules, start, rules.len() as int), built0));
}

/// State `i` is the target of a shift from a state numbered before it.
pub open spec fn reached_from_before(table: &LR0GotoTable, i: usize) -> bool {
    exists|j: usize, t: Seq<char>|
        j < i && #[trigger] table.actions_of(j).contains_key(t) && table.actions_of(j)[t] == LR1ParserAction::Shift(i)
}

/// Every state numbered below `n` but the first is reached by a shift from a
/// state numbered before it; so every state is reached from the first.
pub open spec fn states_reached(table: &LR0GotoTable, n: int) -> bool {
    forall|i: usize| 1 <= i < n ==> #[trigger] reached_from_before(table, i)
}

/// The goto entries while the tokens `done` of state `cur` have been handled:
/// the states before `cur` are complete, `cur` has a shift on each token of
/// `done`.
pub open spec fn shifts_partial(
    alphabet: Seq<Seq<char>>,
    rules: Seq<RuleView>,
    table: &LR0GotoTable,
    cores: Seq<Seq<ItemCore>>,
    cur: usize,
    done: Seq<Seq<char>>,
) -> bool {
    &&& table.wf()
    &&& forall|s: usize| #[trigger] table.spec_maps().contains_key(s) ==> s <= cur
    &&& forall|s: usize| #[trigger] table.spec_maps().contains_key(s) ==> exists|t: Seq<char>| table.spec_maps()[s].contains_key(t)
    &&& forall|i: usize| i < cur ==> (#[trigger] table.actions_of(i)).dom() == next_list(cores[i as int]).to_set()
    &&& table.actions_of(cur).dom() == done.to_set()
    &&& forall|i: usize, t: Seq<char>|
        i <= cur && #[trigger] table.actions_of(i).contains_key(t) ==> {
            let a = table.actions_of(i)[t];
            &&& a is Shift
            &&& a->Shift_0 < cores.len()
            &&& is_goto(alphabet, rules, cores[i as int], t, cores[a->Shift_0 as int])
        }
}

proof fn lemma_shifts_begin(
    alphabet: Seq<Seq<char>>,
    rules: Seq<RuleView>,
    table: &LR0GotoTable,
    cores: Seq<Seq<ItemCore>>,
    cur: usize,
)
    requires
        shifts_ok(alphabet, rules, table, cores, cur as int),
    ensures
        shifts_partial(alphabet, rules, table, cores, cur, Seq::empty()),
{
    assert(!table.spec_maps().contains_key(cur));
    assert(table.actions_of(cur).dom() =~= Seq::<Seq<char>>::empty().to_set());
}

proof fn lemma_shifts_end(
    alphabet: Seq<Seq<char>>,
    rules: Seq<RuleView>,
    table: &LR0GotoTable,
    cores: Seq<Seq<ItemCore>>,
    cur: usize,
    done: Seq<Seq<char>>,
)
    requires
        shifts_partial(alphabet, rules, table, cores, cur, done),
        cur < cores.len(),
        done.to_set() == next_list(cores[cur as int]).to_set(),
    ensures
        shifts_ok(alphabet, rules, table, cores, cur + 1),
{
}

/// Longer lists of cores keep the entries right.
proof fn lemma_shifts_more_cores(
    alphabet: Seq<Seq<char>>,
    rules: Seq<RuleView>,
    table: &LR0GotoTable,
    cores: Seq<Seq<ItemCore>>,
    more: Seq<Seq<ItemCore>>,
    cur: usize,
    done: Seq<Seq<char>>,
)
    requires
        shifts_partial(alphabet, rules, table, cores, cur, done),
        cur < cores.len(),
        cores.len() <= more.len(),
        more.take(cores.len() as int) == cores,
    ensures
        shifts_partial(alphabet, rules, table, more, cur, done),
{
    assert forall|i: int| 0 <= i < cores.len() implies more[i] == cores[i] by {
        assert(more.take(cores.len() as int)[i] == more[i]);
    }
}

/// Adding the shift from `cur` on `t` to a state whose items are those reached
/// from `cur` on `t` keeps the entries as they should be.
proof fn lemma_shift_added(
    alphabet: Seq<Seq<char>>,
    rules: Seq<RuleView>,
    before: &LR0GotoTable,
    after: &LR0GotoTable,
    cores: Seq<Seq<ItemCore>>,
    cur: usize,
    done: Seq<Seq<char>>,
    t: Seq<char>,
    target: usize,
)
    requires
        shifts_partial(alphabet, rules, before, cores, cur, done),
        cur < cores.len(),
        target < cores.len(),
        is_goto(alphabet, rules, cores[cur as int], t, cores[target as int]),
        after.wf(),
        after.spec_maps() == before.spec_maps().insert(cur, before.actions_of(cur).insert(t, LR1ParserAction::Shift(target))),
    ensures
        shifts_partial(alphabet, rules, after, cores, cur, done.push(t)),
{
    assert forall|s: usize| #[trigger] after.spec_maps().contains_key(s) implies s <= cur by {
        if s != cur {
            assert(before.spec_maps().contains_key(s));
        }
    }
    assert forall|s: usize| #[trigger] after.spec_maps().contains_key(s) implies exists|x: Seq<char>| after.spec_maps()[s].contains_key(x) by {
        if s != cur {
            assert(before.spec_maps().contains_key(s));
            let x = choose|x: Seq<char>| before.spec_maps()[s].contains_key(x);
            assert(after.spec_maps()[s].contains_key(x));
        } else {
            assert(after.spec_maps()[s].contains_key(t));
        }
    }
    assert forall|i: usize| i < cur implies (#[trigger] after.actions_of(i)).dom() == next_list(cores[i as int]).to_set() by {
        assert(after.actions_of(i) == before.actions_of(i));
    }
    assert(after.actions_of(cur) == before.actions_of(cur).insert(t, LR1ParserAction::Shift(target)));
    assert forall|x: Seq<char>| #[trigger] done.push(t).to_set().contains(x) == (done.to_set().contains(x) || x == t) by {
        if done.push(t).contains(x) {
            let q = choose|q: int| 0 <= q < done.push(t).len() && done.push(t)[q] == x;
            if q < done.len() {
                assert(done[q] == x);
            }
        }
        if done.contains(x) {
            let q = choose|q: int| 0 <= q < done.len() && done[q] == x;
            assert(done.push(t)[q] == x);
        }
        if x == t {
            assert(done.push(t)[done.len() as int] == x);
        }
    }
    assert(after.actions_of(cur).dom() =~= done.push(t).to_set());
    assert forall|i: usize, x: Seq<char>| i <= cur && #[trigger] after.actions_of(i).contains_key(x) implies {
        let a = after.actions_of(i)[x];
        &&& a is Shift
        &&& a->Shift_0 < cores.len()
        &&& is_goto(alphabet, rules, cores[i as int], x, cores[a->Shift_0 as int])
    } by {
        if i < cur {
            assert(after.actions_of(i) == before.actions_of(i));
        } else if x != t {
            assert(after.actions_of(i)[x] == before.actions_of(i)[x]);
            assert(before.actions_of(i).contains_key(x));
        }
    }
}

/// The states with one more state: all the facts carry over to the longer
/// list when the new state satisfies them.
proof fn lemma_states_push(
    alphabet: Seq<Seq<char>>,
    rules: Seq<RuleView>,
    start: Seq<char>,
    items: Seq<Lr1View>,
    states: Seq<Seq<usize>>,
    n: Seq<usize>,
)
    requires
        states_ok(alphabet, rules, start, items, states),
        state_in(items, n),
        forall|m: int| m >= 0 ==> #[trigger] num_upto(state_cores(items, n), m) <= 2 * rules.len() * (m + 1),
    ensures
        states_ok(alphabet, rules, start, items, states.push(n)),
        all_cores(items, states.push(n)) == all_cores(items, states).push(state_cores(items, n)),
{
    let s2 = states.push(n);
    assert forall|i: int| 0 <= i < s2.len() implies state_in(items, #[trigger] s2[i]) by {
        if i < states.len() {
            assert(s2[i] == states[i]);
        }
    }
    assert forall|i: int, m: int| 0 <= i < s2.len() && m >= 0 implies #[trigger] num_upto(state_cores(items, s2[i]), m) <= 2
        * rules.len() * (m + 1) by {
        if i < states.len() {
            assert(s2[i] == states[i]);
        }
    }
    assert(s2[0] == states[0]);
    assert(all_cores(items, s2) =~= all_cores(items, states).push(state_cores(items, n)));
}

/// The facts about the states stay true when the items only gain lookaheads
/// and new items after the old ones.
proof fn lemma_states_extend(
    alphabet: Seq<Seq<char>>,
    rules: Seq<RuleView>,
    start: Seq<char>,
    items: Seq<Lr1View>,
    items2: Seq<Lr1View>,
    states: Seq<Seq<usize>>,
)
    requires
        states_ok(alphabet, rules, start, items, states),
        items_extend(items, items2),
        forall|k: int| 0 <= k < items2.len() ==> item_of_rules(rules, #[trigger] items2[k].core),
    ensures
        states_ok(alphabet, rules, start, items2, states),
        all_cores(items2, states) == all_cores(items, states),
{
    assert forall|i: int| 0 <= i < states.len() implies state_in(items2, #[trigger] states[i]) && state_cores(items2, states[i])
        == state_cores(items, states[i]) by {
        lemma_state_cores_extend(items, items2, states[i]);
    }
    assert forall|i: int, m: int| 0 <= i < states.len() && m >= 0 implies #[trigger] num_upto(state_cores(items2, states[i]), m)
        <= 2 * rules.len() * (m + 1) by {
        lemma_state_cores_extend(items, items2, states[i]);
    }
    lemma_state_cores_extend(items, items2, states[0]);
    assert(all_cores(items2, states) =~= all_cores(items, states));
}

/// The number of the state `n` among `states`, or the number it gets when
/// it is new.
fn find_state(all_states: &StableOrderedSet<Vec<usize>>, n: &Vec<usize>) -> (r: usize)
    requires
        all_states.wf(),
    ensures
        r <= all_states@.len(),
        r < all_states@.len() ==> all_states@[r as int] == n@,
        r == all_states@.len() ==> !all_states.spec_contains(n@),
{
    match all_states.get_index_of(n) {
        Some(k) => k,
        None => all_states.len(),
    }
}

/// The facts that hold between the steps of the construction.
pub open spec fn building(
    alphabet: Seq<Seq<char>>,
    rules: Seq<RuleView>,
    start: Seq<char>,
    states: &StableOrderedSet<Vec<usize>>,
    items: &StableOrderedSet<LR1ParserItem>,
) -> bool {
    &&& items.wf()
    &&& lookaheads_wf(items.spec_values())
    &&& states.wf()
    &&& states_ok(alphabet, rules, start, items@, states@)
    &&& states@.len() <= state_limit(rules)
    &&& states_nonempty(states@)
}

/// Every state has an item, unless the first is the only state.
pub open spec fn states_nonempty(states: Seq<Seq<usize>>) -> bool {
    states.len() > 1 ==> forall|i: int| 0 <= i < states.len() ==> (#[trigger] states[i]).len() > 0
}

/// The state reached on a symbol that an item has next holds an item.
proof fn lemma_goto_nonempty(
    alphabet: Seq<Seq<char>>,
    rules: Seq<RuleView>,
    from: Seq<ItemCore>,
    t: Seq<char>,
    to: Seq<ItemCore>,
)
    requires
        next_list(from).contains(t),
        is_goto(alphabet, rules, from, t, to),
    ensures
        to.len() > 0,
{
    lemma_next_list_advanced(from, t);
    let closure = choose|closure: Seq<ItemCore>|
        {
            &&& is_lr0_closure(alphabet, rules, advanced(from, t), closure)
            &&& to.map_values(|c: ItemCore| item_key(c)).to_multiset() == closure.map_values(
                |c: ItemCore| item_key(c),
            ).to_multiset()
        };
    vstd::seq_lib::to_multiset_len(to.map_values(|c: ItemCore| item_key(c)));
    vstd::seq_lib::to_multiset_len(closure.map_values(|c: ItemCore| item_key(c)));
}

/// Some rule of `rules` has an empty production.
pub open spec fn has_empty_rule(rules: Seq<RuleView>) -> bool {
    exists|r: int| 0 <= r < rules.len() && (#[trigger] rules[r]).production.len() == 0
}

/// A closure of items of the rules that holds an item with an empty
/// production shows a rule with an empty production.
proof fn lemma_empty_closure_rule(alphabet: Seq<Seq<char>>, rules: Seq<RuleView>, known: Seq<ItemCore>)
    requires
        forall|i: int| 0 <= i < known.len() ==> item_of_rules(rules, #[trigger] known[i]),
        exists|lr0: Seq<ItemCore>| is_lr0_closure(alphabet, rules, known, lr0) && !productions_nonempty(lr0),
    ensures
        has_empty_rule(rules),
{
    let lr0 = choose|lr0: Seq<ItemCore>| is_lr0_closure(alphabet, rules, known, lr0) && !productions_nonempty(lr0);
    lemma_closure_items(alphabet, rules, known, lr0);
    let i = choose|i: int| 0 <= i < lr0.len() && !((#[trigger] lr0[i]).production.len() > 0);
    assert(item_of_rules(rules, lr0[i]));
    let r = lr0[i].rule_id as int;
    assert(rules[r].production.len() == 0);
}

/// Handles token `token` of state `state_id`: builds the state reached on it,
/// adds it when it is new and records the shift.
#[verifier::spinoff_prover]
#[verifier::rlimit(40)]
fn add_shift(
    token_alphabet: &StableOrderedSet<String>,
    grammar: &ParserGrammar,
    start_non_terminal: &String,
    state_id: usize,
    state: &Vec<usize>,
    token: &String,
    done: Ghost<Seq<Seq<char>>>,
    hist: Ghost<Seq<Seq<Lr1View>>>,
    mv: Ghost<Seq<(int, Seq<char>)>>,
    all_states: &mut StableOrderedSet<Vec<usize>>,
    all_items: &mut StableOrderedSet<LR1ParserItem>,
    goto: &mut LR0GotoTable,
) -> (ok: bool)
    requires
        history_ok(
            token_alphabet@,
            grammar.spec_rules(),
            start_non_terminal@,
            hist@,
            mv@,
            old(all_states)@,
            old(all_items)@,
            shift_maps(old(goto), old(all_states)@.len() as int),
        ),
        token_alphabet.wf(),
        building(token_alphabet@, grammar.spec_rules(), start_non_terminal@, old(all_states), old(all_items)),
        state_id < old(all_states)@.len(),
        state@ == old(all_states)@[state_id as int],
        next_list(state_cores(old(all_items)@, state@)).contains(token@),
        !done@.contains(token@),
        states_reached(old(goto), old(all_states)@.len() as int),
        done@.len() < state_tokens(all_cores(old(all_items)@, old(all_states)@), state_id as int).len(),
        done@ == state_tokens(all_cores(old(all_items)@, old(all_states)@), state_id as int).take(done@.len() as int),
        token@ == state_tokens(all_cores(old(all_items)@, old(all_states)@), state_id as int)[done@.len() as int],
        numbered_in_order(all_cores(old(all_items)@, old(all_states)@), old(goto)),
        shifts_partial(
            token_alphabet@,
            grammar.spec_rules(),
            old(goto),
            all_cores(old(all_items)@, old(all_states)@),
            state_id,
            done@,
        ),
    ensures
        ok ==> building(token_alphabet@, grammar.spec_rules(), start_non_terminal@, final(all_states), final(all_items)),
        ok ==> old(all_states)@.len() <= final(all_states)@.len(),
        ok ==> final(all_states)@.take(old(all_states)@.len() as int) == old(all_states)@,
        ok ==> shifts_partial(
            token_alphabet@,
            grammar.spec_rules(),
            final(goto),
            all_cores(final(all_items)@, final(all_states)@),
            state_id,
            done@.push(token@),
        ),
        ok ==> all_cores(final(all_items)@, old(all_states)@) == all_cores(old(all_items)@, old(all_states)@),
        ok ==> states_reached(final(goto), final(all_states)@.len() as int),
        ok ==> numbered_in_order(all_cores(final(all_items)@, final(all_states)@), final(goto)),
        ok ==> history_ok(
            token_alphabet@,
            grammar.spec_rules(),
            start_non_terminal@,
            hist@.push(final(all_items)@),
            mv@.push((state_id as int, token@)),
            final(all_states)@,
            final(all_items)@,
            shift_maps(final(goto), final(all_states)@.len() as int),
        ),
        !ok ==> has_empty_rule(grammar.spec_rules()),
{
    let ghost alphabet = token_alphabet@;
    let ghost rules = grammar.spec_rules();
    let ghost start = start_non_terminal@;
    let ghost a0 = all_items@;
    let ghost s0 = all_states@;
    let ghost g0 = *goto;
    let ghost c0 = all_cores(a0, s0);
    proof {
        assert(state_in(a0, state@));
        assert(c0[state_id as int] == state_cores(a0, state@));
    }
    let next = match goto_state(token_alphabet, grammar, state, token, all_items) {
        Some(n) => n,
        None => {
            return false;
        },
    };
    proof {
        lemma_states_extend(alphabet, rules, start, a0, all_items@, s0);
    }
    let target = find_state(all_states, &next);
    let ghost g_before = *goto;
    let overridden = goto.add_entry(state_id, token.clone(), target);
    proof {
        assert(!g_before.actions_of(state_id).contains_key(token@));
        assert(overridden is None);
        assert forall|i: usize| 1 <= i < s0.len() implies #[trigger] reached_from_before(goto, i) by {
            assert(reached_from_before(&g_before, i));
            let (j, t) = choose|j: usize, t: Seq<char>|
                j < i && #[trigger] g_before.actions_of(j).contains_key(t) && g_before.actions_of(j)[t] == LR1ParserAction::Shift(i);
            assert(goto.actions_of(j).contains_key(t) && goto.actions_of(j)[t] == LR1ParserAction::Shift(i));
        }
        if target == s0.len() {
            assert(goto.actions_of(state_id).contains_key(token@));
            assert(goto.actions_of(state_id)[token@] == LR1ParserAction::Shift(target));
            assert(reached_from_before(goto, target));
        }
    }
    if target == all_states.len() {
        let ghost nv = next@;
        proof {
            let cur = c0[state_id as int];
            assert forall|m: int| m >= 0 implies #[trigger] num_upto(state_cores(all_items@, nv), m) <= 2 * rules.len() * (m + 1) by {
                if m == 0 {
                    crate::frontend_v0::parser::state_space::lemma_num_upto_negative(cur, -1);
                    lemma_bound_start(rules.len() as int, 0, num_upto(state_cores(all_items@, nv), m) as int);
                } else {
                    assert(num_upto(state_cores(a0, s0[state_id as int]), m - 1) <= 2 * rules.len() * (m - 1 + 1));
                    lemma_bound_step(
                        rules.len() as int,
                        m,
                        num_upto(cur, m - 1) as int,
                        num_upto(state_cores(all_items@, nv), m) as int,
                    );
                }
            }
            lemma_states_push(alphabet, rules, start, all_items@, s0, nv);
        }
        all_states.insert(next);
        proof {
            assert(all_states@ == s0.push(nv));
            lemma_states_bounded(rules, all_items@, all_states@);
            lemma_goto_nonempty(alphabet, rules, c0[state_id as int], token@, state_cores(all_items@, nv));
            assert(state_cores(a0, state@).len() > 0);
            assert forall|i: int| 0 <= i < all_states@.len() implies (#[trigger] all_states@[i]).len() > 0 by {
                if i < s0.len() {
                    assert(all_states@[i] == s0[i]);
                }
            }
        }
    }
    proof {
        let c1 = all_cores(all_items@, all_states@);
        assert(all_states@.take(s0.len() as int) =~= s0);
        assert(c1.take(c0.len() as int) =~= c0);
        lemma_shifts_more_cores(alphabet, rules, &g0, c0, c1, state_id, done@);
        assert(c1[target as int] == state_cores(all_items@, next@));
        lemma_shift_added(alphabet, rules, &g0, goto, c1, state_id, done@, token@, target);
        lemma_numbered_after_shift(c0, c1, &g0, goto, s0.len() as int, state_id, done@, token@, target);
        assert(all_states@[target as int] == next@);
        lemma_history_step(
            alphabet,
            rules,
            start,
            hist@,
            mv@,
            s0,
            all_states@,
            a0,
            all_items@,
            &g0,
            goto,
            state_id,
            token@,
            target,
        );
    }
    true
}

/// Adding the shift on `token` from state `cur`, made after every shift of
/// `g0`, to state `target`, at most the number `n` of states so far, keeps the
/// states numbered in order.
proof fn lemma_numbered_after_shift(
    c0: Seq<Seq<ItemCore>>,
    c1: Seq<Seq<ItemCore>>,
    g0: &LR0GotoTable,
    g1: &LR0GotoTable,
    n: int,
    cur: usize,
    done: Seq<Seq<char>>,
    token: Seq<char>,
    target: usize,
)
    requires
        n == c0.len(),
        cur < n,
        target <= n,
        c0.len() <= c1.len(),
        c1.take(n) == c0,
        numbered_in_order(c0, g0),
        states_reached(g0, n),
        forall|s: usize| #[trigger] g0.spec_maps().contains_key(s) ==> s <= cur,
        g0.actions_of(cur).dom() == done.to_set(),
        done.len() < state_tokens(c0, cur as int).len(),
        done == state_tokens(c0, cur as int).take(done.len() as int),
        token == state_tokens(c0, cur as int)[done.len() as int],
        !done.contains(token),
        g1.spec_maps() == g0.spec_maps().insert(cur, g0.actions_of(cur).insert(token, LR1ParserAction::Shift(target))),
    ensures
        numbered_in_order(c1, g1),
{
    assert forall|j: int| 0 <= j < n implies #[trigger] state_tokens(c1, j) == state_tokens(c0, j) by {
        assert(c1[j] == c1.take(n)[j]);
    }
    // every shift of g0 is made before the new one, and is a shift of g1
    assert forall|j2: usize, t2: Seq<char>| #[trigger] g0.actions_of(j2).contains_key(t2) implies shift_before(
        c1,
        j2 as int,
        t2,
        cur as int,
        token,
    ) && g1.actions_of(j2).contains_key(t2) && g1.actions_of(j2)[t2] == g0.actions_of(j2)[t2] by {
        assert(g0.spec_maps().contains_key(j2));
        if j2 == cur {
            assert(done.to_set().contains(t2));
            let a = choose|a: int| 0 <= a < done.len() && done[a] == t2;
            let toks = state_tokens(c0, cur as int);
            assert(toks[a] == done[a]);
            assert(state_tokens(c1, cur as int) == toks);
            assert(t2 != token);
        }
    }
    assert forall|j: usize, t: Seq<char>, k: usize|
        #![trigger reached_before(c1, g1, k, j, t)]
        g1.actions_of(j).contains_key(t) && g1.actions_of(j)[t] is Shift && 1 <= k < g1.actions_of(j)[t]->Shift_0
            implies reached_before(c1, g1, k, j, t) by {
        if j == cur && t == token {
            assert(reached_from_before(g0, k));
            let (j2, t2) = choose|j2: usize, t2: Seq<char>|
                j2 < k && #[trigger] g0.actions_of(j2).contains_key(t2) && g0.actions_of(j2)[t2] == LR1ParserAction::Shift(k);
            assert(g1.actions_of(j2).contains_key(t2));
        } else {
            assert(g0.actions_of(j).contains_key(t) && g0.actions_of(j)[t] == g1.actions_of(j)[t]);
            assert(reached_before(c0, g0, k, j, t));
            let (j2, t2) = choose|j2: usize, t2: Seq<char>|
                #[trigger] g0.actions_of(j2).contains_key(t2) && g0.actions_of(j2)[t2] == LR1ParserAction::Shift(k)
                    && shift_before(c0, j2 as int, t2, j as int, t);
            assert(g0.spec_maps().contains_key(j));
            assert(g0.spec_maps().contains_key(j2));
            assert(state_tokens(c1, j as int) == state_tokens(c0, j as int));
            assert(g1.actions_of(j2).contains_key(t2));
            assert(shift_before(c1, j2 as int, t2, j as int, t));
        }
    }
}

/// All the facts about the states, items and goto entries that the
/// construction gives.
pub open spec fn automaton_states_ok(
    alphabet: Seq<Seq<char>>,
    rules: Seq<RuleView>,
    start: Seq<char>,
    states: &StableOrderedSet<Vec<usize>>,
    items: &StableOrderedSet<LR1ParserItem>,
    table: &LR0GotoTable,
) -> bool {
    &&& building(alphabet, rules, start, states, items)
    &&& shifts_ok(alphabet, rules, table, all_cores(items@, states@), states@.len() as int)
    &&& states_reached(table, states@.len() as int)
    &&& numbered_in_order(all_cores(items@, states@), table)
    &&& exists|h: Seq<Seq<Lr1View>>|
        #[trigger] history_ok(
            alphabet,
            rules,
            start,
            h,
            moves_upto(all_cores(items@, states@), states@.len() as int),
            states@,
            items@,
            shift_maps(table, states@.len() as int),
        )
}

/// Handles every token that items of state `state_id` have next.
fn add_state_shifts(
    token_alphabet: &StableOrderedSet<String>,
    grammar: &ParserGrammar,
    start_non_terminal: &String,
    state_id: usize,
    hist: Ghost<Seq<Seq<Lr1View>>>,
    all_states: &mut StableOrderedSet<Vec<usize>>,
    all_items: &mut StableOrderedSet<LR1ParserItem>,
    goto: &mut LR0GotoTable,
) -> (ok: bool)
    requires
        token_alphabet.wf(),
        building(token_alphabet@, grammar.spec_rules(), start_non_terminal@, old(all_states), old(all_items)),
        state_id < old(all_states)@.len(),
        shifts_ok(
            token_alphabet@,
            grammar.spec_rules(),
            old(goto),
            all_cores(old(all_items)@, old(all_states)@),
            state_id as int,
        ),
        states_reached(old(goto), old(all_states)@.len() as int),
        numbered_in_order(all_cores(old(all_items)@, old(all_states)@), old(goto)),
        history_ok(
            token_alphabet@,
            grammar.spec_rules(),
            start_non_terminal@,
            hist@,
            moves_upto(all_cores(old(all_items)@, old(all_states)@), state_id as int),
            old(all_states)@,
            old(all_items)@,
            shift_maps(old(goto), old(all_states)@.len() as int),
        ),
    ensures
        ok ==> building(token_alphabet@, grammar.spec_rules(), start_non_terminal@, final(all_states), final(all_items)),
        ok ==> old(all_states)@.len() <= final(all_states)@.len(),
        ok ==> shifts_ok(
            token_alphabet@,
            grammar.spec_rules(),
            final(goto),
            all_cores(final(all_items)@, final(all_states)@),
            state_id + 1,
        ),
        ok ==> states_reached(final(goto), final(all_states)@.len() as int),
        ok ==> numbered_in_order(all_cores(final(all_items)@, final(all_states)@), final(goto)),
        ok ==> exists|h: Seq<Seq<Lr1View>>|
            #[trigger] history_ok(
                token_alphabet@,
                grammar.spec_rules(),
                start_non_terminal@,
                h,
                moves_upto(all_cores(final(all_items)@, final(all_states)@), state_id + 1),
                final(all_states)@,
                final(all_items)@,
                shift_maps(final(goto), final(all_states)@.len() as int),
            ),
        !ok ==> has_empty_rule(grammar.spec_rules()),
{
    let ghost alphabet = token_alphabet@;
    let ghost rules = grammar.spec_rules();
    let ghost start = start_non_terminal@;
    let ghost s_init = all_states@;
    let ghost a_init = all_items@;
    let ghost base_mv = moves_upto(all_cores(a_init, s_init), state_id as int);
    let ghost mut h = hist@;
    let state = match all_states.get_index(state_id) {
        Some(st) => st.duplicate(),
        None => Vec::new(),
    };
    let ghost c_init = all_cores(all_items@, all_states@)[state_id as int];
    proof {
        assert(state_in(all_items@, state@));
    }
    let tokens = get_consumable_tokens(&state, all_items);
    let token_list = tokens.iter();
    proof {
        tokens.lemma_view();
        lemma_shifts_begin(alphabet, rules, goto, all_cores(all_items@, all_states@), state_id);
        assert(tokens@.take(0) =~= Seq::<Seq<char>>::empty());
        crate::frontend_v0::parser::symbol_sets::lemma_inserted_all_to_set(Seq::empty(), next_list(c_init));
        assert(Seq::<Seq<char>>::empty().to_set() =~= Set::empty());
        assert(tokens@.to_set() =~= next_list(c_init).to_set());
    }
    proof {
        assert(base_mv + tokens@.take(0).map_values(|t: Seq<char>| (state_id as int, t)) =~= base_mv);
        assert(all_cores(all_items@, all_states@).take(s_init.len() as int) =~= all_cores(a_init, s_init));
    }
    let mut ti: usize = 0;
    while ti < token_list.len()
        invariant
            token_alphabet.wf(),
            alphabet == token_alphabet@,
            rules == grammar.spec_rules(),
            start == start_non_terminal@,
            building(alphabet, rules, start, all_states, all_items),
            s_init.len() <= all_states@.len(),
            all_states@.take(s_init.len() as int) == s_init,
            state_id < s_init.len(),
            state@ == s_init[state_id as int],
            all_cores(all_items@, all_states@)[state_id as int] == c_init,
            tokens@ == token_list@.map_values(|x: String| x@),
            tokens@ == StableOrderedSet::<String>::inserted_all(Seq::empty(), next_list(c_init)),
            tokens@.to_set() == next_list(c_init).to_set(),
            tokens.wf(),
            states_reached(goto, all_states@.len() as int),
            numbered_in_order(all_cores(all_items@, all_states@), goto),
            all_cores(all_items@, all_states@).take(s_init.len() as int) == all_cores(a_init, s_init),
            base_mv == moves_upto(all_cores(a_init, s_init), state_id as int),
            history_ok(
                alphabet,
                rules,
                start,
                h,
                base_mv + tokens@.take(ti as int).map_values(|t: Seq<char>| (state_id as int, t)),
                all_states@,
                all_items@,
                shift_maps(goto, all_states@.len() as int),
            ),
            ti <= token_list@.len(),
            shifts_partial(alphabet, rules, goto, all_cores(all_items@, all_states@), state_id, tokens@.take(ti as int)),
        decreases token_list@.len() - ti,
    {
        let ghost s1 = all_states@;
        let ghost a1 = all_items@;
        proof {
            assert(s1[state_id as int] == s_init[state_id as int]) by {
                assert(s1.take(s_init.len() as int)[state_id as int] == s1[state_id as int]);
            }
            assert(tokens@[ti as int] == token_list@[ti as int]@);
            assert(tokens@.to_set().contains(tokens@[ti as int]));
            assert(state_cores(all_items@, state@) == c_init);
            assert(next_list(state_cores(all_items@, state@)).contains(token_list@[ti as int]@));
            assert(state_tokens(all_cores(all_items@, all_states@), state_id as int) == tokens@);
            assert(tokens@.take(ti as int).len() == ti);
            assert(!tokens@.take(ti as int).contains(token_list@[ti as int]@)) by {
                if tokens@.take(ti as int).contains(token_list@[ti as int]@) {
                    let q = choose|q: int| 0 <= q < ti && #[trigger] tokens@.take(ti as int)[q] == token_list@[ti as int]@;
                    assert(tokens@[q] == tokens@[ti as int]);
                    crate::collections::stable_ordered_set::lemma_no_same_pair_at::<String>(tokens@, q, ti as int);
                }
            }
        }
        let ok = add_shift(
            token_alphabet,
            grammar,
            start_non_terminal,
            state_id,
            &state,
            &token_list[ti],
            Ghost(tokens@.take(ti as int)),
            Ghost(h),
            Ghost(base_mv + tokens@.take(ti as int).map_values(|t: Seq<char>| (state_id as int, t))),
            all_states,
            all_items,
            goto,
        );
        if !ok {
            return false;
        }
        proof {
            h = h.push(all_items@);
            assert(base_mv + tokens@.take(ti + 1).map_values(|t: Seq<char>| (state_id as int, t)) =~= (base_mv
                + tokens@.take(ti as int).map_values(|t: Seq<char>| (state_id as int, t))).push(
                (state_id as int, token_list@[ti as int]@),
            ));
            assert(all_cores(all_items@, all_states@).take(s_init.len() as int) =~= all_cores(a_init, s_init)) by {
                assert forall|q: int| 0 <= q < s_init.len() implies #[trigger] all_cores(all_items@, all_states@)[q] == all_cores(
                    a_init,
                    s_init,
                )[q] by {
                    assert(all_states@.take(s1.len() as int)[q] == all_states@[q]);
                    assert(all_cores(all_items@, s1)[q] == all_cores(a1, s1)[q]);
                    assert(all_cores(a1, s1).take(s_init.len() as int)[q] == all_cores(a1, s1)[q]);
                }
            }
            assert(tokens@.take(ti + 1) =~= tokens@.take(ti as int).push(token_list@[ti as int]@));
            assert(all_states@.take(s_init.len() as int) =~= s_init) by {
                assert forall|q: int| 0 <= q < s_init.len() implies all_states@[q] == s_init[q] by {
                    assert(all_states@.take(s1.len() as int)[q] == s1[q]);
                    assert(s1.take(s_init.len() as int)[q] == s_init[q]);
                }
            }
            assert(all_cores(all_items@, s1)[state_id as int] == all_cores(a1, s1)[state_id as int]);
            assert(all_cores(all_items@, all_states@)[state_id as int] == all_cores(all_items@, s1)[state_id as int]) by {
                assert(all_states@[state_id as int] == s1[state_id as int]) by {
                    assert(all_states@.take(s1.len() as int)[state_id as int] == all_states@[state_id as int]);
                }
            }
        }
        ti += 1;
    }
    proof {
        assert(tokens@.take(ti as int) =~= tokens@);
        lemma_shifts_end(alphabet, rules, goto, all_cores(all_items@, all_states@), state_id, tokens@);
        let cf = all_cores(all_items@, all_states@);
        let ci = all_cores(a_init, s_init);
        lemma_moves_upto_prefix(ci, cf, state_id as int);
        assert(cf[state_id as int] == c_init);
        assert(state_tokens(cf, state_id as int) == tokens@);
        assert(moves_upto(cf, state_id + 1) == base_mv + tokens@.take(ti as int).map_values(
            |t: Seq<char>| (state_id as int, t),
        ));
    }
    true
}

/// The starting state stored into a new set of items, as the only state.
#[verifier::spinoff_prover]
fn first_states(
    token_alphabet: &StableOrderedSet<String>,
    grammar: &ParserGrammar,
    start_non_terminal: &String,
) -> (r: Option<(StableOrderedSet<Vec<usize>>, StableOrderedSet<LR1ParserItem>)>)
    requires
        token_alphabet.wf(),
    ensures
        r is None ==> has_empty_rule(grammar.spec_rules()),
        r matches Some(v) ==> building(token_alphabet@, grammar.spec_rules(), start_non_terminal@, &v.0, &v.1),
        r matches Some(v) ==> v.0@.len() == 1,
        r matches Some(v) ==> history_ok(
            token_alphabet@,
            grammar.spec_rules(),
            start_non_terminal@,
            seq![v.1@],
            Seq::empty(),
            v.0@,
            v.1@,
            Seq::empty(),
        ),
{
    let ghost alphabet = token_alphabet@;
    let ghost rules = grammar.spec_rules();
    let ghost start = start_non_terminal@;
    let starting = match create_starting_state(token_alphabet, grammar, start_non_terminal) {
        Some(st) => st,
        None => {
            return None;
        },
    };
    let ghost sseq = starting@;
    let mut all_items: StableOrderedSet<LR1ParserItem> = StableOrderedSet::new();
    proof {
        all_items.lemma_view();
        assert(all_items.spec_values().map_values(|x: LR1ParserItem| x@).len() == all_items.spec_values().len());
        assert(all_items.spec_values().len() == 0);
        lemma_state_closure(alphabet, rules, start_items(rules, start, rules.len() as int), lr1_views(sseq));
        lemma_start_items(rules, start, rules.len() as int);
        let kc = cores_of(start_items(rules, start, rules.len() as int));
        assert forall|q: int| 0 <= q < kc.len() implies item_of_rules(rules, #[trigger] kc[q]) by {
            assert(kc[q] == start_items(rules, start, rules.len() as int)[q].core);
        }
    }
    let ghost a_start = all_items@;
    let first_state = dehydrate_state(starting, &mut all_items);
    let count = all_items.len();
    let ghost fs = first_state@;
    let ghost kc = cores_of(start_items(rules, start, rules.len() as int));
    proof {
        let a1 = all_items@;
        let a_empty = Seq::<Lr1View>::empty();
        assert(a_empty.len() == 0);
        assert forall|k: int|
            a_empty.len() <= k < a1.len() implies exists|j: int| 0 <= j < sseq.len() && (#[trigger] a1[k]).core == sseq[j]@.core by {
            assert(0 <= k < all_items@.len());
        }
        lemma_stored_state(alphabet, rules, kc, sseq, a_empty, a1, fs);
        assert forall|m: int| m >= 0 implies #[trigger] num_upto(state_cores(a1, fs), m) <= 2 * rules.len() * (m + 1) by {
            crate::frontend_v0::parser::state_space::lemma_count_le_len(kc, |c: ItemCore| c.marker_pos <= m);
            lemma_bound_start(rules.len() as int, m, num_upto(state_cores(a1, fs), m) as int);
        }
    }
    let mut all_states: StableOrderedSet<Vec<usize>> = StableOrderedSet::new();
    all_states.insert(first_state);
    proof {
        assert(all_states@ =~= seq![fs]);
        assert(all_states@[0] == fs);
        assert(states_ok(alphabet, rules, start, all_items@, all_states@));
        lemma_states_bounded(rules, all_items@, all_states@);
    }
    proof {
        assert(a_start =~= Seq::<Lr1View>::empty());
        assert(is_state_for_items(alphabet, rules, start_items(rules, start, rules.len() as int), lr1_views(sseq))
            && is_dehydrated(Seq::empty(), lr1_views(sseq), all_items@, all_states@[0]));
        assert(seq![all_items@].last() == all_items@);
    }
    Some((all_states, all_items))
}

/// Builds the states of the automaton for `grammar`, starting from the rules of
/// `start_non_terminal`, with the goto entries of the shifts.  `None` when an
/// item of a state's closure has an empty production.
pub fn build_automata_states(
    token_alphabet: &StableOrderedSet<String>,
    grammar: &ParserGrammar,
    start_non_terminal: &String,
) -> (r: Option<(StableOrderedSet<Vec<usize>>, StableOrderedSet<LR1ParserItem>, LR0GotoTable)>)
    requires
        token_alphabet.wf(),
    ensures
        r is None ==> has_empty_rule(grammar.spec_rules()),
        r matches Some(v) ==> automaton_states_ok(token_alphabet@, grammar.spec_rules(), start_non_terminal@, &v.0, &v.1, &v.2),
{
    let ghost alphabet = token_alphabet@;
    let ghost rules = grammar.spec_rules();
    let ghost start = start_non_terminal@;
    let (mut all_states, mut all_items) = match first_states(token_alphabet, grammar, start_non_terminal) {
        Some(v) => v,
        None => {
            return None;
        },
    };
    let mut goto = LR0GotoTable::new();
    proof {
        assert forall|i: usize| i < 0 implies (#[trigger] goto.actions_of(i)).dom() == next_list(all_cores(all_items@, all_states@)[i as int]).to_set() by {
        }
        assert(moves_upto(all_cores(all_items@, all_states@), 0) =~= Seq::empty());
        let h0 = seq![all_items@];
        assert(history_ok(alphabet, rules, start, h0, Seq::empty(), all_states@, all_items@, Seq::empty()));
        assert(history_ok(
            alphabet,
            rules,
            start,
            h0,
            moves_upto(all_cores(all_items@, all_states@), 0),
            all_states@,
            all_items@,
            shift_maps(&goto, all_states@.len() as int),
        ));
    }
    let mut state_id: usize = 0;
    while state_id < all_states.len()
        invariant
            token_alphabet.wf(),
            alphabet == token_alphabet@,
            rules == grammar.spec_rules(),
            start == start_non_terminal@,
            building(alphabet, rules, start, &all_states, &all_items),
            shifts_ok(alphabet, rules, &goto, all_cores(all_items@, all_states@), state_id as int),
            states_reached(&goto, all_states@.len() as int),
            numbered_in_order(all_cores(all_items@, all_states@), &goto),
            exists|h: Seq<Seq<Lr1View>>|
                #[trigger] history_ok(
                    alphabet,
                    rules,
                    start,
                    h,
                    moves_upto(all_cores(all_items@, all_states@), state_id as int),
                    all_states@,
                    all_items@,
                    shift_maps(&goto, all_states@.len() as int),
                ),
            state_id <= all_states@.len(),
        decreases state_limit(rules) - state_id,
    {
        let ghost h = choose|h: Seq<Seq<Lr1View>>|
            history_ok(
                alphabet,
                rules,
                start,
                h,
                moves_upto(all_cores(all_items@, all_states@), state_id as int),
                all_states@,
                all_items@,
                shift_maps(&goto, all_states@.len() as int),
            );
        let ok = add_state_shifts(
            token_alphabet,
            grammar,
            start_non_terminal,
            state_id,
            Ghost(h),
            &mut all_states,
            &mut all_items,
            &mut goto,
        );
        if !ok {
            return None;
        }
        state_id += 1;
    }
    Some((all_states, all_items, goto))
}

/// The actions `m` of a state with the reductions of the complete items at
/// the positions `s` added, item after item: each sets the action of every
/// token of its lookaheads to the reduction by its rule.
pub open spec fn with_reduces(
    m: Map<Seq<char>, LR1ParserAction>,
    items: Seq<Lr1View>,
    s: Seq<usize>,
) -> Map<Seq<char>, LR1ParserAction>
    decreases s.len(),
{
    if s.len() == 0 {
        m
    } else {
        let prev = with_reduces(m, items, s.drop_last());
        let it = items[s.last() as int];
        if next_symbol(it.core) is None {
            with_all(prev, it.lookahead, LR1ParserAction::Reduce(it.core.rule_id as usize))
        } else {
            prev
        }
    }
}

/// The item at position `j` of the state at positions `s` is complete and
/// has `t` among its lookaheads.
pub open spec fn reduces_on(items: Seq<Lr1View>, s: Seq<usize>, j: int, t: Seq<char>) -> bool {
    next_symbol(items[s[j] as int].core) is None && items[s[j] as int].lookahead.contains(t)
}

/// Law of the reductions of a state: a token among the lookaheads of a
/// complete item of the state gets the reduction by the rule of the last such
/// item, whatever action it had; any other token keeps its action.
pub proof fn law_with_reduces(m: Map<Seq<char>, LR1ParserAction>, items: Seq<Lr1View>, s: Seq<usize>, t: Seq<char>)
    ensures
        (exists|j: int| 0 <= j < s.len() && #[trigger] reduces_on(items, s, j, t)) ==> exists|j: int|
            {
                &&& 0 <= j < s.len()
                &&& #[trigger] reduces_on(items, s, j, t)
                &&& forall|j2: int| j < j2 < s.len() ==> !#[trigger] reduces_on(items, s, j2, t)
                &&& with_reduces(m, items, s).contains_key(t)
                &&& with_reduces(m, items, s)[t] == LR1ParserAction::Reduce(items[s[j] as int].core.rule_id as usize)
            },
        !(exists|j: int| 0 <= j < s.len() && #[trigger] reduces_on(items, s, j, t)) ==> with_reduces(m, items, s).contains_key(t)
            == m.contains_key(t) && (m.contains_key(t) ==> with_reduces(m, items, s)[t] == m[t]),
    decreases s.len(),
{
    if s.len() > 0 {
        let p = s.drop_last();
        law_with_reduces(m, items, p, t);
        let it = items[s.last() as int];
        let prev = with_reduces(m, items, p);
        law_with_all(prev, it.lookahead, LR1ParserAction::Reduce(it.core.rule_id as usize));
        assert forall|j: int| 0 <= j < p.len() implies #[trigger] reduces_on(items, p, j, t) == reduces_on(items, s, j, t) by {
            assert(p[j] == s[j]);
        }
        let last = s.len() - 1;
        assert(s[last] == s.last());
        if reduces_on(items, s, last, t) {
            assert(with_all(prev, it.lookahead, LR1ParserAction::Reduce(it.core.rule_id as usize)).contains_key(t));
        } else {
            if exists|j: int| 0 <= j < p.len() && #[trigger] reduces_on(items, p, j, t) {
                let j = choose|j: int|
                    {
                        &&& 0 <= j < p.len()
                        &&& #[trigger] reduces_on(items, p, j, t)
                        &&& forall|j2: int| j < j2 < p.len() ==> !#[trigger] reduces_on(items, p, j2, t)
                        &&& with_reduces(m, items, p).contains_key(t)
                        &&& with_reduces(m, items, p)[t] == LR1ParserAction::Reduce(items[p[j] as int].core.rule_id as usize)
                    };
                assert(reduces_on(items, s, j, t));
                assert forall|j2: int| j < j2 < s.len() implies !#[trigger] reduces_on(items, s, j2, t) by {
                    if j2 < p.len() {
                        assert(!reduces_on(items, p, j2, t));
                    }
                }
                if next_symbol(it.core) is None {
                    assert(!it.lookahead.contains(t));
                    assert(with_all(prev, it.lookahead, LR1ParserAction::Reduce(it.core.rule_id as usize)).contains_key(t));
                }
                assert(s[j] == p[j]);
            } else {
                assert forall|j: int| 0 <= j < s.len() implies !#[trigger] reduces_on(items, s, j, t) by {
                    if j < p.len() {
                        assert(!reduces_on(items, p, j, t));
                    }
                }
                if next_symbol(it.core) is None {
                    assert(!it.lookahead.contains(t));
                    assert(with_all(prev, it.lookahead, LR1ParserAction::Reduce(it.core.rule_id as usize)).contains_key(t)
                        == prev.contains_key(t));
                }
            }
        }
    }
}

/// The state at positions `s` has an item whose marker is at the end.
pub open spec fn has_complete_item(items: Seq<Lr1View>, s: Seq<usize>) -> bool {
    exists|j: int| 0 <= j < s.len() && next_symbol(items[#[trigger] s[j] as int].core) is None
}

/// A reduction that overrode an entry of the goto table: in state `state`, on
/// `token`, the action `previous` gave way to the reduction by rule `rule`.
pub struct TableOverride {
    pub state: usize,
    pub token: String,
    pub previous: LR1ParserAction,
    pub rule: usize,
}

/// The views of a list of overrides.
pub open spec fn table_overrides_view(v: Seq<TableOverride>) -> Seq<(usize, Seq<char>, LR1ParserAction, usize)> {
    v.map_values(|o: TableOverride| (o.state, o.token@, o.previous, o.rule))
}

/// The overrides that adding the reductions of the complete items at the
/// positions `s` of state `id` to the actions `m` reports, item after item.
pub open spec fn state_overrides(
    m: Map<Seq<char>, LR1ParserAction>,
    items: Seq<Lr1View>,
    s: Seq<usize>,
    id: usize,
) -> Seq<(usize, Seq<char>, LR1ParserAction, usize)>
    decreases s.len(),
{
    if s.len() == 0 {
        Seq::empty()
    } else {
        let prev = state_overrides(m, items, s.drop_last(), id);
        let it = items[s.last() as int];
        let rule = it.core.rule_id as usize;
        if next_symbol(it.core) is None {
            prev + reduce_overrides(with_reduces(m, items, s.drop_last()), it.lookahead, rule).map_values(
                |p: (Seq<char>, LR1ParserAction)| (id, p.0, p.1, rule),
            )
        } else {
            prev
        }
    }
}

/// The overrides of the states numbered below `n`, state after state.
pub open spec fn all_overrides(
    sh: Seq<Map<Seq<char>, LR1ParserAction>>,
    items: Seq<Lr1View>,
    states: Seq<Seq<usize>>,
    n: int,
) -> Seq<(usize, Seq<char>, LR1ParserAction, usize)>
    decreases n,
{
    if n <= 0 {
        Seq::empty()
    } else {
        all_overrides(sh, items, states, n - 1) + state_overrides(sh[n - 1], items, states[n - 1], (n - 1) as usize)
    }
}

/// Appends to `out` the overrides `ov` of the reduction by `rule` in state
/// `state_id`.
fn push_overrides(out: &mut Vec<TableOverride>, state_id: usize, rule: usize, ov: &Vec<(String, LR1ParserAction)>)
    ensures
        table_overrides_view(final(out)@) == table_overrides_view(old(out)@) + overrides_view(ov@).map_values(
            |p: (Seq<char>, LR1ParserAction)| (state_id, p.0, p.1, rule),
        ),
{
    let ghost start = table_overrides_view(out@);
    let ghost mapped = overrides_view(ov@).map_values(|p: (Seq<char>, LR1ParserAction)| (state_id, p.0, p.1, rule));
    let mut q: usize = 0;
    while q < ov.len()
        invariant
            q <= ov@.len(),
            mapped == overrides_view(ov@).map_values(|p: (Seq<char>, LR1ParserAction)| (state_id, p.0, p.1, rule)),
            table_overrides_view(out@) == start + mapped.take(q as int),
        decreases ov@.len() - q,
    {
        let ghost before = table_overrides_view(out@);
        out.push(TableOverride { state: state_id, token: ov[q].0.clone(), previous: ov[q].1, rule });
        assert(table_overrides_view(out@) =~= before.push((state_id, ov@[q as int].0@, ov@[q as int].1, rule)));
        assert(mapped[q as int] == (state_id, ov@[q as int].0@, ov@[q as int].1, rule));
        assert(mapped.take(q + 1) =~= mapped.take(q as int).push(mapped[q as int]));
        q += 1;
    }
    assert(mapped.take(q as int) =~= mapped);
}

/// Adds the reductions of the complete items of state `state_id`, and
/// appends to `out` the entries that they override.
fn add_state_reduces(
    state_id: usize,
    all_states: &StableOrderedSet<Vec<usize>>,
    all_items: &StableOrderedSet<LR1ParserItem>,
    shifts: Ghost<LR0GotoTable>,
    goto: &mut LR0GotoTable,
    out: &mut Vec<TableOverride>,
)
    requires
        state_id < all_states@.len(),
        forall|i: int| 0 <= i < all_states@.len() ==> state_in(all_items@, #[trigger] all_states@[i]),
        old(goto).wf(),
        forall|s: usize| #[trigger] old(goto).spec_maps().contains_key(s) <==> (shifts@.spec_maps().contains_key(s) || (s
            < state_id && has_complete_item(all_items@, all_states@[s as int]))),
        forall|i: usize| i < all_states@.len() ==> #[trigger] old(goto).actions_of(i) == if i < state_id {
            with_reduces(shifts@.actions_of(i), all_items@, all_states@[i as int])
        } else {
            shifts@.actions_of(i)
        },
    ensures
        table_overrides_view(final(out)@) == table_overrides_view(old(out)@) + state_overrides(
            shifts@.actions_of(state_id),
            all_items@,
            all_states@[state_id as int],
            state_id,
        ),
        final(goto).wf(),
        forall|s: usize| #[trigger] final(goto).spec_maps().contains_key(s) <==> (shifts@.spec_maps().contains_key(s) || (s
            <= state_id && has_complete_item(all_items@, all_states@[s as int]))),
        forall|i: usize| i < all_states@.len() ==> #[trigger] final(goto).actions_of(i) == if i <= state_id {
            with_reduces(shifts@.actions_of(i), all_items@, all_states@[i as int])
        } else {
            shifts@.actions_of(i)
        },
{
    let ghost st = all_states@[state_id as int];
    let state = match all_states.get_index(state_id) {
        Some(s) => s,
        None => {
            return;
        },
    };
    proof {
        assert(state_in(all_items@, st));
        assert(st.take(0) =~= Seq::<usize>::empty());
    }
    let ghost g_start = *goto;
    let ghost out0 = table_overrides_view(out@);
    let ghost base = shifts@.actions_of(state_id);
    proof {
        assert(g_start.actions_of(state_id) == base);
        assert(state_overrides(base, all_items@, st.take(0), state_id) =~= Seq::empty());
        assert(out0 + Seq::empty() =~= out0);
    }
    let mut j: usize = 0;
    while j < state.len()
        invariant
            g_start.actions_of(state_id) == base,
            table_overrides_view(out@) == out0 + state_overrides(base, all_items@, st.take(j as int), state_id),
            state@ == st,
            state_in(all_items@, st),
            j <= st.len(),
            goto.wf(),
            state_id < all_states@.len(),
            st == all_states@[state_id as int],
            forall|s: usize| s != state_id ==> (#[trigger] goto.spec_maps().contains_key(s) <==> g_start.spec_maps().contains_key(s)),
            goto.spec_maps().contains_key(state_id) <==> (g_start.spec_maps().contains_key(state_id) || has_complete_item(all_items@, st.take(j as int))),
            forall|i: usize| i != state_id ==> #[trigger] goto.actions_of(i) == g_start.actions_of(i),
            goto.actions_of(state_id) == with_reduces(g_start.actions_of(state_id), all_items@, st.take(j as int)),
        decreases st.len() - j,
    {
        let ghost before = *goto;
        let ghost pre = st.take(j as int);
        let ghost out_pre = table_overrides_view(out@);
        proof {
            assert(st.take(j + 1).drop_last() =~= pre);
            assert(st.take(j + 1).last() == st[j as int]);
        }
        match all_items.get_index(state[j]) {
            Some(item) => {
                if item.get_next_token().is_none() {
                    let ov = goto.add_reduces(state_id, &item.lookahead, item.rule_id);
                    push_overrides(out, state_id, item.rule_id, &ov);
                    proof {
                        let it = all_items@[st[j as int] as int];
                        assert(item@ == it);
                        assert(it.core.rule_id as usize == item.rule_id);
                        assert(table_overrides_view(out@) =~= out0 + state_overrides(base, all_items@, st.take(j + 1), state_id));
                        assert forall|s: usize| s != state_id implies (#[trigger] goto.spec_maps().contains_key(s) <==> g_start.spec_maps().contains_key(s)) by {
                            assert(goto.spec_maps().contains_key(s) == before.spec_maps().contains_key(s));
                        }
                        assert(has_complete_item(all_items@, st.take(j + 1))) by {
                            assert(st.take(j + 1)[j as int] == st[j as int]);
                        }
                        assert forall|i: usize| i != state_id implies #[trigger] goto.actions_of(i) == g_start.actions_of(i) by {
                            assert(goto.actions_of(i) == before.actions_of(i));
                        }
                    }
                } else {
                    proof {
                        assert(state_overrides(base, all_items@, st.take(j + 1), state_id) == state_overrides(base, all_items@, pre, state_id));
                        assert(has_complete_item(all_items@, st.take(j + 1)) == has_complete_item(all_items@, pre)) by {
                            if has_complete_item(all_items@, st.take(j + 1)) {
                                let q = choose|q: int| 0 <= q < st.take(j + 1).len() && next_symbol(all_items@[#[trigger] st.take(j + 1)[q] as int].core) is None;
                                assert(q < j);
                                assert(pre[q] == st.take(j + 1)[q]);
                            }
                            if has_complete_item(all_items@, pre) {
                                let q = choose|q: int| 0 <= q < pre.len() && next_symbol(all_items@[#[trigger] pre[q] as int].core) is None;
                                assert(pre[q] == st.take(j + 1)[q]);
                            }
                        }
                    }
                }
            },
            None => {},
        }
        j += 1;
    }
    proof {
        assert(st.take(st.len() as int) =~= st);
    }
}

/// The automaton that the construction builds: its states, stored in
/// `items`, and for each state its shifts `sh` on the tokens that its items
/// have next, to the states reached on them.
pub open spec fn automaton_states(
    alphabet: Seq<Seq<char>>,
    rules: Seq<RuleView>,
    start: Seq<char>,
    items: Seq<Lr1View>,
    states: Seq<Seq<usize>>,
    sh: Seq<Map<Seq<char>, LR1ParserAction>>,
) -> bool {
    &&& states_ok(alphabet, rules, start, items, states)
    &&& states_nonempty(states)
    &&& exists|hist: Seq<Seq<Lr1View>>|
        #[trigger] history_ok(
            alphabet,
            rules,
            start,
            hist,
            moves_upto(all_cores(items, states), states.len() as int),
            states,
            items,
            sh,
        )
    &&& forall|i: int| 1 <= i < states.len() ==> #[trigger] shifted_to_from_before(sh, i)
    &&& forall|j: int, t: Seq<char>, k: int|
        #![trigger shifted_to_before(all_cores(items, states), sh, k, j, t)]
        0 <= j < sh.len() && sh[j].contains_key(t) && sh[j][t] is Shift && 1 <= k < sh[j][t]->Shift_0
            ==> shifted_to_before(all_cores(items, states), sh, k, j, t)
    &&& states.no_duplicates()
    &&& sh.len() == states.len()
    &&& forall|i: int| 0 <= i < states.len() ==> (#[trigger] sh[i]).dom() == next_list(state_cores(items, states[i])).to_set()
    &&& forall|i: int, t: Seq<char>|
        0 <= i < states.len() && #[trigger] sh[i].contains_key(t) ==> {
            let a = sh[i][t];
            &&& a is Shift
            &&& a->Shift_0 < states.len()
            &&& is_goto(
                alphabet,
                rules,
                state_cores(items, states[i]),
                t,
                state_cores(items, states[a->Shift_0 as int]),
            )
        }
}

/// State `k` is the target of a shift in the maps `sh` made before the shift
/// on `t` from state `j`.
pub open spec fn shifted_to_before(
    cores: Seq<Seq<ItemCore>>,
    sh: Seq<Map<Seq<char>, LR1ParserAction>>,
    k: int,
    j: int,
    t: Seq<char>,
) -> bool {
    exists|j2: int, t2: Seq<char>|
        0 <= j2 < sh.len() && #[trigger] sh[j2].contains_key(t2) && sh[j2][t2] == LR1ParserAction::Shift(k as usize)
            && shift_before(cores, j2, t2, j, t)
}

/// State `i` is the target of a shift in the maps `sh` of a state numbered
/// before it.
pub open spec fn shifted_to_from_before(sh: Seq<Map<Seq<char>, LR1ParserAction>>, i: int) -> bool {
    exists|j: int, t: Seq<char>| 0 <= j < i && #[trigger] sh[j].contains_key(t) && sh[j][t] == LR1ParserAction::Shift(i as usize)
}

/// State `i` has an action: a shift, or the reduction of a complete item.
pub open spec fn has_actions(
    items: Seq<Lr1View>,
    states: Seq<Seq<usize>>,
    sh: Seq<Map<Seq<char>, LR1ParserAction>>,
    i: int,
) -> bool {
    (exists|t: Seq<char>| sh[i].contains_key(t)) || has_complete_item(items, states[i])
}

/// `table` is the goto table of the automaton with the stored items `items`,
/// the states `states` and their shifts `sh`: one map per state, the shifts of
/// the state with the reductions of its complete items added; the states after
/// the last one with an action have no entry.
pub open spec fn table_from(
    alphabet: Seq<Seq<char>>,
    rules: Seq<RuleView>,
    start: Seq<char>,
    items: Seq<Lr1View>,
    states: Seq<Seq<usize>>,
    sh: Seq<Map<Seq<char>, LR1ParserAction>>,
    table: Seq<Map<Seq<char>, LR1ParserAction>>,
) -> bool {
    &&& automaton_states(alphabet, rules, start, items, states, sh)
    &&& table.len() <= states.len()
    &&& forall|i: int| 0 <= i < table.len() ==> #[trigger] table[i] == with_reduces(sh[i], items, states[i])
    &&& forall|i: int| 0 <= i < table.len() ==> has_actions(items, states, sh, i)
    &&& forall|i: int| table.len() <= i < states.len() ==> !has_actions(items, states, sh, i)
}

/// `table` is the goto table of the automaton of the grammar.
pub open spec fn automaton_table(
    alphabet: Seq<Seq<char>>,
    rules: Seq<RuleView>,
    start: Seq<char>,
    table: Seq<Map<Seq<char>, LR1ParserAction>>,
) -> bool {
    exists|items: Seq<Lr1View>, states: Seq<Seq<usize>>, sh: Seq<Map<Seq<char>, LR1ParserAction>>|
        #[trigger] table_from(alphabet, rules, start, items, states, sh, table)
}

/// `table` is the goto table of the automaton of the grammar, and `overrides`
/// the entries that its reductions overrode while it was filled in, state
/// after state, item after item and token after token.
pub open spec fn automaton_overrides(
    alphabet: Seq<Seq<char>>,
    rules: Seq<RuleView>,
    start: Seq<char>,
    table: Seq<Map<Seq<char>, LR1ParserAction>>,
    overrides: Seq<(usize, Seq<char>, LR1ParserAction, usize)>,
) -> bool {
    exists|items: Seq<Lr1View>, states: Seq<Seq<usize>>, sh: Seq<Map<Seq<char>, LR1ParserAction>>|
        #[trigger] table_from(alphabet, rules, start, items, states, sh, table) && overrides == all_overrides(
            sh,
            items,
            states,
            states.len() as int,
        )
}

/// The maps of a list of action maps.
pub open spec fn maps_of(v: Seq<ActionMap>) -> Seq<Map<Seq<char>, LR1ParserAction>> {
    v.map_values(|m: ActionMap| m.spec_map())
}

/// The LR automaton of a grammar: the grammar and, for each state, the action
/// on each token.
pub struct LR1Automata {
    pub grammar: ParserGrammar,
    pub goto_table: Vec<ActionMap>,
    /// The entries of the table that a reduction overrode while the table
    /// was filled in.
    pub overrides: Vec<TableOverride>,
}

/// Lays out the goto table with one map per state number; `None` when some
/// state with actions has a number at least the number of states with actions.
fn table_to_vec(goto: LR0GotoTable) -> (r: Option<Vec<ActionMap>>)
    requires
        goto.wf(),
    ensures
        r is Some <==> forall|s: usize| #[trigger] goto.spec_maps().contains_key(s) ==> s < goto.spec_starts().len(),
        r matches Some(v) ==> {
            &&& v@.len() == goto.spec_starts().len()
            &&& forall|i: int| 0 <= i < v@.len() ==> (#[trigger] v@[i]).wf()
            &&& forall|i: int| 0 <= i < v@.len() ==> (#[trigger] v@[i]).spec_map() == goto.actions_of(i as usize)
        },
{
    let ghost maps = goto.spec_maps();
    let ghost starts = goto.spec_starts();
    let n = goto.len();
    let (mut keys, mut tables) = goto.into_parts();
    let mut out: Vec<ActionMap> = Vec::new();
    let mut i: usize = 0;
    while i < n
        invariant
            i <= n,
            out@.len() == i,
            forall|k: int| 0 <= k < i ==> (#[trigger] out@[k]).wf() && out@[k].spec_map() == Map::<Seq<char>, LR1ParserAction>::empty(),
        decreases n - i,
    {
        out.push(ActionMap::new());
        i += 1;
    }
    assert(keys@ =~= starts.take(keys@.len() as int));
    while tables.len() > 0
        invariant
            out@.len() == n,
            n == starts.len(),
            keys@.len() == tables@.len(),
            keys@.len() <= starts.len(),
            maps == goto.spec_maps(),
            starts == goto.spec_starts(),
            keys@ == starts.take(keys@.len() as int),
            starts.no_duplicates(),
            forall|q: int| 0 <= q < tables@.len() ==> (#[trigger] tables@[q]).wf() && maps.contains_key(keys@[q]) && tables@[q].spec_map() == maps[keys@[q]],
            forall|s: usize| #[trigger] maps.contains_key(s) <==> starts.contains(s),
            forall|q: int| keys@.len() <= q < starts.len() ==> starts[q] < n,
            forall|k: int| 0 <= k < n ==> (#[trigger] out@[k]).wf(),
            forall|k: int| 0 <= k < n && !keys@.contains(k as usize) ==> (#[trigger] out@[k]).spec_map() == (if maps.contains_key(k as usize) {
                maps[k as usize]
            } else {
                Map::empty()
            }),
        decreases tables@.len(),
    {
        let ghost before = out@;
        let ghost kb = keys@;
        let table = tables.pop().unwrap();
        let key = keys.pop().unwrap();
        proof {
            assert(key == kb[kb.len() - 1]);
            assert(kb[kb.len() - 1] == starts[kb.len() - 1]);
            assert(starts.contains(key));
            assert(keys@ == kb.drop_last());
            assert(kb.drop_last() =~= starts.take(kb.len() - 1));
        }
        if key >= n {
            proof {
                assert(maps.contains_key(key));
                assert(!(key < goto.spec_starts().len()));
            }
            return None;
        }
        out.set(key, table);
        proof {
            assert(keys@ =~= starts.take(keys@.len() as int));
            assert forall|k: int| 0 <= k < n && !keys@.contains(k as usize) implies (#[trigger] out@[k]).spec_map() == (if maps.contains_key(k as usize) {
                maps[k as usize]
            } else {
                Map::empty()
            }) by {
                if k != key {
                    assert(out@[k] == before[k]);
                    if kb.contains(k as usize) {
                        let q = choose|q: int| 0 <= q < kb.len() && kb[q] == k as usize;
                        if q < keys@.len() {
                            assert(keys@[q] == k as usize);
                        }
                    }
                }
            }
        }
    }
    proof {
        assert forall|s: usize| #[trigger] maps.contains_key(s) implies s < starts.len() by {
            let q = choose|q: int| 0 <= q < starts.len() && starts[q] == s;
        }
        assert forall|i: int| 0 <= i < out@.len() implies (#[trigger] out@[i]).spec_map() == goto.actions_of(i as usize) by {
            assert(!keys@.contains(i as usize));
        }
    }
    Some(out)
}

/// `n` distinct numbers are below `n` exactly when they are the numbers
/// below `n`.
proof fn lemma_keys_cover(keys: Seq<usize>)
    requires
        keys.no_duplicates(),
    ensures
        (forall|x: usize| #[trigger] keys.contains(x) ==> x < keys.len()) <==> (forall|i: usize|
            i < keys.len() ==> #[trigger] keys.contains(i)),
{
    let n = keys.len() as int;
    let ki = keys.map_values(|x: usize| x as int);
    assert(ki.no_duplicates()) by {
        assert forall|a: int, b: int| 0 <= a < ki.len() && 0 <= b < ki.len() && a != b implies ki[a] != ki[b] by {
            assert(keys[a] != keys[b]);
        }
    }
    if forall|x: usize| #[trigger] keys.contains(x) ==> x < keys.len() {
        assert forall|i: usize| i < keys.len() implies #[trigger] keys.contains(i) by {
            if !keys.contains(i) {
                let shifted = keys.map_values(|x: usize| if x < i { x as int } else { x - 1 });
                assert forall|a: int| 0 <= a < shifted.len() implies 0 <= #[trigger] shifted[a] < n - 1 by {
                    assert(keys.contains(keys[a]));
                    assert(keys[a] != i);
                }
                assert(shifted.no_duplicates()) by {
                    assert forall|a: int, b: int| 0 <= a < shifted.len() && 0 <= b < shifted.len() && a != b implies shifted[a]
                        != shifted[b] by {
                        assert(keys[a] != keys[b]);
                        assert(keys.contains(keys[a]) && keys.contains(keys[b]));
                    }
                }
                crate::frontend_v0::parser::state_space::lemma_distinct_below(shifted, n - 1);
            }
        }
    }
    if forall|i: usize| i < keys.len() ==> #[trigger] keys.contains(i) {
        assert forall|x: usize| #[trigger] keys.contains(x) implies x < keys.len() by {
            if x >= keys.len() {
                let range = vstd::set_lib::set_int_range(0, n);
                vstd::set_lib::lemma_int_range(0, n);
                ki.unique_seq_to_set();
                assert forall|y: int| #[trigger] range.insert(x as int).contains(y) implies ki.to_set().contains(y) by {
                    if y == x as int {
                        let q = choose|q: int| 0 <= q < keys.len() && keys[q] == x;
                        assert(ki[q] == y);
                    } else {
                        assert(keys.contains(y as usize));
                        let q = choose|q: int| 0 <= q < keys.len() && keys[q] == y as usize;
                        assert(ki[q] == y);
                    }
                }
                vstd::set_lib::lemma_len_subset(range.insert(x as int), ki.to_set());
            }
        }
    }
}

/// The shift maps of the first `n` states of `table`.
pub open spec fn shift_maps(table: &LR0GotoTable, n: int) -> Seq<Map<Seq<char>, LR1ParserAction>> {
    Seq::new(n as nat, |i: int| table.actions_of(i as usize))
}

proof fn lemma_built_dom(
    alphabet: Seq<Seq<char>>,
    rules: Seq<RuleView>,
    it: Seq<Lr1View>,
    st: Seq<Seq<usize>>,
    table: &LR0GotoTable,
    i: int,
)
    requires
        shifts_ok(alphabet, rules, table, all_cores(it, st), st.len() as int),
        0 <= i < st.len(),
        st.len() <= usize::MAX,
    ensures
        shift_maps(table, st.len() as int)[i].dom() == next_list(state_cores(it, st[i])).to_set(),
{
    let cores = all_cores(it, st);
    assert(shift_maps(table, st.len() as int)[i] == table.actions_of(i as usize));
    assert(cores[i] == state_cores(it, st[i]));
    assert(table.actions_of(i as usize).dom() == next_list(cores[(i as usize) as int]).to_set());
}

proof fn lemma_built_shift(
    alphabet: Seq<Seq<char>>,
    rules: Seq<RuleView>,
    it: Seq<Lr1View>,
    st: Seq<Seq<usize>>,
    table: &LR0GotoTable,
    i: int,
    t: Seq<char>,
)
    requires
        shifts_ok(alphabet, rules, table, all_cores(it, st), st.len() as int),
        0 <= i < st.len(),
        st.len() <= usize::MAX,
        shift_maps(table, st.len() as int)[i].contains_key(t),
    ensures
        ({
            let a = shift_maps(table, st.len() as int)[i][t];
            &&& a is Shift
            &&& a->Shift_0 < st.len()
            &&& is_goto(alphabet, rules, state_cores(it, st[i]), t, state_cores(it, st[a->Shift_0 as int]))
        }),
{
    let cores = all_cores(it, st);
    assert(shift_maps(table, st.len() as int)[i] == table.actions_of(i as usize));
    assert(table.actions_of(i as usize).contains_key(t));
    let a = table.actions_of(i as usize)[t];
    assert(cores[i] == state_cores(it, st[i]));
    assert(cores[a->Shift_0 as int] == state_cores(it, st[a->Shift_0 as int]));
}

proof fn lemma_built_states(
    alphabet: Seq<Seq<char>>,
    rules: Seq<RuleView>,
    start: Seq<char>,
    states: &StableOrderedSet<Vec<usize>>,
    items: &StableOrderedSet<LR1ParserItem>,
    table: &LR0GotoTable,
)
    requires
        automaton_states_ok(alphabet, rules, start, states, items, table),
        states@.len() <= usize::MAX,
    ensures
        automaton_states(alphabet, rules, start, items@, states@, shift_maps(table, states@.len() as int)),
{
    let st = states@;
    let it = items@;
    let sh = shift_maps(table, st.len() as int);
    assert(st.no_duplicates()) by {
        assert forall|i: int, j: int| 0 <= i < st.len() && 0 <= j < st.len() && i != j implies st[i] != st[j] by {
            crate::collections::stable_ordered_set::lemma_no_same_pair_at::<Vec<usize>>(st, i, j);
        }
    }
    assert forall|i: int| 0 <= i < st.len() implies (#[trigger] sh[i]).dom() == next_list(state_cores(it, st[i])).to_set() by {
        lemma_built_dom(alphabet, rules, it, st, table, i);
    }
    assert forall|j: int, t: Seq<char>, k: int|
        #![trigger shifted_to_before(all_cores(it, st), sh, k, j, t)]
        0 <= j < sh.len() && sh[j].contains_key(t) && sh[j][t] is Shift && 1 <= k < sh[j][t]->Shift_0
            implies shifted_to_before(all_cores(it, st), sh, k, j, t) by {
        assert(sh[j] == table.actions_of(j as usize));
        assert(reached_before(all_cores(it, st), table, k as usize, j as usize, t));
        let (j2, t2) = choose|j2: usize, t2: Seq<char>|
            #[trigger] table.actions_of(j2).contains_key(t2) && table.actions_of(j2)[t2] == LR1ParserAction::Shift(k as usize)
                && shift_before(all_cores(it, st), j2 as int, t2, j, t);
        assert(table.spec_maps().contains_key(j2));
        assert(sh[j2 as int] == table.actions_of(j2));
    }
    assert forall|i: int| 1 <= i < st.len() implies #[trigger] shifted_to_from_before(sh, i) by {
        assert(reached_from_before(table, i as usize));
        let (j, t) = choose|j: usize, t: Seq<char>|
            j < i && #[trigger] table.actions_of(j).contains_key(t) && table.actions_of(j)[t] == LR1ParserAction::Shift(i as usize);
        assert(sh[j as int] == table.actions_of(j));
    }
    assert forall|i: int, t: Seq<char>| 0 <= i < st.len() && #[trigger] sh[i].contains_key(t) implies {
        let a = sh[i][t];
        &&& a is Shift
        &&& a->Shift_0 < st.len()
        &&& is_goto(alphabet, rules, state_cores(it, st[i]), t, state_cores(it, st[a->Shift_0 as int]))
    } by {
        lemma_built_shift(alphabet, rules, it, st, table, i, t);
    }
}

/// The facts about the table with the reductions added.
pub open spec fn full_table(
    items: Seq<Lr1View>,
    states: Seq<Seq<usize>>,
    sh_table: &LR0GotoTable,
    full: &LR0GotoTable,
) -> bool {
    &&& full.wf()
    &&& forall|s: usize| #[trigger] full.spec_maps().contains_key(s) <==> (sh_table.spec_maps().contains_key(s) || (s
        < states.len() && has_complete_item(items, states[s as int])))
    &&& forall|i: usize| i < states.len() ==> #[trigger] full.actions_of(i) == with_reduces(
        sh_table.actions_of(i),
        items,
        states[i as int],
    )
}

/// A state has an entry in the full table exactly when it has actions.
proof fn lemma_entry_iff_actions(
    alphabet: Seq<Seq<char>>,
    rules: Seq<RuleView>,
    start: Seq<char>,
    items: Seq<Lr1View>,
    states: Seq<Seq<usize>>,
    sh_table: &LR0GotoTable,
    full: &LR0GotoTable,
    s: usize,
)
    requires
        automaton_states(alphabet, rules, start, items, states, shift_maps(sh_table, states.len() as int)),
        shifts_ok(alphabet, rules, sh_table, all_cores(items, states), states.len() as int),
        full_table(items, states, sh_table, full),
    ensures
        full.spec_maps().contains_key(s) ==> s < states.len(),
        s < states.len() ==> (full.spec_maps().contains_key(s) <==> has_actions(
            items,
            states,
            shift_maps(sh_table, states.len() as int),
            s as int,
        )),
{
    let sh = shift_maps(sh_table, states.len() as int);
    if s < states.len() {
        assert(sh[s as int] == sh_table.actions_of(s));
        if sh_table.spec_maps().contains_key(s) {
            let t = choose|t: Seq<char>| #[trigger] sh_table.spec_maps()[s].contains_key(t);
            assert(sh[s as int].contains_key(t));
        }
        if exists|t: Seq<char>| sh[s as int].contains_key(t) {
            let t = choose|t: Seq<char>| sh[s as int].contains_key(t);
            assert(sh_table.actions_of(s).contains_key(t));
        }
    }
}

/// A state that holds an item has an action: the shift on the symbol that the
/// item has next, or the reduction of the item.
proof fn lemma_nonempty_has_actions(
    items: Seq<Lr1View>,
    states: Seq<Seq<usize>>,
    sh: Seq<Map<Seq<char>, LR1ParserAction>>,
    i: int,
)
    requires
        0 <= i < states.len(),
        states[i].len() > 0,
        sh[i].dom() == next_list(state_cores(items, states[i])).to_set(),
    ensures
        has_actions(items, states, sh, i),
{
    let cs = state_cores(items, states[i]);
    assert(cs[0] == items[states[i][0] as int].core);
    if next_symbol(cs[0]) is Some {
        lemma_next_list_has(cs, 0);
        let x = next_symbol(cs[0])->0;
        assert(next_list(cs).to_set().contains(x));
        assert(sh[i].contains_key(x));
    } else {
        assert(has_complete_item(items, states[i]));
    }
}

/// Every state with actions has a number below the number of states with
/// actions: the states that hold an item all have actions, and a state
/// without items is the only one.
proof fn lemma_layout_fits(
    alphabet: Seq<Seq<char>>,
    rules: Seq<RuleView>,
    start: Seq<char>,
    items: Seq<Lr1View>,
    states: Seq<Seq<usize>>,
    sh_table: &LR0GotoTable,
    full: &LR0GotoTable,
)
    requires
        automaton_states(alphabet, rules, start, items, states, shift_maps(sh_table, states.len() as int)),
        shifts_ok(alphabet, rules, sh_table, all_cores(items, states), states.len() as int),
        full_table(items, states, sh_table, full),
    ensures
        forall|s: usize| #[trigger] full.spec_maps().contains_key(s) ==> s < full.spec_starts().len(),
{
    let keys = full.spec_starts();
    full.lemma_starts();
    lemma_keys_cover(keys);
    let sh = shift_maps(sh_table, states.len() as int);
    assert forall|s: usize| #[trigger] full.spec_maps().contains_key(s) implies s < keys.len() by {
        if !(s < keys.len()) {
            assert(keys.contains(s));
            let i = choose|i: usize| i < keys.len() && !#[trigger] keys.contains(i);
            lemma_entry_iff_actions(alphabet, rules, start, items, states, sh_table, full, s);
            lemma_entry_iff_actions(alphabet, rules, start, items, states, sh_table, full, i);
            assert(!full.spec_maps().contains_key(i));
            assert(i < s < states.len());
            lemma_nonempty_has_actions(items, states, sh, i as int);
        }
    }
}

proof fn lemma_layout_ok(
    alphabet: Seq<Seq<char>>,
    rules: Seq<RuleView>,
    start: Seq<char>,
    items: Seq<Lr1View>,
    states: Seq<Seq<usize>>,
    sh_table: &LR0GotoTable,
    full: &LR0GotoTable,
    t: Seq<Map<Seq<char>, LR1ParserAction>>,
)
    requires
        automaton_states(alphabet, rules, start, items, states, shift_maps(sh_table, states.len() as int)),
        shifts_ok(alphabet, rules, sh_table, all_cores(items, states), states.len() as int),
        full_table(items, states, sh_table, full),
        forall|s: usize| #[trigger] full.spec_maps().contains_key(s) ==> s < full.spec_starts().len(),
        t.len() == full.spec_starts().len(),
        forall|i: int| 0 <= i < t.len() ==> #[trigger] t[i] == full.actions_of(i as usize),
        states.len() <= usize::MAX,
    ensures
        table_from(alphabet, rules, start, items, states, shift_maps(sh_table, states.len() as int), t),
{
    let keys = full.spec_starts();
    let sh = shift_maps(sh_table, states.len() as int);
    full.lemma_starts();
    lemma_keys_cover(keys);
    assert forall|x: usize| #[trigger] keys.contains(x) implies x < keys.len() by {
        assert(full.spec_maps().contains_key(x));
    }
    assert forall|x: usize| #[trigger] keys.contains(x) implies x < states.len() by {
        lemma_entry_iff_actions(alphabet, rules, start, items, states, sh_table, full, x);
    }
    if keys.len() > states.len() {
        assert(keys.contains(states.len() as usize));
    }
    assert forall|i: int| 0 <= i < t.len() implies #[trigger] t[i] == with_reduces(sh[i], items, states[i]) by {
        assert(sh[i] == sh_table.actions_of(i as usize));
    }
    assert forall|i: int| 0 <= i < t.len() implies has_actions(items, states, sh, i) by {
        assert(keys.contains(i as usize));
        lemma_entry_iff_actions(alphabet, rules, start, items, states, sh_table, full, i as usize);
    }
    assert forall|i: int| t.len() <= i < states.len() implies !has_actions(items, states, sh, i) by {
        lemma_entry_iff_actions(alphabet, rules, start, items, states, sh_table, full, i as usize);
    }
}

/// Builds the LR automaton of `grammar` from the rules of
/// `start_non_terminal`: its states, the shifts between them, and the
/// reductions of their complete items on their lookaheads, with the entries
/// that those reductions overrode.  `None` when an item of a state's closure
/// has an empty production, which only a rule with an empty production can
/// give.  Every state with actions gets the map of its number: the states
/// without actions are none, or the first and only one.
pub fn build_automata(token_alphabet: &StableOrderedSet<String>, grammar: ParserGrammar, start_non_terminal: String) -> (r:
    Option<LR1Automata>)
    requires
        token_alphabet.wf(),
    ensures
        r matches Some(a) ==> {
            &&& a.grammar == grammar
            &&& forall|i: int| 0 <= i < a.goto_table@.len() ==> (#[trigger] a.goto_table@[i]).wf()
            &&& automaton_table(token_alphabet@, grammar.spec_rules(), start_non_terminal@, maps_of(a.goto_table@))
            &&& automaton_overrides(
                token_alphabet@,
                grammar.spec_rules(),
                start_non_terminal@,
                maps_of(a.goto_table@),
                table_overrides_view(a.overrides@),
            )
        },
        r is None ==> has_empty_rule(grammar.spec_rules()),
{
    let ghost alphabet = token_alphabet@;
    let ghost rules = grammar.spec_rules();
    let ghost start = start_non_terminal@;
    let (all_states, all_items, shifts) = match build_automata_states(token_alphabet, &grammar, &start_non_terminal) {
        Some(v) => v,
        None => {
            return None;
        },
    };
    let ghost sh_table = shifts;
    let ghost items = all_items@;
    let ghost states = all_states@;
    let state_total = all_states.len();
    proof {
        lemma_built_states(alphabet, rules, start, &all_states, &all_items, &shifts);
    }
    let mut goto = shifts;
    let mut overrides: Vec<TableOverride> = Vec::new();
    let mut state_id: usize = 0;
    while state_id < all_states.len()
        invariant
            table_overrides_view(overrides@) == all_overrides(shift_maps(&sh_table, states.len() as int), items, states, state_id as int),
            all_states@ == states,
            all_items@ == items,
            forall|i: int| 0 <= i < states.len() ==> state_in(items, #[trigger] states[i]),
            state_id <= states.len(),
            goto.wf(),
            forall|s: usize| #[trigger] goto.spec_maps().contains_key(s) <==> (sh_table.spec_maps().contains_key(s) || (s
                < state_id && has_complete_item(items, states[s as int]))),
            forall|i: usize| i < states.len() ==> #[trigger] goto.actions_of(i) == if i < state_id {
                with_reduces(sh_table.actions_of(i), items, states[i as int])
            } else {
                sh_table.actions_of(i)
            },
        decreases states.len() - state_id,
    {
        add_state_reduces(state_id, &all_states, &all_items, Ghost(sh_table), &mut goto, &mut overrides);
        proof {
            assert(shift_maps(&sh_table, states.len() as int)[state_id as int] == sh_table.actions_of(state_id));
        }
        state_id += 1;
    }
    let ghost full = goto;
    let state_count = all_states.len();
    proof {
        assert(full_table(items, states, &sh_table, &full));
        lemma_layout_fits(alphabet, rules, start, items, states, &sh_table, &full);
    }
    let table = match table_to_vec(goto) {
        Some(v) => v,
        None => {
            return None;
        },
    };
    proof {
        assert forall|i: int| 0 <= i < maps_of(table@).len() implies #[trigger] maps_of(table@)[i] == full.actions_of(i as usize) by {
        }
        lemma_layout_ok(alphabet, rules, start, items, states, &sh_table, &full, maps_of(table@));
        let sh = shift_maps(&sh_table, states.len() as int);
        assert(table_from(alphabet, rules, start, items, states, sh, maps_of(table@)));
    }
    Some(LR1Automata { grammar, goto_table: table, overrides })
}

/// Builds the automaton of the grammar written in `grammar_text`, starting
/// from the name of its first rule.
pub fn build_automata_from_grammar(token_alphabet: &StableOrderedSet<String>, grammar_text: &str) -> (r: Option<
    LR1Automata,
>)
    requires
        token_alphabet.wf(),
        crate::frontend_v0::parser::parser_grammar::parser_grammar_text_ok(grammar_text@),
        crate::frontend_v0::parser::parser_grammar::parser_grammar_of_text(grammar_text@).len() > 0,
    ensures
        ({
            let rules = crate::frontend_v0::parser::parser_grammar::parser_grammar_of_text(grammar_text@);
            &&& r matches Some(a) ==> {
                &&& a.grammar.spec_rules() == rules
                &&& forall|i: int| 0 <= i < a.goto_table@.len() ==> (#[trigger] a.goto_table@[i]).wf()
                &&& automaton_table(token_alphabet@, rules, rules[0].name, maps_of(a.goto_table@))
                &&& automaton_overrides(token_alphabet@, rules, rules[0].name, maps_of(a.goto_table@), table_overrides_view(a.overrides@))
            }
            &&& r is None ==> has_empty_rule(rules)
        }),
{
    let grammar = crate::frontend_v0::parser::parser_grammar::read_parser_grammar(grammar_text);
    proof {
        assert(grammar.spec_rules()[0] == grammar.rules@[0].spec_view());
    }
    let starting_rule = grammar.rules[0].name.clone();
    build_automata(token_alphabet, grammar, starting_rule)
}

/// A parser for the grammar written in `grammar_text`.
pub fn build_lr1_parser(token_alphabet: &StableOrderedSet<String>, grammar_text: &str) -> (r: Option<
    crate::frontend_v0::parser::lr1_parser::LR1Parser,
>)
    requires
        token_alphabet.wf(),
        crate::frontend_v0::parser::parser_grammar::parser_grammar_text_ok(grammar_text@),
        crate::frontend_v0::parser::parser_grammar::parser_grammar_of_text(grammar_text@).len() > 0,
    ensures
        ({
            let rules = crate::frontend_v0::parser::parser_grammar::parser_grammar_of_text(grammar_text@);
            &&& r matches Some(p) ==> {
                &&& p.wf()
                &&& p.spec_rules() == rules
                &&& automaton_table(token_alphabet@, rules, rules[0].name, p.spec_table())
                &&& automaton_overrides(token_alphabet@, rules, rules[0].name, p.spec_table(), p.spec_overrides())
                &&& p.spec_state() == 0
                &&& p.spec_stack() == Seq::<(usize, crate::frontend_v0::parser::common::parser::NodeView)>::empty()
            }
            &&& r is None ==> has_empty_rule(rules)
        }),
{
    match build_automata_from_grammar(token_alphabet, grammar_text) {
        Some(automata) => Some(crate::frontend_v0::parser::lr1_parser::LR1Parser::new(automata)),
        None => None,
    }
}

/// A symbol among those that come next is the next one of some item.
proof fn lemma_next_list_advanced(cs: Seq<ItemCore>, t: Seq<char>)
    requires
        next_list(cs).contains(t),
    ensures
        advanced(cs, t).len() >= 1,
    decreases cs.len(),
{
    if cs.len() > 0 {
        let rest = next_list(cs.drop_last());
        match next_symbol(cs.last()) {
            Some(x) => {
                if x != t {
                    let k = choose|k: int| 0 <= k < next_list(cs).len() && next_list(cs)[k] == t;
                    assert(k < rest.len());
                    assert(rest[k] == t);
                    lemma_next_list_advanced(cs.drop_last(), t);
                }
            },
            None => {
                lemma_next_list_advanced(cs.drop_last(), t);
            },
        }
    }
}

/// An item that is not complete puts its next symbol in the list.
proof fn lemma_next_list_has(cs: Seq<ItemCore>, j: int)
    requires
        0 <= j < cs.len(),
        next_symbol(cs[j]) is Some,
    ensures
        next_list(cs).contains(next_symbol(cs[j])->0),
    decreases cs.len(),
{
    let rest = next_list(cs.drop_last());
    if j < cs.len() - 1 {
        lemma_next_list_has(cs.drop_last(), j);
        assert(cs.drop_last()[j] == cs[j]);
        let k = choose|k: int| 0 <= k < rest.len() && rest[k] == next_symbol(cs[j])->0;
        match next_symbol(cs.last()) {
            Some(x) => {
                assert(next_list(cs)[k] == rest[k]);
            },
            None => {},
        }
    } else {
        assert(next_list(cs)[rest.len() as int] == next_symbol(cs[j])->0);
    }
}

/// Every action of a map with the reductions of a state added is a shift of
/// the map, or the reduction by the rule of an item of the state.
proof fn lemma_with_reduces_actions(
    m: Map<Seq<char>, LR1ParserAction>,
    items: Seq<Lr1View>,
    s: Seq<usize>,
    rules: Seq<RuleView>,
)
    requires
        state_in(items, s),
        forall|k: int| 0 <= k < items.len() ==> item_of_rules(rules, #[trigger] items[k].core),
    ensures
        forall|t: Seq<char>| #[trigger] with_reduces(m, items, s).contains_key(t) ==> {
            ||| (with_reduces(m, items, s)[t] matches LR1ParserAction::Reduce(r) && r < rules.len())
            ||| (m.contains_key(t) && with_reduces(m, items, s)[t] == m[t])
        },
    decreases s.len(),
{
    if s.len() > 0 {
        let d = s.drop_last();
        assert(state_in(items, d)) by {
            assert forall|j: int| 0 <= j < d.len() implies d[j] < items.len() by {
                assert(d[j] == s[j]);
            }
        }
        lemma_with_reduces_actions(m, items, d, rules);
        assert(s.last() == s[s.len() - 1]);
        assert(item_of_rules(rules, items[s.last() as int].core));
    }
}

/// Law of the goto table: in the row of each state, every token among the
/// lookaheads of a complete item of the state is a reduction, whatever shift
/// the state had on it.
pub proof fn law_table_reduces_on_lookaheads(
    alphabet: Seq<Seq<char>>,
    rules: Seq<RuleView>,
    start: Seq<char>,
    table: Seq<Map<Seq<char>, LR1ParserAction>>,
)
    requires
        automaton_table(alphabet, rules, start, table),
    ensures
        exists|items: Seq<Lr1View>, states: Seq<Seq<usize>>, sh: Seq<Map<Seq<char>, LR1ParserAction>>|
            {
                &&& #[trigger] table_from(alphabet, rules, start, items, states, sh, table)
                &&& forall|i: int, j: int, t: Seq<char>|
                    0 <= i < table.len() && 0 <= j < states[i].len() && #[trigger] reduces_on(items, states[i], j, t)
                        ==> table[i].contains_key(t) && table[i][t] is Reduce
            },
{
    let (items, states, sh) = choose|items: Seq<Lr1View>, states: Seq<Seq<usize>>, sh: Seq<Map<Seq<char>, LR1ParserAction>>|
        table_from(alphabet, rules, start, items, states, sh, table);
    assert forall|i: int, j: int, t: Seq<char>|
        0 <= i < table.len() && 0 <= j < states[i].len() && #[trigger] reduces_on(items, states[i], j, t)
            implies table[i].contains_key(t) && table[i][t] is Reduce by {
        law_with_reduces(sh[i], items, states[i], t);
        assert(table[i] == with_reduces(sh[i], items, states[i]));
    }
    assert(table_from(alphabet, rules, start, items, states, sh, table));
}

/// Law of the automaton: every action of its goto table leads to a state
/// that has a row in the table, or reduces by a rule of the grammar.
pub proof fn law_table_actions_in_range(
    alphabet: Seq<Seq<char>>,
    rules: Seq<RuleView>,
    start: Seq<char>,
    table: Seq<Map<Seq<char>, LR1ParserAction>>,
)
    requires
        automaton_table(alphabet, rules, start, table),
    ensures
        forall|i: int, t: Seq<char>|
            0 <= i < table.len() && #[trigger] table[i].contains_key(t) ==> match table[i][t] {
                LR1ParserAction::Shift(n) => n < table.len(),
                LR1ParserAction::Reduce(r) => r < rules.len(),
            },
{
    let (items, states, sh) = choose|items: Seq<Lr1View>, states: Seq<Seq<usize>>, sh: Seq<Map<Seq<char>, LR1ParserAction>>|
        table_from(alphabet, rules, start, items, states, sh, table);
    assert forall|i: int, t: Seq<char>| 0 <= i < table.len() && #[trigger] table[i].contains_key(t) implies match table[i][t] {
        LR1ParserAction::Shift(n) => n < table.len(),
        LR1ParserAction::Reduce(r) => r < rules.len(),
    } by {
        assert(state_in(items, states[i]));
        lemma_with_reduces_actions(sh[i], items, states[i], rules);
        if !(table[i][t] matches LR1ParserAction::Reduce(r) && r < rules.len()) {
            assert(sh[i].contains_key(t));
            let n = sh[i][t]->Shift_0;
            assert(table[i][t] == LR1ParserAction::Shift(n));
            let from = state_cores(items, states[i]);
            let to = state_cores(items, states[n as int]);
            assert(is_goto(alphabet, rules, from, t, to));
            let closure = choose|closure: Seq<ItemCore>|
                {
                    &&& is_lr0_closure(alphabet, rules, advanced(from, t), closure)
                    &&& to.map_values(|c: ItemCore| item_key(c)).to_multiset() == closure.map_values(
                        |c: ItemCore| item_key(c),
                    ).to_multiset()
                };
            assert(sh[i].dom().contains(t));
            assert(next_list(from).to_set().contains(t));
            lemma_next_list_advanced(from, t);
            to.map_values(|c: ItemCore| item_key(c)).to_multiset_ensures();
            closure.map_values(|c: ItemCore| item_key(c)).to_multiset_ensures();
            assert(to.len() >= 1);
            assert(states[n as int].len() >= 1);
            if next_symbol(to[0]) is None {
                assert(next_symbol(items[states[n as int][0] as int].core) is None);
                assert(has_complete_item(items, states[n as int]));
            } else {
                lemma_next_list_has(to, 0);
                let x = next_symbol(to[0])->0;
                assert(next_list(to).to_set().contains(x));
                assert(sh[n as int].dom().contains(x));
                assert(sh[n as int].contains_key(x));
            }
            assert(has_actions(items, states, sh, n as int));
        }
    }
}

} // verus!
