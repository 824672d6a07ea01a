//! Counting facts about the states of the automaton.  A state lists a bounded
//! number of items and every item is one of finitely many, so there are
//! finitely many states: this is what makes the construction of the automaton
//! end.
use crate::frontend_v0::parser::lr1_automata_builder::{is_lr0_closure, item_of_rules, next_symbol, ItemCore};
use crate::frontend_v0::parser::parser_grammar::RuleView;
use vstd::prelude::*;
use vstd::seq_lib::{to_multiset_build, to_multiset_contains, to_multiset_len, to_multiset_remove};

verus! {

/// What tells two items apart: their source, marker and production.
pub open spec fn item_key(c: ItemCore) -> (Seq<char>, nat, Seq<Seq<char>>) {
    (c.source, c.marker_pos, c.production)
}

/// The item with its marker moved one symbol on.
pub open spec fn advance(c: ItemCore) -> ItemCore {
    ItemCore { marker_pos: c.marker_pos + 1, ..c }
}

/// The items of `cs` that have `t` next, in order, each with the marker moved
/// past `t`.
pub open spec fn advanced(cs: Seq<ItemCore>, t: Seq<char>) -> Seq<ItemCore>
    decreases cs.len(),
{
    if cs.len() == 0 {
        Seq::empty()
    } else {
        let rest = advanced(cs.drop_last(), t);
        if next_symbol(cs.last()) == Some(t) {
            rest.push(advance(cs.last()))
        } else {
            rest
        }
    }
}

/// The number of members of `s` that satisfy `p`.
pub open spec fn count_where<A>(s: Seq<A>, p: spec_fn(A) -> bool) -> nat
    decreases s.len(),
{
    if s.len() == 0 {
        0
    } else {
        count_where(s.drop_last(), p) + if p(s.last()) {
            1nat
        } else {
            0nat
        }
    }
}

/// The number of items of `cs` whose marker is at most `m`.
pub open spec fn num_upto(cs: Seq<ItemCore>, m: int) -> nat {
    count_where(cs, |c: ItemCore| c.marker_pos <= m)
}

/// The longest production of `rules`.
pub open spec fn max_production(rules: Seq<RuleView>) -> nat
    decreases rules.len(),
{
    if rules.len() == 0 {
        0
    } else {
        let rest = max_production(rules.drop_last());
        if rules.last().production.len() > rest {
            rules.last().production.len()
        } else {
            rest
        }
    }
}

/// The lists of length at most `b` whose members are below `n`.
pub open spec fn bounded_seqs(b: nat, n: nat) -> Set<Seq<usize>> {
    Set::new(|s: Seq<usize>| s.len() <= b && forall|i: int| 0 <= i < s.len() ==> s[i] < n)
}

/// The lists of `prev` extended by one member below `k`.
pub open spec fn extensions(prev: Set<Seq<usize>>, k: nat) -> Set<Seq<usize>>
    decreases k,
{
    if k == 0 {
        Set::empty()
    } else {
        extensions(prev, (k - 1) as nat).union(prev.map(|s: Seq<usize>| s.push((k - 1) as usize)))
    }
}

pub proof fn lemma_max_production(rules: Seq<RuleView>, r: int)
    requires
        0 <= r < rules.len(),
    ensures
        rules[r].production.len() <= max_production(rules),
    decreases rules.len(),
{
    if r < rules.len() - 1 {
        assert(rules.drop_last()[r] == rules[r]);
        lemma_max_production(rules.drop_last(), r);
    }
}

pub proof fn lemma_count_le_len<A>(s: Seq<A>, p: spec_fn(A) -> bool)
    ensures
        count_where(s, p) <= s.len(),
    decreases s.len(),
{
    if s.len() > 0 {
        lemma_count_le_len(s.drop_last(), p);
    }
}

pub proof fn lemma_count_all<A>(s: Seq<A>, p: spec_fn(A) -> bool)
    requires
        forall|i: int| 0 <= i < s.len() ==> p(#[trigger] s[i]),
    ensures
        count_where(s, p) == s.len(),
    decreases s.len(),
{
    if s.len() > 0 {
        assert forall|i: int| 0 <= i < s.drop_last().len() implies p(#[trigger] s.drop_last()[i]) by {
            assert(s.drop_last()[i] == s[i]);
        }
        lemma_count_all(s.drop_last(), p);
    }
}

pub proof fn lemma_count_add<A>(a: Seq<A>, b: Seq<A>, p: spec_fn(A) -> bool)
    ensures
        count_where(a + b, p) == count_where(a, p) + count_where(b, p),
    decreases b.len(),
{
    if b.len() == 0 {
        assert(a + b =~= a);
    } else {
        assert((a + b).drop_last() =~= a + b.drop_last());
        lemma_count_add(a, b.drop_last(), p);
    }
}

pub proof fn lemma_count_map<A, B>(s: Seq<A>, f: spec_fn(A) -> B, p: spec_fn(B) -> bool)
    ensures
        count_where(s.map_values(f), p) == count_where(s, |x: A| p(f(x))),
    decreases s.len(),
{
    if s.len() > 0 {
        assert(s.map_values(f).drop_last() =~= s.drop_last().map_values(f));
        lemma_count_map(s.drop_last(), f, p);
    }
}

/// Counting over a list whose members satisfy the same tests gives the same
/// count.
pub proof fn lemma_count_pointwise<A, B>(a: Seq<A>, p: spec_fn(A) -> bool, b: Seq<B>, q: spec_fn(B) -> bool)
    requires
        a.len() == b.len(),
        forall|i: int| 0 <= i < a.len() ==> p(#[trigger] a[i]) == q(b[i]),
    ensures
        count_where(a, p) == count_where(b, q),
    decreases a.len(),
{
    if a.len() > 0 {
        assert forall|i: int| 0 <= i < a.drop_last().len() implies p(#[trigger] a.drop_last()[i]) == q(b.drop_last()[i]) by {
            assert(a.drop_last()[i] == a[i] && b.drop_last()[i] == b[i]);
        }
        lemma_count_pointwise(a.drop_last(), p, b.drop_last(), q);
    }
}

pub proof fn lemma_count_remove<A>(s: Seq<A>, i: int, p: spec_fn(A) -> bool)
    requires
        0 <= i < s.len(),
    ensures
        count_where(s, p) == count_where(s.remove(i), p) + if p(s[i]) {
            1nat
        } else {
            0nat
        },
    decreases s.len(),
{
    if i == s.len() - 1 {
        assert(s.remove(i) =~= s.drop_last());
    } else {
        assert(s.remove(i).drop_last() =~= s.drop_last().remove(i));
        assert(s.remove(i).last() == s.last());
        lemma_count_remove(s.drop_last(), i, p);
    }
}

/// Lists with the same members, counted with repetition, have the same count.
pub proof fn lemma_count_permutation<A>(a: Seq<A>, b: Seq<A>, p: spec_fn(A) -> bool)
    requires
        a.to_multiset() == b.to_multiset(),
    ensures
        count_where(a, p) == count_where(b, p),
    decreases a.len(),
{
    to_multiset_len(a);
    to_multiset_len(b);
    if a.len() > 0 {
        let x = a.last();
        let a1 = a.drop_last();
        assert(a =~= a1.push(x));
        to_multiset_build(a1, x);
        to_multiset_contains(b, x);
        assert(a.to_multiset().count(x) > 0);
        let i = choose|i: int| 0 <= i < b.len() && b[i] == x;
        to_multiset_remove(b, i);
        assert(a1.to_multiset() =~= b.remove(i).to_multiset());
        lemma_count_permutation(a1, b.remove(i), p);
        lemma_count_remove(b, i, p);
    }
}

/// Lists with the same members, counted with repetition, keep them when each
/// member is mapped.
pub proof fn lemma_map_permutation<A, B>(a: Seq<A>, b: Seq<A>, f: spec_fn(A) -> B)
    requires
        a.to_multiset() == b.to_multiset(),
    ensures
        a.map_values(f).to_multiset() == b.map_values(f).to_multiset(),
    decreases a.len(),
{
    to_multiset_len(a);
    to_multiset_len(b);
    if a.len() == 0 {
        assert(b.len() == 0);
        assert(a.map_values(f) =~= b.map_values(f));
    } else {
        let x = a.last();
        let a1 = a.drop_last();
        assert(a =~= a1.push(x));
        to_multiset_build(a1, x);
        to_multiset_contains(b, x);
        assert(a.to_multiset().count(x) > 0);
        let i = choose|i: int| 0 <= i < b.len() && b[i] == x;
        to_multiset_remove(b, i);
        assert(a1.to_multiset() =~= b.remove(i).to_multiset());
        lemma_map_permutation(a1, b.remove(i), f);
        assert(a.map_values(f) =~= a1.map_values(f).push(f(x)));
        to_multiset_build(a1.map_values(f), f(x));
        assert(b.remove(i).map_values(f) =~= b.map_values(f).remove(i));
        to_multiset_remove(b.map_values(f), i);
        assert(b.map_values(f)[i] == f(x));
        to_multiset_contains(b.map_values(f), f(x));
        assert(b.map_values(f).contains(f(x)));
        assert(b.map_values(f).to_multiset() =~= b.map_values(f).to_multiset().remove(f(x)).insert(f(x)));
    }
}

pub proof fn lemma_advanced_len(cs: Seq<ItemCore>, t: Seq<char>)
    ensures
        advanced(cs, t).len() <= cs.len(),
    decreases cs.len(),
{
    if cs.len() > 0 {
        lemma_advanced_len(cs.drop_last(), t);
    }
}

/// Moving the markers on: the items with marker at most `m` after it had a
/// marker below `m` before.
pub proof fn lemma_advanced_upto(cs: Seq<ItemCore>, t: Seq<char>, m: int)
    ensures
        num_upto(advanced(cs, t), m) <= num_upto(cs, m - 1),
    decreases cs.len(),
{
    if cs.len() > 0 {
        lemma_advanced_upto(cs.drop_last(), t, m);
        let rest = advanced(cs.drop_last(), t);
        if next_symbol(cs.last()) == Some(t) {
            assert(rest.push(advance(cs.last())).drop_last() =~= rest);
        }
    }
}

/// The items that `advanced` gives are items of the rules when those of `cs`
/// are.
pub proof fn lemma_advanced_items(rules: Seq<RuleView>, cs: Seq<ItemCore>, t: Seq<char>)
    requires
        forall|i: int| 0 <= i < cs.len() ==> item_of_rules(rules, #[trigger] cs[i]),
    ensures
        forall|i: int| 0 <= i < advanced(cs, t).len() ==> item_of_rules(rules, #[trigger] advanced(cs, t)[i]),
    decreases cs.len(),
{
    if cs.len() > 0 {
        assert forall|i: int| 0 <= i < cs.drop_last().len() implies item_of_rules(rules, #[trigger] cs.drop_last()[i]) by {
            assert(cs.drop_last()[i] == cs[i]);
        }
        lemma_advanced_items(rules, cs.drop_last(), t);
        assert(item_of_rules(rules, cs[cs.len() - 1]));
        let rest = advanced(cs.drop_last(), t);
        if next_symbol(cs.last()) == Some(t) {
            assert forall|i: int| 0 <= i < advanced(cs, t).len() implies item_of_rules(rules, #[trigger] advanced(cs, t)[i]) by {
                if i < rest.len() {
                    assert(advanced(cs, t)[i] == rest[i]);
                }
            }
        }
    }
}

/// The closure adds at most one item per rule, all with the marker at the
/// start, and only items of the rules.
pub proof fn lemma_closure_upto(
    alphabet: Seq<Seq<char>>,
    rules: Seq<RuleView>,
    known: Seq<ItemCore>,
    state: Seq<ItemCore>,
    m: int,
)
    requires
        is_lr0_closure(alphabet, rules, known, state),
        m >= 0,
    ensures
        num_upto(state, m) <= num_upto(known, m) + rules.len(),
        state.len() <= known.len() + rules.len(),
{
    let k = known.len() as int;
    assert(state =~= state.take(k) + state.skip(k));
    lemma_count_add(state.take(k), state.skip(k), |c: ItemCore| c.marker_pos <= m);
    lemma_count_le_len(state.skip(k), |c: ItemCore| c.marker_pos <= m);
}

pub proof fn lemma_closure_items(
    alphabet: Seq<Seq<char>>,
    rules: Seq<RuleView>,
    known: Seq<ItemCore>,
    state: Seq<ItemCore>,
)
    requires
        is_lr0_closure(alphabet, rules, known, state),
        forall|i: int| 0 <= i < known.len() ==> item_of_rules(rules, #[trigger] known[i]),
    ensures
        forall|i: int| 0 <= i < state.len() ==> item_of_rules(rules, #[trigger] state[i]),
{
    assert forall|i: int| 0 <= i < state.len() implies item_of_rules(rules, #[trigger] state[i]) by {
        if i < known.len() {
            assert(state.take(known.len() as int)[i] == state[i]);
        }
    }
}

/// There are finitely many lists of bounded length over a bounded range.
pub proof fn lemma_bounded_seqs_finite(b: nat, n: nat)
    ensures
        bounded_seqs(b, n).finite(),
    decreases b,
{
    if b == 0 {
        assert forall|s: Seq<usize>| #[trigger] bounded_seqs(0, n).contains(s) == Set::empty().insert(Seq::<usize>::empty()).contains(s) by {
            if s.len() == 0 {
                assert(s =~= Seq::<usize>::empty());
            }
        }
        assert(bounded_seqs(0, n) =~= Set::empty().insert(Seq::<usize>::empty()));
    } else {
        let prev = bounded_seqs((b - 1) as nat, n);
        lemma_bounded_seqs_finite((b - 1) as nat, n);
        lemma_extensions_finite(prev, n);
        assert forall|s: Seq<usize>| bounded_seqs(b, n).contains(s) implies #[trigger] prev.union(extensions(prev, n)).contains(s) by {
            if s.len() == b {
                let x = s.last();
                let t = s.drop_last();
                assert(prev.contains(t));
                assert(s =~= t.push(x));
                lemma_extensions_contain(prev, n, t, x);
            } else {
                assert(prev.contains(s));
            }
        }
        vstd::set_lib::lemma_set_union_finite_iff(prev, extensions(prev, n));
        vstd::set_lib::lemma_len_subset(bounded_seqs(b, n), prev.union(extensions(prev, n)));
    }
}

proof fn lemma_extensions_finite(prev: Set<Seq<usize>>, k: nat)
    requires
        prev.finite(),
    ensures
        extensions(prev, k).finite(),
    decreases k,
{
    if k > 0 {
        lemma_extensions_finite(prev, (k - 1) as nat);
        prev.lemma_map_finite(|s: Seq<usize>| s.push((k - 1) as usize));
        vstd::set_lib::lemma_set_union_finite_iff(
            extensions(prev, (k - 1) as nat),
            prev.map(|s: Seq<usize>| s.push((k - 1) as usize)),
        );
    }
}

proof fn lemma_extensions_contain(prev: Set<Seq<usize>>, k: nat, t: Seq<usize>, x: usize)
    requires
        prev.contains(t),
        x < k,
    ensures
        extensions(prev, k).contains(t.push(x)),
    decreases k,
{
    if x < k - 1 {
        lemma_extensions_contain(prev, (k - 1) as nat, t, x);
    } else {
        let f = |s: Seq<usize>| s.push((k - 1) as usize);
        assert(f(t) == t.push(x));
        assert(prev.map(f).contains(f(t)));
    }
}

/// A list of distinct lists from `bounded_seqs(b, n)` is no longer than that
/// set is large.
pub proof fn lemma_distinct_bounded(states: Seq<Seq<usize>>, b: nat, n: nat)
    requires
        states.no_duplicates(),
        forall|i: int| 0 <= i < states.len() ==> bounded_seqs(b, n).contains(#[trigger] states[i]),
    ensures
        states.len() <= bounded_seqs(b, n).len(),
{
    lemma_bounded_seqs_finite(b, n);
    states.unique_seq_to_set();
    assert forall|s: Seq<usize>| states.to_set().contains(s) implies #[trigger] bounded_seqs(b, n).contains(s) by {
        let i = choose|i: int| 0 <= i < states.len() && states[i] == s;
    }
    vstd::set_lib::lemma_len_subset(states.to_set(), bounded_seqs(b, n));
}

/// Lists of items with the same keys, counted with repetition, have as many
/// items with the marker at most `m`.
pub proof fn lemma_num_upto_keys(a: Seq<ItemCore>, b: Seq<ItemCore>, m: int)
    requires
        a.map_values(|c: ItemCore| item_key(c)).to_multiset() == b.map_values(|c: ItemCore| item_key(c)).to_multiset(),
    ensures
        num_upto(a, m) == num_upto(b, m),
{
    let f = |c: ItemCore| item_key(c);
    let pk = |k: (Seq<char>, nat, Seq<Seq<char>>)| k.1 <= m;
    let pm = |c: ItemCore| c.marker_pos <= m;
    lemma_count_map(a, f, pk);
    lemma_count_map(b, f, pk);
    assert((|x: ItemCore| pk(f(x))) =~= pm);
    lemma_count_permutation(a.map_values(f), b.map_values(f), pk);
}

/// No item has its marker before the start.
pub proof fn lemma_num_upto_negative(cs: Seq<ItemCore>, m: int)
    requires
        m < 0,
    ensures
        num_upto(cs, m) == 0,
    decreases cs.len(),
{
    if cs.len() > 0 {
        lemma_num_upto_negative(cs.drop_last(), m);
    }
}

/// When every marker is at most `m`, every item is counted.
pub proof fn lemma_num_upto_all(cs: Seq<ItemCore>, m: int)
    requires
        forall|i: int| 0 <= i < cs.len() ==> (#[trigger] cs[i]).marker_pos <= m,
    ensures
        num_upto(cs, m) == cs.len(),
{
    lemma_count_all(cs, |c: ItemCore| c.marker_pos <= m);
}

/// Distinct numbers below `bound` are at most `bound` many.
pub proof fn lemma_distinct_below(ids: Seq<int>, bound: int)
    requires
        bound >= 0,
        ids.no_duplicates(),
        forall|i: int| 0 <= i < ids.len() ==> 0 <= #[trigger] ids[i] < bound,
    ensures
        ids.len() <= bound,
{
    vstd::set_lib::lemma_int_range(0, bound);
    ids.unique_seq_to_set();
    assert forall|x: int| ids.to_set().contains(x) implies #[trigger] vstd::set_lib::set_int_range(0, bound).contains(x) by {
        let i = choose|i: int| 0 <= i < ids.len() && ids[i] == x;
    }
    vstd::set_lib::lemma_len_subset(ids.to_set(), vstd::set_lib::set_int_range(0, bound));
}

proof fn lemma_code_injective(r1: int, m1: int, r2: int, m2: int, w: int)
    by (nonlinear_arith)
    requires
        w > 0,
        0 <= m1 < w,
        0 <= m2 < w,
        r1 * w + m1 == r2 * w + m2,
    ensures
        r1 == r2,
        m1 == m2,
{
    if r1 < r2 {
        assert(r1 * w + w <= r2 * w);
    } else if r1 > r2 {
        assert(r2 * w + w <= r1 * w);
    }
}

proof fn lemma_code_bound(r: int, m: int, w: int, n: int)
    by (nonlinear_arith)
    requires
        w > 0,
        0 <= m < w,
        0 <= r < n,
    ensures
        0 <= r * w + m < n * w,
{
    assert(r * w <= (n - 1) * w);
}

/// Distinct items of the rules are at most as many as the rules have
/// positions for the marker.
pub proof fn lemma_items_bound(rules: Seq<RuleView>, cs: Seq<ItemCore>)
    requires
        forall|i: int| 0 <= i < cs.len() ==> item_of_rules(rules, #[trigger] cs[i]),
        forall|i: int, j: int|
            0 <= i < cs.len() && 0 <= j < cs.len() && i != j ==> item_key(#[trigger] cs[i]) != item_key(
                #[trigger] cs[j],
            ),
    ensures
        cs.len() <= rules.len() * (max_production(rules) + 1),
{
    let w = max_production(rules) + 1;
    let ids = cs.map_values(|c: ItemCore| (c.rule_id * w + c.marker_pos) as int);
    assert forall|i: int| 0 <= i < ids.len() implies 0 <= #[trigger] ids[i] < rules.len() * w by {
        lemma_max_production(rules, cs[i].rule_id as int);
        lemma_code_bound(cs[i].rule_id as int, cs[i].marker_pos as int, w as int, rules.len() as int);
    }
    assert forall|i: int, j: int| 0 <= i < ids.len() && 0 <= j < ids.len() && i != j implies ids[i] != ids[j] by {
        lemma_max_production(rules, cs[i].rule_id as int);
        lemma_max_production(rules, cs[j].rule_id as int);
        if ids[i] == ids[j] {
            lemma_code_injective(
                cs[i].rule_id as int,
                cs[i].marker_pos as int,
                cs[j].rule_id as int,
                cs[j].marker_pos as int,
                w as int,
            );
            assert(item_key(cs[i]) == item_key(cs[j]));
        }
    }
    lemma_distinct_below(ids, (rules.len() * w) as int);
}

} // verus!
