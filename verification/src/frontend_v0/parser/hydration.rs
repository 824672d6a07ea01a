//! States of the automaton are stored as sorted lists of indices into the set
//! of all items; these functions go from items to indices and back.
use crate::collections::stable_ordered_set::{no_same_pair, seq_has_same, SetItem, StableOrderedSet};
use crate::frontend_v0::parser::lr1_automata_builder::{
    cores_of, lookaheads_wf, lr1_views, same_core, ItemCore, LR1ParserItem, Lr1View,
};
use vstd::prelude::*;
use vstd::seq_lib::{to_multiset_build, to_multiset_insert};

verus! {

/// `s` is in ascending order.
pub open spec fn is_sorted(s: Seq<usize>) -> bool {
    forall|i: int, j: int| 0 <= i < j < s.len() ==> s[i] <= s[j]
}

/// Sorts a list of indices in ascending order.
pub fn sort_indices(v: &mut Vec<usize>)
    ensures
        is_sorted(final(v)@),
        final(v)@.to_multiset() == old(v)@.to_multiset(),
{
    let mut out: Vec<usize> = Vec::new();
    let mut i: usize = 0;
    assert(out@ =~= v@.take(0));
    while i < v.len()
        invariant
            i <= v@.len(),
            is_sorted(out@),
            out@.to_multiset() == v@.take(i as int).to_multiset(),
        decreases v@.len() - i,
    {
        let x = v[i];
        let mut p = out.len();
        while p > 0 && out[p - 1] > x
            invariant
                p <= out@.len(),
                forall|q: int| p <= q < out@.len() ==> out@[q] > x,
            decreases p,
        {
            p -= 1;
        }
        let ghost before = out@;
        out.insert(p, x);
        proof {
            assert(out@ == before.insert(p as int, x));
            to_multiset_insert(before, p as int, x);
            assert(v@.take(i + 1) =~= v@.take(i as int).push(x));
            to_multiset_build(v@.take(i as int), x);
            assert forall|a: int, b: int| 0 <= a < b < out@.len() implies out@[a] <= out@[b] by {
                if a < p && b < p {
                    assert(out@[a] == before[a] && out@[b] == before[b]);
                } else if a < p && b == p {
                    assert(out@[a] == before[a]);
                    if p > 0 {
                        assert(before[p - 1] <= x);
                    }
                } else if a < p {
                    assert(out@[a] == before[a] && out@[b] == before[b - 1]);
                } else if a == p {
                    assert(out@[b] == before[b - 1]);
                } else {
                    assert(out@[a] == before[a - 1] && out@[b] == before[b - 1]);
                }
            }
        }
        i += 1;
    }
    assert(v@.take(v@.len() as int) =~= v@);
    *v = out;
}

/// The lookaheads that the items of `state` with core `c` carry.
pub open spec fn lookaheads_for(state: Seq<Lr1View>, c: ItemCore) -> Set<Seq<char>> {
    Set::new(|x: Seq<char>| exists|i: int| 0 <= i < state.len() && same_core((#[trigger] state[i]).core, c) && state[i].lookahead.contains(x))
}

/// The position in `items` of the item with the core of `c`.
pub open spec fn position_of(items: Seq<Lr1View>, c: ItemCore) -> int {
    choose|k: int| 0 <= k < items.len() && same_core(items[k].core, c)
}

/// `b` keeps the items of `a` at their positions, perhaps with more
/// lookaheads, and may have more items after them.
pub open spec fn items_extend(a: Seq<Lr1View>, b: Seq<Lr1View>) -> bool {
    &&& a.len() <= b.len()
    &&& forall|k: int| 0 <= k < a.len() ==> (#[trigger] b[k]).core == a[k].core
}

/// The result of storing `state` into the set `old` of all items: the items
/// of the state that were new are appended, every item gets the lookaheads of
/// the items of the state with its core, and the state becomes the sorted list
/// of the positions of its items.
pub open spec fn is_dehydrated(old: Seq<Lr1View>, state: Seq<Lr1View>, new: Seq<Lr1View>, r: Seq<usize>) -> bool {
    &&& no_same_pair::<LR1ParserItem>(new)
    &&& cores_of(new) == cores_of(StableOrderedSet::<LR1ParserItem>::inserted_all(old, state))
    &&& forall|k: int|
        0 <= k < new.len() ==> (#[trigger] new[k]).lookahead.to_set() == (if k < old.len() {
            old[k].lookahead.to_set()
        } else {
            Set::empty()
        }) + lookaheads_for(state, new[k].core)
    &&& is_sorted(r)
    &&& r.to_multiset() == Seq::new(state.len(), |i: int| position_of(new, state[i].core) as usize).to_multiset()
}

/// `t` with `v` appended holds, for the core `c`, the lookaheads of `t` and,
/// when `v` has that core, those of `v`.
pub proof fn lemma_lookaheads_for_push(t: Seq<Lr1View>, v: Lr1View, c: ItemCore)
    ensures
        lookaheads_for(t.push(v), c) == lookaheads_for(t, c) + (if same_core(v.core, c) {
            v.lookahead.to_set()
        } else {
            Set::empty()
        }),
{
    let l = t.push(v);
    let rhs = lookaheads_for(t, c) + (if same_core(v.core, c) { v.lookahead.to_set() } else { Set::empty() });
    assert forall|x: Seq<char>| lookaheads_for(l, c).contains(x) == rhs.contains(x) by {
        if lookaheads_for(l, c).contains(x) {
            let i = choose|i: int| 0 <= i < l.len() && same_core((#[trigger] l[i]).core, c) && l[i].lookahead.contains(x);
            if i < t.len() {
                assert(t[i] == l[i]);
            } else {
                assert(v.lookahead.contains(x));
            }
        }
        if rhs.contains(x) {
            if lookaheads_for(t, c).contains(x) {
                let i = choose|i: int| 0 <= i < t.len() && same_core((#[trigger] t[i]).core, c) && t[i].lookahead.contains(x);
                assert(l[i] == t[i]);
            } else {
                assert(l[t.len() as int] == v);
                assert(v.lookahead.contains(x));
            }
        }
    }
    assert(lookaheads_for(l, c) =~= rhs);
}

/// Two lists with the same cores hold the same items.
pub proof fn lemma_has_same_by_cores(a: Seq<Lr1View>, b: Seq<Lr1View>, x: Lr1View)
    requires
        cores_of(a) == cores_of(b),
    ensures
        seq_has_same::<LR1ParserItem>(a, x) == seq_has_same::<LR1ParserItem>(b, x),
{
    assert(a.len() == cores_of(a).len() && b.len() == cores_of(b).len());
    if seq_has_same::<LR1ParserItem>(a, x) {
        let i = choose|i: int| 0 <= i < a.len() && LR1ParserItem::same_as(#[trigger] a[i], x);
        assert(cores_of(a)[i] == cores_of(b)[i]);
        assert(cores_of(a)[i] == a[i].core && cores_of(b)[i] == b[i].core);
        assert(LR1ParserItem::same_as(b[i], x));
    }
    if seq_has_same::<LR1ParserItem>(b, x) {
        let i = choose|i: int| 0 <= i < b.len() && LR1ParserItem::same_as(#[trigger] b[i], x);
        assert(cores_of(a)[i] == cores_of(b)[i]);
        assert(cores_of(a)[i] == a[i].core && cores_of(b)[i] == b[i].core);
        assert(LR1ParserItem::same_as(a[i], x));
    }
}

/// Stores the items of `state` into `all_items` and returns the sorted list of
/// their positions.
pub fn dehydrate_state(state: Vec<LR1ParserItem>, all_items: &mut StableOrderedSet<LR1ParserItem>) -> (r: Vec<usize>)
    requires
        old(all_items).wf(),
        lookaheads_wf(old(all_items).spec_values()),
        lookaheads_wf(state@),
    ensures
        final(all_items).wf(),
        lookaheads_wf(final(all_items).spec_values()),
        is_dehydrated(old(all_items)@, lr1_views(state@), final(all_items)@, r@),
        forall|i: int| 0 <= i < r@.len() ==> r@[i] < final(all_items)@.len(),
        items_extend(old(all_items)@, final(all_items)@),
        forall|k: int|
            old(all_items)@.len() <= k < final(all_items)@.len() ==> exists|j: int|
                0 <= j < state@.len() && (#[trigger] final(all_items)@[k]).core == state@[j]@.core,
        forall|j: int|
            0 <= j < state@.len() ==> {
                let p = position_of(final(all_items)@, (#[trigger] state@[j])@.core);
                0 <= p < final(all_items)@.len() && same_core(final(all_items)@[p].core, state@[j]@.core)
            },
{
    let ghost old_all = all_items@;
    let ghost s = lr1_views(state@);
    proof {
        all_items.lemma_view();
        assert(cores_of(old_all) == cores_of(StableOrderedSet::<LR1ParserItem>::inserted_all(old_all, s.take(0))));
        assert forall|k: int| 0 <= k < all_items@.len() implies (#[trigger] all_items@[k]).lookahead.to_set() == (if k < old_all.len() {
            old_all[k].lookahead.to_set()
        } else {
            Set::empty()
        }) + lookaheads_for(s.take(0), all_items@[k].core) by {
            assert(lookaheads_for(s.take(0), all_items@[k].core) =~= Set::empty());
            assert(all_items@[k].lookahead.to_set() + Set::empty() =~= all_items@[k].lookahead.to_set());
        }
        assert forall|k: int| 0 <= k < all_items@.len() implies no_same_pair::<String>((#[trigger] all_items@[k]).lookahead) by {
            assert(all_items.spec_values()[k].lookahead.wf());
        }
    }
    let mut remapped: Vec<usize> = Vec::new();
    let mut i: usize = 0;
    while i < state.len()
        invariant
            i <= state@.len(),
            s == lr1_views(state@),
            lookaheads_wf(state@),
            all_items.wf(),
            lookaheads_wf(all_items.spec_values()),
            all_items@.len() >= old_all.len(),
            items_extend(old_all, all_items@),
            forall|k: int|
                old_all.len() <= k < all_items@.len() ==> exists|j: int|
                    0 <= j < i && (#[trigger] all_items@[k]).core == s[j].core,
            cores_of(all_items@) == cores_of(StableOrderedSet::<LR1ParserItem>::inserted_all(old_all, s.take(i as int))),
            forall|k: int|
                0 <= k < all_items@.len() ==> (#[trigger] all_items@[k]).lookahead.to_set() == (if k < old_all.len() {
                    old_all[k].lookahead.to_set()
                } else {
                    Set::empty()
                }) + lookaheads_for(s.take(i as int), all_items@[k].core),
            remapped@.len() == i,
            forall|j: int|
                0 <= j < i ==> (#[trigger] remapped@[j]) < all_items@.len() && same_core(
                    all_items@[remapped@[j] as int].core,
                    s[j].core,
                ),
        decreases state@.len() - i,
    {
        let ghost before = all_items@;
        let ghost x = s[i as int];
        let ghost acc = StableOrderedSet::<LR1ParserItem>::inserted_all(old_all, s.take(i as int));
        proof {
            assert(state@[i as int]@ == x);
            assert(state@[i as int].lookahead.wf());
            assert(s.take(i + 1) =~= s.take(i as int).push(x));
            assert(s.take(i + 1).drop_last() =~= s.take(i as int));
            lemma_has_same_by_cores(before, acc, x);
        }
        let item = &state[i];
        match all_items.get_index_of(item) {
            None => {
                remapped.push(all_items.len());
                all_items.insert(item.duplicate());
                proof {
                    assert(all_items@ == before.push(x));
                    assert(!seq_has_same::<LR1ParserItem>(acc, x));
                    assert(cores_of(before.push(x)) =~= cores_of(before).push(x.core));
                    assert(cores_of(acc.push(x)) =~= cores_of(acc).push(x.core));
                    assert(cores_of(all_items@) =~= cores_of(acc.push(x)));
                    assert forall|k: int| 0 <= k < all_items@.len() implies (#[trigger] all_items@[k]).lookahead.to_set() == (if k < old_all.len() {
                        old_all[k].lookahead.to_set()
                    } else {
                        Set::empty()
                    }) + lookaheads_for(s.take(i + 1), all_items@[k].core) by {
                        lemma_lookaheads_for_push(s.take(i as int), x, all_items@[k].core);
                        if k < before.len() {
                            assert(all_items@[k] == before[k]);
                            if same_core(x.core, before[k].core) {
                                assert(LR1ParserItem::same_as(before[k], x));
                                assert(false);
                            }
                            assert(lookaheads_for(s.take(i + 1), all_items@[k].core) =~= lookaheads_for(s.take(i as int), all_items@[k].core));
                        } else {
                            assert(all_items@[k] == x);
                            assert(lookaheads_for(s.take(i as int), x.core) =~= Set::empty()) by {
                                assert forall|y: Seq<char>| !lookaheads_for(s.take(i as int), x.core).contains(y) by {
                                    if lookaheads_for(s.take(i as int), x.core).contains(y) {
                                        let j = choose|j: int| 0 <= j < s.take(i as int).len() && same_core((#[trigger] s.take(i as int)[j]).core, x.core) && s.take(i as int)[j].lookahead.contains(y);
                                        assert(remapped@[j] < before.len());
                                        assert(LR1ParserItem::same_as(before[remapped@[j] as int], x));
                                        assert(false);
                                    }
                                }
                            }
                            assert(Set::<Seq<char>>::empty() + (Set::empty() + x.lookahead.to_set()) =~= x.lookahead.to_set());
                        }
                    }
                    assert forall|j: int| 0 <= j < i + 1 implies (#[trigger] remapped@[j]) < all_items@.len() && same_core(
                        all_items@[remapped@[j] as int].core,
                        s[j].core,
                    ) by {
                        if j < i {
                            assert(all_items@[remapped@[j] as int] == before[remapped@[j] as int]);
                        }
                    }
                    assert forall|k: int| 0 <= k < old_all.len() implies (#[trigger] all_items@[k]).core == old_all[k].core by {
                        assert(all_items@[k] == before[k]);
                    }
                    assert forall|k: int|
                        old_all.len() <= k < all_items@.len() implies exists|j: int|
                            0 <= j < i + 1 && (#[trigger] all_items@[k]).core == s[j].core by {
                        if k < before.len() {
                            assert(all_items@[k] == before[k]);
                            let j = choose|j: int| 0 <= j < i && (#[trigger] before[k]).core == s[j].core;
                            assert(0 <= j < i + 1 && all_items@[k].core == s[j].core);
                        } else {
                            assert(all_items@[k].core == s[i as int].core);
                        }
                    }
                }
            }
            Some(idx) => {
                let ghost cur = before[idx as int];
                proof {
                    all_items.lemma_view();
                    assert(all_items.spec_values()[idx as int]@ == cur);
                }
                let merged = match all_items.get_index_mut(idx) {
                    Some(slot) => {
                        let joined = slot.lookahead.union(&item.lookahead);
                        slot.lookahead = joined;
                        true
                    },
                    None => false,
                };
                remapped.push(idx);
                proof {
                    assert(merged);
                    let nv = Lr1View { core: cur.core, lookahead: StableOrderedSet::<String>::inserted_all(cur.lookahead, x.lookahead) };
                    assert(all_items@ == before.update(idx as int, nv));
                    crate::frontend_v0::parser::symbol_sets::lemma_inserted_all_to_set(cur.lookahead, x.lookahead);
                    assert(seq_has_same::<LR1ParserItem>(before, x));
                    assert(cores_of(all_items@) =~= cores_of(before));
                    assert forall|a: int, b: int|
                        0 <= a < all_items@.len() && 0 <= b < all_items@.len() && a != b implies !LR1ParserItem::same_as(
                        #[trigger] all_items@[a],
                        #[trigger] all_items@[b],
                    ) by {
                        assert(!LR1ParserItem::same_as(before[a], before[b]));
                    }
                    assert forall|k: int| 0 <= k < all_items@.len() implies (#[trigger] all_items@[k]).lookahead.to_set() == (if k < old_all.len() {
                        old_all[k].lookahead.to_set()
                    } else {
                        Set::empty()
                    }) + lookaheads_for(s.take(i + 1), all_items@[k].core) by {
                        lemma_lookaheads_for_push(s.take(i as int), x, all_items@[k].core);
                        if k == idx {
                            assert(all_items@[k].lookahead.to_set() =~= (if k < old_all.len() {
                                old_all[k].lookahead.to_set()
                            } else {
                                Set::empty()
                            }) + lookaheads_for(s.take(i + 1), all_items@[k].core));
                        } else {
                            assert(all_items@[k] == before[k]);
                            if same_core(x.core, before[k].core) {
                                assert(LR1ParserItem::same_as(before[k], before[idx as int]));
                                assert(false);
                            }
                            assert(lookaheads_for(s.take(i + 1), all_items@[k].core) =~= lookaheads_for(s.take(i as int), all_items@[k].core));
                        }
                    }
                    assert forall|k: int| 0 <= k < all_items@.len() implies no_same_pair::<String>((#[trigger] all_items@[k]).lookahead) by {
                        if k != idx {
                            assert(all_items@[k] == before[k]);
                        }
                    }
                    assert forall|j: int| 0 <= j < i + 1 implies (#[trigger] remapped@[j]) < all_items@.len() && same_core(
                        all_items@[remapped@[j] as int].core,
                        s[j].core,
                    ) by {
                        if j < i {
                            assert(all_items@[remapped@[j] as int].core == before[remapped@[j] as int].core);
                        }
                    }
                    assert forall|k: int| 0 <= k < old_all.len() implies (#[trigger] all_items@[k]).core == old_all[k].core by {
                        assert(all_items@[k].core == before[k].core);
                    }
                    assert forall|k: int|
                        old_all.len() <= k < all_items@.len() implies exists|j: int|
                            0 <= j < i + 1 && (#[trigger] all_items@[k]).core == s[j].core by {
                        assert(all_items@[k].core == before[k].core);
                        let j = choose|j: int| 0 <= j < i && (#[trigger] before[k]).core == s[j].core;
                        assert(0 <= j < i + 1 && all_items@[k].core == s[j].core);
                    }
                }
            }
        }
        i += 1;
    }
    let ghost unsorted = remapped@;
    sort_indices(&mut remapped);
    proof {
        let new = all_items@;
        assert(s.take(s.len() as int) =~= s);
        let p = Seq::new(s.len(), |j: int| position_of(new, s[j].core) as usize);
        assert forall|j: int| 0 <= j < s.len() implies #[trigger] p[j] == unsorted[j] by {
            let q = position_of(new, s[j].core);
            assert(0 <= unsorted[j] < new.len() && same_core(new[unsorted[j] as int].core, s[j].core));
            assert(0 <= q < new.len() && same_core(new[q].core, s[j].core));
            if q != unsorted[j] {
                assert(LR1ParserItem::same_as(new[q], new[unsorted[j] as int]));
                assert(false);
            }
        }
        assert(p =~= unsorted);
        assert forall|j: int| 0 <= j < state@.len() implies {
            let p = position_of(new, (#[trigger] state@[j])@.core);
            0 <= p < new.len() && same_core(new[p].core, state@[j]@.core)
        } by {
            assert(state@[j]@ == s[j]);
            assert(0 <= unsorted[j] < new.len() && same_core(new[unsorted[j] as int].core, s[j].core));
        }
        assert forall|k: int|
            old_all.len() <= k < new.len() implies exists|j: int|
                0 <= j < state@.len() && (#[trigger] new[k]).core == state@[j]@.core by {
            let j = choose|j: int| 0 <= j < s.len() && (#[trigger] new[k]).core == s[j].core;
            assert(state@[j]@ == s[j]);
        }
        assert forall|k: int| 0 <= k < remapped@.len() implies remapped@[k] < new.len() by {
            vstd::seq_lib::to_multiset_contains(remapped@, remapped@[k]);
            vstd::seq_lib::to_multiset_contains(unsorted, remapped@[k]);
            assert(remapped@.contains(remapped@[k]));
            assert(unsorted.contains(remapped@[k]));
        }
    }
    remapped
}

/// The items at the positions listed in `state`.
pub fn hydrate_state(state: &Vec<usize>, all_items: &StableOrderedSet<LR1ParserItem>) -> (r: Vec<LR1ParserItem>)
    requires
        forall|i: int| 0 <= i < state@.len() ==> state@[i] < all_items@.len(),
    ensures
        lr1_views(r@) == state@.map_values(|i: usize| all_items@[i as int]),
{
    let mut r: Vec<LR1ParserItem> = Vec::new();
    let mut i: usize = 0;
    while i < state.len()
        invariant
            i <= state@.len(),
            forall|j: int| 0 <= j < state@.len() ==> state@[j] < all_items@.len(),
            lr1_views(r@) == state@.take(i as int).map_values(|i: usize| all_items@[i as int]),
            r@.len() == i,
        decreases state@.len() - i,
    {
        let ghost before = r@;
        let x = all_items.get_index(state[i]);
        match x {
            Some(item) => {
                r.push(item.duplicate());
            },
            None => {},
        }
        assert(r@ == before.push(r@[i as int]));
        assert(lr1_views(r@) =~= lr1_views(before).push(all_items@[state@[i as int] as int]));
        assert(state@.take(i + 1).map_values(|i: usize| all_items@[i as int]) =~= state@.take(i as int).map_values(|i: usize| all_items@[i as int]).push(all_items@[state@[i as int] as int]));
        i += 1;
    }
    assert(state@.take(state@.len() as int) =~= state@);
    r
}

/// Law of the storage of states: a state stored by `dehydrate_state` and read
/// back by `hydrate_state` has the items of the state, by their cores, each
/// with at least its lookaheads, and no other items.
pub proof fn law_dehydrate_then_hydrate(old: Seq<Lr1View>, state: Seq<Lr1View>, new: Seq<Lr1View>, r: Seq<usize>)
    requires
        is_dehydrated(old, state, new, r),
        new.len() <= usize::MAX,
        forall|j: int|
            0 <= j < state.len() ==> {
                let p = position_of(new, (#[trigger] state[j]).core);
                0 <= p < new.len() && same_core(new[p].core, state[j].core)
            },
    ensures
        forall|j: int|
            #![trigger state[j]]
            0 <= j < state.len() ==> exists|i: int|
                0 <= i < r.len() && r[i] < new.len() && same_core(new[#[trigger] r[i] as int].core, state[j].core)
                    && state[j].lookahead.to_set().subset_of(new[r[i] as int].lookahead.to_set()),
        forall|i: int|
            0 <= i < r.len() ==> exists|j: int|
                0 <= j < state.len() && #[trigger] r[i] < new.len() && same_core(new[r[i] as int].core, state[j].core),
{
    let pos = Seq::new(state.len(), |i: int| position_of(new, state[i].core) as usize);
    r.to_multiset_ensures();
    pos.to_multiset_ensures();
    assert forall|j: int| #![trigger state[j]] 0 <= j < state.len() implies exists|i: int|
        0 <= i < r.len() && r[i] < new.len() && same_core(new[#[trigger] r[i] as int].core, state[j].core)
            && state[j].lookahead.to_set().subset_of(new[r[i] as int].lookahead.to_set()) by {
        let p = position_of(new, state[j].core);
        assert(pos[j] == p as usize);
        assert(pos.contains(p as usize));
        assert(pos.to_multiset().count(p as usize) > 0);
        assert(r.to_multiset().count(p as usize) > 0);
        assert(r.contains(p as usize));
        let i = choose|i: int| 0 <= i < r.len() && r[i] == p as usize;
        assert(new[p].lookahead.to_set() == (if p < old.len() {
            old[p].lookahead.to_set()
        } else {
            Set::empty()
        }) + lookaheads_for(state, new[p].core));
        assert forall|x: Seq<char>| state[j].lookahead.to_set().contains(x) implies new[p].lookahead.to_set().contains(x) by {
            assert(state[j].lookahead.contains(x));
            assert(same_core(state[j].core, new[p].core));
            assert(lookaheads_for(state, new[p].core).contains(x));
        }
    }
    assert forall|i: int| 0 <= i < r.len() implies exists|j: int|
        0 <= j < state.len() && #[trigger] r[i] < new.len() && same_core(new[r[i] as int].core, state[j].core) by {
        assert(r.contains(r[i]));
        assert(r.to_multiset().count(r[i]) > 0);
        assert(pos.to_multiset().count(r[i]) > 0);
        assert(pos.contains(r[i]));
        let j = choose|j: int| 0 <= j < pos.len() && pos[j] == r[i];
        assert(pos[j] == position_of(new, state[j].core) as usize);
    }
}

} // verus!
