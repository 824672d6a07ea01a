//! Maps from grammar symbols to sets of grammar symbols: the FIRST and
//! FOLLOW sets of the automaton builder.
use crate::collections::stable_ordered_set::{no_same_pair, SetItem, StableOrderedSet};
use vstd::arithmetic::mul::lemma_mul_inequality;
use vstd::prelude::*;
use vstd::seq_lib::seq_to_set_is_finite;
use vstd::set_lib::lemma_len_subset;

verus! {

/// A map from symbols to sets of symbols; keys keep their insertion order.
pub struct SymbolSets {
    keys: Vec<String>,
    sets: Vec<StableOrderedSet<String>>,
}

/// The total size of the sets `sets` and of the key list: it grows with every
/// change of a map and is bounded, which ends the fixpoint loops.
pub open spec fn total_size(sets: Seq<Seq<Seq<char>>>) -> nat
    decreases sets.len(),
{
    if sets.len() == 0 {
        0
    } else {
        total_size(sets.drop_last()) + sets.last().len() + 1
    }
}

pub proof fn lemma_total_size_update(s: Seq<Seq<Seq<char>>>, i: int, x: Seq<Seq<char>>)
    requires
        0 <= i < s.len(),
    ensures
        total_size(s.update(i, x)) + s[i].len() == total_size(s) + x.len(),
    decreases s.len(),
{
    if i < s.len() - 1 {
        assert(s.update(i, x).drop_last() =~= s.drop_last().update(i, x));
        lemma_total_size_update(s.drop_last(), i, x);
    } else {
        assert(s.update(i, x).drop_last() =~= s.drop_last());
    }
}

pub proof fn lemma_total_size_push(s: Seq<Seq<Seq<char>>>, x: Seq<Seq<char>>)
    ensures
        total_size(s.push(x)) == total_size(s) + x.len() + 1,
{
    assert(s.push(x).drop_last() =~= s);
}

proof fn lemma_total_size_bound(s: Seq<Seq<Seq<char>>>, c: nat)
    requires
        forall|i: int| 0 <= i < s.len() ==> (#[trigger] s[i]).len() <= c,
    ensures
        total_size(s) <= s.len() * (c + 1),
    decreases s.len(),
{
    if s.len() > 0 {
        lemma_total_size_bound(s.drop_last(), c);
        assert(s.len() * (c + 1) == (s.len() - 1) * (c + 1) + (c + 1)) by (nonlinear_arith);
    }
}

/// A sequence of distinct members of the finite set `u` is no longer than `u`.
pub proof fn lemma_distinct_in_set_len<A>(s: Seq<A>, u: Set<A>)
    requires
        s.no_duplicates(),
        u.finite(),
        forall|i: int| 0 <= i < s.len() ==> u.contains(#[trigger] s[i]),
    ensures
        s.len() <= u.len(),
{
    s.unique_seq_to_set();
    seq_to_set_is_finite(s);
    assert(s.to_set().subset_of(u));
    lemma_len_subset(s.to_set(), u);
}

pub proof fn lemma_no_same_pair_no_duplicates(s: Seq<Seq<char>>)
    requires
        no_same_pair::<String>(s),
    ensures
        s.no_duplicates(),
{
    assert forall|i: int, j: int| 0 <= i < s.len() && 0 <= j < s.len() && i != j implies s[i] != s[j] by {
        assert(!String::same_as(s[i], s[j]));
    }
}

/// The members of a set of strings after inserting `xs`.
pub proof fn lemma_inserted_all_to_set(s: Seq<Seq<char>>, xs: Seq<Seq<char>>)
    ensures
        StableOrderedSet::<String>::inserted_all(s, xs).to_set() == s.to_set() + xs.to_set(),
    decreases xs.len(),
{
    if xs.len() > 0 {
        lemma_inserted_all_to_set(s, xs.drop_last());
        let t = StableOrderedSet::<String>::inserted_all(s, xs.drop_last());
        lemma_inserted_to_set(t, xs.last());
        assert(xs.to_set() =~= xs.drop_last().to_set().insert(xs.last())) by {
            assert forall|x: Seq<char>| xs.contains(x) implies xs.drop_last().to_set().insert(xs.last()).contains(x) by {
                let k = choose|k: int| 0 <= k < xs.len() && xs[k] == x;
                if k < xs.len() - 1 {
                    assert(xs.drop_last()[k] == x);
                }
            }
            assert forall|x: Seq<char>| xs.drop_last().contains(x) implies xs.contains(x) by {
                let k = choose|k: int| 0 <= k < xs.drop_last().len() && xs.drop_last()[k] == x;
                assert(xs[k] == x);
            }
        }
        assert(StableOrderedSet::<String>::inserted_all(s, xs).to_set() =~= s.to_set() + xs.to_set());
    } else {
        assert(xs.to_set() =~= Set::empty());
        assert(s.to_set() + xs.to_set() =~= s.to_set());
    }
}

/// The members of a set of strings after inserting `x`.
pub proof fn lemma_inserted_to_set(s: Seq<Seq<char>>, x: Seq<char>)
    ensures
        StableOrderedSet::<String>::inserted(s, x).to_set() == s.to_set().insert(x),
{
    let ins = StableOrderedSet::<String>::inserted(s, x);
    if crate::collections::stable_ordered_set::seq_has_same::<String>(s, x) {
        let m = choose|m: int| 0 <= m < s.len() && String::same_as(#[trigger] s[m], x);
        assert(s.contains(x));
        assert(ins.to_set() =~= s.to_set().insert(x));
    } else {
        assert forall|y: Seq<char>| ins.to_set().contains(y) == s.to_set().insert(x).contains(y) by {
            if ins.contains(y) && y != x {
                let m = choose|m: int| 0 <= m < ins.len() && ins[m] == y;
                assert(s[m] == y);
            }
            if s.contains(y) {
                let m = choose|m: int| 0 <= m < s.len() && s[m] == y;
                assert(ins[m] == y);
            }
            if y == x {
                assert(ins[s.len() as int] == y);
            }
        }
        assert(ins.to_set() =~= s.to_set().insert(x));
    }
}

/// The members of the difference of two sets of strings.
pub proof fn lemma_difference_to_set(a: Seq<Seq<char>>, b: Seq<Seq<char>>)
    ensures
        StableOrderedSet::<String>::difference_spec(a, b).to_set() == a.to_set() - b.to_set(),
    decreases a.len(),
{
    if a.len() > 0 {
        lemma_difference_to_set(a.drop_last(), b);
        let d = StableOrderedSet::<String>::difference_spec(a.drop_last(), b);
        assert(a.to_set() =~= a.drop_last().to_set().insert(a.last())) by {
            assert forall|x: Seq<char>| a.contains(x) implies a.drop_last().to_set().insert(a.last()).contains(x) by {
                let k = choose|k: int| 0 <= k < a.len() && a[k] == x;
                if k < a.len() - 1 {
                    assert(a.drop_last()[k] == x);
                }
            }
            assert forall|x: Seq<char>| a.drop_last().contains(x) implies a.contains(x) by {
                let k = choose|k: int| 0 <= k < a.drop_last().len() && a.drop_last()[k] == x;
                assert(a[k] == x);
            }
        }
        if crate::collections::stable_ordered_set::seq_has_same::<String>(b, a.last()) {
            let m = choose|m: int| 0 <= m < b.len() && String::same_as(#[trigger] b[m], a.last());
            assert(b.contains(a.last()));
            assert(StableOrderedSet::<String>::difference_spec(a, b).to_set() =~= a.to_set() - b.to_set());
        } else {
            assert(!b.contains(a.last())) by {
                if b.contains(a.last()) {
                    let m = choose|m: int| 0 <= m < b.len() && b[m] == a.last();
                    assert(String::same_as(b[m], a.last()));
                }
            }
            let dd = d.push(a.last());
            assert forall|y: Seq<char>| dd.contains(y) == d.to_set().insert(a.last()).contains(y) by {
                if dd.contains(y) && y != a.last() {
                    let m = choose|m: int| 0 <= m < dd.len() && dd[m] == y;
                    assert(d[m] == y);
                }
                if d.contains(y) {
                    let m = choose|m: int| 0 <= m < d.len() && d[m] == y;
                    assert(dd[m] == y);
                }
                if y == a.last() {
                    assert(dd[d.len() as int] == y);
                }
            }
            assert(StableOrderedSet::<String>::difference_spec(a, b).to_set() =~= a.to_set() - b.to_set());
        }
    } else {
        assert(a.to_set() =~= Set::empty());
        assert(StableOrderedSet::<String>::difference_spec(a, b).to_set() =~= a.to_set() - b.to_set());
    }
}

/// A set of strings is empty exactly when it has no members.
pub proof fn lemma_string_set_len(s: Seq<Seq<char>>)
    requires
        no_same_pair::<String>(s),
    ensures
        s.to_set().len() == s.len(),
        s.to_set().finite(),
{
    lemma_no_same_pair_no_duplicates(s);
    s.unique_seq_to_set();
    seq_to_set_is_finite(s);
}

impl SymbolSets {
    pub closed spec fn spec_keys(&self) -> Seq<Seq<char>> {
        self.keys@.map_values(|s: String| s@)
    }

    pub closed spec fn spec_sets(&self) -> Seq<Seq<Seq<char>>> {
        self.sets@.map_values(|s: StableOrderedSet<String>| s@)
    }

    pub closed spec fn wf(&self) -> bool {
        &&& self.keys@.len() == self.sets@.len()
        &&& self.spec_keys().no_duplicates()
        &&& forall|i: int| 0 <= i < self.sets@.len() ==> (#[trigger] self.sets@[i]).wf()
    }

    pub proof fn lemma_wf(&self)
        requires
            self.wf(),
        ensures
            self.spec_keys().len() == self.spec_sets().len(),
            self.spec_keys().no_duplicates(),
            forall|i: int| 0 <= i < self.spec_sets().len() ==> no_same_pair::<String>(#[trigger] self.spec_sets()[i]),
    {
        assert forall|i: int| 0 <= i < self.spec_sets().len() implies no_same_pair::<String>(#[trigger] self.spec_sets()[i]) by {
            assert(self.sets@[i].wf());
        }
    }

    /// `k` is a key.
    pub open spec fn has(&self, k: Seq<char>) -> bool {
        self.spec_keys().contains(k)
    }

    /// The set under `k`, empty when `k` is no key.
    pub open spec fn get(&self, k: Seq<char>) -> Set<Seq<char>> {
        if self.has(k) {
            self.spec_sets()[self.spec_keys().index_of(k)].to_set()
        } else {
            Set::empty()
        }
    }

    /// The size measure of the map.
    pub open spec fn size(&self) -> nat {
        total_size(self.spec_sets())
    }

    pub fn new() -> (r: Self)
        ensures
            r.wf(),
            r.spec_keys() == Seq::<Seq<char>>::empty(),
            r.spec_sets() == Seq::<Seq<Seq<char>>>::empty(),
    {
        let r = SymbolSets { keys: Vec::new(), sets: Vec::new() };
        assert(r.spec_keys() =~= Seq::<Seq<char>>::empty());
        assert(r.spec_sets() =~= Seq::<Seq<Seq<char>>>::empty());
        r
    }

    pub fn len(&self) -> (r: usize)
        requires
            self.wf(),
        ensures
            r == self.spec_keys().len(),
    {
        self.keys.len()
    }

    /// The position of `key`.
    pub fn index_of(&self, key: &String) -> (r: Option<usize>)
        requires
            self.wf(),
        ensures
            match r {
                Some(i) => i < self.spec_keys().len() && self.spec_keys()[i as int] == key@
                    && self.spec_keys().index_of(key@) == i,
                None => !self.has(key@),
            },
    {
        let mut i: usize = 0;
        while i < self.keys.len()
            invariant
                self.wf(),
                i <= self.keys@.len(),
                forall|j: int| 0 <= j < i ==> self.spec_keys()[j] != key@,
            decreases self.keys@.len() - i,
        {
            if self.keys[i] == *key {
                proof {
                    assert(self.spec_keys()[i as int] == key@);
                    let j = self.spec_keys().index_of(key@);
                    assert(0 <= j < self.spec_keys().len() && self.spec_keys()[j] == key@);
                }
                return Some(i);
            }
            i += 1;
        }
        None
    }

    /// The set at position `i`.
    pub fn set_at(&self, i: usize) -> (r: &StableOrderedSet<String>)
        requires
            self.wf(),
            i < self.spec_keys().len(),
        ensures
            r@ == self.spec_sets()[i as int],
            r.wf(),
    {
        &self.sets[i]
    }

    /// Adds `key` with an empty set unless it is a key already; returns its
    /// position.
    pub fn ensure(&mut self, key: &String) -> (r: usize)
        requires
            old(self).wf(),
        ensures
            final(self).wf(),
            r < final(self).spec_keys().len(),
            final(self).spec_keys()[r as int] == key@,
            final(self).spec_keys().index_of(key@) == r,
            old(self).has(key@) ==> final(self).spec_keys() == old(self).spec_keys() && final(self).spec_sets()
                == old(self).spec_sets(),
            !old(self).has(key@) ==> final(self).spec_keys() == old(self).spec_keys().push(key@)
                && final(self).spec_sets() == old(self).spec_sets().push(Seq::empty()),
            final(self).has(key@),
            forall|k: Seq<char>| #[trigger] final(self).has(k) == (old(self).has(k) || k == key@),
            forall|k: Seq<char>| #[trigger] final(self).get(k) == old(self).get(k),
            final(self).size() == old(self).size() + if old(self).has(key@) {
                0nat
            } else {
                1nat
            },
    {
        let ghost o = *self;
        let r = self.ensure_inner(key);
        proof {
            let f = *self;
            if o.has(key@) {
                assert(f.spec_keys() == o.spec_keys());
            } else {
                assert(f.spec_keys()[r as int] == key@);
                lemma_total_size_push(o.spec_sets(), Seq::empty());
                assert forall|k: Seq<char>| #[trigger] f.has(k) == (o.has(k) || k == key@) by {
                    if f.has(k) && k != key@ {
                        let j = choose|j: int| 0 <= j < f.spec_keys().len() && f.spec_keys()[j] == k;
                        assert(o.spec_keys()[j] == k);
                    }
                    if o.has(k) {
                        let j = choose|j: int| 0 <= j < o.spec_keys().len() && o.spec_keys()[j] == k;
                        assert(f.spec_keys()[j] == k);
                    }
                }
                assert forall|k: Seq<char>| #[trigger] f.get(k) == o.get(k) by {
                    if k == key@ {
                        assert(!o.has(k));
                        assert(f.spec_sets()[r as int] =~= Seq::<Seq<char>>::empty());
                        assert(f.spec_sets()[r as int].to_set() =~= Set::<Seq<char>>::empty());
                    } else if o.has(k) {
                        let j = o.spec_keys().index_of(k);
                        assert(0 <= j < o.spec_keys().len() && o.spec_keys()[j] == k);
                        assert(f.spec_keys()[j] == k);
                        let j2 = f.spec_keys().index_of(k);
                        assert(0 <= j2 < f.spec_keys().len() && f.spec_keys()[j2] == k);
                        assert(j == j2);
                        assert(f.spec_sets()[j] == o.spec_sets()[j]);
                    }
                }
            }
        }
        r
    }

    fn ensure_inner(&mut self, key: &String) -> (r: usize)
        requires
            old(self).wf(),
        ensures
            final(self).wf(),
            r < final(self).spec_keys().len(),
            final(self).spec_keys()[r as int] == key@,
            final(self).spec_keys().index_of(key@) == r,
            old(self).has(key@) ==> final(self).spec_keys() == old(self).spec_keys() && final(self).spec_sets()
                == old(self).spec_sets(),
            !old(self).has(key@) ==> final(self).spec_keys() == old(self).spec_keys().push(key@)
                && final(self).spec_sets() == old(self).spec_sets().push(Seq::empty()),
    {
        match self.index_of(key) {
            Some(i) => i,
            None => {
                let ghost ok = self.spec_keys();
                let ghost os = self.spec_sets();
                self.keys.push(key.clone());
                self.sets.push(StableOrderedSet::new());
                let i = self.keys.len() - 1;
                proof {
                    assert(self.spec_keys() =~= ok.push(key@));
                    assert(self.spec_sets() =~= os.push(Seq::empty()));
                    assert forall|a: int, b: int|
                        0 <= a < self.spec_keys().len() && 0 <= b < self.spec_keys().len() && a != b implies self.spec_keys()[a]
                        != self.spec_keys()[b] by {
                        if a < ok.len() && b < ok.len() {
                            assert(ok[a] != ok[b]);
                        } else if a < ok.len() {
                            assert(ok.contains(ok[a]));
                        } else {
                            assert(ok.contains(ok[b]));
                        }
                    }
                    assert(self.spec_keys()[i as int] == key@);
                    let j = self.spec_keys().index_of(key@);
                    assert(0 <= j < self.spec_keys().len() && self.spec_keys()[j] == key@);
                }
                i
            },
        }
    }

    /// Adds `symbol` to the set at position `i`; tells whether the set grew.
    pub fn add(&mut self, i: usize, symbol: String) -> (changed: bool)
        requires
            old(self).wf(),
            i < old(self).spec_keys().len(),
        ensures
            final(self).wf(),
            final(self).spec_keys() == old(self).spec_keys(),
            final(self).spec_sets() == old(self).spec_sets().update(
                i as int,
                StableOrderedSet::<String>::inserted(old(self).spec_sets()[i as int], symbol@),
            ),
            changed == !old(self).spec_sets()[i as int].contains(symbol@),
            forall|k: Seq<char>| #[trigger] final(self).has(k) == old(self).has(k),
            forall|k: Seq<char>|
                #[trigger] final(self).get(k) == if k == old(self).spec_keys()[i as int] {
                    old(self).get(k).insert(symbol@)
                } else {
                    old(self).get(k)
                },
            final(self).size() == old(self).size() + if changed {
                1nat
            } else {
                0nat
            },
    {
        let ghost o = *self;
        let changed = self.add_inner(i, symbol);
        proof {
            let f = *self;
            let ghost ins = StableOrderedSet::<String>::inserted(o.spec_sets()[i as int], symbol@);
            lemma_total_size_update(o.spec_sets(), i as int, ins);
            let os_i = o.spec_sets()[i as int];
            if crate::collections::stable_ordered_set::seq_has_same::<String>(os_i, symbol@) {
                let m = choose|m: int| 0 <= m < os_i.len() && String::same_as(#[trigger] os_i[m], symbol@);
                assert(os_i.contains(symbol@));
                assert(ins.to_set() =~= os_i.to_set().insert(symbol@));
            } else {
                assert(!os_i.contains(symbol@)) by {
                    if os_i.contains(symbol@) {
                        let m = choose|m: int| 0 <= m < os_i.len() && os_i[m] == symbol@;
                        assert(String::same_as(os_i[m], symbol@));
                    }
                }
                assert(ins == os_i.push(symbol@));
                assert forall|x: Seq<char>| ins.to_set().contains(x) == os_i.to_set().insert(symbol@).contains(x) by {
                    if ins.contains(x) && x != symbol@ {
                        let m = choose|m: int| 0 <= m < ins.len() && ins[m] == x;
                        assert(os_i[m] == x);
                    }
                    if os_i.contains(x) {
                        let m = choose|m: int| 0 <= m < os_i.len() && os_i[m] == x;
                        assert(ins[m] == x);
                    }
                    if x == symbol@ {
                        assert(ins[os_i.len() as int] == x);
                    }
                }
                assert(ins.to_set() =~= os_i.to_set().insert(symbol@));
            }
            assert(ins.len() == o.spec_sets()[i as int].len() + if changed { 1nat } else { 0nat });
            assert forall|k: Seq<char>|
                #[trigger] f.get(k) == if k == o.spec_keys()[i as int] {
                    o.get(k).insert(symbol@)
                } else {
                    o.get(k)
                } by {
                if o.has(k) {
                    let j = o.spec_keys().index_of(k);
                    assert(0 <= j < o.spec_keys().len() && o.spec_keys()[j] == k);
                    if k == o.spec_keys()[i as int] {
                        assert(j == i);
                    }
                }
            }
        }
        changed
    }

    fn add_inner(&mut self, i: usize, symbol: String) -> (changed: bool)
        requires
            old(self).wf(),
            i < old(self).spec_keys().len(),
        ensures
            final(self).wf(),
            final(self).spec_keys() == old(self).spec_keys(),
            final(self).spec_sets() == old(self).spec_sets().update(
                i as int,
                StableOrderedSet::<String>::inserted(old(self).spec_sets()[i as int], symbol@),
            ),
            changed == !old(self).spec_sets()[i as int].contains(symbol@),
    {
        let ghost os = self.spec_sets();
        proof {
            assert(self.sets@[i as int].wf());
            assert(self.sets@[i as int]@ == os[i as int]);
        }
        let changed = !self.sets[i].contains(&symbol);
        proof {
            assert(self.sets@[i as int].spec_contains(symbol@) == os[i as int].contains(symbol@)) by {
                if os[i as int].contains(symbol@) {
                    let j = choose|j: int| 0 <= j < os[i as int].len() && os[i as int][j] == symbol@;
                    assert(String::same_as(os[i as int][j], symbol@));
                }
            }
        }
        self.sets[i].insert(symbol);
        proof {
            assert(self.spec_sets() =~= os.update(
                i as int,
                StableOrderedSet::<String>::inserted(os[i as int], symbol@),
            ));
            assert(self.spec_keys() =~= old(self).spec_keys());
        }
        changed
    }
    /// The size of a map whose keys lie in `ku` and whose sets lie in `vu`.
    pub proof fn lemma_size_bound(&self, ku: Set<Seq<char>>, vu: Set<Seq<char>>)
        requires
            self.wf(),
            ku.finite(),
            vu.finite(),
            forall|i: int| 0 <= i < self.spec_keys().len() ==> ku.contains(#[trigger] self.spec_keys()[i]),
            forall|i: int, j: int|
                0 <= i < self.spec_sets().len() && 0 <= j < self.spec_sets()[i].len() ==> vu.contains(
                    #[trigger] self.spec_sets()[i][j],
                ),
        ensures
            self.size() <= ku.len() * (vu.len() + 1),
    {
        self.lemma_wf();
        lemma_distinct_in_set_len(self.spec_keys(), ku);
        assert forall|i: int| 0 <= i < self.spec_sets().len() implies (#[trigger] self.spec_sets()[i]).len()
            <= vu.len() by {
            lemma_no_same_pair_no_duplicates(self.spec_sets()[i]);
            lemma_distinct_in_set_len(self.spec_sets()[i], vu);
        }
        lemma_total_size_bound(self.spec_sets(), vu.len());
        lemma_mul_inequality(self.spec_sets().len() as int, ku.len() as int, (vu.len() + 1) as int);
    }

    /// The set under the key at position `i` is the set at `i`.
    pub proof fn lemma_get_at(&self, i: int)
        requires
            self.wf(),
            0 <= i < self.spec_keys().len(),
        ensures
            self.has(self.spec_keys()[i]),
            self.get(self.spec_keys()[i]) == self.spec_sets()[i].to_set(),
    {
        let k = self.spec_keys()[i];
        let j = self.spec_keys().index_of(k);
        assert(0 <= j < self.spec_keys().len() && self.spec_keys()[j] == k);
    }

    /// Adds every member of `values` to the set at position `i`; tells whether
    /// the set grew.
    pub fn add_all(&mut self, i: usize, values: &StableOrderedSet<String>) -> (changed: bool)
        requires
            old(self).wf(),
            i < old(self).spec_keys().len(),
        ensures
            final(self).wf(),
            final(self).spec_keys() == old(self).spec_keys(),
            forall|k: Seq<char>| #[trigger] final(self).has(k) == old(self).has(k),
            forall|k: Seq<char>| k != old(self).spec_keys()[i as int] ==> #[trigger] final(self).get(k) == old(self).get(k),
            final(self).get(old(self).spec_keys()[i as int]) == old(self).get(old(self).spec_keys()[i as int])
                + values@.to_set(),
            final(self).size() >= old(self).size(),
            changed ==> final(self).size() > old(self).size(),
            !changed ==> forall|k: Seq<char>| #[trigger] final(self).get(k) == old(self).get(k),
    {
        let ghost f1 = *self;
        let ghost key = f1.spec_keys()[i as int];
        proof {
            values.lemma_view();
        }
        let items = values.iter();
        let ghost vv = values@;
        let mut any_changed = false;
        let mut v: usize = 0;
        while v < items.len()
            invariant
                self.wf(),
                f1.wf(),
                self.spec_keys() == f1.spec_keys(),
                vv == items@.map_values(|x: String| x@),
                v <= items@.len(),
                i < f1.spec_keys().len(),
                key == f1.spec_keys()[i as int],
                forall|k: Seq<char>| #[trigger] self.has(k) == f1.has(k),
                forall|k: Seq<char>| k != key ==> #[trigger] self.get(k) == f1.get(k),
                self.get(key) == f1.get(key) + vv.take(v as int).to_set(),
                self.size() >= f1.size(),
                any_changed ==> self.size() > f1.size(),
                !any_changed ==> self.get(key) == f1.get(key),
            decreases items@.len() - v,
        {
            let x = &items[v];
            let ghost fb = *self;
            let changed = self.add(i, x.clone());
            if changed {
                any_changed = true;
            }
            proof {
                fb.lemma_get_at(i as int);
                if !changed {
                    assert(fb.get(key).insert(x@) =~= fb.get(key));
                }
                assert(vv.take(v + 1) =~= vv.take(v as int).push(x@));
                assert(vv.take(v + 1).to_set() =~= vv.take(v as int).to_set().insert(x@)) by {
                    let t = vv.take(v + 1);
                    assert forall|y: Seq<char>| t.contains(y) implies vv.take(v as int).to_set().insert(x@).contains(y) by {
                        let k = choose|k: int| 0 <= k < t.len() && t[k] == y;
                        if k < v {
                            assert(vv.take(v as int)[k] == y);
                        }
                    }
                    assert forall|y: Seq<char>| vv.take(v as int).contains(y) implies t.contains(y) by {
                        let k = choose|k: int| 0 <= k < v && vv.take(v as int)[k] == y;
                        assert(t[k] == y);
                    }
                    assert(t[v as int] == x@);
                }
                assert(self.get(key) =~= f1.get(key) + vv.take(v + 1).to_set());
            }
            v += 1;
        }
        proof {
            assert(vv.take(vv.len() as int) =~= vv);
            if !any_changed {
                assert forall|k: Seq<char>| #[trigger] self.get(k) == f1.get(k) by {}
            }
        }
        any_changed
    }

}

} // verus!
