use vstd::prelude::*;

verus! {

/// Items that a `StableOrderedSet` can hold.  Two items are the same member of
/// the set when `same_as` holds of their views; an equivalence relation that
/// may ignore part of the item (an LR(1) item is identified without its
/// lookahead set, for example).
pub trait SetItem: View + Sized {
    spec fn same_as(a: Self::V, b: Self::V) -> bool;

    proof fn lemma_same_as_equivalence()
        ensures
            forall|a: Self::V| #[trigger] Self::same_as(a, a),
            forall|a: Self::V, b: Self::V| #[trigger] Self::same_as(a, b) ==> Self::same_as(b, a),
            forall|a: Self::V, b: Self::V, c: Self::V|
                #[trigger] Self::same_as(a, b) && #[trigger] Self::same_as(b, c) ==> Self::same_as(a, c),
    ;

    fn is_same(&self, other: &Self) -> (r: bool)
        ensures
            r == Self::same_as(self@, other@),
    ;

    fn duplicate(&self) -> (r: Self)
        ensures
            r@ == self@,
    ;
}

/// A set that remembers the order in which its members were inserted; the
/// index of a member never changes.  Beside the members it keeps a copy of
/// each member as it was inserted, its key: membership and positions are
/// looked up by the keys, so a member changed in place is still found by the
/// key it was inserted with.
pub struct StableOrderedSet<T> {
    values: Vec<T>,
    keys: Vec<T>,
}

/// No two positions of `s` hold the same member.
pub open spec fn no_same_pair<T: SetItem>(s: Seq<T::V>) -> bool {
    forall|i: int, j: int|
        0 <= i < s.len() && 0 <= j < s.len() && i != j ==> !T::same_as(#[trigger] s[i], #[trigger] s[j])
}

/// Two members at different positions are not the same.
pub proof fn lemma_no_same_pair_at<T: SetItem>(s: Seq<T::V>, i: int, j: int)
    requires
        no_same_pair::<T>(s),
        0 <= i < s.len(),
        0 <= j < s.len(),
        i != j,
    ensures
        !T::same_as(s[i], s[j]),
{
}

/// `s` holds a member that is the same as `x`.
pub open spec fn seq_has_same<T: SetItem>(s: Seq<T::V>, x: T::V) -> bool {
    exists|i: int| 0 <= i < s.len() && T::same_as(#[trigger] s[i], x)
}

impl<T: SetItem> View for StableOrderedSet<T> {
    type V = Seq<T::V>;

    closed spec fn view(&self) -> Seq<T::V> {
        self.values@.map_values(|x: T| x@)
    }
}

impl<T: SetItem> StableOrderedSet<T> {
    /// The keys: each member as it was inserted, in insertion order.
    pub closed spec fn spec_keys(&self) -> Seq<T::V> {
        self.keys@.map_values(|x: T| x@)
    }

    /// The members, in insertion order, are pairwise different, and each is
    /// still the same member as its key.
    pub open spec fn wf(&self) -> bool {
        &&& no_same_pair::<T>(self@)
        &&& self.spec_keys().len() == self@.len()
        &&& forall|i: int| 0 <= i < self@.len() ==> T::same_as(#[trigger] self.spec_keys()[i], self@[i])
    }

    /// In a well-formed set, looking up by the keys and by the members agree.
    pub proof fn lemma_keys_agree(&self, x: T::V)
        requires
            self.wf(),
        ensures
            seq_has_same::<T>(self.spec_keys(), x) == seq_has_same::<T>(self@, x),
            forall|i: int|
                0 <= i < self@.len() ==> (T::same_as(#[trigger] self.spec_keys()[i], x) == T::same_as(self@[i], x)),
    {
        T::lemma_same_as_equivalence();
        let k = self.spec_keys();
        assert forall|i: int| 0 <= i < self@.len() implies (T::same_as(#[trigger] k[i], x) == T::same_as(self@[i], x)) by {
            assert(T::same_as(k[i], self@[i]));
        }
        if seq_has_same::<T>(k, x) {
            let i = choose|i: int| 0 <= i < k.len() && T::same_as(#[trigger] k[i], x);
            assert(T::same_as(self@[i], x));
        }
        if seq_has_same::<T>(self@, x) {
            let i = choose|i: int| 0 <= i < self@.len() && T::same_as(#[trigger] self@[i], x);
            assert(T::same_as(k[i], x));
        }
    }

    pub open spec fn spec_contains(&self, x: T::V) -> bool {
        seq_has_same::<T>(self@, x)
    }

    /// The view of `insert`: `x` is appended unless the set already holds it.
    pub open spec fn inserted(s: Seq<T::V>, x: T::V) -> Seq<T::V> {
        if seq_has_same::<T>(s, x) {
            s
        } else {
            s.push(x)
        }
    }

    pub fn new() -> (r: Self)
        ensures
            r@ == Seq::<T::V>::empty(),
            r.wf(),
    {
        let r = StableOrderedSet { values: Vec::new(), keys: Vec::new() };
        assert(r.spec_keys() =~= Seq::<T::V>::empty());
        r
    }

    pub fn len(&self) -> (r: usize)
        ensures
            r == self@.len(),
    {
        self.values.len()
    }

    /// The position of the key that is the same as `value`.
    pub fn get_index_of(&self, value: &T) -> (r: Option<usize>)
        ensures
            match r {
                Some(i) => i < self.spec_keys().len() && T::same_as(self.spec_keys()[i as int], value@),
                None => !seq_has_same::<T>(self.spec_keys(), value@),
            },
            self.wf() ==> match r {
                Some(i) => i < self@.len() && T::same_as(self@[i as int], value@),
                None => !self.spec_contains(value@),
            },
    {
        let ghost k = self.spec_keys();
        let mut i: usize = 0;
        while i < self.keys.len()
            invariant
                k == self.spec_keys(),
                i <= self.keys@.len(),
                forall|j: int| 0 <= j < i ==> !T::same_as(#[trigger] k[j], value@),
            decreases self.keys@.len() - i,
        {
            assert(k[i as int] == self.keys@[i as int]@);
            if self.keys[i].is_same(value) {
                proof {
                    if self.wf() {
                        self.lemma_keys_agree(value@);
                    }
                }
                return Some(i);
            }
            i += 1;
        }
        proof {
            if self.wf() {
                self.lemma_keys_agree(value@);
            }
        }
        None
    }

    /// Whether a key is the same as `value`.
    pub fn contains(&self, value: &T) -> (r: bool)
        ensures
            r == seq_has_same::<T>(self.spec_keys(), value@),
            self.wf() ==> r == self.spec_contains(value@),
    {
        self.get_index_of(value).is_some()
    }

    /// Adds `item` at the end unless a key is the same as it.
    pub fn insert(&mut self, item: T)
        ensures
            final(self).spec_keys() == Self::inserted(old(self).spec_keys(), item@),
            final(self)@ == if seq_has_same::<T>(old(self).spec_keys(), item@) {
                old(self)@
            } else {
                old(self)@.push(item@)
            },
            final(self).spec_values() == if seq_has_same::<T>(old(self).spec_keys(), item@) {
                old(self).spec_values()
            } else {
                old(self).spec_values().push(item)
            },
            old(self).wf() ==> final(self).wf(),
            old(self).wf() ==> final(self)@ == Self::inserted(old(self)@, item@),
    {
        let ghost was_wf = self.wf();
        proof {
            if was_wf {
                self.lemma_keys_agree(item@);
            }
        }
        if !self.contains(&item) {
            let ghost old_view = self@;
            let ghost old_keys = self.spec_keys();
            let ghost old_key_vec = self.keys@;
            let key = item.duplicate();
            let ghost kv = key@;
            self.values.push(item);
            self.keys.push(key);
            assert(self.keys@ == old_key_vec.push(key));
            assert(self.spec_keys() =~= old_keys.push(kv)) by {
                assert forall|j: int| 0 <= j < self.keys@.len() implies #[trigger] self.spec_keys()[j] == old_keys.push(kv)[j] by {
                    if j < old_key_vec.len() {
                        assert(self.keys@[j] == old_key_vec[j]);
                    }
                }
            }
            proof {
                T::lemma_same_as_equivalence();
                assert(self@ =~= old_view.push(kv));
                if was_wf {
                    assert forall|i: int| 0 <= i < self@.len() implies T::same_as(#[trigger] self.spec_keys()[i], self@[i]) by {
                        if i < old_view.len() {
                            assert(self.spec_keys()[i] == old_keys[i]);
                            assert(self@[i] == old_view[i]);
                        }
                    }
                    assert forall|i: int, j: int|
                        0 <= i < self@.len() && 0 <= j < self@.len() && i != j implies !T::same_as(
                        #[trigger] self@[i],
                        #[trigger] self@[j],
                    ) by {
                        if i < old_view.len() && j < old_view.len() {
                            assert(old_view[i] == self@[i] && old_view[j] == self@[j]);
                        }
                    }
                }
            }
        }
    }

    pub fn get_index(&self, index: usize) -> (r: Option<&T>)
        ensures
            match r {
                Some(x) => index < self@.len() && x@ == self@[index as int] && *x == self.spec_values()[index as int],
                None => index >= self@.len(),
            },
    {
        if index < self.values.len() {
            Some(&self.values[index])
        } else {
            None
        }
    }
    /// Mutable access to the member at `index`.  The keys do not change, so
    /// `contains` and `get_index_of` keep answering by the member as it was
    /// inserted; the set stays well formed when the member is changed into one
    /// that is the same member.
    pub fn get_index_mut(&mut self, index: usize) -> (r: Option<&mut T>)
        ensures
            index < old(self)@.len() <==> r is Some,
            final(self).spec_keys() == old(self).spec_keys(),
            r is Some ==> *r->0 == old(self).spec_values()[index as int],
            r is Some ==> final(self)@ == old(self)@.update(index as int, (*final(r->0))@),
            r is Some ==> final(self).spec_values() == old(self).spec_values().update(index as int, *final(r->0)),
            r is Some && old(self).wf() && T::same_as(old(self)@[index as int], (*final(r->0))@) ==> final(self).wf(),
            r is None ==> final(self)@ == old(self)@ && final(self).spec_values() == old(self).spec_values(),
    {
        proof {
            T::lemma_same_as_equivalence();
        }
        if index < self.values.len() {
            Some(&mut self.values[index])
        } else {
            None
        }
    }

    pub closed spec fn spec_values(&self) -> Seq<T> {
        self.values@
    }

    /// The view of inserting every element of `xs`, first to last, into `s`.
    pub open spec fn inserted_all(s: Seq<T::V>, xs: Seq<T::V>) -> Seq<T::V>
        decreases xs.len(),
    {
        if xs.len() == 0 {
            s
        } else {
            Self::inserted(Self::inserted_all(s, xs.drop_last()), xs.last())
        }
    }

    /// The members of `a` that `b` does not hold, in the order of `a`.
    pub open spec fn difference_spec(a: Seq<T::V>, b: Seq<T::V>) -> Seq<T::V>
        decreases a.len(),
    {
        if a.len() == 0 {
            a
        } else if seq_has_same::<T>(b, a.last()) {
            Self::difference_spec(a.drop_last(), b)
        } else {
            Self::difference_spec(a.drop_last(), b).push(a.last())
        }
    }

    pub proof fn lemma_view(&self)
        ensures
            self@ == self.spec_values().map_values(|x: T| x@),
    {
    }

    /// The members, in insertion order.
    pub fn iter(&self) -> (r: &Vec<T>)
        ensures
            r@ == self.spec_values(),
    {
        &self.values
    }

    pub fn into_iter(self) -> (r: Vec<T>)
        ensures
            r@ == self.spec_values(),
    {
        self.values
    }

    /// The set of the elements of `items`, each inserted in turn.
    pub fn from_vec(items: Vec<T>) -> (r: Self)
        ensures
            r.wf(),
            r@ == Self::inserted_all(Seq::empty(), items@.map_values(|x: T| x@)),
    {
        let mut r = Self::new();
        let mut items = items;
        let ghost all = items@.map_values(|x: T| x@);
        let ghost n = all.len();
        while items.len() > 0
            invariant
                r.wf(),
                n == all.len(),
                items@.len() <= n,
                items@.map_values(|x: T| x@) == all.skip(n - items@.len()),
                r@ == Self::inserted_all(Seq::empty(), all.take(n - items@.len())),
            decreases items@.len(),
        {
            let ghost k = n - items@.len();
            let ghost old_items = items@;
            let x = items.remove(0);
            assert(old_items.map_values(|x: T| x@)[0] == all.skip(k)[0]);
            assert(x@ == all.skip(k)[0]);
            assert(items@ =~= old_items.drop_first());
            assert forall|j: int| 0 <= j < items@.len() implies #[trigger] items@[j]@ == all.skip(n - items@.len())[j] by {
                assert(items@[j] == old_items[j + 1]);
                assert(old_items.map_values(|x: T| x@)[j + 1] == all.skip(k)[j + 1]);
            }
            r.insert(x);
            assert(all.take(k + 1).drop_last() =~= all.take(k));
            assert(items@.map_values(|x: T| x@) =~= all.skip(n - items@.len()));
        }
        assert(all.take(n as int) =~= all);
        r
    }

    pub proof fn lemma_inserted_all_self(s: Seq<T::V>)
        requires
            no_same_pair::<T>(s),
        ensures
            Self::inserted_all(Seq::empty(), s) == s,
        decreases s.len(),
    {
        if s.len() > 0 {
            let t = s.drop_last();
            assert forall|i: int, j: int|
                0 <= i < t.len() && 0 <= j < t.len() && i != j implies !T::same_as(
                #[trigger] t[i],
                #[trigger] t[j],
            ) by {
                assert(t[i] == s[i] && t[j] == s[j]);
            }
            Self::lemma_inserted_all_self(t);
            if seq_has_same::<T>(t, s.last()) {
                let i = choose|i: int| 0 <= i < t.len() && T::same_as(#[trigger] t[i], s.last());
                assert(s[i] == t[i]);
                assert(false);
            }
            assert(t.push(s.last()) =~= s);
        }
    }

    /// The members of `self` that `other` does not hold.
    pub fn difference(&self, other: &StableOrderedSet<T>) -> (r: StableOrderedSet<T>)
        requires
            self.wf(),
            other.wf(),
        ensures
            r.wf(),
            r@ == Self::difference_spec(self@, other@),
    {
        let mut r = Self::new();
        let mut i: usize = 0;
        while i < self.values.len()
            invariant
                self.wf(),
                other.wf(),
                r.wf(),
                i <= self@.len(),
                r@ == Self::difference_spec(self@.take(i as int), other@),
                forall|j: int| 0 <= j < r@.len() ==> exists|k: int| 0 <= k < i && #[trigger] r@[j] == self@[k],
            decreases self@.len() - i,
        {
            let item = self.values[i].duplicate();
            let ghost before = r@;
            assert(self@.take(i + 1).drop_last() =~= self@.take(i as int));
            assert(self@.take(i + 1).last() == self@[i as int]);
            if !other.contains(&item) {
                proof {
                    if r.spec_contains(item@) {
                        let j = choose|j: int| 0 <= j < r@.len() && T::same_as(#[trigger] r@[j], item@);
                        let k = choose|k: int| 0 <= k < i && #[trigger] r@[j] == self@[k];
                        assert(T::same_as(self@[k], self@[i as int]));
                        assert(false);
                    }
                }
                r.insert(item);
                assert(r@ == before.push(self@[i as int]));
                assert forall|j: int| 0 <= j < r@.len() implies exists|k: int| 0 <= k < i + 1 && #[trigger] r@[j] == self@[k] by {
                    if j < before.len() {
                        assert(r@[j] == before[j]);
                    } else {
                        assert(r@[j] == self@[i as int]);
                    }
                }
            }
            i += 1;
        }
        assert(self@.take(self@.len() as int) =~= self@);
        r
    }

    /// The members of `self` followed by the members of `other` that `self`
    /// does not hold.
    pub fn union(&self, other: &StableOrderedSet<T>) -> (r: StableOrderedSet<T>)
        requires
            self.wf(),
            other.wf(),
        ensures
            r.wf(),
            r@ == Self::inserted_all(self@, other@),
    {
        let mut r = Self::new();
        let mut i: usize = 0;
        while i < self.values.len()
            invariant
                self.wf(),
                r.wf(),
                i <= self@.len(),
                r@ == self@.take(i as int),
            decreases self@.len() - i,
        {
            let item = self.values[i].duplicate();
            proof {
                if r.spec_contains(item@) {
                    let j = choose|j: int| 0 <= j < r@.len() && T::same_as(#[trigger] r@[j], item@);
                    assert(r@[j] == self@.take(i as int)[j]);
                    assert(r@[j] == self@[j]);
                    assert(T::same_as(self@[j], self@[i as int]));
                    assert(false);
                }
            }
            r.insert(item);
            i += 1;
            assert(r@ =~= self@.take(i as int));
        }
        assert(self@.take(self@.len() as int) =~= self@);
        let mut k: usize = 0;
        while k < other.values.len()
            invariant
                r.wf(),
                k <= other@.len(),
                r@ == Self::inserted_all(self@, other@.take(k as int)),
            decreases other@.len() - k,
        {
            let item = other.values[k].duplicate();
            r.insert(item);
            k += 1;
            assert(other@.take(k as int).drop_last() =~= other@.take(k - 1));
        }
        assert(other@.take(other@.len() as int) =~= other@);
        r
    }

    /// A copy of the set.
    pub fn clone_set(&self) -> (r: StableOrderedSet<T>)
        ensures
            r@ == self@,
            r.spec_keys() == self.spec_keys(),
            r.wf() == self.wf(),
    {
        let mut values: Vec<T> = Vec::new();
        let mut i: usize = 0;
        while i < self.values.len()
            invariant
                i <= self.values@.len(),
                values@.map_values(|x: T| x@) == self@.take(i as int),
            decreases self.values@.len() - i,
        {
            let x = self.values[i].duplicate();
            let ghost before = values@.map_values(|x: T| x@);
            values.push(x);
            assert(values@.map_values(|x: T| x@) =~= before.push(x@));
            i += 1;
            assert(self@.take(i as int) =~= self@.take(i - 1).push(self@[i - 1]));
        }
        let mut keys: Vec<T> = Vec::new();
        let mut j: usize = 0;
        while j < self.keys.len()
            invariant
                j <= self.keys@.len(),
                keys@.map_values(|x: T| x@) == self.spec_keys().take(j as int),
            decreases self.keys@.len() - j,
        {
            let x = self.keys[j].duplicate();
            let ghost before = keys@.map_values(|x: T| x@);
            keys.push(x);
            assert(keys@.map_values(|x: T| x@) =~= before.push(x@));
            j += 1;
            assert(self.spec_keys().take(j as int) =~= self.spec_keys().take(j - 1).push(self.spec_keys()[j - 1]));
        }
        let r = StableOrderedSet { values, keys };
        assert(r@ =~= self@);
        assert(r.spec_keys() =~= self.spec_keys());
        r
    }

}

impl SetItem for String {
    open spec fn same_as(a: Seq<char>, b: Seq<char>) -> bool {
        a == b
    }

    proof fn lemma_same_as_equivalence() {
    }

    fn is_same(&self, other: &Self) -> (r: bool) {
        *self == *other
    }

    fn duplicate(&self) -> (r: Self) {
        self.clone()
    }
}

impl SetItem for Vec<usize> {
    open spec fn same_as(a: Seq<usize>, b: Seq<usize>) -> bool {
        a == b
    }

    proof fn lemma_same_as_equivalence() {
    }

    fn is_same(&self, other: &Self) -> (r: bool) {
        if self.len() != other.len() {
            return false;
        }
        let mut i: usize = 0;
        while i < self.len()
            invariant
                self@.len() == other@.len(),
                i <= self@.len(),
                forall|j: int| 0 <= j < i ==> self@[j] == other@[j],
            decreases self@.len() - i,
        {
            if self[i] != other[i] {
                return false;
            }
            i += 1;
        }
        assert(self@ =~= other@);
        true
    }

    fn duplicate(&self) -> (r: Self) {
        let mut r: Vec<usize> = Vec::new();
        let mut i: usize = 0;
        while i < self.len()
            invariant
                i <= self@.len(),
                r@ == self@.take(i as int),
            decreases self@.len() - i,
        {
            r.push(self[i]);
            i += 1;
            assert(r@ =~= self@.take(i as int));
        }
        assert(self@.take(self@.len() as int) =~= self@);
        r
    }
}

/// Law of `StableOrderedSet::insert`: the items already there keep their
/// places, an item is added at the end only when none like it is there, and
/// inserting it again changes nothing.
pub proof fn law_insert_stable<T: SetItem>(s: Seq<T::V>, x: T::V)
    ensures
        StableOrderedSet::<T>::inserted(s, x).take(s.len() as int) == s,
        seq_has_same::<T>(s, x) <==> StableOrderedSet::<T>::inserted(s, x) == s,
        !seq_has_same::<T>(s, x) ==> StableOrderedSet::<T>::inserted(s, x) == s.push(x),
        StableOrderedSet::<T>::inserted(StableOrderedSet::<T>::inserted(s, x), x) == StableOrderedSet::<T>::inserted(s, x),
{
    T::lemma_same_as_equivalence();
    let t = StableOrderedSet::<T>::inserted(s, x);
    if seq_has_same::<T>(s, x) {
        assert(s.take(s.len() as int) =~= s);
    } else {
        assert(s.push(x).take(s.len() as int) =~= s);
        assert(T::same_as(s.push(x)[s.len() as int], x));
        assert(seq_has_same::<T>(s.push(x), x));
        assert(s.push(x).len() != s.len());
    }
}

} // verus!
