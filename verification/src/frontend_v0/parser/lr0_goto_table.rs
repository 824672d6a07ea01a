//! The goto table of the automaton while it is built: for each state that has
//! any, the action to take on each token.
use crate::collections::stable_ordered_set::StableOrderedSet;
use crate::frontend_v0::parser::lr1_automata_builder::LR1ParserAction;
use crate::text::strs;
use vstd::prelude::*;

verus! {

/// The actions of one state, keyed by token.  Each token has at most one
/// action; a later action for a token replaces the earlier one.
pub struct ActionMap {
    tokens: Vec<String>,
    actions: Vec<LR1ParserAction>,
}

impl ActionMap {
    /// The tokens that have an action, in the order in which they got one.
    pub closed spec fn spec_tokens(&self) -> Seq<Seq<char>> {
        strs(self.tokens@)
    }

    pub closed spec fn wf(&self) -> bool {
        &&& self.tokens@.len() == self.actions@.len()
        &&& forall|i: int, j: int|
            0 <= i < j < self.tokens@.len() ==> (#[trigger] self.tokens@[i])@ != (#[trigger] self.tokens@[j])@
    }

    /// The position of `token` among the tokens.
    closed spec fn position(&self, token: Seq<char>) -> int {
        choose|i: int| 0 <= i < self.tokens@.len() && (#[trigger] self.tokens@[i])@ == token
    }

    /// The action for each token.
    pub closed spec fn spec_map(&self) -> Map<Seq<char>, LR1ParserAction> {
        Map::new(
            |t: Seq<char>| exists|i: int| 0 <= i < self.tokens@.len() && (#[trigger] self.tokens@[i])@ == t,
            |t: Seq<char>| self.actions@[self.position(t)],
        )
    }

    proof fn lemma_at(&self, i: int)
        requires
            self.wf(),
            0 <= i < self.tokens@.len(),
        ensures
            self.spec_map().contains_key(self.tokens@[i]@),
            self.spec_map()[self.tokens@[i]@] == self.actions@[i],
    {
        let t = self.tokens@[i]@;
        assert(self.spec_map().dom().contains(t));
        let p = self.position(t);
        if p != i {
            if p < i {
                assert(self.tokens@[p]@ != self.tokens@[i]@);
            } else {
                assert(self.tokens@[i]@ != self.tokens@[p]@);
            }
        }
    }

    pub fn new() -> (r: ActionMap)
        ensures
            r.wf(),
            r.spec_map() == Map::<Seq<char>, LR1ParserAction>::empty(),
            r.spec_tokens() == Seq::<Seq<char>>::empty(),
    {
        let r = ActionMap { tokens: Vec::new(), actions: Vec::new() };
        assert(r.spec_map() =~= Map::empty());
        assert(r.spec_tokens() =~= Seq::empty());
        r
    }

    /// The number of tokens that have an action.
    pub fn len(&self) -> (r: usize)
        requires
            self.wf(),
        ensures
            r == self.spec_tokens().len(),
            r == self.spec_map().dom().len(),
    {
        proof {
            self.lemma_dom();
        }
        self.tokens.len()
    }

    pub proof fn lemma_dom(&self)
        requires
            self.wf(),
        ensures
            self.spec_map().dom() == self.spec_tokens().to_set(),
            self.spec_map().dom().len() == self.spec_tokens().len(),
            self.spec_map().dom().finite(),
    {
        assert forall|t: Seq<char>| #[trigger] self.spec_map().dom().contains(t) == self.spec_tokens().to_set().contains(t) by {
            if self.spec_map().dom().contains(t) {
                let k = choose|k: int| 0 <= k < self.tokens@.len() && (#[trigger] self.tokens@[k])@ == t;
                assert(self.spec_tokens()[k] == t);
            }
            if self.spec_tokens().contains(t) {
                let k = choose|k: int| 0 <= k < self.spec_tokens().len() && self.spec_tokens()[k] == t;
                assert(self.tokens@[k]@ == t);
            }
        }
        assert(self.spec_map().dom() =~= self.spec_tokens().to_set());
        assert(self.spec_tokens().no_duplicates()) by {
            assert forall|i: int, j: int|
                0 <= i < self.spec_tokens().len() && 0 <= j < self.spec_tokens().len() && i != j implies self.spec_tokens()[i]
                != self.spec_tokens()[j] by {
                if i < j {
                    assert(self.tokens@[i]@ != self.tokens@[j]@);
                } else {
                    assert(self.tokens@[j]@ != self.tokens@[i]@);
                }
            }
        }
        self.spec_tokens().unique_seq_to_set();
    }

    /// The token and the action at position `i`, in the order in which the
    /// tokens got their actions.
    pub fn entry(&self, i: usize) -> (r: (&String, LR1ParserAction))
        requires
            self.wf(),
            i < self.spec_tokens().len(),
        ensures
            r.0@ == self.spec_tokens()[i as int],
            self.spec_map().contains_key(r.0@),
            self.spec_map()[r.0@] == r.1,
    {
        proof {
            self.lemma_at(i as int);
        }
        (&self.tokens[i], self.actions[i])
    }

    /// The action for `token`, if it has one.
    pub fn get(&self, token: &String) -> (r: Option<LR1ParserAction>)
        requires
            self.wf(),
        ensures
            r == self.spec_map().get(token@),
    {
        let mut i: usize = 0;
        while i < self.tokens.len()
            invariant
                self.wf(),
                i <= self.tokens@.len(),
                forall|j: int| 0 <= j < i ==> (#[trigger] self.tokens@[j])@ != token@,
            decreases self.tokens@.len() - i,
        {
            if self.tokens[i] == *token {
                proof {
                    self.lemma_at(i as int);
                }
                return Some(self.actions[i]);
            }
            i += 1;
        }
        assert(!self.spec_map().dom().contains(token@));
        None
    }

    /// Sets the action for `token` and returns the action it had before.
    pub fn insert(&mut self, token: String, action: LR1ParserAction) -> (r: Option<LR1ParserAction>)
        requires
            old(self).wf(),
        ensures
            final(self).wf(),
            r == old(self).spec_map().get(token@),
            final(self).spec_map() == old(self).spec_map().insert(token@, action),
            final(self).spec_tokens() == (if old(self).spec_map().contains_key(token@) {
                old(self).spec_tokens()
            } else {
                old(self).spec_tokens().push(token@)
            }),
    {
        let ghost before = *self;
        let mut i: usize = 0;
        while i < self.tokens.len()
            invariant
                *self == before,
                before == *old(self),
                self.wf(),
                i <= self.tokens@.len(),
                forall|j: int| 0 <= j < i ==> (#[trigger] self.tokens@[j])@ != token@,
            decreases self.tokens@.len() - i,
        {
            if self.tokens[i] == token {
                proof {
                    before.lemma_at(i as int);
                    assert(self.tokens@[i as int]@ == token@);
                    assert(before.spec_map().contains_key(token@));
                }
                let previous = self.actions[i];
                self.actions.set(i, action);
                proof {
                    assert(self.tokens@ == before.tokens@);
                    assert forall|t: Seq<char>| #[trigger] self.spec_map().contains_key(t) == before.spec_map().insert(token@, action).contains_key(t) by {
                        if before.spec_map().insert(token@, action).contains_key(t) && t != token@ {
                            assert(before.spec_map().dom().contains(t));
                            let k = choose|k: int| 0 <= k < before.tokens@.len() && (#[trigger] before.tokens@[k])@ == t;
                            assert(self.tokens@[k]@ == t);
                        }
                    }
                    assert forall|t: Seq<char>| #[trigger] self.spec_map().contains_key(t) implies self.spec_map()[t] == before.spec_map().insert(token@, action)[t] by {
                        let k = choose|k: int| 0 <= k < self.tokens@.len() && (#[trigger] self.tokens@[k])@ == t;
                        self.lemma_at(k);
                        before.lemma_at(k);
                        if k != i {
                            assert(self.actions@[k] == before.actions@[k]);
                        }
                    }
                    assert(self.spec_map() =~= before.spec_map().insert(token@, action));
                    assert(self.spec_tokens() =~= before.spec_tokens());
                }
                return Some(previous);
            }
            i += 1;
        }
        assert(!before.spec_map().dom().contains(token@));
        let ghost tv = token@;
        self.tokens.push(token);
        self.actions.push(action);
        proof {
            let n = before.tokens@.len() as int;
            assert forall|a: int, b: int| 0 <= a < b < self.tokens@.len() implies (#[trigger] self.tokens@[a])@ != (#[trigger] self.tokens@[b])@ by {
                if b < n {
                    assert(self.tokens@[a] == before.tokens@[a] && self.tokens@[b] == before.tokens@[b]);
                } else {
                    assert(self.tokens@[a] == before.tokens@[a]);
                }
            }
            assert forall|t: Seq<char>| #[trigger] self.spec_map().contains_key(t) == before.spec_map().insert(tv, action).contains_key(t) by {
                if self.spec_map().contains_key(t) {
                    let k = choose|k: int| 0 <= k < self.tokens@.len() && (#[trigger] self.tokens@[k])@ == t;
                    if k < n {
                        assert(before.tokens@[k]@ == t);
                    }
                }
                if before.spec_map().insert(tv, action).contains_key(t) {
                    if t == tv {
                        assert(self.tokens@[n]@ == t);
                    } else {
                        let k = choose|k: int| 0 <= k < before.tokens@.len() && (#[trigger] before.tokens@[k])@ == t;
                        assert(self.tokens@[k]@ == t);
                    }
                }
            }
            assert forall|t: Seq<char>| #[trigger] self.spec_map().contains_key(t) implies self.spec_map()[t] == before.spec_map().insert(tv, action)[t] by {
                let k = choose|k: int| 0 <= k < self.tokens@.len() && (#[trigger] self.tokens@[k])@ == t;
                self.lemma_at(k);
                if k < n {
                    assert(self.tokens@[k] == before.tokens@[k]);
                    before.lemma_at(k);
                }
            }
            assert(self.spec_map() =~= before.spec_map().insert(tv, action));
            assert(self.spec_tokens() =~= before.spec_tokens().push(tv));
        }
        None
    }
}

/// The action for every token of `tokens`, in turn, set to `action` in `m`.
pub open spec fn with_all(m: Map<Seq<char>, LR1ParserAction>, tokens: Seq<Seq<char>>, action: LR1ParserAction) -> Map<
    Seq<char>,
    LR1ParserAction,
> {
    Map::new(|t: Seq<char>| m.contains_key(t) || tokens.contains(t), |t: Seq<char>| if tokens.contains(t) { action } else { m[t] })
}

/// Law of writing an action on tokens: each written token gets the action,
/// whatever it had before; every other token keeps what it had.
pub proof fn law_with_all(m: Map<Seq<char>, LR1ParserAction>, tokens: Seq<Seq<char>>, action: LR1ParserAction)
    ensures
        forall|t: Seq<char>|
            #![trigger with_all(m, tokens, action).contains_key(t)]
            tokens.contains(t) ==> with_all(m, tokens, action).contains_key(t) && with_all(m, tokens, action)[t] == action,
        forall|t: Seq<char>|
            #![trigger with_all(m, tokens, action).contains_key(t)]
            !tokens.contains(t) ==> with_all(m, tokens, action).contains_key(t) == m.contains_key(t) && (m.contains_key(t)
                ==> with_all(m, tokens, action)[t] == m[t]),
{
}

/// The reports of writing the reduction by `rule` on each token of `ts`, in
/// order, into the actions `m`: each token whose action just before its write
/// is there and is not that reduction, with that action.
pub open spec fn reduce_overrides(
    m: Map<Seq<char>, LR1ParserAction>,
    ts: Seq<Seq<char>>,
    rule: usize,
) -> Seq<(Seq<char>, LR1ParserAction)>
    decreases ts.len(),
{
    if ts.len() == 0 {
        Seq::empty()
    } else {
        let rest = reduce_overrides(m, ts.drop_last(), rule);
        let cur = with_all(m, ts.drop_last(), LR1ParserAction::Reduce(rule));
        let t = ts.last();
        if cur.contains_key(t) && cur[t] != LR1ParserAction::Reduce(rule) {
            rest.push((t, cur[t]))
        } else {
            rest
        }
    }
}

/// The views of a list of reports.
pub open spec fn overrides_view(v: Seq<(String, LR1ParserAction)>) -> Seq<(Seq<char>, LR1ParserAction)> {
    v.map_values(|p: (String, LR1ParserAction)| (p.0@, p.1))
}

/// The goto table under construction: the actions of each state that has any.
pub struct LR0GotoTable {
    starts: Vec<usize>,
    tables: Vec<ActionMap>,
}

impl LR0GotoTable {
    pub closed spec fn wf(&self) -> bool {
        &&& self.starts@.len() == self.tables@.len()
        &&& forall|i: int, j: int| 0 <= i < j < self.starts@.len() ==> self.starts@[i] != self.starts@[j]
        &&& forall|i: int| 0 <= i < self.tables@.len() ==> (#[trigger] self.tables@[i]).wf()
    }

    /// The states that have actions.
    pub closed spec fn spec_starts(&self) -> Seq<usize> {
        self.starts@
    }

    /// The actions of each state that has any.
    pub closed spec fn spec_maps(&self) -> Map<usize, Map<Seq<char>, LR1ParserAction>> {
        Map::new(
            |s: usize| self.starts@.contains(s),
            |s: usize| self.tables@[self.starts@.index_of(s)].spec_map(),
        )
    }

    /// The actions of `start`: none if it has no entry.
    pub open spec fn actions_of(&self, start: usize) -> Map<Seq<char>, LR1ParserAction> {
        if self.spec_maps().contains_key(start) {
            self.spec_maps()[start]
        } else {
            Map::empty()
        }
    }

    proof fn lemma_at(&self, i: int)
        requires
            self.wf(),
            0 <= i < self.starts@.len(),
        ensures
            self.spec_maps().contains_key(self.starts@[i]),
            self.spec_maps()[self.starts@[i]] == self.tables@[i].spec_map(),
    {
        let s = self.starts@[i];
        assert(self.starts@.contains(s));
        let p = self.starts@.index_of(s);
        if p != i {
            if p < i {
                assert(self.starts@[p] != self.starts@[i]);
            } else {
                assert(self.starts@[i] != self.starts@[p]);
            }
        }
    }

    pub fn new() -> (r: LR0GotoTable)
        ensures
            r.wf(),
            r.spec_maps() == Map::<usize, Map<Seq<char>, LR1ParserAction>>::empty(),
            r.spec_starts() == Seq::<usize>::empty(),
    {
        let r = LR0GotoTable { starts: Vec::new(), tables: Vec::new() };
        assert(r.spec_maps() =~= Map::empty());
        r
    }

    /// The number of states that have actions.
    pub fn len(&self) -> (r: usize)
        ensures
            r == self.spec_starts().len(),
    {
        self.starts.len()
    }

    /// The state and the actions of the `i`-th state that got actions.
    pub fn entry(&self, i: usize) -> (r: (usize, &ActionMap))
        requires
            self.wf(),
            i < self.spec_starts().len(),
        ensures
            r.0 == self.spec_starts()[i as int],
            r.1.wf(),
            r.1.spec_map() == self.spec_maps()[r.0],
            self.spec_maps().contains_key(r.0),
    {
        proof {
            self.lemma_at(i as int);
        }
        (self.starts[i], &self.tables[i])
    }

    /// The position of `start` among the states with actions; a new empty
    /// entry is made for it when it has none.
    fn slot_for(&mut self, start: usize) -> (r: usize)
        requires
            old(self).wf(),
        ensures
            final(self).wf(),
            r < final(self).starts@.len(),
            final(self).starts@[r as int] == start,
            final(self).spec_maps() == old(self).spec_maps().insert(start, old(self).actions_of(start)),
            final(self).spec_starts() == (if old(self).spec_maps().contains_key(start) {
                old(self).spec_starts()
            } else {
                old(self).spec_starts().push(start)
            }),
    {
        let ghost before = *self;
        let mut i: usize = 0;
        while i < self.starts.len()
            invariant
                *self == before,
                before == *old(self),
                self.wf(),
                i <= self.starts@.len(),
                forall|j: int| 0 <= j < i ==> self.starts@[j] != start,
            decreases self.starts@.len() - i,
        {
            if self.starts[i] == start {
                proof {
                    self.lemma_at(i as int);
                    assert(self.spec_maps() =~= before.spec_maps().insert(start, before.actions_of(start)));
                }
                return i;
            }
            i += 1;
        }
        assert(!before.spec_maps().contains_key(start));
        self.starts.push(start);
        self.tables.push(ActionMap::new());
        proof {
            let n = before.starts@.len() as int;
            assert forall|a: int, b: int| 0 <= a < b < self.starts@.len() implies self.starts@[a] != self.starts@[b] by {
                if b < n {
                    assert(self.starts@[a] == before.starts@[a] && self.starts@[b] == before.starts@[b]);
                } else {
                    assert(self.starts@[a] == before.starts@[a]);
                }
            }
            assert forall|i: int| 0 <= i < self.tables@.len() implies (#[trigger] self.tables@[i]).wf() by {
                if i < n {
                    assert(self.tables@[i] == before.tables@[i]);
                }
            }
            assert forall|s: usize| #[trigger] self.spec_maps().contains_key(s) == before.spec_maps().insert(start, before.actions_of(start)).contains_key(s) by {
                if self.starts@.contains(s) {
                    let k = choose|k: int| 0 <= k < self.starts@.len() && self.starts@[k] == s;
                    if k < n {
                        assert(before.starts@[k] == s);
                    }
                }
                if before.starts@.contains(s) {
                    let k = choose|k: int| 0 <= k < before.starts@.len() && before.starts@[k] == s;
                    assert(self.starts@[k] == s);
                }
                if s == start {
                    assert(self.starts@[n] == s);
                }
            }
            assert forall|s: usize| #[trigger] self.spec_maps().contains_key(s) implies self.spec_maps()[s] == before.spec_maps().insert(start, before.actions_of(start))[s] by {
                let k = choose|k: int| 0 <= k < self.starts@.len() && self.starts@[k] == s;
                self.lemma_at(k);
                if k < n {
                    assert(self.starts@[k] == before.starts@[k] && self.tables@[k] == before.tables@[k]);
                    before.lemma_at(k);
                } else {
                    assert(self.tables@[k].spec_map() == Map::<Seq<char>, LR1ParserAction>::empty());
                }
            }
            assert(self.spec_maps() =~= before.spec_maps().insert(start, before.actions_of(start)));
            assert(self.spec_starts() =~= before.spec_starts().push(start));
        }
        self.starts.len() - 1
    }

    /// Records the shift from `start` to `target` on `token`; returns the
    /// action that `start` had on `token` before, which the shift overrides.
    pub fn add_entry(&mut self, start: usize, token: String, target: usize) -> (r: Option<LR1ParserAction>)
        requires
            old(self).wf(),
        ensures
            r == old(self).actions_of(start).get(token@),
            final(self).wf(),
            final(self).spec_maps() == old(self).spec_maps().insert(
                start,
                old(self).actions_of(start).insert(token@, LR1ParserAction::Shift(target)),
            ),
            final(self).spec_starts() == (if old(self).spec_maps().contains_key(start) {
                old(self).spec_starts()
            } else {
                old(self).spec_starts().push(start)
            }),
    {
        let ghost before = *self;
        let i = self.slot_for(start);
        let ghost mid = *self;
        proof {
            mid.lemma_at(i as int);
        }
        let table = &mut self.tables[i];
        let previous = table.insert(token, LR1ParserAction::Shift(target));
        proof {
            assert forall|j: int| 0 <= j < self.tables@.len() implies (#[trigger] self.tables@[j]).wf() by {
                if j != i {
                    assert(self.tables@[j] == mid.tables@[j]);
                }
            }
            self.lemma_same_starts(mid, i as int);
        }
        previous
    }

    /// Records the reduction by rule `rule` from `start` on every token of
    /// `lookaheads`; returns, in the order of the tokens, each token whose
    /// action the reduction overrides (a shift, or a reduction by another
    /// rule) with that action.
    pub fn add_reduces(&mut self, start: usize, lookaheads: &StableOrderedSet<String>, rule: usize) -> (r: Vec<
        (String, LR1ParserAction),
    >)
        requires
            old(self).wf(),
        ensures
            overrides_view(r@) == reduce_overrides(old(self).actions_of(start), lookaheads@, rule),
            final(self).wf(),
            final(self).spec_maps() == old(self).spec_maps().insert(
                start,
                with_all(old(self).actions_of(start), lookaheads@, LR1ParserAction::Reduce(rule)),
            ),
            final(self).spec_starts() == (if old(self).spec_maps().contains_key(start) {
                old(self).spec_starts()
            } else {
                old(self).spec_starts().push(start)
            }),
    {
        let ghost before = *self;
        let i = self.slot_for(start);
        let ghost mid = *self;
        let ghost base = before.actions_of(start);
        proof {
            mid.lemma_at(i as int);
            assert(with_all(base, lookaheads@.take(0), LR1ParserAction::Reduce(rule)) =~= base);
        }
        let tokens = lookaheads.iter();
        proof {
            lookaheads.lemma_view();
            assert(strs(tokens@) =~= lookaheads@);
        }
        let mut out: Vec<(String, LR1ParserAction)> = Vec::new();
        let mut k: usize = 0;
        while k < tokens.len()
            invariant
                overrides_view(out@) == reduce_overrides(base, lookaheads@.take(k as int), rule),
                self.wf(),
                mid.wf(),
                i < self.starts@.len(),
                self.starts@ == mid.starts@,
                self.starts@[i as int] == start,
                forall|j: int| 0 <= j < self.tables@.len() && j != i ==> self.tables@[j] == mid.tables@[j],
                self.tables@[i as int].spec_map() == with_all(base, lookaheads@.take(k as int), LR1ParserAction::Reduce(rule)),
                k <= tokens@.len(),
                strs(tokens@) == lookaheads@,
                mid.spec_maps() == before.spec_maps().insert(start, base),
            decreases tokens@.len() - k,
        {
            let ghost cur = self.tables@[i as int].spec_map();
            let ghost out_before = overrides_view(out@);
            let table = &mut self.tables[i];
            let previous = table.insert(tokens[k].clone(), LR1ParserAction::Reduce(rule));
            match previous {
                Some(a) => {
                    if a != LR1ParserAction::Reduce(rule) {
                        out.push((tokens[k].clone(), a));
                    }
                },
                None => {},
            }
            proof {
                assert(lookaheads@.take(k + 1).drop_last() =~= lookaheads@.take(k as int));
                assert(lookaheads@.take(k + 1).last() == tokens@[k as int]@);
                assert(overrides_view(out@) =~= reduce_overrides(base, lookaheads@.take(k + 1), rule));
                assert forall|j: int| 0 <= j < self.tables@.len() implies (#[trigger] self.tables@[j]).wf() by {
                    if j != i {
                        assert(self.tables@[j] == mid.tables@[j]);
                    }
                }
                assert(lookaheads@.take(k + 1) =~= lookaheads@.take(k as int).push(tokens@[k as int]@));
                let tok = tokens@[k as int]@;
                assert(tok == lookaheads@[k as int]);
                assert forall|t: Seq<char>| #[trigger] lookaheads@.take(k + 1).contains(t) == (lookaheads@.take(k as int).contains(t) || t == tok) by {
                    if lookaheads@.take(k + 1).contains(t) {
                        let q = choose|q: int| 0 <= q < k + 1 && #[trigger] lookaheads@.take(k + 1)[q] == t;
                        if q < k {
                            assert(lookaheads@.take(k as int)[q] == t);
                        }
                    }
                    if lookaheads@.take(k as int).contains(t) {
                        let q = choose|q: int| 0 <= q < k && #[trigger] lookaheads@.take(k as int)[q] == t;
                        assert(lookaheads@.take(k + 1)[q] == t);
                    }
                    if t == tok {
                        assert(lookaheads@.take(k + 1)[k as int] == t);
                    }
                }
                assert(self.tables@[i as int].spec_map() =~= with_all(base, lookaheads@.take(k + 1), LR1ParserAction::Reduce(rule)));
            }
            k += 1;
        }
        proof {
            assert(lookaheads@.take(k as int) =~= lookaheads@);
            self.lemma_same_starts(mid, i as int);
        }
        out
    }

    /// The states with actions are listed once each.
    pub proof fn lemma_starts(&self)
        requires
            self.wf(),
        ensures
            self.spec_starts().no_duplicates(),
            forall|s: usize| #[trigger] self.spec_maps().contains_key(s) <==> self.spec_starts().contains(s),
    {
        assert forall|i: int, j: int| 0 <= i < self.starts@.len() && 0 <= j < self.starts@.len() && i != j implies self.starts@[i]
            != self.starts@[j] by {
            if i > j {
                assert(self.starts@[j] != self.starts@[i]);
            }
        }
    }

    /// The states with actions and their actions, in the order in which the
    /// states got their first action.
    pub fn into_parts(self) -> (r: (Vec<usize>, Vec<ActionMap>))
        requires
            self.wf(),
        ensures
            r.0@ == self.spec_starts(),
            r.0@.len() == r.1@.len(),
            forall|i: int| 0 <= i < r.1@.len() ==> (#[trigger] r.1@[i]).wf(),
            forall|i: int| 0 <= i < r.1@.len() ==> self.spec_maps().contains_key(r.0@[i]) && (#[trigger] r.1@[i]).spec_map()
                == self.spec_maps()[r.0@[i]],
            forall|s: usize| #[trigger] self.spec_maps().contains_key(s) <==> r.0@.contains(s),
            r.0@.no_duplicates(),
    {
        proof {
            assert forall|i: int| 0 <= i < self.tables@.len() implies self.spec_maps().contains_key(self.starts@[i]) && (#[trigger] self.tables@[i]).spec_map()
                == self.spec_maps()[self.starts@[i]] by {
                self.lemma_at(i);
            }
        }
        (self.starts, self.tables)
    }

    /// A table that differs from `mid` only in the actions of position `i`
    /// maps that state to its new actions.
    proof fn lemma_same_starts(&self, mid: LR0GotoTable, i: int)
        requires
            self.wf(),
            mid.wf(),
            0 <= i < self.starts@.len(),
            self.starts@ == mid.starts@,
            self.tables@.len() == mid.tables@.len(),
            forall|j: int| 0 <= j < self.tables@.len() && j != i ==> self.tables@[j] == mid.tables@[j],
        ensures
            self.spec_maps() == mid.spec_maps().insert(self.starts@[i], self.tables@[i].spec_map()),
            self.spec_starts() == mid.spec_starts(),
    {
        assert forall|s: usize| #[trigger] self.spec_maps().contains_key(s) implies self.spec_maps()[s] == mid.spec_maps().insert(self.starts@[i], self.tables@[i].spec_map())[s] by {
            let k = choose|k: int| 0 <= k < self.starts@.len() && self.starts@[k] == s;
            self.lemma_at(k);
            mid.lemma_at(k);
            if k != i {
                assert(self.starts@[k] != self.starts@[i]) by {
                    if k < i {
                    } else {
                    }
                }
            }
        }
        assert(self.spec_maps() =~= mid.spec_maps().insert(self.starts@[i], self.tables@[i].spec_map()));
    }
}

} // verus!
