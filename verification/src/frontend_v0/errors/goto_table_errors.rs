//! Conflicts in the goto table: two actions for one token in one state.
use crate::frontend_v0::parser::lr1_automata_builder::{lr1_views, LR1ParserItem, Lr1View};
use crate::frontend_v0::parser::parser_grammar::{ParserGrammarRule, RuleView};
use crate::text::{decimal, join, join_strings, push_decimal, strs};
use vstd::prelude::*;
use vstd::string::*;

verus! {

/// An item written as `source -> symbols, lookaheads`, with a bullet where
/// the marker is.
pub open spec fn item_text(v: Lr1View) -> Seq<char> {
    v.core.source + " -> "@ + join(v.core.production.insert(v.core.marker_pos as int, "•"@), " "@) + ", "@ + join(
        v.lookahead,
        ","@,
    )
}

/// The items of a state, one per line.
pub open spec fn state_text(items: Seq<Lr1View>) -> Seq<char> {
    join(items.map_values(|v: Lr1View| item_text(v)), "\n"@)
}

/// A rule written as in a grammar file: `name = symbols`.
pub open spec fn rule_text(r: RuleView) -> Seq<char> {
    r.name + " = "@ + join(r.production, " "@)
}

/// The items of `items` have their marker within their production.
pub open spec fn markers_fit(items: Seq<Lr1View>) -> bool {
    forall|i: int| 0 <= i < items.len() ==> (#[trigger] items[i]).core.marker_pos <= items[i].core.production.len()
}

impl LR1ParserItem {
    pub fn to_text(&self) -> (r: String)
        requires
            self.marker_pos <= self.production@.len(),
        ensures
            r@ == item_text(self@),
    {
        let ghost prod = strs(self.production@);
        let mut parts: Vec<String> = Vec::new();
        let mut i: usize = 0;
        while i < self.production.len()
            invariant
                i <= self.production@.len(),
                self.marker_pos <= self.production@.len(),
                prod == strs(self.production@),
                strs(parts@) == if i <= self.marker_pos {
                    prod.take(i as int)
                } else {
                    prod.take(i as int).insert(self.marker_pos as int, "•"@)
                },
            decreases self.production@.len() - i,
        {
            let ghost before = strs(parts@);
            if i == self.marker_pos {
                parts.push(String::from_str("•"));
            }
            parts.push(self.production[i].clone());
            proof {
                reveal_strlit("•");
                assert(prod[i as int] == self.production@[i as int]@);
                assert(prod.take(i + 1) =~= prod.take(i as int).push(prod[i as int]));
                if i < self.marker_pos {
                    assert(strs(parts@) =~= before.push(prod[i as int]));
                    assert(strs(parts@) =~= prod.take(i + 1));
                } else if i == self.marker_pos {
                    assert(strs(parts@) =~= before.push("•"@).push(prod[i as int]));
                    assert(strs(parts@) =~= prod.take(i + 1).insert(self.marker_pos as int, "•"@));
                } else {
                    assert(strs(parts@) =~= before.push(prod[i as int]));
                    assert(strs(parts@) =~= prod.take(i + 1).insert(self.marker_pos as int, "•"@));
                }
            }
            i += 1;
        }
        let ghost before_end = strs(parts@);
        if self.marker_pos == self.production.len() {
            parts.push(String::from_str("•"));
        }
        proof {
            reveal_strlit("•");
            if self.marker_pos == self.production@.len() {
                assert(strs(parts@) =~= before_end.push("•"@));
            }
            assert(prod.take(prod.len() as int) =~= prod);
            assert(strs(parts@) =~= prod.insert(self.marker_pos as int, "•"@));
        }
        let symbols = join_strings(&parts, " ");
        let lookaheads = join_strings(self.lookahead.iter(), ",");
        proof {
            self.lookahead.lemma_view();
            assert(strs(self.lookahead.spec_values()) =~= self.lookahead@);
        }
        let mut r = self.source.clone();
        r.append(" -> ");
        r.append(symbols.as_str());
        r.append(", ");
        r.append(lookaheads.as_str());
        r
    }
}

impl ParserGrammarRule {
    pub fn to_text(&self) -> (r: String)
        ensures
            r@ == rule_text(self.spec_view()),
    {
        let mut r = self.name.clone();
        r.append(" = ");
        let symbols = join_strings(&self.production, " ");
        r.append(symbols.as_str());
        r
    }
}

/// The items of a state, one per line.
pub fn format_state(state: &Vec<LR1ParserItem>) -> (r: String)
    requires
        markers_fit(lr1_views(state@)),
    ensures
        r@ == state_text(lr1_views(state@)),
{
    let mut lines: Vec<String> = Vec::new();
    let mut i: usize = 0;
    while i < state.len()
        invariant
            i <= state@.len(),
            markers_fit(lr1_views(state@)),
            strs(lines@) == lr1_views(state@).take(i as int).map_values(|v: Lr1View| item_text(v)),
        decreases state@.len() - i,
    {
        assert(lr1_views(state@)[i as int] == state@[i as int]@);
        let ghost before = strs(lines@);
        let line = state[i].to_text();
        lines.push(line);
        assert(strs(lines@) =~= before.push(item_text(state@[i as int]@)));
        assert(lr1_views(state@).take(i + 1) =~= lr1_views(state@).take(i as int).push(state@[i as int]@));
        assert(strs(lines@) =~= lr1_views(state@).take(i + 1).map_values(|v: Lr1View| item_text(v)));
        i += 1;
    }
    assert(lr1_views(state@).take(state@.len() as int) =~= lr1_views(state@));
    join_strings(&lines, "\n")
}

/// Two actions for one token of one state.
pub enum GotoTableError {
    ShiftShiftConflict {
        source_state_id: usize,
        token: String,
        primary_target_state_id: usize,
        final_target_state_id: usize,
        source_state: Vec<LR1ParserItem>,
        primary_target_state: Vec<LR1ParserItem>,
        final_target_state: Vec<LR1ParserItem>,
    },
    ShiftReduceConflict {
        source_state_id: usize,
        token: String,
        shift_target_state_id: usize,
        reduction_rule_id: usize,
        source_state: Vec<LR1ParserItem>,
        shift_target_state: Vec<LR1ParserItem>,
        reduction_rule: ParserGrammarRule,
    },
    ReduceReduceConflict {
        source_state_id: usize,
        token: String,
        primary_reduction_rule_id: usize,
        final_reduction_rule_id: usize,
        source_state: Vec<LR1ParserItem>,
        primary_reduction_rule: ParserGrammarRule,
        final_reduction_rule: ParserGrammarRule,
    },
}

/// `s -(t)> action(a)`.
pub open spec fn edge_text(s: usize, t: Seq<char>, action: Seq<char>, a: usize) -> Seq<char> {
    decimal(s as nat) + " -("@ + t + ")> "@ + action + "("@ + decimal(a as nat) + ")"@
}

/// The first line of the message of a conflict.
pub open spec fn base_message(e: GotoTableError) -> Seq<char> {
    match e {
        GotoTableError::ShiftShiftConflict { source_state_id: s, token: t, primary_target_state_id: p, final_target_state_id: f, .. } =>
            "Got shift-shift conflict "@ + edge_text(s, t@, "shift"@, p) + " to "@ + edge_text(s, t@, "shift"@, f),
        GotoTableError::ShiftReduceConflict { source_state_id: s, token: t, shift_target_state_id: p, reduction_rule_id: f, .. } =>
            "Got shift-reduce conflict "@ + edge_text(s, t@, "shift"@, p) + " to "@ + edge_text(s, t@, "reduce"@, f),
        GotoTableError::ReduceReduceConflict { source_state_id: s, token: t, primary_reduction_rule_id: p, final_reduction_rule_id: f, .. } =>
            "Got reduce-reduce conflict "@ + edge_text(s, t@, "reduce"@, p) + " to "@ + edge_text(s, t@, "reduce"@, f),
    }
}

/// `title(id:\nbody)\n`.
pub open spec fn section_text(title: Seq<char>, id: usize, body: Seq<char>) -> Seq<char> {
    title + "("@ + decimal(id as nat) + ":\n"@ + body + ")\n"@
}

/// The states and rules of a conflict, after its first line.
pub open spec fn additional_info(e: GotoTableError) -> Seq<char> {
    match e {
        GotoTableError::ShiftShiftConflict {
            source_state_id,
            primary_target_state_id,
            final_target_state_id,
            source_state,
            primary_target_state,
            final_target_state,
            ..
        } => "Source state ("@ + decimal(source_state_id as nat) + "):\n"@ + state_text(lr1_views(source_state@)) + "\n"@
            + section_text("Primary target state"@, primary_target_state_id, state_text(lr1_views(primary_target_state@)))
            + section_text("Final target state"@, final_target_state_id, state_text(lr1_views(final_target_state@))),
        GotoTableError::ShiftReduceConflict {
            source_state_id,
            shift_target_state_id,
            reduction_rule_id,
            source_state,
            shift_target_state,
            reduction_rule,
            ..
        } => "Source state ("@ + decimal(source_state_id as nat) + "):\n"@ + state_text(lr1_views(source_state@)) + "\n"@
            + section_text("Shift target state"@, shift_target_state_id, state_text(lr1_views(shift_target_state@)))
            + section_text("Reduction rule"@, reduction_rule_id, rule_text(reduction_rule.spec_view())),
        GotoTableError::ReduceReduceConflict {
            source_state_id,
            primary_reduction_rule_id,
            final_reduction_rule_id,
            source_state,
            primary_reduction_rule,
            final_reduction_rule,
            ..
        } => "Source state ("@ + decimal(source_state_id as nat) + "):\n"@ + state_text(lr1_views(source_state@)) + "\n"@
            + section_text("Primary reduction state"@, primary_reduction_rule_id, rule_text(primary_reduction_rule.spec_view()))
            + section_text("Final reduction rule"@, final_reduction_rule_id, rule_text(final_reduction_rule.spec_view())),
    }
}

/// The items of every state that a conflict holds have their markers within
/// their productions.
pub open spec fn conflict_ok(e: GotoTableError) -> bool {
    match e {
        GotoTableError::ShiftShiftConflict { source_state, primary_target_state, final_target_state, .. } =>
            markers_fit(lr1_views(source_state@)) && markers_fit(lr1_views(primary_target_state@)) && markers_fit(
                lr1_views(final_target_state@),
            ),
        GotoTableError::ShiftReduceConflict { source_state, shift_target_state, .. } => markers_fit(
            lr1_views(source_state@),
        ) && markers_fit(lr1_views(shift_target_state@)),
        GotoTableError::ReduceReduceConflict { source_state, .. } => markers_fit(lr1_views(source_state@)),
    }
}

fn push_edge(r: &mut String, s: usize, t: &String, action: &str, a: usize)
    ensures
        final(r)@ == old(r)@ + edge_text(s, t@, action@, a),
{
    push_decimal(r, s);
    r.append(" -(");
    r.append(t.as_str());
    r.append(")> ");
    r.append(action);
    r.append("(");
    push_decimal(r, a);
    r.append(")");
    proof {
        reveal_strlit(" -(");
        reveal_strlit(")> ");
        reveal_strlit("(");
        reveal_strlit(")");
        assert(final(r)@ =~= old(r)@ + edge_text(s, t@, action@, a));
    }
}

fn push_section(r: &mut String, title: &str, id: usize, body: &String)
    ensures
        final(r)@ == old(r)@ + section_text(title@, id, body@),
{
    r.append(title);
    r.append("(");
    push_decimal(r, id);
    r.append(":\n");
    r.append(body.as_str());
    r.append(")\n");
    proof {
        reveal_strlit("(");
        reveal_strlit(":\n");
        reveal_strlit(")\n");
        assert(final(r)@ =~= old(r)@ + section_text(title@, id, body@));
    }
}

fn source_header(id: usize, state: &Vec<LR1ParserItem>) -> (r: String)
    requires
        markers_fit(lr1_views(state@)),
    ensures
        r@ == "Source state ("@ + decimal(id as nat) + "):\n"@ + state_text(lr1_views(state@)) + "\n"@,
{
    let mut r = String::from_str("Source state (");
    push_decimal(&mut r, id);
    r.append("):\n");
    let body = format_state(state);
    r.append(body.as_str());
    r.append("\n");
    proof {
        reveal_strlit("Source state (");
        reveal_strlit("):\n");
        reveal_strlit("\n");
        assert(r@ =~= "Source state ("@ + decimal(id as nat) + "):\n"@ + state_text(lr1_views(state@)) + "\n"@);
    }
    r
}

impl GotoTableError {
    pub fn get_base_message(&self) -> (r: String)
        ensures
            r@ == base_message(*self),
    {
        match self {
            GotoTableError::ShiftShiftConflict { source_state_id, token, primary_target_state_id, final_target_state_id, .. } => {
                let mut r = String::from_str("Got shift-shift conflict ");
                push_edge(&mut r, *source_state_id, token, "shift", *primary_target_state_id);
                r.append(" to ");
                push_edge(&mut r, *source_state_id, token, "shift", *final_target_state_id);
                proof {
                    reveal_strlit("Got shift-shift conflict ");
                    reveal_strlit(" to ");
                    assert(r@ =~= base_message(*self));
                }
                r
            },
            GotoTableError::ShiftReduceConflict { source_state_id, token, shift_target_state_id, reduction_rule_id, .. } => {
                let mut r = String::from_str("Got shift-reduce conflict ");
                push_edge(&mut r, *source_state_id, token, "shift", *shift_target_state_id);
                r.append(" to ");
                push_edge(&mut r, *source_state_id, token, "reduce", *reduction_rule_id);
                proof {
                    reveal_strlit("Got shift-reduce conflict ");
                    reveal_strlit(" to ");
                    assert(r@ =~= base_message(*self));
                }
                r
            },
            GotoTableError::ReduceReduceConflict { source_state_id, token, primary_reduction_rule_id, final_reduction_rule_id, .. } => {
                let mut r = String::from_str("Got reduce-reduce conflict ");
                push_edge(&mut r, *source_state_id, token, "reduce", *primary_reduction_rule_id);
                r.append(" to ");
                push_edge(&mut r, *source_state_id, token, "reduce", *final_reduction_rule_id);
                proof {
                    reveal_strlit("Got reduce-reduce conflict ");
                    reveal_strlit(" to ");
                    assert(r@ =~= base_message(*self));
                }
                r
            },
        }
    }

    pub fn get_additional_info(&self) -> (r: String)
        requires
            conflict_ok(*self),
        ensures
            r@ == additional_info(*self),
    {
        match self {
            GotoTableError::ShiftShiftConflict {
                source_state_id,
                primary_target_state_id,
                final_target_state_id,
                source_state,
                primary_target_state,
                final_target_state,
                ..
            } => {
                let mut r = source_header(*source_state_id, source_state);
                let primary = format_state(primary_target_state);
                push_section(&mut r, "Primary target state", *primary_target_state_id, &primary);
                let last = format_state(final_target_state);
                push_section(&mut r, "Final target state", *final_target_state_id, &last);
                r
            },
            GotoTableError::ShiftReduceConflict {
                source_state_id,
                shift_target_state_id,
                reduction_rule_id,
                source_state,
                shift_target_state,
                reduction_rule,
                ..
            } => {
                let mut r = source_header(*source_state_id, source_state);
                let target = format_state(shift_target_state);
                push_section(&mut r, "Shift target state", *shift_target_state_id, &target);
                let rule = reduction_rule.to_text();
                push_section(&mut r, "Reduction rule", *reduction_rule_id, &rule);
                r
            },
            GotoTableError::ReduceReduceConflict {
                source_state_id,
                primary_reduction_rule_id,
                final_reduction_rule_id,
                source_state,
                primary_reduction_rule,
                final_reduction_rule,
                ..
            } => {
                let mut r = source_header(*source_state_id, source_state);
                let primary = primary_reduction_rule.to_text();
                push_section(&mut r, "Primary reduction state", *primary_reduction_rule_id, &primary);
                let last = final_reduction_rule.to_text();
                push_section(&mut r, "Final reduction rule", *final_reduction_rule_id, &last);
                r
            },
        }
    }

    /// The first line and, after a line break, the states and rules.
    pub fn get_message(&self) -> (r: String)
        requires
            conflict_ok(*self),
        ensures
            r@ == base_message(*self) + "\n"@ + additional_info(*self),
    {
        let mut r = self.get_base_message();
        r.append("\n");
        let info = self.get_additional_info();
        r.append(info.as_str());
        proof {
            reveal_strlit("\n");
        }
        r
    }
}

} // verus!
