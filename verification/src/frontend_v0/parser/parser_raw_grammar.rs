use crate::text::{
    char_vecs, from_chars, grammar_lines, has_rule_sides, read_grammar_lines, rule_sides, split_chars,
    split_rule_sides, split_spec, strs,
};
use vstd::prelude::*;

verus! {

/// A parser grammar as written in its file: one rule per line,
/// `name = symbol symbol ...`, optional symbols marked with a trailing `?`.
pub struct ParserRawGrammar {
    pub rules: Vec<ParserRawGrammarRule>,
}

pub struct ParserRawGrammarRule {
    pub name: String,
    pub production: Vec<String>,
}

impl ParserRawGrammarRule {
    pub open spec fn spec_name(&self) -> Seq<char> {
        self.name@
    }

    pub open spec fn spec_production(&self) -> Seq<Seq<char>> {
        strs(self.production@)
    }
}

/// Every non-blank line of the grammar text has a right side.
pub open spec fn raw_parser_grammar_text_ok(text: Seq<char>) -> bool {
    forall|i: int| 0 <= i < grammar_lines(text).len() ==> has_rule_sides(#[trigger] grammar_lines(text)[i])
}

/// The name of the rule on `line`.
pub open spec fn line_rule_name(line: Seq<char>) -> Seq<char> {
    rule_sides(line)[0]
}

/// The production of the rule on `line`: its right side split at spaces.
pub open spec fn line_rule_production(line: Seq<char>) -> Seq<Seq<char>> {
    split_spec(rule_sides(line)[1], seq![' '])
}

/// Whether every non-blank line of `text` is a rule with a right side.
pub fn raw_parser_grammar_text_is_valid(text: &str) -> (r: bool)
    ensures
        r == raw_parser_grammar_text_ok(text@),
{
    let lines = read_grammar_lines(text);
    let mut i: usize = 0;
    while i < lines.len()
        invariant
            char_vecs(lines@) == grammar_lines(text@),
            i <= lines@.len(),
            forall|j: int| 0 <= j < i ==> has_rule_sides(#[trigger] grammar_lines(text@)[j]),
        decreases lines@.len() - i,
    {
        let sides = split_rule_sides(&lines[i]);
        assert(grammar_lines(text@)[i as int] == lines@[i as int]@);
        if sides.len() < 2 {
            assert(char_vecs(sides@).len() == sides@.len());
            return false;
        }
        i += 1;
    }
    true
}

/// Reads the rules of a parser grammar from the text of its file.
pub fn read_raw_parser_grammar(text: &str) -> (r: ParserRawGrammar)
    requires
        raw_parser_grammar_text_ok(text@),
    ensures
        r.rules@.len() == grammar_lines(text@).len(),
        forall|i: int|
            0 <= i < r.rules@.len() ==> {
                &&& (#[trigger] r.rules@[i]).spec_name() == line_rule_name(grammar_lines(text@)[i])
                &&& r.rules@[i].spec_production() == line_rule_production(grammar_lines(text@)[i])
            },
{
    let lines = read_grammar_lines(text);
    let mut rules: Vec<ParserRawGrammarRule> = Vec::new();
    let mut space: Vec<char> = Vec::new();
    space.push(' ');
    assert(space@ =~= seq![' ']);
    let mut i: usize = 0;
    while i < lines.len()
        invariant
            raw_parser_grammar_text_ok(text@),
            char_vecs(lines@) == grammar_lines(text@),
            space@ == seq![' '],
            i <= lines@.len(),
            rules@.len() == i,
            forall|j: int|
                0 <= j < i ==> {
                    &&& (#[trigger] rules@[j]).spec_name() == line_rule_name(grammar_lines(text@)[j])
                    &&& rules@[j].spec_production() == line_rule_production(grammar_lines(text@)[j])
                },
        decreases lines@.len() - i,
    {
        let ghost line = grammar_lines(text@)[i as int];
        assert(line == lines@[i as int]@);
        assert(has_rule_sides(line));
        let sides = split_rule_sides(&lines[i]);
        assert(sides@[0]@ == rule_sides(line)[0]);
        assert(sides@[1]@ == rule_sides(line)[1]);
        let name = from_chars(sides[0].as_slice());
        let pieces = split_chars(&sides[1], &space);
        let mut production: Vec<String> = Vec::new();
        let mut k: usize = 0;
        while k < pieces.len()
            invariant
                k <= pieces@.len(),
                strs(production@) == char_vecs(pieces@).take(k as int),
            decreases pieces@.len() - k,
        {
            let sym = from_chars(pieces[k].as_slice());
            let ghost before = strs(production@);
            production.push(sym);
            assert(strs(production@) =~= before.push(sym@));
            assert(sym@ == char_vecs(pieces@)[k as int]);
            k += 1;
            assert(strs(production@) =~= char_vecs(pieces@).take(k as int));
        }
        assert(char_vecs(pieces@).take(pieces@.len() as int) =~= char_vecs(pieces@));
        rules.push(ParserRawGrammarRule { name, production });
        i += 1;
    }
    ParserRawGrammar { rules }
}

} // verus!
