//! The rules of a lexer as written in its grammar file.
use crate::collections::stable_ordered_set::StableOrderedSet;
use crate::text::{
    char_vecs, from_chars, grammar_lines, has_rule_sides, read_grammar_lines, rule_sides, split_rule_sides, starts_with,
    strs,
};
use vstd::prelude::*;
use vstd::string::*;

verus! {

/// A lexer grammar as written in its file: one rule per line,
/// `name = expression`, with `#FALLBACK ` before the name of a rule that is
/// only tried when no other rule matches.
pub struct LexerRawGrammar {
    pub rules: Vec<LexerRawGrammarRule>,
}

pub struct LexerRawGrammarRule {
    pub name: String,
    pub expression: String,
    pub is_fallback: bool,
}

/// The mark of a fallback rule.
pub open spec fn fallback_modifier() -> Seq<char> {
    seq!['#', 'F', 'A', 'L', 'L', 'B', 'A', 'C', 'K', ' ']
}

/// The rule on `line`: its name, without the fallback mark, its expression,
/// and whether it is a fallback rule.
pub open spec fn line_lexer_rule(line: Seq<char>) -> (Seq<char>, Seq<char>, bool) {
    let left = rule_sides(line)[0];
    let fallback = left.len() >= 10 && left.take(10) == fallback_modifier();
    (if fallback { left.skip(10) } else { left }, rule_sides(line)[1], fallback)
}

/// The name, expression and fallback mark of each rule.
pub open spec fn raw_rule_views(v: Seq<LexerRawGrammarRule>) -> Seq<(Seq<char>, Seq<char>, bool)> {
    v.map_values(|r: LexerRawGrammarRule| (r.name@, r.expression@, r.is_fallback))
}

/// The rules of a lexer grammar text: name, expression and fallback mark.
pub open spec fn raw_rules_of(text: Seq<char>) -> Seq<(Seq<char>, Seq<char>, bool)> {
    grammar_lines(text).map_values(|l: Seq<char>| line_lexer_rule(l))
}

/// Every non-blank line of the grammar text has a right side.
pub open spec fn lexer_grammar_text_ok(text: Seq<char>) -> bool {
    forall|i: int| 0 <= i < grammar_lines(text).len() ==> has_rule_sides(#[trigger] grammar_lines(text)[i])
}

/// The names of the rules of a lexer grammar text, in order.
pub open spec fn lexer_rule_names(text: Seq<char>) -> Seq<Seq<char>> {
    grammar_lines(text).map_values(|l: Seq<char>| line_lexer_rule(l).0)
}

/// The alphabet of a lexer grammar: the names of its rules and the kind of
/// the token that ends the input, each once.
pub open spec fn lexer_alphabet(text: Seq<char>) -> Seq<Seq<char>> {
    StableOrderedSet::<String>::inserted(
        StableOrderedSet::<String>::inserted_all(Seq::empty(), lexer_rule_names(text)),
        seq!['E', 'O', 'F'],
    )
}

/// Whether every non-blank line of `text` is a rule with a right side.
pub fn lexer_grammar_text_is_valid(text: &str) -> (r: bool)
    ensures
        r == lexer_grammar_text_ok(text@),
{
    let lines = read_grammar_lines(text);
    let mut i: usize = 0;
    while i < lines.len()
        invariant
            char_vecs(lines@) == grammar_lines(text@),
            i <= lines@.len(),
            forall|j: int| 0 <= j < i ==> has_rule_sides(#[trigger] grammar_lines(text@)[j]),
        decreases lines@.len() - i,
    {
        let sides = split_rule_sides(&lines[i]);
        assert(grammar_lines(text@)[i as int] == lines@[i as int]@);
        if sides.len() < 2 {
            assert(char_vecs(sides@).len() == sides@.len());
            return false;
        }
        i += 1;
    }
    true
}

/// Reads the rules of a lexer grammar from the text of its file, and its
/// alphabet.
pub fn read_raw_lexer_grammar(text: &str) -> (r: (LexerRawGrammar, StableOrderedSet<String>))
    requires
        lexer_grammar_text_ok(text@),
    ensures
        r.0.rules@.len() == grammar_lines(text@).len(),
        forall|i: int|
            0 <= i < r.0.rules@.len() ==> {
                let rule = line_lexer_rule(grammar_lines(text@)[i]);
                &&& (#[trigger] r.0.rules@[i]).name@ == rule.0
                &&& r.0.rules@[i].expression@ == rule.1
                &&& r.0.rules@[i].is_fallback == rule.2
            },
        raw_rule_views(r.0.rules@) == raw_rules_of(text@),
        r.1.wf(),
        r.1@ == lexer_alphabet(text@),
{
    let lines = read_grammar_lines(text);
    let mut modifier: Vec<char> = Vec::new();
    modifier.push('#');
    modifier.push('F');
    modifier.push('A');
    modifier.push('L');
    modifier.push('L');
    modifier.push('B');
    modifier.push('A');
    modifier.push('C');
    modifier.push('K');
    modifier.push(' ');
    assert(modifier@ =~= fallback_modifier());
    let mut rules: Vec<LexerRawGrammarRule> = Vec::new();
    let mut alphabet: StableOrderedSet<String> = StableOrderedSet::new();
    let mut i: usize = 0;
    while i < lines.len()
        invariant
            lexer_grammar_text_ok(text@),
            char_vecs(lines@) == grammar_lines(text@),
            modifier@ == fallback_modifier(),
            i <= lines@.len(),
            rules@.len() == i,
            forall|j: int|
                0 <= j < i ==> {
                    let rule = line_lexer_rule(grammar_lines(text@)[j]);
                    &&& (#[trigger] rules@[j]).name@ == rule.0
                    &&& rules@[j].expression@ == rule.1
                    &&& rules@[j].is_fallback == rule.2
                },
            alphabet.wf(),
            alphabet@ == StableOrderedSet::<String>::inserted_all(Seq::empty(), lexer_rule_names(text@).take(i as int)),
        decreases lines@.len() - i,
    {
        let ghost line = grammar_lines(text@)[i as int];
        assert(line == lines@[i as int]@);
        assert(has_rule_sides(line));
        let sides = split_rule_sides(&lines[i]);
        assert(sides@[0]@ == rule_sides(line)[0]);
        assert(sides@[1]@ == rule_sides(line)[1]);
        let left = &sides[0];
        let is_fallback = starts_with(left, &modifier);
        let mut name_chars: Vec<char> = Vec::new();
        let start: usize = if is_fallback { 10 } else { 0 };
        let mut k: usize = start;
        while k < left.len()
            invariant
                start <= k <= left@.len(),
                name_chars@ == left@.subrange(start as int, k as int),
            decreases left@.len() - k,
        {
            name_chars.push(left[k]);
            k += 1;
            assert(name_chars@ =~= left@.subrange(start as int, k as int));
        }
        assert(left@.subrange(start as int, left@.len() as int) =~= left@.skip(start as int));
        let name = from_chars(name_chars.as_slice());
        let expression = from_chars(sides[1].as_slice());
        assert(name@ == line_lexer_rule(line).0) by {
            if is_fallback {
                assert(left@.take(10) =~= modifier@);
            } else {
                assert(left@ =~= left@.skip(0));
            }
        }
        alphabet.insert(name.clone());
        rules.push(LexerRawGrammarRule { name, expression, is_fallback });
        proof {
            assert(lexer_rule_names(text@).take(i + 1).drop_last() =~= lexer_rule_names(text@).take(i as int));
            assert(lexer_rule_names(text@).take(i + 1).last() == line_lexer_rule(line).0);
        }
        i += 1;
    }
    assert(lexer_rule_names(text@).take(i as int) =~= lexer_rule_names(text@));
    alphabet.insert(String::from_str("EOF"));
    proof {
        reveal_strlit("EOF");
        assert("EOF"@ =~= seq!['E', 'O', 'F']);
        assert(raw_rule_views(rules@) =~= raw_rules_of(text@));
    }
    (LexerRawGrammar { rules }, alphabet)
}

} // verus!
