//! The lexer: splits each line of a source text into the longest matches of
//! the rules of its grammar.
use crate::collections::stable_ordered_set::StableOrderedSet;
use crate::frontend_v0::errors::lexer_errors::LexerError;
use crate::frontend_v0::lexer::common::lexer::{Position, Token};
use crate::frontend_v0::lexer::common::lexer_raw_grammar::{
    lexer_alphabet, lexer_grammar_text_ok, read_raw_lexer_grammar, LexerRawGrammar,
};
use crate::frontend_v0::lexer::lexer_regex_grammar::{
    find_match, process_grammar, processed_rules, regex_find, regex_rule_views, all_compile, LexerRegexGrammar,
    LexerRegexGrammarRule,
};
use crate::text::{
    char_boundary, chars_for_bytes, count_leading_whitespace, from_chars, leading_whitespace, lemma_utf8_len_add,
    lemma_utf8_len_at_least, lemma_utf8_len_prefix, lines, lines_spec, slice_chars, to_chars, utf8_len,
};
use vstd::prelude::*;
use vstd::string::*;

verus! {

/// What a lexer does: turns the text of a file into tokens, with the pieces
/// of text that no rule matches as errors, each with where it starts.
pub trait Lexer {
    /// `file` can be split into tokens with positions that fit in a `usize`.
    spec fn can_tokenize(&self, file: Seq<char>) -> bool;

    fn tokenize(&self, filename: &String, file: &str) -> (r: (Vec<Token>, Vec<(LexerError, Position)>))
        requires
            self.can_tokenize(file@),
    ;
}

/// A token as the lexer describes it: its text, kind, line, column and
/// whether a fallback rule matched it.
pub struct TokenSpec {
    pub text: Seq<char>,
    pub kind: Seq<char>,
    pub line: nat,
    pub column: nat,
    pub fallback: bool,
}

pub open spec fn token_spec(t: Token) -> TokenSpec {
    TokenSpec {
        text: t.text@,
        kind: t.kind@,
        line: t.position.line as nat,
        column: t.position.column as nat,
        fallback: t.is_fallback,
    }
}

pub open spec fn token_specs(v: Seq<Token>) -> Seq<TokenSpec> {
    v.map_values(|t: Token| token_spec(t))
}

/// An error as the lexer describes it: the characters no rule matched, and
/// the line and column where they start.
pub open spec fn error_spec(e: (LexerError, Position)) -> (Seq<char>, nat, nat) {
    match e.0 {
        LexerError::UnknownCharSequence { sequence } => (sequence@, e.1.line as nat, e.1.column as nat),
    }
}

pub open spec fn error_specs(v: Seq<(LexerError, Position)>) -> Seq<(Seq<char>, nat, nat)> {
    v.map_values(|e: (LexerError, Position)| error_spec(e))
}

/// The rule that matches most of `hay` among the first `k` rules, the first
/// of them on a tie, and the end of its match; a match counts when its
/// length is above the end of the best one before it.
pub open spec fn match_fold(rules: Seq<(Seq<char>, Seq<char>)>, hay: Seq<char>, k: int) -> (Option<int>, nat)
    decreases k,
{
    if k <= 0 {
        (None, 0)
    } else {
        let prev = match_fold(rules, hay, k - 1);
        match regex_find(rules[k - 1].1, hay) {
            Some((s, e)) => if e - s > prev.1 {
                (Some(k - 1), e)
            } else {
                prev
            },
            None => prev,
        }
    }
}

/// The name a rule may not have: it stands for no match.
pub open spec fn empty_name() -> Seq<char> {
    seq!['E', 'M', 'P', 'T', 'Y']
}

/// The rule that matches at the start of `hay`: the best ordinary rule, or
/// else the best fallback rule; its name, the end of its match, and whether
/// it is a fallback rule.
pub open spec fn choose_rule(
    normal: Seq<(Seq<char>, Seq<char>)>,
    fallback: Seq<(Seq<char>, Seq<char>)>,
    hay: Seq<char>,
) -> Option<(Seq<char>, nat, bool)> {
    let (b1, m1) = match_fold(normal, hay, normal.len() as int);
    if b1 is Some && normal[b1->0].0 != empty_name() {
        Some((normal[b1->0].0, m1, false))
    } else {
        let (b2, m2) = match_fold(fallback, hay, fallback.len() as int);
        if b2 is Some && fallback[b2->0].0 != empty_name() {
            Some((fallback[b2->0].0, m2, true))
        } else {
            None
        }
    }
}

/// The state of the lexer within a line: the text left, the column, the
/// characters no rule matched since the last token and where they start, and
/// the tokens and errors so far.
pub struct LexState {
    pub rest: Seq<char>,
    pub column: nat,
    pub unexpected: Seq<char>,
    pub start: Option<(nat, nat)>,
    pub tokens: Seq<TokenSpec>,
    pub errors: Seq<(Seq<char>, nat, nat)>,
}

/// The error of the unexpected characters of `st`.
pub open spec fn unexpected_error(st: LexState) -> (Seq<char>, nat, nat) {
    let p = st.start->0;
    (st.unexpected, p.0, p.1)
}

/// The number of characters of the prefix of `s` with `b` bytes.
pub open spec fn chars_of_bytes(s: Seq<char>, b: nat) -> int {
    choose|k: int| 0 <= k <= s.len() && utf8_len(#[trigger] s.take(k)) == b
}

/// One step on line `line_no` (counted from zero): skip the whitespace, then
/// take the match of the best rule as a token, or the next character as an
/// unexpected one.
pub open spec fn lex_step(
    normal: Seq<(Seq<char>, Seq<char>)>,
    fallback: Seq<(Seq<char>, Seq<char>)>,
    line_no: nat,
    st: LexState,
) -> LexState {
    let ws = leading_whitespace(st.rest);
    let r1 = st.rest.skip(ws as int);
    let col = st.column + ws;
    if r1.len() == 0 {
        LexState { rest: r1, column: col, ..st }
    } else {
        match choose_rule(normal, fallback, r1) {
            None => LexState {
                rest: r1.drop_first(),
                column: col,
                unexpected: st.unexpected.push(r1[0]),
                start: if st.start is None {
                    Some((line_no + 1, col))
                } else {
                    st.start
                },
                tokens: st.tokens,
                errors: st.errors,
            },
            Some((name, e, fb)) => {
                let k = chars_of_bytes(r1, e);
                if 1 <= k <= r1.len() && utf8_len(r1.take(k)) == e {
                    LexState {
                        rest: r1.skip(k),
                        column: col + e,
                        unexpected: Seq::empty(),
                        start: None,
                        tokens: st.tokens.push(
                            TokenSpec { text: r1.take(k), kind: name, line: line_no + 1, column: col, fallback: fb },
                        ),
                        errors: if st.unexpected.len() > 0 {
                            st.errors.push(unexpected_error(st))
                        } else {
                            st.errors
                        },
                    }
                } else {
                    LexState { rest: Seq::empty(), ..st }
                }
            },
        }
    }
}

/// The steps on a line until no text is left, then the unexpected
/// characters at its end as an error.
pub open spec fn lex_line(
    normal: Seq<(Seq<char>, Seq<char>)>,
    fallback: Seq<(Seq<char>, Seq<char>)>,
    line_no: nat,
    st: LexState,
) -> LexState
    decreases st.rest.len(),
{
    if st.rest.len() == 0 {
        if st.unexpected.len() > 0 {
            LexState { errors: st.errors.push(unexpected_error(st)), ..st }
        } else {
            st
        }
    } else {
        let next = lex_step(normal, fallback, line_no, st);
        if next.rest.len() < st.rest.len() {
            lex_line(normal, fallback, line_no, next)
        } else {
            st
        }
    }
}

/// The tokens and errors of the first `k` lines.
pub open spec fn lex_lines(
    normal: Seq<(Seq<char>, Seq<char>)>,
    fallback: Seq<(Seq<char>, Seq<char>)>,
    lines: Seq<Seq<char>>,
    k: int,
) -> (Seq<TokenSpec>, Seq<(Seq<char>, nat, nat)>)
    decreases k,
{
    if k <= 0 {
        (Seq::empty(), Seq::empty())
    } else {
        let prev = lex_lines(normal, fallback, lines, k - 1);
        let end = lex_line(
            normal,
            fallback,
            (k - 1) as nat,
            LexState {
                rest: lines[k - 1],
                column: 0,
                unexpected: Seq::empty(),
                start: None,
                tokens: prev.0,
                errors: prev.1,
            },
        );
        (end.tokens, end.errors)
    }
}

/// The tokens of a text: those of its lines, then the token that ends the
/// input on the line after the last.
pub open spec fn tokenized(
    normal: Seq<(Seq<char>, Seq<char>)>,
    fallback: Seq<(Seq<char>, Seq<char>)>,
    file: Seq<char>,
) -> (Seq<TokenSpec>, Seq<(Seq<char>, nat, nat)>) {
    let lines = lines_spec(file);
    let body = lex_lines(normal, fallback, lines, lines.len() as int);
    (
        body.0.push(
            TokenSpec { text: Seq::empty(), kind: seq!['E', 'O', 'F'], line: lines.len() + 1, column: 0, fallback: false },
        ),
        body.1,
    )
}

/// Rule `k` of `rules` matches a non-empty part of `hay`.
pub open spec fn rule_matches(rules: Seq<(Seq<char>, Seq<char>)>, hay: Seq<char>, k: int) -> bool {
    match regex_find(rules[k].1, hay) {
        Some((s, e)) => s < e,
        None => false,
    }
}

/// What the search for the best rule among the first `k` rules gives: a
/// rule exactly when one of them matches a non-empty part, and then a rule
/// that does, with the end of its match.
proof fn lemma_match_fold(rules: Seq<(Seq<char>, Seq<char>)>, hay: Seq<char>, k: int)
    requires
        0 <= k <= rules.len(),
    ensures
        (match_fold(rules, hay, k).0 is Some) <==> exists|j: int| 0 <= j < k && #[trigger] rule_matches(rules, hay, j),
        match_fold(rules, hay, k).0 matches Some(b) ==> {
            &&& 0 <= b < k
            &&& rule_matches(rules, hay, b)
            &&& regex_find(rules[b].1, hay) matches Some((s, e)) && e == match_fold(rules, hay, k).1
        },
        match_fold(rules, hay, k).0 is None ==> match_fold(rules, hay, k).1 == 0,
    decreases k,
{
    if k > 0 {
        lemma_match_fold(rules, hay, k - 1);
        if rule_matches(rules, hay, k - 1) {
            assert(exists|j: int| 0 <= j < k && #[trigger] rule_matches(rules, hay, j));
        }
        if exists|j: int| 0 <= j < k - 1 && #[trigger] rule_matches(rules, hay, j) {
            let j = choose|j: int| 0 <= j < k - 1 && #[trigger] rule_matches(rules, hay, j);
            assert(0 <= j < k && rule_matches(rules, hay, j));
        }
        if exists|j: int| 0 <= j < k && #[trigger] rule_matches(rules, hay, j) {
            let j = choose|j: int| 0 <= j < k && #[trigger] rule_matches(rules, hay, j);
            if j < k - 1 {
                assert(exists|i: int| 0 <= i < k - 1 && #[trigger] rule_matches(rules, hay, i));
            }
        }
    }
}

/// Law of the search for the best rule: where every match starts at the
/// start of the text (the expressions are anchored), the rule found matches
/// at least as far as every other rule, and farther than every rule before
/// it: the longest match wins, the first rule on a tie.
pub proof fn law_longest_match_first_rule(rules: Seq<(Seq<char>, Seq<char>)>, hay: Seq<char>, k: int)
    requires
        0 <= k <= rules.len(),
        forall|j: int| 0 <= j < k ==> ((#[trigger] regex_find(rules[j].1, hay)) matches Some((s, e)) ==> s == 0),
    ensures
        match_fold(rules, hay, k).0 matches Some(b) ==> {
            &&& regex_find(rules[b].1, hay) matches Some((s, e)) && e == match_fold(rules, hay, k).1
            &&& forall|j: int|
                0 <= j < k ==> ((#[trigger] regex_find(rules[j].1, hay)) matches Some((s, e)) ==> e <= match_fold(rules, hay, k).1)
            &&& forall|j: int|
                0 <= j < b ==> ((#[trigger] regex_find(rules[j].1, hay)) matches Some((s, e)) ==> e < match_fold(rules, hay, k).1)
        },
        match_fold(rules, hay, k).0 is None ==> forall|j: int|
            0 <= j < k ==> ((#[trigger] regex_find(rules[j].1, hay)) matches Some((s, e)) ==> e == 0),
    decreases k,
{
    lemma_match_fold(rules, hay, k);
    if k > 0 {
        law_longest_match_first_rule(rules, hay, k - 1);
        lemma_match_fold(rules, hay, k - 1);
    }
}

/// Law of the choice of a rule: where the ordinary rules (none of them the
/// empty rule) match a non-empty part of the text, the token is made by an
/// ordinary rule that matches, up to the end of its match, and is not a
/// fallback token; a fallback token is made only where no ordinary rule
/// matches.
pub proof fn law_ordinary_rules_first(
    normal: Seq<(Seq<char>, Seq<char>)>,
    fallback: Seq<(Seq<char>, Seq<char>)>,
    hay: Seq<char>,
)
    requires
        forall|k: int| 0 <= k < normal.len() ==> (#[trigger] normal[k]).0 != empty_name(),
    ensures
        (exists|k: int| 0 <= k < normal.len() && #[trigger] rule_matches(normal, hay, k)) ==> {
            &&& choose_rule(normal, fallback, hay) matches Some((name, end, fb))
            &&& !fb
            &&& exists|k: int|
                0 <= k < normal.len() && #[trigger] rule_matches(normal, hay, k) && normal[k].0 == name
                    && (regex_find(normal[k].1, hay) matches Some((s, e)) && e == end)
        },
        choose_rule(normal, fallback, hay) matches Some((_, _, fb)) ==> (fb ==> forall|k: int|
            0 <= k < normal.len() ==> !#[trigger] rule_matches(normal, hay, k)),
        choose_rule(normal, fallback, hay) matches Some((name, end, fb)) ==> (fb ==> exists|k: int|
            0 <= k < fallback.len() && #[trigger] rule_matches(fallback, hay, k) && fallback[k].0 == name
                && (regex_find(fallback[k].1, hay) matches Some((s, e)) && e == end)),
{
    lemma_match_fold(normal, hay, normal.len() as int);
    lemma_match_fold(fallback, hay, fallback.len() as int);
    let (b1, m1) = match_fold(normal, hay, normal.len() as int);
    if b1 is Some {
        let b = b1->0;
        assert(normal[b].0 != empty_name());
        assert(rule_matches(normal, hay, b));
    }
    let (b2, m2) = match_fold(fallback, hay, fallback.len() as int);
    if b2 is Some {
        let b = b2->0;
        assert(rule_matches(fallback, hay, b));
    }
}

/// Law of a step of the lexer: a token that the step adds, at the text left
/// after the whitespace, has the kind of an ordinary rule that matches there,
/// and is no fallback token, wherever an ordinary rule matches; it is a
/// fallback token only where none does, and then has the kind of a fallback
/// rule that matches.
pub proof fn law_step_token_kind(
    normal: Seq<(Seq<char>, Seq<char>)>,
    fallback: Seq<(Seq<char>, Seq<char>)>,
    line_no: nat,
    st: LexState,
)
    requires
        forall|k: int| 0 <= k < normal.len() ==> (#[trigger] normal[k]).0 != empty_name(),
        lex_step(normal, fallback, line_no, st).tokens.len() > st.tokens.len(),
    ensures
        ({
            let r1 = st.rest.skip(leading_whitespace(st.rest) as int);
            let t = lex_step(normal, fallback, line_no, st).tokens.last();
            &&& (exists|k: int| 0 <= k < normal.len() && #[trigger] rule_matches(normal, r1, k)) ==> !t.fallback
                && exists|k: int| 0 <= k < normal.len() && #[trigger] rule_matches(normal, r1, k) && normal[k].0 == t.kind
            &&& t.fallback ==> (forall|k: int| 0 <= k < normal.len() ==> !#[trigger] rule_matches(normal, r1, k))
                && exists|k: int| 0 <= k < fallback.len() && #[trigger] rule_matches(fallback, r1, k) && fallback[k].0 == t.kind
        }),
{
    let r1 = st.rest.skip(leading_whitespace(st.rest) as int);
    law_ordinary_rules_first(normal, fallback, r1);
}

/// Law of the lexer: the tokens of a file end with one token of kind `EOF`
/// and no text, on the line after the last one.
pub proof fn law_tokens_end_with_eof(
    normal: Seq<(Seq<char>, Seq<char>)>,
    fallback: Seq<(Seq<char>, Seq<char>)>,
    file: Seq<char>,
)
    ensures
        tokenized(normal, fallback, file).0.len() >= 1,
        tokenized(normal, fallback, file).0.last().kind == "EOF"@,
        tokenized(normal, fallback, file).0.last().text == Seq::<char>::empty(),
        tokenized(normal, fallback, file).0.last().line == lines_spec(file).len() + 1,
{
    reveal_strlit("EOF");
    assert("EOF"@ =~= seq!['E', 'O', 'F']);
}

/// A lexer made of the rules of a grammar, with its alphabet.
pub struct RegexLexer {
    grammar: LexerRegexGrammar,
    alphabet: StableOrderedSet<String>,
}

impl RegexLexer {
    /// The kinds of the tokens: the names of the rules and the end of input.
    pub closed spec fn spec_alphabet(&self) -> StableOrderedSet<String> {
        self.alphabet
    }

    pub fn alphabet(&self) -> (r: &StableOrderedSet<String>)
        ensures
            *r == self.spec_alphabet(),
    {
        &self.alphabet
    }

    /// The names and patterns of the ordinary rules.
    pub closed spec fn spec_rules(&self) -> Seq<(Seq<char>, Seq<char>)> {
        regex_rule_views(self.grammar.rules@)
    }

    /// The names and patterns of the fallback rules.
    pub closed spec fn spec_fallback_rules(&self) -> Seq<(Seq<char>, Seq<char>)> {
        regex_rule_views(self.grammar.fallback_rules@)
    }

    /// The best rule of `rules` for `hay`, its index and the end of its match.
    fn match_rules(hay: &String, rules: &Vec<LexerRegexGrammarRule>) -> (r: (Option<usize>, usize))
        ensures
            (match r.0 {
                Some(i) => Some(i as int),
                None => None,
            }, r.1 as nat) == match_fold(regex_rule_views(rules@), hay@, rules@.len() as int),
            r.0 matches Some(i) ==> i < rules@.len() && r.1 >= 1 && char_boundary(hay@, r.1 as nat),
    {
        let ghost views = regex_rule_views(rules@);
        let mut best: Option<usize> = None;
        let mut max_len: usize = 0;
        let mut i: usize = 0;
        while i < rules.len()
            invariant
                i <= rules@.len(),
                views == regex_rule_views(rules@),
                (match best {
                    Some(b) => Some(b as int),
                    None => None,
                }, max_len as nat) == match_fold(views, hay@, i as int),
                best matches Some(b) ==> b < i && max_len >= 1 && char_boundary(hay@, max_len as nat),
            decreases rules@.len() - i,
        {
            assert(views[i as int].1 == rules@[i as int].spec_pattern());
            match find_match(&rules[i], hay.as_str()) {
                Some((s, e)) => {
                    if e - s > max_len {
                        best = Some(i);
                        max_len = e;
                    }
                },
                None => {},
            }
            i += 1;
        }
        (best, max_len)
    }

    /// The rule for `hay`: its name, the end of its match and whether it is a
    /// fallback rule.
    fn pick_rule(&self, hay: &String) -> (r: Option<(String, usize, bool)>)
        ensures
            match r {
                Some((name, e, fb)) => {
                    &&& choose_rule(self.spec_rules(), self.spec_fallback_rules(), hay@) == Some((name@, e as nat, fb))
                    &&& e >= 1
                    &&& char_boundary(hay@, e as nat)
                },
                None => choose_rule(self.spec_rules(), self.spec_fallback_rules(), hay@) is None,
            },
    {
        let empty = String::from_str("EMPTY");
        proof {
            reveal_strlit("EMPTY");
            assert(empty@ =~= empty_name());
        }
        let (b1, m1) = Self::match_rules(hay, &self.grammar.rules);
        match b1 {
            Some(i) => {
                let name = self.grammar.rules[i].name();
                assert(self.spec_rules()[i as int].0 == name@);
                if *name != empty {
                    return Some((name.clone(), m1, false));
                }
            },
            None => {},
        }
        let (b2, m2) = Self::match_rules(hay, &self.grammar.fallback_rules);
        match b2 {
            Some(i) => {
                let name = self.grammar.fallback_rules[i].name();
                assert(self.spec_fallback_rules()[i as int].0 == name@);
                if *name != empty {
                    return Some((name.clone(), m2, true));
                }
            },
            None => {},
        }
        None
    }
}

/// The bytes of a prefix of `line`: those of a shorter prefix and of the
/// characters after it.
proof fn lemma_prefix_bytes(line: Seq<char>, pos: int, j: int)
    requires
        0 <= pos <= line.len(),
        0 <= j <= line.len() - pos,
    ensures
        utf8_len(line.take(pos + j)) == utf8_len(line.take(pos)) + utf8_len(line.skip(pos).take(j)),
        utf8_len(line.take(pos + j)) <= utf8_len(line),
{
    assert(line.take(pos) + line.skip(pos).take(j) =~= line.take(pos + j));
    lemma_utf8_len_add(line.take(pos), line.skip(pos).take(j));
    assert(line.take(pos + j) + line.skip(pos + j) =~= line);
    lemma_utf8_len_add(line.take(pos + j), line.skip(pos + j));
}

/// Prefixes with the same number of bytes have the same length.
proof fn lemma_bytes_unique(s: Seq<char>, j: int, k: int)
    requires
        0 <= j <= s.len(),
        0 <= k <= s.len(),
        utf8_len(s.take(j)) == utf8_len(s.take(k)),
    ensures
        j == k,
{
    if j < k {
        crate::text::lemma_utf8_len_prefix(s, j, k);
    } else if k < j {
        crate::text::lemma_utf8_len_prefix(s, k, j);
    }
}

/// The lexer's view of a start position.
pub open spec fn start_view(p: Option<Position>) -> Option<(nat, nat)> {
    match p {
        Some(q) => Some((q.line as nat, q.column as nat)),
        None => None,
    }
}

impl RegexLexer {
    /// The state of a line at `pos` with the values the loop holds.
    closed spec fn line_state(
        line: Seq<char>,
        pos: int,
        column: usize,
        unexpected: Seq<char>,
        start: Option<Position>,
        tokens: Seq<Token>,
        errors: Seq<(LexerError, Position)>,
    ) -> LexState {
        LexState {
            rest: line.skip(pos),
            column: column as nat,
            unexpected,
            start: start_view(start),
            tokens: token_specs(tokens),
            errors: error_specs(errors),
        }
    }

    /// Lexes line `line_no` (counted from zero), adding its tokens and errors.
    fn lex_line_into(
        &self,
        filename: &String,
        line: &Vec<char>,
        line_no: usize,
        tokens: &mut Vec<Token>,
        errors: &mut Vec<(LexerError, Position)>,
    )
        requires
            utf8_len(line@) <= usize::MAX,
            line_no < usize::MAX,
            forall|i: int| 0 <= i < old(tokens)@.len() ==> (#[trigger] old(tokens)@[i]).position.filename == *filename,
            forall|i: int| 0 <= i < old(errors)@.len() ==> (#[trigger] old(errors)@[i]).1.filename == *filename,
        ensures
            forall|i: int| 0 <= i < final(tokens)@.len() ==> (#[trigger] final(tokens)@[i]).position.filename == *filename,
            forall|i: int| 0 <= i < final(errors)@.len() ==> (#[trigger] final(errors)@[i]).1.filename == *filename,
            ({
                let end = lex_line(
                    self.spec_rules(),
                    self.spec_fallback_rules(),
                    line_no as nat,
                    LexState {
                        rest: line@,
                        column: 0,
                        unexpected: Seq::empty(),
                        start: None,
                        tokens: token_specs(old(tokens)@),
                        errors: error_specs(old(errors)@),
                    },
                );
                &&& token_specs(final(tokens)@) == end.tokens
                &&& error_specs(final(errors)@) == end.errors
            }),
    {
        let ghost normal = self.spec_rules();
        let ghost fallback = self.spec_fallback_rules();
        let ghost init = LexState {
            rest: line@,
            column: 0,
            unexpected: Seq::empty(),
            start: None,
            tokens: token_specs(tokens@),
            errors: error_specs(errors@),
        };
        let ghost target = lex_line(normal, fallback, line_no as nat, init);
        let mut pos: usize = 0;
        let mut column: usize = 0;
        let mut unexpected: Vec<char> = Vec::new();
        let mut start: Option<Position> = None;
        proof {
            assert(line@.skip(0) =~= line@);
            assert(unexpected@ =~= Seq::<char>::empty());
            assert(Self::line_state(line@, 0, 0, unexpected@, start, tokens@, errors@) == init);
        }
        while pos < line.len()
            invariant
                normal == self.spec_rules(),
                fallback == self.spec_fallback_rules(),
                utf8_len(line@) <= usize::MAX,
                line_no < usize::MAX,
                pos <= line@.len(),
                column as nat <= utf8_len(line@.take(pos as int)),
                start is Some <==> unexpected@.len() > 0,
                start matches Some(p) ==> p.filename == *filename,
                forall|i: int| 0 <= i < tokens@.len() ==> (#[trigger] tokens@[i]).position.filename == *filename,
                forall|i: int| 0 <= i < errors@.len() ==> (#[trigger] errors@[i]).1.filename == *filename,
                lex_line(normal, fallback, line_no as nat, Self::line_state(line@, pos as int, column, unexpected@, start, tokens@, errors@)) == target,
            decreases line@.len() - pos,
        {
            let ghost cur = Self::line_state(line@, pos as int, column, unexpected@, start, tokens@, errors@);
            let rest = slice_chars(line, pos, line.len());
            proof {
                assert(rest@ =~= line@.skip(pos as int));
                crate::text::lemma_leading_whitespace_bound(rest@);
            }
            let ws = count_leading_whitespace(&rest);
            proof {
                lemma_prefix_bytes(line@, pos as int, ws as int);
                lemma_utf8_len_at_least(line@.skip(pos as int).take(ws as int));
            }
            column = column + ws;
            pos = pos + ws;
            proof {
                assert(line@.skip(pos as int) =~= rest@.skip(ws as int));
            }
            if pos < line.len() {
                let r1 = slice_chars(line, pos, line.len());
                let hay = from_chars(r1.as_slice());
                assert(r1@ =~= line@.skip(pos as int));
                let position = Position { filename: filename.clone(), line: line_no + 1, column };
                match self.pick_rule(&hay) {
                    None => {
                        let ghost before = unexpected@;
                        unexpected.push(line[pos]);
                        if start.is_none() {
                            start = Some(position);
                        }
                        proof {
                            lemma_prefix_bytes(line@, pos as int, 1);
                            assert(line@.skip(pos + 1) =~= r1@.drop_first());
                            assert(unexpected@ == before.push(r1@[0]));
                        }
                        pos = pos + 1;
                    },
                    Some((name, e, fb)) => {
                        let k = chars_for_bytes(&r1, e);
                        proof {
                            let k2 = chars_of_bytes(r1@, e as nat);
                            lemma_bytes_unique(r1@, k as int, k2);
                            if k == 0 {
                                assert(r1@.take(0) =~= Seq::<char>::empty());
                            }
                            lemma_prefix_bytes(line@, pos as int, k as int);
                        }
                        if unexpected.len() > 0 {
                            let sequence = from_chars(unexpected.as_slice());
                            let place = match start {
                                Some(p) => p,
                                None => position.clone(),
                            };
                            let ghost before = errors@;
                            errors.push((LexerError::UnknownCharSequence { sequence }, place));
                            proof {
                                assert(error_specs(errors@) =~= error_specs(before).push(unexpected_error(cur)));
                            }
                            unexpected = Vec::new();
                            start = None;
                        }
                        let text_chars = slice_chars(&r1, 0, k);
                        let text = from_chars(text_chars.as_slice());
                        let ghost before_tokens = tokens@;
                        tokens.push(Token { text, kind: name, position, is_fallback: fb });
                        proof {
                            assert(text_chars@ =~= r1@.take(k as int));
                            assert(token_specs(tokens@) =~= token_specs(before_tokens).push(
                                TokenSpec { text: r1@.take(k as int), kind: name@, line: (line_no + 1) as nat, column: column as nat, fallback: fb },
                            ));
                            assert(line@.skip(pos + k) =~= r1@.skip(k as int));
                            assert(unexpected@ =~= Seq::<char>::empty());
                        }
                        column = column + e;
                        pos = pos + k;
                    },
                }
            }
            proof {
                let next = lex_step(normal, fallback, line_no as nat, cur);
                assert(Self::line_state(line@, pos as int, column, unexpected@, start, tokens@, errors@) == next);
                assert(next.rest.len() < cur.rest.len());
            }
        }
        if unexpected.len() > 0 {
            let sequence = from_chars(unexpected.as_slice());
            match start {
                Some(p) => {
                    errors.push((LexerError::UnknownCharSequence { sequence }, p));
                },
                None => {},
            }
        }
        proof {
            assert(line@.skip(pos as int).len() == 0);
        }
    }
}

impl Lexer for RegexLexer {
    open spec fn can_tokenize(&self, file: Seq<char>) -> bool {
        &&& lines_spec(file).len() < usize::MAX
        &&& forall|i: int| 0 <= i < lines_spec(file).len() ==> utf8_len(#[trigger] lines_spec(file)[i]) <= usize::MAX
    }

    fn tokenize(&self, filename: &String, file: &str) -> (r: (Vec<Token>, Vec<(LexerError, Position)>))
        ensures
            (token_specs(r.0@), error_specs(r.1@)) == tokenized(self.spec_rules(), self.spec_fallback_rules(), file@),
            forall|i: int| 0 <= i < r.0@.len() ==> (#[trigger] r.0@[i]).position.filename == *filename,
            forall|i: int| 0 <= i < r.1@.len() ==> (#[trigger] r.1@[i]).1.filename == *filename,
    {
        let chars = to_chars(file);
        let all_lines = lines(&chars);
        let ghost ls = lines_spec(file@);
        proof {
            assert(all_lines@.len() == ls.len()) by {
                assert(all_lines@.map_values(|v: Vec<char>| v@).len() == all_lines@.len());
            }
        }
        let mut tokens: Vec<Token> = Vec::new();
        let mut errors: Vec<(LexerError, Position)> = Vec::new();
        let mut line_number: usize = 0;
        proof {
            assert(token_specs(tokens@) =~= Seq::<TokenSpec>::empty());
            assert(error_specs(errors@) =~= Seq::<(Seq<char>, nat, nat)>::empty());
        }
        while line_number < all_lines.len()
            invariant
                ls == lines_spec(file@),
                self.can_tokenize(file@),
                all_lines@.map_values(|v: Vec<char>| v@) == ls,
                all_lines@.len() == ls.len(),
                line_number <= ls.len(),
                (token_specs(tokens@), error_specs(errors@)) == lex_lines(
                    self.spec_rules(),
                    self.spec_fallback_rules(),
                    ls,
                    line_number as int,
                ),
                forall|i: int| 0 <= i < tokens@.len() ==> (#[trigger] tokens@[i]).position.filename == *filename,
                forall|i: int| 0 <= i < errors@.len() ==> (#[trigger] errors@[i]).1.filename == *filename,
            decreases ls.len() - line_number,
        {
            proof {
                assert(all_lines@[line_number as int]@ == ls[line_number as int]);
            }
            self.lex_line_into(filename, &all_lines[line_number], line_number, &mut tokens, &mut errors);
            line_number += 1;
        }
        let ghost before = tokens@;
        let eof_text = String::new();
        let eof_kind = String::from_str("EOF");
        proof {
            reveal_strlit("EOF");
            assert(eof_kind@ =~= seq!['E', 'O', 'F']);
            assert(eof_text@ =~= Seq::<char>::empty());
        }
        tokens.push(
            Token {
                text: eof_text,
                kind: eof_kind,
                position: Position { filename: filename.clone(), line: line_number + 1, column: 0 },
                is_fallback: false,
            },
        );
        proof {
            reveal_strlit("EOF");
            assert(token_specs(tokens@) =~= token_specs(before).push(
                TokenSpec { text: Seq::empty(), kind: seq!['E', 'O', 'F'], line: (ls.len() + 1) as nat, column: 0, fallback: false },
            ));
        }
        (tokens, errors)
    }
}

/// A lexer for the grammar written in `grammar_text`; `None` when `regex`
/// refuses one of its expressions.
pub fn create_regex_lexer_from_grammar(grammar_text: &str) -> (r: Option<RegexLexer>)
    requires
        lexer_grammar_text_ok(grammar_text@),
    ensures
        ({
            let raw = crate::frontend_v0::lexer::common::lexer_raw_grammar::raw_rules_of(grammar_text@);
            &&& r is Some == all_compile(raw)
            &&& r matches Some(l) ==> {
                &&& l.spec_rules() == processed_rules(raw, false)
                &&& l.spec_fallback_rules() == processed_rules(raw, true)
                &&& l.spec_alphabet().wf()
                &&& l.spec_alphabet()@ == lexer_alphabet(grammar_text@)
            }
        }),
{
    let (grammar, alphabet) = read_raw_lexer_grammar(grammar_text);
    match process_grammar(grammar) {
        Some(g) => Some(RegexLexer { grammar: g, alphabet }),
        None => None,
    }
}

} // verus!
