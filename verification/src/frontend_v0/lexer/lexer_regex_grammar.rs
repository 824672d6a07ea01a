//! The rules of a lexer with their expressions compiled by `regex`.
use crate::frontend_v0::lexer::common::lexer_raw_grammar::{raw_rule_views, LexerRawGrammar, LexerRawGrammarRule};
use crate::text::char_boundary;
use vstd::prelude::*;
use vstd::string::*;

verus! {

/// `regex::Regex`, a compiled regular expression.
#[verifier::external_type_specification]
#[verifier::external_body]
pub struct ExRegex(regex::Regex);

/// Whether `regex` compiles `pattern`: it refuses bad syntax and patterns
/// over its size limits.
pub uninterp spec fn regex_compiles(pattern: Seq<char>) -> bool;

/// The byte offsets of the start and the end of the first match of
/// `pattern` in `haystack`, if any.
pub uninterp spec fn regex_find(pattern: Seq<char>, haystack: Seq<char>) -> Option<(nat, nat)>;

/// The hexadecimal digit of `d`, below 16, in lower case.
pub open spec fn hex_digit(d: nat) -> char {
    if d < 10 {
        (48 + d) as char
    } else {
        (87 + d) as char
    }
}

/// `n` in hexadecimal, lower case, without leading zeros.
pub open spec fn hex_text(n: nat) -> Seq<char>
    decreases n,
{
    if n < 16 {
        seq![hex_digit(n)]
    } else {
        hex_text(n / 16).push(hex_digit(n % 16))
    }
}

/// `char::escape_default` of `c`: tab, carriage return and line feed as
/// `\t`, `\r`, `\n`; quotes and the backslash behind a backslash; other
/// printable ASCII as it is; anything else as `\u{...}` with its code in
/// hexadecimal.
pub open spec fn char_escaped(c: char) -> Seq<char> {
    if c == '\t' {
        seq!['\\', 't']
    } else if c == '\r' {
        seq!['\\', 'r']
    } else if c == '\n' {
        seq!['\\', 'n']
    } else if c == '\'' || c == '"' || c == '\\' {
        seq!['\\', c]
    } else if ' ' <= c <= '~' {
        seq![c]
    } else {
        seq!['\\', 'u', '{'] + hex_text(c as nat) + seq!['}']
    }
}

/// The text of `str::escape_default` on `s`: each character escaped in turn.
pub open spec fn escaped_text(s: Seq<char>) -> Seq<char>
    decreases s.len(),
{
    if s.len() == 0 {
        Seq::empty()
    } else {
        escaped_text(s.drop_last()) + char_escaped(s.last())
    }
}

/// `s` has only printable ASCII characters other than quotes and the
/// backslash, which `escape_default` leaves as they are.
pub open spec fn plain_text(s: Seq<char>) -> bool {
    forall|i: int| 0 <= i < s.len() ==> ' ' <= #[trigger] s[i] <= '~' && s[i] != '"' && s[i] != '\'' && s[i] != '\\'
}

/// `regex::Regex::new`: the compiled pattern, or `None` when `regex` refuses
/// it.  Claimed: it succeeds exactly when `regex_compiles(pattern)`.
#[verifier::external_body]
fn compile_regex(pattern: &str) -> (r: Option<regex::Regex>)
    ensures
        r is Some == regex_compiles(pattern@),
{
    regex::Regex::new(pattern).ok()
}

/// `str::escape_default`, collected into a string.  Claimed: the result is
/// `escaped_text(s)`, each character escaped as `char::escape_default`
/// documents.
#[verifier::external_body]
fn escape_default_text(s: &str) -> (r: String)
    ensures
        r@ == escaped_text(s@),
{
    s.escape_default().to_string()
}

/// Law of escaping: a text of printable ASCII characters other than quotes
/// and the backslash is left as it is.
pub proof fn law_plain_text_unescaped(s: Seq<char>)
    requires
        plain_text(s),
    ensures
        escaped_text(s) == s,
    decreases s.len(),
{
    if s.len() > 0 {
        assert(plain_text(s.drop_last())) by {
            assert forall|i: int| 0 <= i < s.drop_last().len() implies ' ' <= #[trigger] s.drop_last()[i] <= '~'
                && s.drop_last()[i] != '"' && s.drop_last()[i] != '\'' && s.drop_last()[i] != '\\' by {
                assert(s.drop_last()[i] == s[i]);
            }
        }
        law_plain_text_unescaped(s.drop_last());
        let c = s.last();
        assert(s[s.len() - 1] == c);
        assert(char_escaped(c) == seq![c]);
        assert(s.drop_last() + seq![c] =~= s);
    }
}

/// A rule of the lexer: its name and its expression, compiled.
pub struct LexerRegexGrammarRule {
    name: String,
    pattern: String,
    regex: regex::Regex,
}

impl LexerRegexGrammarRule {
    /// The pattern that the rule's regular expression was compiled from.
    pub closed spec fn spec_pattern(&self) -> Seq<char> {
        self.pattern@
    }

    /// The rule's name.
    pub closed spec fn spec_name(&self) -> Seq<char> {
        self.name@
    }

    pub fn name(&self) -> (r: &String)
        ensures
            r@ == self.spec_name(),
    {
        &self.name
    }
}

/// `regex::Regex::find` with the rule's expression on `haystack`: the byte
/// offsets of the start and end of the first match.  Claimed: the result is
/// `regex_find` of the pattern that the rule's expression was compiled from
/// (the only way to make a rule) and `haystack`; the offsets are ordered and
/// fall between characters of `haystack` (the documented guarantees of
/// `Match::start` and `Match::end`).
#[verifier::external_body]
pub(crate) fn find_match(rule: &LexerRegexGrammarRule, haystack: &str) -> (r: Option<(usize, usize)>)
    ensures
        match r {
            Some((s, e)) => {
                &&& regex_find(rule.spec_pattern(), haystack@) == Some((s as nat, e as nat))
                &&& s <= e
                &&& char_boundary(haystack@, s as nat)
                &&& char_boundary(haystack@, e as nat)
            },
            None => regex_find(rule.spec_pattern(), haystack@) is None,
        },
{
    rule.regex.find(haystack).map(|m| (m.start(), m.end()))
}

/// The rules of a lexer: the ordinary ones, and those tried only when no
/// ordinary rule matches.
pub struct LexerRegexGrammar {
    pub rules: Vec<LexerRegexGrammarRule>,
    pub fallback_rules: Vec<LexerRegexGrammarRule>,
}

/// The name and pattern of each rule.
pub open spec fn regex_rule_views(v: Seq<LexerRegexGrammarRule>) -> Seq<(Seq<char>, Seq<char>)> {
    v.map_values(|r: LexerRegexGrammarRule| (r.spec_name(), r.spec_pattern()))
}

/// The pattern of an expression: anchored at the start, in a group.
pub open spec fn anchored(expression: Seq<char>) -> Seq<char> {
    "^("@ + expression + ")"@
}

/// The rules of `raw` that are fallback rules or not, as `fallback` says,
/// with their names escaped and their expressions anchored.
pub open spec fn processed_rules(raw: Seq<(Seq<char>, Seq<char>, bool)>, fallback: bool) -> Seq<(Seq<char>, Seq<char>)>
    decreases raw.len(),
{
    if raw.len() == 0 {
        Seq::empty()
    } else {
        let rest = processed_rules(raw.drop_last(), fallback);
        if raw.last().2 == fallback {
            rest.push((escaped_text(raw.last().0), anchored(raw.last().1)))
        } else {
            rest
        }
    }
}

/// Every expression of `raw` compiles.
pub open spec fn all_compile(raw: Seq<(Seq<char>, Seq<char>, bool)>) -> bool {
    forall|i: int| 0 <= i < raw.len() ==> regex_compiles(anchored((#[trigger] raw[i]).1))
}

/// The rule `rule` with its expression compiled, or `None` when `regex`
/// refuses it.
pub fn process_rule(rule: &LexerRawGrammarRule) -> (r: Option<LexerRegexGrammarRule>)
    ensures
        r is Some == regex_compiles(anchored(rule.expression@)),
        r matches Some(x) ==> x.spec_name() == escaped_text(rule.name@) && x.spec_pattern() == anchored(rule.expression@),
{
    let mut pattern = String::from_str("^(");
    pattern.append(rule.expression.as_str());
    pattern.append(")");
    proof {
        reveal_strlit("^(");
        reveal_strlit(")");
    }
    let name = escape_default_text(rule.name.as_str());
    match compile_regex(pattern.as_str()) {
        Some(regex) => Some(LexerRegexGrammarRule { name, pattern, regex }),
        None => None,
    }
}

/// The rules of `raw` that are fallback rules or not, compiled.
fn process_rules(raw: &Vec<LexerRawGrammarRule>, fallback: bool) -> (r: Option<Vec<LexerRegexGrammarRule>>)
    ensures
        r is Some <==> forall|i: int|
            0 <= i < raw@.len() && (#[trigger] raw@[i]).is_fallback == fallback ==> regex_compiles(
                anchored(raw@[i].expression@),
            ),
        r matches Some(v) ==> regex_rule_views(v@) == processed_rules(raw_rule_views(raw@), fallback),
{
    let mut out: Vec<LexerRegexGrammarRule> = Vec::new();
    let mut i: usize = 0;
    while i < raw.len()
        invariant
            i <= raw@.len(),
            forall|j: int|
                0 <= j < i && (#[trigger] raw@[j]).is_fallback == fallback ==> regex_compiles(anchored(raw@[j].expression@)),
            regex_rule_views(out@) == processed_rules(raw_rule_views(raw@.take(i as int)), fallback),
        decreases raw@.len() - i,
    {
        proof {
            assert(raw_rule_views(raw@.take(i + 1)).drop_last() =~= raw_rule_views(raw@.take(i as int)));
            assert(raw_rule_views(raw@.take(i + 1)).last() == (raw@[i as int].name@, raw@[i as int].expression@, raw@[i as int].is_fallback));
        }
        if raw[i].is_fallback == fallback {
            match process_rule(&raw[i]) {
                Some(rule) => {
                    let ghost before = regex_rule_views(out@);
                    out.push(rule);
                    assert(regex_rule_views(out@) =~= before.push((rule.spec_name(), rule.spec_pattern())));
                },
                None => {
                    return None;
                },
            }
        }
        i += 1;
    }
    assert(raw@.take(i as int) =~= raw@);
    Some(out)
}

/// Compiles the expressions of the rules of `grammar`; `None` when `regex`
/// refuses one of them.
pub fn process_grammar(grammar: LexerRawGrammar) -> (r: Option<LexerRegexGrammar>)
    ensures
        r is Some == all_compile(raw_rule_views(grammar.rules@)),
        r matches Some(g) ==> {
            &&& regex_rule_views(g.rules@) == processed_rules(raw_rule_views(grammar.rules@), false)
            &&& regex_rule_views(g.fallback_rules@) == processed_rules(raw_rule_views(grammar.rules@), true)
        },
{
    proof {
        let rv = raw_rule_views(grammar.rules@);
        assert forall|i: int| 0 <= i < rv.len() implies rv[i].1 == (#[trigger] grammar.rules@[i]).expression@ by {
        }
    }
    let rules = process_rules(&grammar.rules, false);
    let fallback_rules = process_rules(&grammar.rules, true);
    match (rules, fallback_rules) {
        (Some(rules), Some(fallback_rules)) => Some(LexerRegexGrammar { rules, fallback_rules }),
        _ => None,
    }
}

} // verus!
