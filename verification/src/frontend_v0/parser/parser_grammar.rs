use crate::frontend_v0::parser::parser_raw_grammar::{
    line_rule_name, line_rule_production, raw_parser_grammar_text_is_valid, raw_parser_grammar_text_ok,
    read_raw_parser_grammar, ParserRawGrammarRule,
};
use crate::text::{from_chars, grammar_lines, strs, to_chars};
use vstd::arithmetic::power2::pow2;
use vstd::bits::{lemma_usize_pow2_no_overflow, lemma_usize_shl_is_mul, lemma_usize_shr_is_div};
use vstd::prelude::*;

verus! {

/// A parser grammar with every optional symbol resolved: each rule of the
/// grammar file stands here once for every choice of its optional symbols.
pub struct ParserGrammar {
    pub rules: Vec<ParserGrammarRule>,
}

pub struct ParserGrammarRule {
    pub name: String,
    pub production: Vec<String>,
}

/// The view of a rule: its name and the symbols of its production.
pub struct RuleView {
    pub name: Seq<char>,
    pub production: Seq<Seq<char>>,
}

impl ParserGrammarRule {
    pub open spec fn spec_view(&self) -> RuleView {
        RuleView { name: self.name@, production: strs(self.production@) }
    }
}

impl ParserGrammar {
    pub open spec fn spec_rules(&self) -> Seq<RuleView> {
        self.rules@.map_values(|r: ParserGrammarRule| r.spec_view())
    }
}

/// `s` is an optional symbol: it ends with a question mark.
pub open spec fn is_optional_symbol(s: Seq<char>) -> bool {
    s.len() > 0 && s.last() == '?'
}

/// The number of optional symbols in `production`.
pub open spec fn optional_count(production: Seq<Seq<char>>) -> nat
    decreases production.len(),
{
    if production.len() == 0 {
        0
    } else {
        optional_count(production.drop_first()) + if is_optional_symbol(production[0]) {
            1nat
        } else {
            0nat
        }
    }
}

/// Bit `k` of `mask` is set.
pub open spec fn bit_set(mask: nat, k: nat) -> bool {
    (mask / pow2(k)) % 2 == 1
}

/// The variant of `production` numbered `mask`: the `k`-th optional symbol,
/// counting from `first_optional`, is kept (without its question mark) when bit
/// `k` of `mask` is set and left out otherwise; the other symbols are kept.
pub open spec fn production_variant_spec(production: Seq<Seq<char>>, mask: nat, first_optional: nat) -> Seq<
    Seq<char>,
>
    decreases production.len(),
{
    if production.len() == 0 {
        seq![]
    } else if is_optional_symbol(production[0]) {
        (if bit_set(mask, first_optional) {
            seq![production[0].drop_last()]
        } else {
            seq![]
        }) + production_variant_spec(production.drop_first(), mask, first_optional + 1)
    } else {
        seq![production[0]] + production_variant_spec(production.drop_first(), mask, first_optional)
    }
}

/// The rules that a rule of the grammar file stands for: one for each
/// number below 2 to the power of its count of optional symbols, in order.
pub open spec fn rule_variants(name: Seq<char>, production: Seq<Seq<char>>) -> Seq<RuleView> {
    Seq::new(
        pow2(optional_count(production)),
        |mask: int| RuleView { name, production: production_variant_spec(production, mask as nat, 0) },
    )
}

proof fn lemma_variant_step(production: Seq<Seq<char>>, j: int, mask: nat, k: nat)
    requires
        0 <= j < production.len(),
    ensures
        production_variant_spec(production.skip(j), mask, k) == if is_optional_symbol(production[j]) {
            (if bit_set(mask, k) {
                seq![production[j].drop_last()]
            } else {
                seq![]
            }) + production_variant_spec(production.skip(j + 1), mask, k + 1)
        } else {
            seq![production[j]] + production_variant_spec(production.skip(j + 1), mask, k)
        },
{
    assert(production.skip(j).drop_first() =~= production.skip(j + 1));
    assert(production.skip(j)[0] == production[j]);
}

proof fn lemma_optional_count_step(production: Seq<Seq<char>>, j: int)
    requires
        0 <= j < production.len(),
    ensures
        optional_count(production.skip(j)) == optional_count(production.skip(j + 1)) + if is_optional_symbol(
            production[j],
        ) {
            1nat
        } else {
            0nat
        },
{
    assert(production.skip(j).drop_first() =~= production.skip(j + 1));
    assert(production.skip(j)[0] == production[j]);
}

/// Whether a symbol ends with a question mark.
fn ends_with_question_mark(s: &String) -> (r: bool)
    ensures
        r == is_optional_symbol(s@),
{
    let chars = to_chars(s.as_str());
    chars.len() > 0 && chars[chars.len() - 1] == '?'
}

/// The symbol without its last character.
fn strip_last_char(s: &String) -> (r: String)
    requires
        s@.len() > 0,
    ensures
        r@ == s@.drop_last(),
{
    let chars = to_chars(s.as_str());
    from_chars(&chars.as_slice()[0..chars.len() - 1])
}

/// Counts the optional symbols of a production.
fn count_optionals(production: &Vec<String>) -> (r: usize)
    ensures
        r == optional_count(strs(production@)),
{
    let ghost p = strs(production@);
    let mut count: usize = 0;
    let mut j = production.len();
    assert(p.skip(j as int) =~= Seq::<Seq<char>>::empty());
    while j > 0
        invariant
            p == strs(production@),
            j <= production@.len(),
            count == optional_count(p.skip(j as int)),
            count <= production@.len() - j,
        decreases j,
    {
        j -= 1;
        proof {
            lemma_optional_count_step(p, j as int);
        }
        if ends_with_question_mark(&production[j]) {
            assert(count + 1 <= production.len());
            count += 1;
        }
    }
    assert(p.skip(0) =~= p);
    count
}

/// The bit test of the variant loop agrees with `bit_set`.
proof fn lemma_bit_test(mask: usize, k: usize)
    requires
        k < usize::BITS,
    ensures
        ((mask & (1usize << k)) > 0) == bit_set(mask as nat, k as nat),
{
    assert(((mask & (1usize << k)) > 0) == (((mask >> k) & 1usize) == 1usize)) by (bit_vector)
        requires
            k < usize::BITS,
    ;
    let sh = mask >> k;
    assert((sh & 1usize) == sh % 2) by (bit_vector);
    lemma_usize_shr_is_div(mask, k);
}

/// The rules that a rule of the grammar file stands for: one for each choice
/// of its optional symbols.
pub fn create_rule_variants(rule: ParserRawGrammarRule) -> (r: Vec<ParserGrammarRule>)
    requires
        optional_count(rule.spec_production()) < usize::BITS,
    ensures
        r@.map_values(|x: ParserGrammarRule| x.spec_view()) == rule_variants(
            rule.spec_name(),
            rule.spec_production(),
        ),
{
    let ghost p = rule.spec_production();
    let optionals = count_optionals(&rule.production);
    let total: usize = 1usize << optionals;
    proof {
        lemma_usize_pow2_no_overflow(optionals as nat);
        lemma_usize_shl_is_mul(1, optionals);
    }
    let mut variants: Vec<ParserGrammarRule> = Vec::new();
    let mut i: usize = 0;
    while i < total
        invariant
            p == rule.spec_production(),
            optionals == optional_count(p),
            optionals < usize::BITS,
            total == pow2(optionals as nat),
            i <= total,
            variants@.map_values(|x: ParserGrammarRule| x.spec_view()) == rule_variants(
                rule.spec_name(),
                p,
            ).take(i as int),
        decreases total - i,
    {
        let mut production_variant: Vec<String> = Vec::new();
        let mut optional_index: usize = 0;
        assert(p.skip(0) =~= p);
        assert(strs(production_variant@) =~= Seq::<Seq<char>>::empty());
        let mut j: usize = 0;
        while j < rule.production.len()
            invariant
                p == rule.spec_production(),
                optionals == optional_count(p),
                optionals < usize::BITS,
                j <= p.len(),
                optional_index + optional_count(p.skip(j as int)) == optionals,
                strs(production_variant@) + production_variant_spec(p.skip(j as int), i as nat, optional_index as nat)
                    == production_variant_spec(p, i as nat, 0),
            decreases p.len() - j,
        {
            proof {
                lemma_variant_step(p, j as int, i as nat, optional_index as nat);
                lemma_optional_count_step(p, j as int);
            }
            let item = &rule.production[j];
            let ghost before = strs(production_variant@);
            if ends_with_question_mark(item) {
                proof {
                    lemma_bit_test(i, optional_index);
                }
                if i & (1usize << optional_index) > 0 {
                    let stripped = strip_last_char(item);
                    production_variant.push(stripped);
                    assert(strs(production_variant@) =~= before + seq![p[j as int].drop_last()]);
                } else {
                    assert(strs(production_variant@) =~= before + seq![]);
                }
                optional_index += 1;
            } else {
                production_variant.push(item.clone());
                assert(strs(production_variant@) =~= before + seq![p[j as int]]);
            }
            j += 1;
        }
        assert(p.skip(p.len() as int) =~= Seq::<Seq<char>>::empty());
        assert(production_variant_spec(p.skip(p.len() as int), i as nat, optional_index as nat)
            == Seq::<Seq<char>>::empty());
        assert(strs(production_variant@) =~= production_variant_spec(p, i as nat, 0));
        let ghost before = variants@.map_values(|x: ParserGrammarRule| x.spec_view());
        let new_rule = ParserGrammarRule { name: rule.name.clone(), production: production_variant };
        assert(new_rule.spec_view() == rule_variants(rule.spec_name(), p)[i as int]);
        variants.push(new_rule);
        assert(variants@.map_values(|x: ParserGrammarRule| x.spec_view()) =~= before.push(
            new_rule.spec_view(),
        ));
        i += 1;
        assert(variants@.map_values(|x: ParserGrammarRule| x.spec_view()) =~= rule_variants(
            rule.spec_name(),
            p,
        ).take(i as int));
    }
    variants
}

/// The rules that the rule lines `lines` stand for, line after line.
pub open spec fn expand_rule_lines(lines: Seq<Seq<char>>) -> Seq<RuleView>
    decreases lines.len(),
{
    if lines.len() == 0 {
        seq![]
    } else {
        expand_rule_lines(lines.drop_last()) + rule_variants(
            line_rule_name(lines.last()),
            line_rule_production(lines.last()),
        )
    }
}

/// The grammar text can be read: every non-blank line is a rule, and no rule
/// has as many optional symbols as a `usize` has bits.
pub open spec fn parser_grammar_text_ok(text: Seq<char>) -> bool {
    &&& raw_parser_grammar_text_ok(text)
    &&& forall|i: int|
        0 <= i < grammar_lines(text).len() ==> optional_count(
            line_rule_production(#[trigger] grammar_lines(text)[i]),
        ) < usize::BITS
}

/// The grammar that the text of a parser grammar file describes.
pub open spec fn parser_grammar_of_text(text: Seq<char>) -> Seq<RuleView> {
    expand_rule_lines(grammar_lines(text))
}

/// Whether the text of a parser grammar file can be read.
pub fn parser_grammar_text_is_valid(text: &str) -> (r: bool)
    ensures
        r == parser_grammar_text_ok(text@),
{
    if !raw_parser_grammar_text_is_valid(text) {
        return false;
    }
    let raw = read_raw_parser_grammar(text);
    let mut i: usize = 0;
    while i < raw.rules.len()
        invariant
            raw_parser_grammar_text_ok(text@),
            raw.rules@.len() == grammar_lines(text@).len(),
            forall|j: int|
                0 <= j < raw.rules@.len() ==> (#[trigger] raw.rules@[j]).spec_production()
                    == line_rule_production(grammar_lines(text@)[j]),
            i <= raw.rules@.len(),
            forall|j: int|
                0 <= j < i ==> optional_count(line_rule_production(#[trigger] grammar_lines(text@)[j]))
                    < usize::BITS,
        decreases raw.rules@.len() - i,
    {
        let count = count_optionals(&raw.rules[i].production);
        assert(raw.rules@[i as int].spec_production() == line_rule_production(grammar_lines(text@)[i as int]));
        if count >= usize::BITS as usize {
            return false;
        }
        i += 1;
    }
    true
}

/// Reads a parser grammar from the text of its file, expanding each rule
/// into its variants.
pub fn read_parser_grammar(text: &str) -> (r: ParserGrammar)
    requires
        parser_grammar_text_ok(text@),
    ensures
        r.spec_rules() == parser_grammar_of_text(text@),
{
    let raw = read_raw_parser_grammar(text);
    let ghost lines = grammar_lines(text@);
    let mut raw_rules = raw.rules;
    let mut rules: Vec<ParserGrammarRule> = Vec::new();
    let n0 = raw_rules.len();
    let ghost n = n0 as nat;
    let mut taken: usize = 0;
    while raw_rules.len() > 0
        invariant
            parser_grammar_text_ok(text@),
            lines == grammar_lines(text@),
            n == lines.len(),
            n <= usize::MAX,
            taken + raw_rules@.len() == n,
            forall|j: int|
                0 <= j < raw_rules@.len() ==> {
                    &&& (#[trigger] raw_rules@[j]).spec_name() == line_rule_name(lines[taken + j])
                    &&& raw_rules@[j].spec_production() == line_rule_production(lines[taken + j])
                },
            rules@.map_values(|x: ParserGrammarRule| x.spec_view()) == expand_rule_lines(
                lines.take(taken as int),
            ),
        decreases raw_rules@.len(),
    {
        let ghost old_raw = raw_rules@;
        let raw_rule = raw_rules.remove(0);
        assert(raw_rule == old_raw[0]);
        assert(optional_count(line_rule_production(lines[taken as int])) < usize::BITS);
        let variants = create_rule_variants(raw_rule);
        let ghost before = rules@.map_values(|x: ParserGrammarRule| x.spec_view());
        let ghost vv = variants@.map_values(|x: ParserGrammarRule| x.spec_view());
        let mut variants = variants;
        let mut k: usize = 0;
        let vn0 = variants.len();
        let ghost vn = vn0 as nat;
        while variants.len() > 0
            invariant
                vv.len() == vn,
                vn <= usize::MAX,
                k + variants@.len() == vn,
                forall|j: int| 0 <= j < variants@.len() ==> (#[trigger] variants@[j]).spec_view() == vv[k + j],
                rules@.map_values(|x: ParserGrammarRule| x.spec_view()) == before + vv.take(k as int),
            decreases variants@.len(),
        {
            let ghost old_v = variants@;
            let v = variants.remove(0);
            assert(v.spec_view() == vv[k as int]);
            let ghost b2 = rules@.map_values(|x: ParserGrammarRule| x.spec_view());
            rules.push(v);
            assert(rules@.map_values(|x: ParserGrammarRule| x.spec_view()) =~= b2.push(vv[k as int]));
            k += 1;
            assert(before + vv.take(k as int) =~= (before + vv.take(k - 1)).push(vv[k - 1]));
            assert forall|j: int| 0 <= j < variants@.len() implies (#[trigger] variants@[j]).spec_view() == vv[k + j] by {
                assert(variants@[j] == old_v[j + 1]);
            }
        }
        assert(vv.take(vn as int) =~= vv);
        taken += 1;
        assert(lines.take(taken as int).drop_last() =~= lines.take(taken - 1));
        assert(lines.take(taken as int).last() == lines[taken - 1]);
        assert forall|j: int| 0 <= j < raw_rules@.len() implies {
            &&& (#[trigger] raw_rules@[j]).spec_name() == line_rule_name(lines[taken + j])
            &&& raw_rules@[j].spec_production() == line_rule_production(lines[taken + j])
        } by {
            assert(raw_rules@[j] == old_raw[j + 1]);
        }
    }
    assert(lines.take(n as int) =~= lines);
    ParserGrammar { rules }
}

} // verus!
