//! The front end over one source file: the lexer splits its text into
//! tokens, the parser builds the syntax tree, and the builder makes the
//! abstract syntax tree of it.
use crate::frontend_v0::ast_builder::ast_spec::err_view;
use crate::frontend_v0::ast_builder::nodes::CodeNode;
use crate::frontend_v0::ast_builder::stmt_spec::ast_code;
use crate::frontend_v0::ast_builder::visitors::{code_result, AstBuilder};
use crate::frontend_v0::errors::ast_errors::{ast_error_message, AstBuilderError};
use crate::frontend_v0::errors::common::MessageFactory;
use crate::frontend_v0::errors::lexer_errors::{lexer_error_message, LexerError};
use crate::frontend_v0::lexer::common::lexer::{Position, Token};
use crate::frontend_v0::lexer::common::lexer_raw_grammar::{lexer_alphabet, lexer_grammar_text_ok, raw_rules_of};
use crate::frontend_v0::lexer::lexer_regex_grammar::{all_compile, processed_rules};
use crate::frontend_v0::lexer::regex_lexer::{
    create_regex_lexer_from_grammar, token_spec, token_specs, tokenized, Lexer, RegexLexer, TokenSpec,
};
use crate::frontend_v0::parser::automaton::{
    automaton_overrides, automaton_table, build_lr1_parser, has_empty_rule, table_overrides_view, TableOverride,
};
use crate::frontend_v0::parser::common::parser::{view_kind, NodeView};
use crate::frontend_v0::parser::lr1_parser::{
    error_view, errors_view, lemma_run_unique, parse_outcome, unexpected_token_message, LR1Parser, ParseConfig,
    ParserError,
};
use crate::frontend_v0::parser::parser_grammar::{parser_grammar_of_text, parser_grammar_text_ok};
use crate::text::{join, join_strings, strs};
use vstd::prelude::*;
use vstd::string::*;

verus! {

/// Why a source file has no abstract syntax tree.
pub enum FileAnalyzerError {
    IoError(std::io::Error),
    LexerErrors(Vec<LexerError>),
    ParserErrors(Vec<ParserError>),
    AstBuilderErrors(Vec<AstBuilderError>),
}

/// The messages of errors of the lexer.
pub open spec fn lexer_messages(es: Seq<LexerError>) -> Seq<Seq<char>>
    decreases es.len(),
{
    if es.len() == 0 {
        Seq::empty()
    } else {
        lexer_messages(es.drop_last()).push(lexer_error_message(es.last()))
    }
}

/// The message of an error of the parser.
pub open spec fn parser_error_message(e: ParserError) -> Seq<char> {
    unexpected_token_message(view_kind(error_view(e).token), error_view(e).position)
}

/// The messages of errors of the parser.
pub open spec fn parser_messages(es: Seq<ParserError>) -> Seq<Seq<char>>
    decreases es.len(),
{
    if es.len() == 0 {
        Seq::empty()
    } else {
        parser_messages(es.drop_last()).push(parser_error_message(es.last()))
    }
}

/// The messages of errors of the builder.
pub open spec fn ast_messages(es: Seq<AstBuilderError>) -> Seq<Seq<char>>
    decreases es.len(),
{
    if es.len() == 0 {
        Seq::empty()
    } else {
        ast_messages(es.drop_last()).push(ast_error_message(es.last()))
    }
}

/// The message of an error of the analyzer: the messages of its errors, one
/// per line; `None` for an I/O error, whose text the system gives.
pub open spec fn analyzer_error_message(e: FileAnalyzerError) -> Option<Seq<char>> {
    match e {
        FileAnalyzerError::IoError(_) => None,
        FileAnalyzerError::LexerErrors(es) => Some(join(lexer_messages(es@), "\n"@)),
        FileAnalyzerError::ParserErrors(es) => Some(join(parser_messages(es@), "\n"@)),
        FileAnalyzerError::AstBuilderErrors(es) => Some(join(ast_messages(es@), "\n"@)),
    }
}

/// The text of an I/O error as its `Display` writes it.  It comes from the
/// operating system, so nothing is stated of it.
#[verifier::external_body]
fn io_error_text(error: &std::io::Error) -> String {
    format!("{error}")
}

impl FileAnalyzerError {
    fn get_inner_message(&self) -> (r: String)
        ensures
            analyzer_error_message(*self) matches Some(m) ==> r@ == m,
    {
        match self {
            FileAnalyzerError::IoError(err) => io_error_text(err),
            FileAnalyzerError::LexerErrors(errors) => {
                let mut messages: Vec<String> = Vec::new();
                let mut i: usize = 0;
                while i < errors.len()
                    invariant
                        i <= errors@.len(),
                        strs(messages@) == lexer_messages(errors@.take(i as int)),
                    decreases errors@.len() - i,
                {
                    let m = errors[i].get_message();
                    let ghost before = messages@;
                    messages.push(m);
                    proof {
                        assert(errors@.take(i + 1).drop_last() =~= errors@.take(i as int));
                        assert(strs(messages@) =~= strs(before).push(m@));
                    }
                    i += 1;
                }
                proof {
                    assert(errors@.take(errors@.len() as int) =~= errors@);
                }
                join_strings(&messages, "\n")
            },
            FileAnalyzerError::ParserErrors(errors) => {
                let mut messages: Vec<String> = Vec::new();
                let mut i: usize = 0;
                while i < errors.len()
                    invariant
                        i <= errors@.len(),
                        strs(messages@) == parser_messages(errors@.take(i as int)),
                    decreases errors@.len() - i,
                {
                    let m = errors[i].get_message();
                    let ghost before = messages@;
                    messages.push(m);
                    proof {
                        assert(errors@.take(i + 1).drop_last() =~= errors@.take(i as int));
                        assert(strs(messages@) =~= strs(before).push(m@));
                    }
                    i += 1;
                }
                proof {
                    assert(errors@.take(errors@.len() as int) =~= errors@);
                }
                join_strings(&messages, "\n")
            },
            FileAnalyzerError::AstBuilderErrors(errors) => {
                let mut messages: Vec<String> = Vec::new();
                let mut i: usize = 0;
                while i < errors.len()
                    invariant
                        i <= errors@.len(),
                        strs(messages@) == ast_messages(errors@.take(i as int)),
                    decreases errors@.len() - i,
                {
                    let m = errors[i].get_message();
                    let ghost before = messages@;
                    messages.push(m);
                    proof {
                        assert(errors@.take(i + 1).drop_last() =~= errors@.take(i as int));
                        assert(strs(messages@) =~= strs(before).push(m@));
                    }
                    i += 1;
                }
                proof {
                    assert(errors@.take(errors@.len() as int) =~= errors@);
                }
                join_strings(&messages, "\n")
            },
        }
    }
}

impl MessageFactory for FileAnalyzerError {
    fn get_message(&self) -> (r: String)
        ensures
            analyzer_error_message(*self) matches Some(m) ==> r@ == m,
    {
        self.get_inner_message()
    }
}

/// The tokens without the comments, which the parser does not read.
pub open spec fn without_comments(ts: Seq<TokenSpec>) -> Seq<TokenSpec>
    decreases ts.len(),
{
    if ts.len() == 0 {
        Seq::empty()
    } else if ts.last().kind == "COMMENT"@ {
        without_comments(ts.drop_last())
    } else {
        without_comments(ts.drop_last()).push(ts.last())
    }
}

/// Law of `lex_file`: the tokens that the parser reads are those of the
/// lexer that are not comments, in their order.
pub proof fn law_no_comments(ts: Seq<TokenSpec>)
    ensures
        without_comments(ts) == ts.filter(|t: TokenSpec| t.kind != "COMMENT"@),
        forall|i: int| 0 <= i < without_comments(ts).len() ==> (#[trigger] without_comments(ts)[i]).kind != "COMMENT"@,
    decreases ts.len(),
{
    reveal(Seq::filter);
    if ts.len() > 0 {
        law_no_comments(ts.drop_last());
    }
    let f = ts.filter(|t: TokenSpec| t.kind != "COMMENT"@);
    assert forall|i: int| 0 <= i < f.len() implies (#[trigger] f[i]).kind != "COMMENT"@ by {
        ts.lemma_filter_pred(|t: TokenSpec| t.kind != "COMMENT"@, i);
    }
}

/// Where a run of `p` over `tokens` starts.
pub open spec fn run_start(p: LR1Parser, tokens: Seq<Token>) -> ParseConfig {
    ParseConfig {
        state: p.spec_state(),
        stack: p.spec_stack(),
        queue: tokens.map_values(|t: Token| NodeView::Terminal(t)),
        errors: Seq::empty(),
    }
}

/// The run of `p` over `tokens` ends.
pub open spec fn parse_ends(p: LR1Parser, tokens: Seq<Token>) -> bool {
    exists|fuel: nat| parse_outcome(p.spec_table(), p.spec_rules(), run_start(p, tokens), fuel) is Some
}

/// The tree and the final configuration of a run of `p` over `tokens` that
/// ends.
pub open spec fn parse_result(p: LR1Parser, tokens: Seq<Token>) -> (NodeView, ParseConfig) {
    let fuel = choose|fuel: nat| parse_outcome(p.spec_table(), p.spec_rules(), run_start(p, tokens), fuel) is Some;
    parse_outcome(p.spec_table(), p.spec_rules(), run_start(p, tokens), fuel)->0
}

/// The front end for one grammar of tokens and one grammar of the language.
pub struct FileAnalyzer {
    lexer: RegexLexer,
    parser: LR1Parser,
    ast_builder: AstBuilder,
}

impl FileAnalyzer {
    pub closed spec fn spec_lexer(&self) -> RegexLexer {
        self.lexer
    }

    pub closed spec fn spec_parser(&self) -> LR1Parser {
        self.parser
    }

    /// The entries that reductions overrode while the parser's table was
    /// filled in.
    pub fn overrides(&self) -> (r: &Vec<TableOverride>)
        ensures
            table_overrides_view(r@) == self.spec_parser().spec_overrides(),
    {
        self.parser.overrides()
    }

    /// The parser is well formed and ready to read a file.
    pub open spec fn wf(&self) -> bool {
        &&& self.spec_parser().wf()
        &&& self.spec_parser().spec_state() == 0
        &&& self.spec_parser().spec_stack() == Seq::<(usize, NodeView)>::empty()
    }

    /// The analyzer for the grammar of tokens written in `lexer_grammar` and
    /// the grammar of the language written in `parser_grammar`; `None` where
    /// `regex` refuses an expression of the first, or no automaton can be
    /// built for the second.
    pub fn new(lexer_grammar: &str, parser_grammar: &str) -> (r: Option<FileAnalyzer>)
        requires
            lexer_grammar_text_ok(lexer_grammar@),
            parser_grammar_text_ok(parser_grammar@),
            parser_grammar_of_text(parser_grammar@).len() > 0,
        ensures
            ({
                let raw = raw_rules_of(lexer_grammar@);
                let rules = parser_grammar_of_text(parser_grammar@);
                let alphabet = lexer_alphabet(lexer_grammar@);
                &&& !all_compile(raw) ==> r is None
                &&& all_compile(raw) && r is None ==> has_empty_rule(rules)
                &&& r matches Some(fa) ==> {
                    &&& fa.wf()
                    &&& fa.spec_lexer().spec_rules() == processed_rules(raw, false)
                    &&& fa.spec_lexer().spec_fallback_rules() == processed_rules(raw, true)
                    &&& fa.spec_lexer().spec_alphabet()@ == alphabet
                    &&& fa.spec_parser().spec_rules() == rules
                    &&& automaton_table(alphabet, rules, rules[0].name, fa.spec_parser().spec_table())
                    &&& automaton_overrides(
                        alphabet,
                        rules,
                        rules[0].name,
                        fa.spec_parser().spec_table(),
                        fa.spec_parser().spec_overrides(),
                    )
                }
            }),
    {
        let lexer = match create_regex_lexer_from_grammar(lexer_grammar) {
            Some(l) => l,
            None => return None,
        };
        let parser = match build_lr1_parser(lexer.alphabet(), parser_grammar) {
            Some(p) => p,
            None => return None,
        };
        Some(FileAnalyzer { lexer, parser, ast_builder: AstBuilder {} })
    }

    /// The tokens of a file that the parser reads: those of the lexer but the
    /// comments; or the errors of the lexer, without their positions.
    pub fn lex_file(&self, filename: &String, file_text: &str) -> (r: Result<Vec<Token>, FileAnalyzerError>)
        requires
            self.spec_lexer().can_tokenize(file_text@),
        ensures
            ({
                let out = tokenized(self.spec_lexer().spec_rules(), self.spec_lexer().spec_fallback_rules(), file_text@);
                &&& r is Err <==> out.1.len() > 0
                &&& r matches Err(e) ==> (e matches FileAnalyzerError::LexerErrors(es) && es@.len() == out.1.len()
                    && forall|i: int|
                    0 <= i < es@.len() ==> ((#[trigger] es@[i]) matches LexerError::UnknownCharSequence { sequence }
                        && sequence@ == out.1[i].0))
                &&& r matches Ok(ts) ==> token_specs(ts@) == without_comments(out.0) && forall|i: int|
                    0 <= i < ts@.len() ==> (#[trigger] ts@[i]).position.filename == *filename
            }),
    {
        let (tokens, errors) = self.lexer.tokenize(filename, file_text);
        if errors.len() > 0 {
            let mut plain: Vec<LexerError> = Vec::new();
            let mut rest = errors;
            let ghost all = rest@;
            let n = rest.len();
            let mut i: usize = 0;
            while i < n
                invariant
                    i <= n,
                    n == all.len(),
                    rest@ == all.skip(i as int),
                    plain@.len() == i,
                    forall|j: int| 0 <= j < i ==> plain@[j] == (#[trigger] all[j]).0,
                decreases n - i,
            {
                let (e, _) = rest.remove(0);
                plain.push(e);
                proof {
                    assert(rest@ =~= all.skip(i + 1));
                }
                i += 1;
            }
            proof {
                assert forall|j: int| 0 <= j < plain@.len() implies ((#[trigger] plain@[j]) matches LexerError::UnknownCharSequence {
                    sequence,
                } && sequence@ == crate::frontend_v0::lexer::regex_lexer::error_specs(all)[j].0) by {
                    assert(plain@[j] == all[j].0);
                }
            }
            return Err(FileAnalyzerError::LexerErrors(plain));
        }
        let ghost all = tokens@;
        let mut kept: Vec<Token> = Vec::new();
        let mut rest = tokens;
        let n = rest.len();
        let mut i: usize = 0;
        proof {
            assert(token_specs(kept@) =~= Seq::<TokenSpec>::empty());
        }
        while i < n
            invariant
                i <= n,
                n == all.len(),
                rest@ == all.skip(i as int),
                token_specs(kept@) == without_comments(token_specs(all).take(i as int)),
                forall|j: int| 0 <= j < all.len() ==> (#[trigger] all[j]).position.filename == *filename,
                forall|j: int| 0 <= j < kept@.len() ==> (#[trigger] kept@[j]).position.filename == *filename,
            decreases n - i,
        {
            let t = rest.remove(0);
            proof {
                assert(rest@ =~= all.skip(i + 1));
                assert(token_specs(all).take(i + 1).drop_last() =~= token_specs(all).take(i as int));
                assert(token_specs(all).take(i + 1).last() == token_spec(t));
            }
            if !text_is_comment(&t.kind) {
                let ghost before = kept@;
                kept.push(t);
                proof {
                    assert(token_specs(kept@) =~= token_specs(before).push(token_spec(t)));
                }
            }
            i += 1;
        }
        proof {
            assert(token_specs(all).take(n as int) =~= token_specs(all));
        }
        Ok(kept)
    }

    /// The abstract syntax tree of the tokens of a file: the parser's tree
    /// made into statements, or the parser's errors, or the builder's error.
    /// The parser is ready for the next file afterwards.  The run of the
    /// parser must end, and the builder must be able to go on with its tree.
    pub fn build_ast_from_tokens(&mut self, tokens: &Vec<Token>) -> (r: Result<CodeNode, FileAnalyzerError>)
        requires
            old(self).wf(),
            parse_ends(old(self).spec_parser(), tokens@),
            parse_result(old(self).spec_parser(), tokens@).1.errors.len() == 0 ==> ast_code(
                parse_result(old(self).spec_parser(), tokens@).0,
            ) is Some,
        ensures
            final(self).wf(),
            final(self).spec_lexer() == old(self).spec_lexer(),
            final(self).spec_parser().spec_table() == old(self).spec_parser().spec_table(),
            final(self).spec_parser().spec_rules() == old(self).spec_parser().spec_rules(),
            ({
                let out = parse_result(old(self).spec_parser(), tokens@);
                &&& out.1.errors.len() > 0 ==> (r matches Err(FileAnalyzerError::ParserErrors(es)) && errors_view(es@)
                    == out.1.errors)
                &&& out.1.errors.len() == 0 ==> match r {
                    Ok(c) => ast_code(out.0) == Some(code_result(Ok(c))),
                    Err(FileAnalyzerError::AstBuilderErrors(es)) => es@.len() == 1 && ast_code(out.0) == Some(
                        code_result(Err(es@[0])),
                    ),
                    Err(_) => false,
                }
            }),
    {
        let ghost p0 = self.parser;
        let ghost fuel = choose|fuel: nat|
            parse_outcome(p0.spec_table(), p0.spec_rules(), run_start(p0, tokens@), fuel) is Some;
        proof {
            assert(run_start(p0, tokens@) == ParseConfig {
                state: p0.spec_state(),
                stack: p0.spec_stack(),
                queue: crate::frontend_v0::parser::lr1_parser::token_nodes(tokens@),
                errors: Seq::empty(),
            });
        }
        let (parse_tree, errors) = self.parser.parse(tokens);
        proof {
            assert(parse_outcome(p0.spec_table(), p0.spec_rules(), run_start(p0, tokens@), fuel) is Some);
        }
        self.parser.reset();
        if errors.len() > 0 {
            return Err(FileAnalyzerError::ParserErrors(errors));
        }
        match self.ast_builder.visit_code(parse_tree) {
            Ok(code) => Ok(code),
            Err(e) => {
                let mut errors: Vec<AstBuilderError> = Vec::new();
                errors.push(e);
                Err(FileAnalyzerError::AstBuilderErrors(errors))
            },
        }
    }
}

/// Whether a kind of token is that of comments.
fn text_is_comment(kind: &String) -> (r: bool)
    ensures
        r == (kind@ == "COMMENT"@),
{
    let comment = String::from_str("COMMENT");
    *kind == comment
}

} // verus!
