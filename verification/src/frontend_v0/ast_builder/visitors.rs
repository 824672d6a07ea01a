//! The builder of the abstract syntax tree: it walks the syntax tree that the
//! parser gives and makes statements and expressions of it.
use crate::frontend_v0::ast_builder::ast_spec::{
    all_digits, ast_array_def, ast_expr, ast_expr_list, ast_level, ast_literal, ast_postfix, ast_primary,
    ast_token_literal, ast_unary, ast_variable, ast_variable_name, constructor_call, digits_value, err_view,
    expr_result, first_error, kids, list_exprs, parse_bool, parse_i32, unwrap_tree, view_expr_span, view_name,
    AstErr, Built,
};
use crate::frontend_v0::ast_builder::nodes::{
    code_view, expr_name, expr_span, expr_view, exprs_view, lemma_stmts_view, member_view, members_view, stmt_view,
    stmts_view,
    strings_view, AccessModifier, ClassMemberNode, CodeNode, CodeView, ExprView, ExpressionNode, MemberView,
    StatementNode, StmtView,
};
use crate::frontend_v0::ast_builder::stmt_spec::{
    args_of, ast_access_modifier, ast_args_list, ast_assign, ast_class_def, ast_class_member, ast_class_scope,
    ast_code, ast_extern, ast_for, ast_func_def, ast_if, ast_import, ast_let_def, ast_member_rest,
    ast_members_list, ast_postfix_stmt, ast_return, ast_scope_def, ast_static, ast_stmt, ast_stmt_list, ast_while,
    below_or_empty, empty_node, imports_of, is_empty_node, lemma_fill_below, lemma_kids_below,
    lemma_kinds_not_empty, lemma_subrange_below, list_members, list_stmts, opt_fill, others_of, scope_body,
};
use crate::frontend_v0::errors::ast_errors::{AstBuilderError, ErrorBuilder};
use crate::frontend_v0::lexer::common::lexer::end_fits;
use crate::frontend_v0::parser::common::parser::{
    join_spans, lemma_nodes_view, node_view, nodes_view, view_kind, NodeView, ParserNode, Span,
};
use crate::text::to_chars;
use vstd::prelude::*;
use vstd::string::*;

verus! {

/// A child of a node lies below it.
pub proof fn lemma_kid_below(n: NodeView, i: int)
    requires
        n is NonTerminal,
        0 <= i < kids(n).len(),
    ensures
        decreases_to!(n => kids(n)[i]),
{
    match n {
        NodeView::NonTerminal { children, .. } => {
            assert(decreases_to!(n => children));
            assert(decreases_to!(children => children[i]));
        },
        NodeView::Terminal(_) => {},
    }
}

/// The view of the result of reading a name.
pub open spec fn name_result(r: Result<String, AstBuilderError>) -> Result<Seq<char>, AstErr> {
    match r {
        Ok(s) => Ok(s@),
        Err(e) => Err(err_view(e)),
    }
}

/// The view of the result of building a statement.
pub open spec fn stmt_result(r: Result<StatementNode, AstBuilderError>) -> Result<StmtView, AstErr> {
    match r {
        Ok(v) => Ok(stmt_view(v)),
        Err(e) => Err(err_view(e)),
    }
}

/// The view of the result of building a member of a class.
pub open spec fn member_result(r: Result<ClassMemberNode, AstBuilderError>) -> Result<MemberView, AstErr> {
    match r {
        Ok(v) => Ok(member_view(v)),
        Err(e) => Err(err_view(e)),
    }
}

/// The view of a result whose value is its own view.
pub open spec fn plain_result<T>(r: Result<T, AstBuilderError>) -> Result<T, AstErr> {
    match r {
        Ok(v) => Ok(v),
        Err(e) => Err(err_view(e)),
    }
}

/// The view of the result of reading a list of names.
pub open spec fn names_result(r: Result<Vec<String>, AstBuilderError>) -> Result<Seq<Seq<char>>, AstErr> {
    match r {
        Ok(v) => Ok(strings_view(v@)),
        Err(e) => Err(err_view(e)),
    }
}

/// The views of the results of reading names.
pub open spec fn name_results_view(rs: Seq<Result<String, AstBuilderError>>) -> Seq<Result<Seq<char>, AstErr>>
    decreases rs.len(),
{
    if rs.len() == 0 {
        Seq::empty()
    } else {
        name_results_view(rs.drop_last()).push(name_result(rs.last()))
    }
}

/// The view of the result of building a file.
pub open spec fn code_result(r: Result<CodeNode, AstBuilderError>) -> Result<CodeView, AstErr> {
    match r {
        Ok(c) => Ok(code_view(c)),
        Err(e) => Err(err_view(e)),
    }
}

/// Whether the text `s` is `name`.
fn text_is(s: &String, name: &str) -> (r: bool)
    ensures
        r == (s@ == name@),
{
    let expected = String::from_str(name);
    *s == expected
}

/// A sequence of nodes whose views are `b` has the view `b`.
proof fn lemma_views_match(a: Seq<ParserNode>, b: Seq<NodeView>)
    requires
        a.len() == b.len(),
        forall|k: int| 0 <= k < a.len() ==> node_view(#[trigger] a[k]) == b[k],
    ensures
        nodes_view(a) == b,
{
    lemma_nodes_view(a);
    assert(nodes_view(a) =~= b);
}

/// The first error of the names is the view of the first error.
proof fn lemma_first_error_names(rs: Seq<Result<String, AstBuilderError>>)
    ensures
        first_error(name_results_view(rs)) == (match first_error(rs) {
            Ok(vs) => Ok(strings_view(vs)),
            Err(e) => Err(err_view(e)),
        }),
    decreases rs.len(),
{
    if rs.len() > 0 {
        lemma_first_error_names(rs.drop_last());
        assert(name_results_view(rs).drop_last() =~= name_results_view(rs.drop_last()));
        match first_error(rs.drop_last()) {
            Ok(vs) => match rs.last() {
                Ok(v) => {
                    assert(strings_view(vs.push(v)) =~= strings_view(vs).push(v@));
                },
                Err(_) => {},
            },
            Err(_) => {},
        }
    } else {
        assert(strings_view(Seq::<String>::empty()) =~= Seq::<Seq<char>>::empty());
    }
}

/// Whether `node` has the kind `name`.
fn kind_is(node: &ParserNode, name: &str) -> (r: bool)
    ensures
        r == (view_kind(node_view(*node)) == name@),
{
    let kind = node.get_node_kind();
    let expected = String::from_str(name);
    kind == expected
}

/// The digits of `s` give a value no smaller than those of a prefix.
proof fn lemma_digits_prefix(s: Seq<char>, i: int)
    requires
        all_digits(s),
        0 <= i <= s.len(),
    ensures
        0 <= digits_value(s.take(i)) <= digits_value(s),
    decreases s.len(),
{
    if s.len() > 0 {
        let d = s.drop_last();
        assert(all_digits(d));
        if i == s.len() {
            assert(s.take(i) =~= s);
            lemma_digits_prefix(d, d.len() as int);
            assert(d.take(d.len() as int) =~= d);
        } else {
            lemma_digits_prefix(d, i);
            assert(d.take(i) =~= s.take(i));
            lemma_digits_prefix(d, d.len() as int);
            assert(d.take(d.len() as int) =~= d);
        }
    }
}

/// Reads a decimal `i32` as `str::parse` does: an optional sign, then one or
/// more ASCII digits, within the range of `i32`.
pub fn parse_number(text: &String) -> (r: Option<i32>)
    ensures
        r == parse_i32(text@),
{
    let chars = to_chars(text.as_str());
    let n = chars.len();
    let mut start: usize = 0;
    let mut negative = false;
    if n > 0 && (chars[0] == '-' || chars[0] == '+') {
        start = 1;
        negative = chars[0] == '-';
    }
    let ghost digits = chars@.subrange(start as int, n as int);
    proof {
        if start == 1 {
            assert(digits =~= text@.drop_first());
        } else {
            assert(digits =~= text@);
        }
    }
    if start == n {
        return None;
    }
    let limit: u64 = if negative { 2147483648 } else { 2147483647 };
    let mut value: u64 = 0;
    let mut i: usize = start;
    while i < n
        invariant
            start <= i <= n,
            start <= 1,
            n == chars@.len(),
            chars@ == text@,
            digits == chars@.subrange(start as int, n as int),
            digits == (if text@.len() > 0 && (text@[0] == '-' || text@[0] == '+') {
                text@.drop_first()
            } else {
                text@
            }),
            negative == (text@.len() > 0 && text@[0] == '-'),
            limit == (if negative { 2147483648u64 } else { 2147483647u64 }),
            value <= limit,
            all_digits(chars@.subrange(start as int, i as int)),
            value == digits_value(chars@.subrange(start as int, i as int)),
        decreases n - i,
    {
        let c = chars[i];
        if c < '0' || c > '9' {
            proof {
                assert(digits[i - start] == c);
            }
            return None;
        }
        let d = (c as u32 - '0' as u32) as u64;
        let next = value * 10 + d;
        proof {
            let p = chars@.subrange(start as int, i + 1);
            assert(p.drop_last() =~= chars@.subrange(start as int, i as int));
            assert(p.last() == c);
        }
        if next > limit {
            proof {
                let p = chars@.subrange(start as int, i + 1);
                if all_digits(digits) {
                    lemma_digits_prefix(digits, i + 1 - start);
                    assert(digits.take(i + 1 - start) =~= p);
                }
            }
            return None;
        }
        value = next;
        i += 1;
    }
    proof {
        assert(chars@.subrange(start as int, n as int) =~= digits);
    }
    if negative {
        Some((0 - value as i64) as i32)
    } else {
        Some(value as i32)
    }
}

/// Reads `true` or `false` as `str::parse` does.
pub fn parse_boolean(text: &String) -> (r: Option<bool>)
    ensures
        r == parse_bool(text@),
{
    proof {
        reveal_strlit("true");
        reveal_strlit("false");
    }
    let chars = to_chars(text.as_str());
    if chars.len() == 4 && chars[0] == 't' && chars[1] == 'r' && chars[2] == 'u' && chars[3] == 'e' {
        assert(text@ =~= "true"@);
        return Some(true);
    }
    if chars.len() == 5 && chars[0] == 'f' && chars[1] == 'a' && chars[2] == 'l' && chars[3] == 's' && chars[4]
        == 'e' {
        assert(text@ =~= "false"@);
        return Some(false);
    }
    proof {
        if text@ == "true"@ {
            assert(chars@[0] == 't' && chars@[1] == 'r' && chars@[2] == 'u' && chars@[3] == 'e');
        }
        if text@ == "false"@ {
            assert(chars@[0] == 'f' && chars@[4] == 'e');
        }
    }
    None
}

/// `b` with `tail` after its items.
pub open spec fn extend_built(b: Built<Seq<NodeView>>, tail: Seq<NodeView>) -> Built<Seq<NodeView>> {
    match b {
        None => None,
        Some(Err(e)) => Some(Err(e)),
        Some(Ok(s)) => Some(Ok(s + tail)),
    }
}

/// The view of the result of unwrapping a list node.
pub open spec fn items_result(r: Result<Vec<ParserNode>, AstBuilderError>) -> Result<Seq<NodeView>, AstErr> {
    match r {
        Ok(items) => Ok(nodes_view(items@)),
        Err(e) => Err(err_view(e)),
    }
}

proof fn lemma_push_reverse(items: Seq<ParserNode>, x: ParserNode)
    ensures
        nodes_view(items.push(x)).reverse() == seq![node_view(x)] + nodes_view(items).reverse(),
{
    lemma_nodes_view(items.push(x));
    lemma_nodes_view(items);
    assert(nodes_view(items.push(x)).reverse() =~= seq![node_view(x)] + nodes_view(items).reverse());
}


/// Every item of a list node lies below it.
pub proof fn lemma_unwrap_below(n: NodeView, k: Seq<char>)
    ensures
        unwrap_tree(n, k) matches Some(Ok(items)) ==> forall|j: int|
            0 <= j < items.len() ==> decreases_to!(n => #[trigger] items[j]),
    decreases n,
{
    if view_kind(n) == k {
        match n {
            NodeView::NonTerminal { children, .. } => {
                if children.len() == 1 {
                    lemma_kid_below(n, 0);
                } else if children.len() > 1 {
                    lemma_kid_below(n, 0);
                    lemma_kid_below(n, children.len() - 1);
                    lemma_unwrap_below(children[0], k);
                    match unwrap_tree(children[0], k) {
                        Some(Ok(inner)) => {
                            let items = inner.push(children.last());
                            assert forall|j: int| 0 <= j < items.len() implies decreases_to!(n => #[trigger] items[j]) by {
                                if j < inner.len() {
                                    assert(decreases_to!(children[0] => inner[j]));
                                }
                            }
                        },
                        _ => {},
                    }
                }
            },
            NodeView::Terminal(_) => {},
        }
    }
}

/// The expressions of the items of a list, each as the builder gives it;
/// `None` where it cannot go on for one of them.
pub open spec fn exprs_of(items: Seq<NodeView>) -> Option<Seq<Result<ExprView, AstErr>>>
    decreases items.len(),
{
    if items.len() == 0 {
        Some(Seq::empty())
    } else {
        match exprs_of(items.drop_last()) {
            None => None,
            Some(rs) => match ast_expr(items.last()) {
                None => None,
                Some(r) => Some(rs.push(r)),
            },
        }
    }
}

/// The expressions of a list node are those of its items.
pub proof fn lemma_list_exprs(n: NodeView)
    requires
        view_kind(n) == "expression_list"@,
        unwrap_tree(n, "expression_list"@) is Some,
    ensures
        unwrap_tree(n, "expression_list"@) matches Some(Ok(items)) ==> list_exprs(n) == exprs_of(items),
    decreases n,
{
    match n {
        NodeView::NonTerminal { children, .. } => {
            if children.len() == 1 {
                let items = seq![children[0]];
                assert(items.drop_last() =~= Seq::<NodeView>::empty());
                assert(exprs_of(Seq::<NodeView>::empty()) == Some(Seq::<Result<ExprView, AstErr>>::empty()));
                assert(items.last() == children[0]);
                match ast_expr(children[0]) {
                    Some(r) => {
                        assert(Seq::<Result<ExprView, AstErr>>::empty().push(r) =~= seq![r]);
                    },
                    None => {},
                }
            } else if children.len() > 1 {
                if view_kind(children[0]) == "expression_list"@ {
                    lemma_list_exprs(children[0]);
                }
                match unwrap_tree(children[0], "expression_list"@) {
                    Some(Ok(inner)) => {
                        assert(inner.push(children.last()).drop_last() =~= inner);
                        assert(exprs_of(Seq::<NodeView>::empty()) == Some(Seq::<Result<ExprView, AstErr>>::empty()));
                    },
                    _ => {},
                }
            }
        },
        NodeView::Terminal(_) => {},
    }
}

/// A prefix of a list whose expressions can all be built can be built too,
/// one item after the other.
pub proof fn lemma_exprs_of_prefix(items: Seq<NodeView>, i: int)
    requires
        exprs_of(items) is Some,
        0 <= i < items.len(),
    ensures
        exprs_of(items.take(i)) is Some,
        ast_expr(items[i]) is Some,
        exprs_of(items.take(i + 1)) == Some(exprs_of(items.take(i))->0.push(ast_expr(items[i])->0)),
    decreases items.len(),
{
    assert(items.take(i + 1).drop_last() =~= items.take(i));
    if i + 1 == items.len() {
        assert(items.take(i + 1) =~= items);
    } else {
        lemma_exprs_of_prefix(items.drop_last(), i);
        assert(items.drop_last().take(i) =~= items.take(i));
        assert(items.drop_last().take(i + 1) =~= items.take(i + 1));
    }
}

/// The views of the results of building expressions.
pub open spec fn results_view(rs: Seq<Result<ExpressionNode, AstBuilderError>>) -> Seq<Result<ExprView, AstErr>>
    decreases rs.len(),
{
    if rs.len() == 0 {
        Seq::empty()
    } else {
        results_view(rs.drop_last()).push(expr_result(rs.last()))
    }
}

/// The view of the result of building a list of expressions.
pub open spec fn exprs_result(r: Result<Vec<ExpressionNode>, AstBuilderError>) -> Result<Seq<ExprView>, AstErr> {
    match r {
        Ok(v) => Ok(exprs_view(v@)),
        Err(e) => Err(err_view(e)),
    }
}

/// The first error of the views is the view of the first error.
pub proof fn lemma_first_error_exprs(rs: Seq<Result<ExpressionNode, AstBuilderError>>)
    ensures
        first_error(results_view(rs)) == (match first_error(rs) {
            Ok(vs) => Ok(exprs_view(vs)),
            Err(e) => Err(err_view(e)),
        }),
    decreases rs.len(),
{
    if rs.len() > 0 {
        lemma_first_error_exprs(rs.drop_last());
        assert(results_view(rs).drop_last() =~= results_view(rs.drop_last()));
        match first_error(rs.drop_last()) {
            Ok(vs) => match rs.last() {
                Ok(v) => {
                    assert(vs.push(v).drop_last() =~= vs);
                },
                Err(_) => {},
            },
            Err(_) => {},
        }
    }
}

/// The statements of the items of a list, each as the builder gives it;
/// `None` where it cannot go on for one of them.
pub open spec fn stmts_of(items: Seq<NodeView>) -> Option<Seq<Result<StmtView, AstErr>>>
    decreases items.len(),
{
    if items.len() == 0 {
        Some(Seq::empty())
    } else {
        match stmts_of(items.drop_last()) {
            None => None,
            Some(rs) => match ast_stmt(items.last()) {
                None => None,
                Some(r) => Some(rs.push(r)),
            },
        }
    }
}

/// The statements of a list node are those of its items.
pub proof fn lemma_list_stmts(n: NodeView)
    requires
        view_kind(n) == "stmt_list"@,
        unwrap_tree(n, "stmt_list"@) is Some,
    ensures
        unwrap_tree(n, "stmt_list"@) matches Some(Ok(items)) ==> list_stmts(n) == stmts_of(items),
    decreases n,
{
    match n {
        NodeView::NonTerminal { children, .. } => {
            if children.len() == 1 {
                let items = seq![children[0]];
                assert(items.drop_last() =~= Seq::<NodeView>::empty());
                assert(stmts_of(Seq::<NodeView>::empty()) == Some(Seq::<Result<StmtView, AstErr>>::empty()));
                assert(items.last() == children[0]);
                match ast_stmt(children[0]) {
                    Some(r) => {
                        assert(Seq::<Result<StmtView, AstErr>>::empty().push(r) =~= seq![r]);
                    },
                    None => {},
                }
            } else if children.len() > 1 {
                if view_kind(children[0]) == "stmt_list"@ {
                    lemma_list_stmts(children[0]);
                }
                match unwrap_tree(children[0], "stmt_list"@) {
                    Some(Ok(inner)) => {
                        assert(inner.push(children.last()).drop_last() =~= inner);
                        assert(stmts_of(Seq::<NodeView>::empty()) == Some(Seq::<Result<StmtView, AstErr>>::empty()));
                    },
                    _ => {},
                }
            }
        },
        NodeView::Terminal(_) => {},
    }
}

/// A prefix of a list whose statements can all be built can be built too,
/// one item after the other.
pub proof fn lemma_stmts_of_prefix(items: Seq<NodeView>, i: int)
    requires
        stmts_of(items) is Some,
        0 <= i < items.len(),
    ensures
        stmts_of(items.take(i)) is Some,
        ast_stmt(items[i]) is Some,
        stmts_of(items.take(i + 1)) == Some(stmts_of(items.take(i))->0.push(ast_stmt(items[i])->0)),
    decreases items.len(),
{
    assert(items.take(i + 1).drop_last() =~= items.take(i));
    if i + 1 == items.len() {
        assert(items.take(i + 1) =~= items);
    } else {
        lemma_stmts_of_prefix(items.drop_last(), i);
        assert(items.drop_last().take(i) =~= items.take(i));
        assert(items.drop_last().take(i + 1) =~= items.take(i + 1));
    }
}

/// The views of the results of building statements.
pub open spec fn stmt_results_view(rs: Seq<Result<StatementNode, AstBuilderError>>) -> Seq<Result<StmtView, AstErr>>
    decreases rs.len(),
{
    if rs.len() == 0 {
        Seq::empty()
    } else {
        stmt_results_view(rs.drop_last()).push(stmt_result(rs.last()))
    }
}

/// The view of the result of building a list of statements.
pub open spec fn stmts_result(r: Result<Vec<StatementNode>, AstBuilderError>) -> Result<Seq<StmtView>, AstErr> {
    match r {
        Ok(v) => Ok(stmts_view(v@)),
        Err(e) => Err(err_view(e)),
    }
}

/// The first error of the views is the view of the first error.
pub proof fn lemma_first_error_stmts(rs: Seq<Result<StatementNode, AstBuilderError>>)
    ensures
        first_error(stmt_results_view(rs)) == (match first_error(rs) {
            Ok(vs) => Ok(stmts_view(vs)),
            Err(e) => Err(err_view(e)),
        }),
    decreases rs.len(),
{
    if rs.len() > 0 {
        lemma_first_error_stmts(rs.drop_last());
        assert(stmt_results_view(rs).drop_last() =~= stmt_results_view(rs.drop_last()));
        match first_error(rs.drop_last()) {
            Ok(vs) => match rs.last() {
                Ok(v) => {
                    assert(vs.push(v).drop_last() =~= vs);
                },
                Err(_) => {},
            },
            Err(_) => {},
        }
    }
}

/// The members of the items of a list, each as the builder gives it;
/// `None` where it cannot go on for one of them.
pub open spec fn members_of(items: Seq<NodeView>) -> Option<Seq<Result<MemberView, AstErr>>>
    decreases items.len(),
{
    if items.len() == 0 {
        Some(Seq::empty())
    } else {
        match members_of(items.drop_last()) {
            None => None,
            Some(rs) => match ast_class_member(items.last()) {
                None => None,
                Some(r) => Some(rs.push(r)),
            },
        }
    }
}

/// The members of a list node are those of its items.
pub proof fn lemma_list_members(n: NodeView)
    requires
        view_kind(n) == "class_members_list"@,
        unwrap_tree(n, "class_members_list"@) is Some,
    ensures
        unwrap_tree(n, "class_members_list"@) matches Some(Ok(items)) ==> list_members(n) == members_of(items),
    decreases n,
{
    match n {
        NodeView::NonTerminal { children, .. } => {
            if children.len() == 1 {
                let items = seq![children[0]];
                assert(items.drop_last() =~= Seq::<NodeView>::empty());
                assert(members_of(Seq::<NodeView>::empty()) == Some(Seq::<Result<MemberView, AstErr>>::empty()));
                assert(items.last() == children[0]);
                match ast_class_member(children[0]) {
                    Some(r) => {
                        assert(Seq::<Result<MemberView, AstErr>>::empty().push(r) =~= seq![r]);
                    },
                    None => {},
                }
            } else if children.len() > 1 {
                if view_kind(children[0]) == "class_members_list"@ {
                    lemma_list_members(children[0]);
                }
                match unwrap_tree(children[0], "class_members_list"@) {
                    Some(Ok(inner)) => {
                        assert(inner.push(children.last()).drop_last() =~= inner);
                        assert(members_of(Seq::<NodeView>::empty()) == Some(Seq::<Result<MemberView, AstErr>>::empty()));
                    },
                    _ => {},
                }
            }
        },
        NodeView::Terminal(_) => {},
    }
}

/// A prefix of a list whose members can all be built can be built too,
/// one item after the other.
pub proof fn lemma_members_of_prefix(items: Seq<NodeView>, i: int)
    requires
        members_of(items) is Some,
        0 <= i < items.len(),
    ensures
        members_of(items.take(i)) is Some,
        ast_class_member(items[i]) is Some,
        members_of(items.take(i + 1)) == Some(members_of(items.take(i))->0.push(ast_class_member(items[i])->0)),
    decreases items.len(),
{
    assert(items.take(i + 1).drop_last() =~= items.take(i));
    if i + 1 == items.len() {
        assert(items.take(i + 1) =~= items);
    } else {
        lemma_members_of_prefix(items.drop_last(), i);
        assert(items.drop_last().take(i) =~= items.take(i));
        assert(items.drop_last().take(i + 1) =~= items.take(i + 1));
    }
}

/// The views of the results of building members.
pub open spec fn member_results_view(rs: Seq<Result<ClassMemberNode, AstBuilderError>>) -> Seq<Result<MemberView, AstErr>>
    decreases rs.len(),
{
    if rs.len() == 0 {
        Seq::empty()
    } else {
        member_results_view(rs.drop_last()).push(member_result(rs.last()))
    }
}

/// The view of the result of building a list of members.
pub open spec fn members_result(r: Result<Vec<ClassMemberNode>, AstBuilderError>) -> Result<Seq<MemberView>, AstErr> {
    match r {
        Ok(v) => Ok(members_view(v@)),
        Err(e) => Err(err_view(e)),
    }
}

/// The first error of the views is the view of the first error.
pub proof fn lemma_first_error_members(rs: Seq<Result<ClassMemberNode, AstBuilderError>>)
    ensures
        first_error(member_results_view(rs)) == (match first_error(rs) {
            Ok(vs) => Ok(members_view(vs)),
            Err(e) => Err(err_view(e)),
        }),
    decreases rs.len(),
{
    if rs.len() > 0 {
        lemma_first_error_members(rs.drop_last());
        assert(member_results_view(rs).drop_last() =~= member_results_view(rs.drop_last()));
        match first_error(rs.drop_last()) {
            Ok(vs) => match rs.last() {
                Ok(v) => {
                    assert(vs.push(v).drop_last() =~= vs);
                },
                Err(_) => {},
            },
            Err(_) => {},
        }
    }
}


/// Law of `first_err`: the values of a list of results come out, in order,
/// when none of them is an error; otherwise the first error does.
pub proof fn law_first_error<T, E>(rs: Seq<Result<T, E>>)
    ensures
        first_error(rs) is Ok <==> forall|i: int| 0 <= i < rs.len() ==> #[trigger] rs[i] is Ok,
        first_error(rs) matches Ok(vs) ==> vs.len() == rs.len() && forall|i: int|
            0 <= i < rs.len() ==> #[trigger] rs[i] == Ok::<T, E>(vs[i]),
        first_error(rs) matches Err(e) ==> exists|i: int|
            0 <= i < rs.len() && #[trigger] rs[i] == Err::<T, E>(e) && forall|j: int| 0 <= j < i ==> #[trigger] rs[j] is Ok,
    decreases rs.len(),
{
    if rs.len() > 0 {
        let d = rs.drop_last();
        law_first_error(d);
        assert forall|i: int| 0 <= i < d.len() implies d[i] == rs[i] by {}
        match first_error(d) {
            Ok(vs) => {
                match rs.last() {
                    Ok(v) => {
                        let ws = vs.push(v);
                        assert forall|i: int| 0 <= i < rs.len() implies #[trigger] rs[i] == Ok::<T, E>(ws[i]) by {
                            if i < d.len() {
                                assert(d[i] == rs[i]);
                            }
                        }
                    },
                    Err(e) => {
                        let i = rs.len() - 1;
                        assert(rs[i] == Err::<T, E>(e));
                        assert forall|j: int| 0 <= j < i implies #[trigger] rs[j] is Ok by {
                            assert(d[j] == rs[j]);
                        }
                    },
                }
            },
            Err(e) => {
                let i = choose|i: int|
                    0 <= i < d.len() && #[trigger] d[i] == Err::<T, E>(e) && forall|j: int| 0 <= j < i ==> #[trigger] d[j] is Ok;
                assert(rs[i] == d[i]);
                assert forall|j: int| 0 <= j < i implies #[trigger] rs[j] is Ok by {
                    assert(d[j] == rs[j]);
                }
                assert(!(rs[i] is Ok));
            },
        }
    }
}

/// Where the first error lies in a prefix, it is the first error of all.
proof fn lemma_first_error_prefix<T, E>(s: Seq<Result<T, E>>, j: int)
    requires
        0 <= j <= s.len(),
        first_error(s.take(j)) is Err,
    ensures
        first_error(s) == first_error(s.take(j)),
    decreases s.len(),
{
    if j == s.len() {
        assert(s.take(j) =~= s);
    } else {
        assert(s.drop_last().take(j) =~= s.take(j));
        lemma_first_error_prefix(s.drop_last(), j);
    }
}

/// The values of `list`, or its first error.
pub fn first_err<T>(list: Vec<Result<T, AstBuilderError>>) -> (r: Result<Vec<T>, AstBuilderError>)
    ensures
        first_error(list@) == (match r {
            Ok(vs) => Ok::<Seq<T>, AstBuilderError>(vs@),
            Err(e) => Err(e),
        }),
{
    let ghost all = list@;
    let n = list.len();
    let mut values: Vec<T> = Vec::new();
    let mut rest = list;
    let mut i: usize = 0;
    while i < n
        invariant
            i <= n,
            n == all.len(),
            all == list@,
            rest@ == all.skip(i as int),
            first_error(all.take(i as int)) == Ok::<Seq<T>, AstBuilderError>(values@),
        decreases n - i,
    {
        let x = rest.remove(0);
        proof {
            assert(all.take(i + 1).drop_last() =~= all.take(i as int));
            assert(all.take(i + 1).last() == x);
            assert(rest@ =~= all.skip(i + 1));
        }
        match x {
            Ok(v) => {
                values.push(v);
            },
            Err(e) => {
                proof {
                    assert(first_error(all.take(i + 1)) == Err::<Seq<T>, AstBuilderError>(e));
                    lemma_first_error_prefix(all, i + 1);
                }
                return Err(e);
            },
        }
        i += 1;
    }
    assert(all.take(n as int) =~= all);
    Ok(values)
}

/// The value of `opt`, or its error, or nothing.
pub fn reorder_option_and_result<T>(opt: Option<Result<T, AstBuilderError>>) -> (r: Result<Option<T>, AstBuilderError>)
    ensures
        r == (match opt {
            Some(Ok(v)) => Ok(Some(v)),
            Some(Err(e)) => Err(e),
            None => Ok(None),
        }),
{
    match opt {
        Some(indexer_def) => match indexer_def {
            Ok(v) => Ok(Some(v)),
            Err(e) => Err(e),
        },
        None => Ok(None),
    }
}

/// The name and the span of an expression are those of its view.
proof fn lemma_expr_name_span(e: ExpressionNode)
    ensures
        view_name(expr_view(e)) == expr_name(e),
        view_expr_span(expr_view(e)) == expr_span(e),
{
}

/// The builder of the abstract syntax tree.
pub struct AstBuilder {}

impl AstBuilder {
    /// The items of a left-recursive list node of kind `tree_node_kind`, from
    /// the first: the last child of each level of the list, and the only
    /// child of its innermost level.
    pub fn unwrap_left_recursive_tree(&self, node: ParserNode, tree_node_kind: String) -> (r: Result<
        Vec<ParserNode>,
        AstBuilderError,
    >)
        requires
            unwrap_tree(node_view(node), tree_node_kind@) is Some,
        ensures
            Some(items_result(r)) == unwrap_tree(node_view(node), tree_node_kind@),
    {
        let ghost whole = node_view(node);
        let ghost k = tree_node_kind@;
        let mut items: Vec<ParserNode> = Vec::new();
        let mut tree = node;
        loop
            invariant_except_break
                unwrap_tree(whole, k) == extend_built(unwrap_tree(node_view(tree), k), nodes_view(items@).reverse()),
            invariant
                k == tree_node_kind@,
                whole == node_view(node),
                unwrap_tree(whole, k) is Some,
            ensures
                unwrap_tree(whole, k) == Some(Ok::<Seq<NodeView>, AstErr>(nodes_view(items@).reverse())),
            decreases node_view(tree),
        {
            if !(tree.get_node_kind() == tree_node_kind) {
                proof {
                    assert(nodes_view(items@).reverse() =~= Seq::<NodeView>::empty() + nodes_view(items@).reverse());
                }
                break;
            }
            let ghost tv = node_view(tree);
            match tree {
                ParserNode::NonTerminal { mut children, .. } => {
                    proof {
                        lemma_nodes_view(children@);
                    }
                    let ghost old_items = items@;
                    if children.len() == 1 {
                        let item = children.remove(0);
                        items.push(item);
                        proof {
                            lemma_push_reverse(old_items, item);
                        }
                        break;
                    }
                    let next_tree_node = children.remove(0);
                    let last = children.len() - 1;
                    let item = children.remove(last);
                    items.push(item);
                    proof {
                        lemma_push_reverse(old_items, item);
                        lemma_kid_below(tv, 0);
                        let rest = nodes_view(old_items).reverse();
                        let x = node_view(item);
                        match unwrap_tree(node_view(next_tree_node), k) {
                            Some(Ok(inner)) => {
                                assert(inner.push(x) + rest =~= inner + (seq![x] + rest));
                            },
                            _ => {},
                        }
                    }
                    tree = next_tree_node;
                },
                ParserNode::Terminal(token) => {
                    return ErrorBuilder::non_terminal_expected(tree_node_kind.as_str(), token);
                },
            }
        }
        let ghost all = items@;
        let n = items.len();
        let mut out: Vec<ParserNode> = Vec::new();
        while items.len() > 0
            invariant
                items.len() <= n,
                n == all.len(),
                items@ == all.take(items.len() as int),
                out@ == all.reverse().take(n - items.len()),
            decreases items.len(),
        {
            let ghost k0 = items.len();
            let x = items.pop().unwrap();
            out.push(x);
            proof {
                assert(items@ =~= all.take(items.len() as int));
                assert(out@ =~= all.reverse().take(n - items.len()));
            }
        }
        proof {
            assert(out@ =~= all.reverse());
            lemma_nodes_view(out@);
            lemma_nodes_view(all);
            assert(nodes_view(out@) =~= nodes_view(all).reverse());
        }
        Ok(out)
    }

    pub fn visit_string_literal(&self, node: ParserNode) -> (r: Result<ExpressionNode, AstBuilderError>)
        requires
            ast_token_literal("STRING"@, node_view(node)) is Some,
        ensures
            Some(expr_result(r)) == ast_token_literal("STRING"@, node_view(node)),
    {
        match node {
            ParserNode::NonTerminal { kind, span, .. } => ErrorBuilder::terminal_expected("STRING", kind, span.0),
            ParserNode::Terminal(token) => Ok(
                ExpressionNode::StringLiteral {
                    value: token.text.clone(),
                    span: (token.position.clone(), token.get_end_position()),
                },
            ),
        }
    }

    pub fn visit_boolean_literal(&self, node: ParserNode) -> (r: Result<ExpressionNode, AstBuilderError>)
        requires
            ast_token_literal("BOOLEAN"@, node_view(node)) is Some,
        ensures
            Some(expr_result(r)) == ast_token_literal("BOOLEAN"@, node_view(node)),
    {
        proof {
            reveal_strlit("STRING");
            reveal_strlit("BOOLEAN");
            assert("BOOLEAN"@.len() != "STRING"@.len());
        }
        match node {
            ParserNode::NonTerminal { kind, span, .. } => ErrorBuilder::terminal_expected("BOOLEAN", kind, span.0),
            ParserNode::Terminal(token) => {
                let value = match parse_boolean(&token.text) {
                    Some(b) => b,
                    None => false,
                };
                Ok(
                    ExpressionNode::BooleanLiteral {
                        value,
                        span: (token.position.clone(), token.get_end_position()),
                    },
                )
            },
        }
    }

    pub fn visit_number_literal(&self, node: ParserNode) -> (r: Result<ExpressionNode, AstBuilderError>)
        requires
            ast_token_literal("NUMBER"@, node_view(node)) is Some,
        ensures
            Some(expr_result(r)) == ast_token_literal("NUMBER"@, node_view(node)),
    {
        proof {
            reveal_strlit("STRING");
            reveal_strlit("BOOLEAN");
            reveal_strlit("NUMBER");
            assert("NUMBER"@[0] != "STRING"@[0]);
            assert("NUMBER"@.len() != "BOOLEAN"@.len());
        }
        match node {
            ParserNode::NonTerminal { kind, span, .. } => ErrorBuilder::terminal_expected("NUMBER", kind, span.0),
            ParserNode::Terminal(token) => {
                let value = match parse_number(&token.text) {
                    Some(v) => v,
                    None => 0,
                };
                Ok(
                    ExpressionNode::NumberLiteral {
                        value,
                        span: (token.position.clone(), token.get_end_position()),
                    },
                )
            },
        }
    }

    pub fn visit_variable(&self, node: ParserNode) -> (r: Result<ExpressionNode, AstBuilderError>)
        requires
            ast_variable(node_view(node)) is Some,
        ensures
            Some(expr_result(r)) == ast_variable(node_view(node)),
    {
        match node {
            ParserNode::NonTerminal { kind, span, .. } => ErrorBuilder::terminal_expected("IDENTIFIER", kind, span.0),
            ParserNode::Terminal(token) => Ok(
                ExpressionNode::Variable {
                    name: token.text.clone(),
                    span: (token.position.clone(), token.get_end_position()),
                },
            ),
        }
    }

    pub fn visit_variable_name(&self, node: ParserNode) -> (r: Result<String, AstBuilderError>)
        ensures
            name_result(r) == ast_variable_name(node_view(node)),
    {
        match node {
            ParserNode::NonTerminal { kind, span, .. } => ErrorBuilder::terminal_expected("IDENTIFIER", kind, span.0),
            ParserNode::Terminal(token) => Ok(token.text),
        }
    }

    pub fn visit_literal(&self, node: ParserNode) -> (r: Result<ExpressionNode, AstBuilderError>)
        requires
            ast_literal(node_view(node)) is Some,
        ensures
            Some(expr_result(r)) == ast_literal(node_view(node)),
    {
        match node {
            ParserNode::NonTerminal { mut children, span, .. } => {
                proof {
                    lemma_nodes_view(children@);
                }
                let item = children.remove(0);
                if kind_is(&item, "NUMBER") {
                    return self.visit_number_literal(item);
                }
                if kind_is(&item, "BOOLEAN") {
                    return self.visit_boolean_literal(item);
                }
                if kind_is(&item, "STRING") {
                    return self.visit_string_literal(item);
                }
                let kind = item.get_node_kind();
                ErrorBuilder::unexpected_token_kind("NUMBER or BOOLEAN or STRING", kind.as_str(), span.0)
            },
            ParserNode::Terminal(token) => ErrorBuilder::non_terminal_expected("literal", token),
        }
    }

    pub fn visit_class_constructor_call(&self, node: ExpressionNode, new_keyword_span: Span) -> (r: Result<
        ExpressionNode,
        AstBuilderError,
    >)
        ensures
            expr_result(r) == constructor_call(expr_view(node), new_keyword_span),
    {
        proof {
            lemma_expr_name_span(node);
        }
        match node {
            ExpressionNode::FunctionCallExpression { source, arguments, span } => Ok(
                ExpressionNode::NewExpression { class: source, arguments, span: join_spans(new_keyword_span, span) },
            ),
            given_node => {
                let start = given_node.span().0;
                ErrorBuilder::unexpected_syntax_node("FunctionCallExpression", given_node.name(), start)
            },
        }
    }

    pub fn visit_expr(&self, node: ParserNode) -> (r: Result<ExpressionNode, AstBuilderError>)
        requires
            ast_expr(node_view(node)) is Some,
        ensures
            Some(expr_result(r)) == ast_expr(node_view(node)),
        decreases node_view(node),
    {
        let ghost nv = node_view(node);
        match node {
            ParserNode::NonTerminal { mut children, .. } => {
                proof {
                    lemma_nodes_view(children@);
                    lemma_kid_below(nv, 0);
                }
                self.visit_and_expr(children.remove(0))
            },
            ParserNode::Terminal(token) => ErrorBuilder::non_terminal_expected("expr", token),
        }
    }

    pub fn visit_and_expr(&self, node: ParserNode) -> (r: Result<ExpressionNode, AstBuilderError>)
        requires
            ast_level(0, node_view(node)) is Some,
        ensures
            Some(expr_result(r)) == ast_level(0, node_view(node)),
        decreases node_view(node),
    {
        let ghost nv = node_view(node);
        match node {
            ParserNode::NonTerminal { mut children, span, .. } => {
                proof {
                    lemma_nodes_view(children@);
                    lemma_kid_below(nv, 0);
                }
                if children.len() == 1 {
                    return self.visit_or_expr(children.remove(0));
                }
                // and_expr WIDE_AND or_expr, and_expr AND or_expr
                let left_arg = match self.visit_and_expr(children.remove(0)) {
                    Ok(e) => e,
                    Err(e) => return Err(e),
                };
                proof {
                    lemma_kid_below(nv, 2);
                }
                let right_arg = match self.visit_or_expr(children.remove(1)) {
                    Ok(e) => e,
                    Err(e) => return Err(e),
                };
                if kind_is(&children[0], "WIDE_AND") {
                    return Ok(
                        ExpressionNode::WideAndExpression { left: Box::new(left_arg), right: Box::new(right_arg), span },
                    );
                }
                if kind_is(&children[0], "AND") {
                    return Ok(ExpressionNode::AndExpression { left: Box::new(left_arg), right: Box::new(right_arg), span });
                }
                let kind = children[0].get_node_kind();
                ErrorBuilder::unexpected_token_kind("WIDE_AND or AND", kind.as_str(), children[0].get_node_start())
            },
            ParserNode::Terminal(token) => ErrorBuilder::non_terminal_expected("and_expr", token),
        }
    }

    pub fn visit_or_expr(&self, node: ParserNode) -> (r: Result<ExpressionNode, AstBuilderError>)
        requires
            ast_level(1, node_view(node)) is Some,
        ensures
            Some(expr_result(r)) == ast_level(1, node_view(node)),
        decreases node_view(node),
    {
        let ghost nv = node_view(node);
        match node {
            ParserNode::NonTerminal { mut children, span, .. } => {
                proof {
                    lemma_nodes_view(children@);
                    lemma_kid_below(nv, 0);
                }
                if children.len() == 1 {
                    return self.visit_comparison_expr(children.remove(0));
                }
                // or_expr WIDE_OR comparison_expr, or_expr OR comparison_expr,
                // or_expr XOR comparison_expr
                let left_arg = match self.visit_or_expr(children.remove(0)) {
                    Ok(e) => e,
                    Err(e) => return Err(e),
                };
                proof {
                    lemma_kid_below(nv, 2);
                }
                let right_arg = match self.visit_comparison_expr(children.remove(1)) {
                    Ok(e) => e,
                    Err(e) => return Err(e),
                };
                if kind_is(&children[0], "WIDE_OR") {
                    return Ok(
                        ExpressionNode::WideOrExpression { left: Box::new(left_arg), right: Box::new(right_arg), span },
                    );
                }
                if kind_is(&children[0], "OR") {
                    return Ok(ExpressionNode::OrExpression { left: Box::new(left_arg), right: Box::new(right_arg), span });
                }
                if kind_is(&children[0], "XOR") {
                    return Ok(ExpressionNode::XorExpression { left: Box::new(left_arg), right: Box::new(right_arg), span });
                }
                let kind = children[0].get_node_kind();
                ErrorBuilder::unexpected_token_kind("WIDE_OR or OR or XOR", kind.as_str(), children[0].get_node_start())
            },
            ParserNode::Terminal(token) => ErrorBuilder::non_terminal_expected("or_expr", token),
        }
    }

    pub fn visit_comparison_expr(&self, node: ParserNode) -> (r: Result<ExpressionNode, AstBuilderError>)
        requires
            ast_level(2, node_view(node)) is Some,
        ensures
            Some(expr_result(r)) == ast_level(2, node_view(node)),
        decreases node_view(node),
    {
        let ghost nv = node_view(node);
        match node {
            ParserNode::NonTerminal { mut children, span, .. } => {
                proof {
                    lemma_nodes_view(children@);
                    lemma_kid_below(nv, 0);
                }
                if children.len() == 1 {
                    return self.visit_addition_expr(children.remove(0));
                }
                // addition_expr, a comparison operator, addition_expr
                let left_arg = match self.visit_addition_expr(children.remove(0)) {
                    Ok(e) => e,
                    Err(e) => return Err(e),
                };
                proof {
                    lemma_kid_below(nv, 2);
                }
                let right_arg = match self.visit_addition_expr(children.remove(1)) {
                    Ok(e) => e,
                    Err(e) => return Err(e),
                };
                let left = Box::new(left_arg);
                let right = Box::new(right_arg);
                if kind_is(&children[0], "EQUAL_COMP") {
                    return Ok(ExpressionNode::IsEqualComparison { left, right, span });
                }
                if kind_is(&children[0], "NOT_EQUAL_COMP") {
                    return Ok(ExpressionNode::NotEqualComparison { left, right, span });
                }
                if kind_is(&children[0], "GT_COMP") {
                    return Ok(ExpressionNode::GreaterComparison { left, right, span });
                }
                if kind_is(&children[0], "GT_EQUAL_COMP") {
                    return Ok(ExpressionNode::GreaterOrEqualComparison { left, right, span });
                }
                if kind_is(&children[0], "LT_COMP") {
                    return Ok(ExpressionNode::LessComparison { left, right, span });
                }
                if kind_is(&children[0], "LT_EQUAL_COMP") {
                    return Ok(ExpressionNode::LessOrEqualComparison { left, right, span });
                }
                let kind = children[0].get_node_kind();
                ErrorBuilder::unexpected_token_kind("comparison operators", kind.as_str(), children[0].get_node_start())
            },
            ParserNode::Terminal(token) => ErrorBuilder::non_terminal_expected("comparison_expr", token),
        }
    }

    pub fn visit_addition_expr(&self, node: ParserNode) -> (r: Result<ExpressionNode, AstBuilderError>)
        requires
            ast_level(3, node_view(node)) is Some,
        ensures
            Some(expr_result(r)) == ast_level(3, node_view(node)),
        decreases node_view(node),
    {
        let ghost nv = node_view(node);
        match node {
            ParserNode::NonTerminal { mut children, span, .. } => {
                proof {
                    lemma_nodes_view(children@);
                    lemma_kid_below(nv, 0);
                }
                if children.len() == 1 {
                    return self.visit_multiplication_expr(children.remove(0));
                }
                // addition_expr PLUS multiplication_expr, addition_expr MINUS multiplication_expr
                let left_arg = match self.visit_addition_expr(children.remove(0)) {
                    Ok(e) => e,
                    Err(e) => return Err(e),
                };
                proof {
                    lemma_kid_below(nv, 2);
                }
                let right_arg = match self.visit_multiplication_expr(children.remove(1)) {
                    Ok(e) => e,
                    Err(e) => return Err(e),
                };
                if kind_is(&children[0], "PLUS") {
                    return Ok(ExpressionNode::AddExpression { left: Box::new(left_arg), right: Box::new(right_arg), span });
                }
                if kind_is(&children[0], "MINUS") {
                    return Ok(
                        ExpressionNode::SubtractExpression { left: Box::new(left_arg), right: Box::new(right_arg), span },
                    );
                }
                let kind = children[0].get_node_kind();
                ErrorBuilder::unexpected_token_kind("PLUS or MINUS", kind.as_str(), children[0].get_node_start())
            },
            ParserNode::Terminal(token) => ErrorBuilder::non_terminal_expected("addition_expr", token),
        }
    }

    pub fn visit_multiplication_expr(&self, node: ParserNode) -> (r: Result<ExpressionNode, AstBuilderError>)
        requires
            ast_level(4, node_view(node)) is Some,
        ensures
            Some(expr_result(r)) == ast_level(4, node_view(node)),
        decreases node_view(node),
    {
        let ghost nv = node_view(node);
        match node {
            ParserNode::NonTerminal { mut children, span, .. } => {
                proof {
                    lemma_nodes_view(children@);
                    lemma_kid_below(nv, 0);
                }
                if children.len() == 1 {
                    return self.visit_unary_expr(children.remove(0));
                }
                // multiplication_expr ASTERISK unary_expr, multiplication_expr SLASH unary_expr
                let left_arg = match self.visit_multiplication_expr(children.remove(0)) {
                    Ok(e) => e,
                    Err(e) => return Err(e),
                };
                proof {
                    lemma_kid_below(nv, 2);
                }
                let right_arg = match self.visit_unary_expr(children.remove(1)) {
                    Ok(e) => e,
                    Err(e) => return Err(e),
                };
                if kind_is(&children[0], "ASTERISK") {
                    return Ok(
                        ExpressionNode::MultiplyExpression { left: Box::new(left_arg), right: Box::new(right_arg), span },
                    );
                }
                if kind_is(&children[0], "SLASH") {
                    return Ok(
                        ExpressionNode::DivideExpression { left: Box::new(left_arg), right: Box::new(right_arg), span },
                    );
                }
                let kind = children[0].get_node_kind();
                ErrorBuilder::unexpected_token_kind("ASTERISK or SLASH", kind.as_str(), children[0].get_node_start())
            },
            ParserNode::Terminal(token) => ErrorBuilder::non_terminal_expected("multiplication_expr", token),
        }
    }

    pub fn visit_unary_expr(&self, node: ParserNode) -> (r: Result<ExpressionNode, AstBuilderError>)
        requires
            ast_unary(node_view(node)) is Some,
        ensures
            Some(expr_result(r)) == ast_unary(node_view(node)),
        decreases node_view(node),
    {
        let ghost nv = node_view(node);
        match node {
            ParserNode::NonTerminal { mut children, span, .. } => {
                proof {
                    lemma_nodes_view(children@);
                    lemma_kid_below(nv, 0);
                }
                if children.len() == 1 {
                    return self.visit_postfix_expr(children.remove(0));
                }
                // NOT unary_expr, MINUS unary_expr, INVERSE unary_expr, NEW unary_expr
                proof {
                    lemma_kid_below(nv, 1);
                }
                let arg = match self.visit_unary_expr(children.remove(1)) {
                    Ok(e) => e,
                    Err(e) => return Err(e),
                };
                if kind_is(&children[0], "NOT") {
                    return Ok(ExpressionNode::NotExpression { source: Box::new(arg), span });
                }
                if kind_is(&children[0], "MINUS") {
                    return Ok(ExpressionNode::NegateExpression { source: Box::new(arg), span });
                }
                if kind_is(&children[0], "INVERSE") {
                    return Ok(ExpressionNode::InverseExpression { source: Box::new(arg), span });
                }
                if kind_is(&children[0], "NEW") {
                    let new_keyword_span = children[0].get_node_span();
                    return self.visit_class_constructor_call(arg, new_keyword_span);
                }
                let kind = children[0].get_node_kind();
                ErrorBuilder::unexpected_token_kind(
                    "NOT or MINUS or INVERSE or NEW",
                    kind.as_str(),
                    children[0].get_node_start(),
                )
            },
            ParserNode::Terminal(token) => ErrorBuilder::non_terminal_expected("unary_expr", token),
        }
    }

    pub fn visit_postfix_expr(&self, node: ParserNode) -> (r: Result<ExpressionNode, AstBuilderError>)
        requires
            ast_postfix(node_view(node)) is Some,
        ensures
            Some(expr_result(r)) == ast_postfix(node_view(node)),
        decreases node_view(node),
    {
        let ghost nv = node_view(node);
        match node {
            ParserNode::NonTerminal { mut children, span, .. } => {
                proof {
                    lemma_nodes_view(children@);
                }
                let n = children.len();
                if n == 1 {
                    proof {
                        lemma_kid_below(nv, 0);
                    }
                    return self.visit_primary_expr(children.remove(0));
                }
                if n == 2 {
                    proof {
                        lemma_kid_below(nv, 0);
                    }
                    let expr = children.remove(0);
                    let operation = children.remove(0);
                    let source = match self.visit_postfix_expr(expr) {
                        Ok(e) => e,
                        Err(e) => return Err(e),
                    };
                    if kind_is(&operation, "INCREMENT") {
                        return Ok(ExpressionNode::IncrementExpression { source: Box::new(source), span });
                    }
                    return Ok(ExpressionNode::DecrementExpression { source: Box::new(source), span });
                }
                if n == 3 {
                    if kind_is(&children[1], "DOT") {
                        // postfix_expr DOT IDENTIFIER
                        proof {
                            lemma_kid_below(nv, 0);
                        }
                        let source = match self.visit_postfix_expr(children.remove(0)) {
                            Ok(e) => e,
                            Err(e) => return Err(e),
                        };
                        let symbol = match self.visit_variable_name(children.remove(1)) {
                            Ok(name) => name,
                            Err(e) => return Err(e),
                        };
                        return Ok(ExpressionNode::SymbolAccessExpression { source: Box::new(source), symbol, span });
                    } else if kind_is(&children[1], "OPEN_PAREN") {
                        // postfix_expr OPEN_PAREN CLOSED_PAREN
                        proof {
                            lemma_kid_below(nv, 0);
                        }
                        let source = match self.visit_postfix_expr(children.remove(0)) {
                            Ok(e) => e,
                            Err(e) => return Err(e),
                        };
                        let arguments: Vec<ExpressionNode> = Vec::new();
                        proof {
                            assert(exprs_view(arguments@) =~= Seq::<ExprView>::empty());
                        }
                        return Ok(ExpressionNode::FunctionCallExpression { source: Box::new(source), arguments, span });
                    }
                    let kind = children[1].get_node_kind();
                    return ErrorBuilder::unexpected_token_kind("primary_expr", kind.as_str(), span.0);
                }
                if n == 4 {
                    // postfix_expr OPEN_PAREN expression_list CLOSED_PAREN
                    // postfix_expr OPEN_BRACKET expression_list CLOSED_BRACKET
                    proof {
                        lemma_kid_below(nv, 0);
                        lemma_kid_below(nv, 2);
                    }
                    let source = match self.visit_postfix_expr(children.remove(0)) {
                        Ok(e) => e,
                        Err(e) => return Err(e),
                    };
                    let args_list = match self.visit_expr_list(children.remove(1)) {
                        Ok(args) => args,
                        Err(e) => return Err(e),
                    };
                    if kind_is(&children[0], "OPEN_PAREN") {
                        return Ok(
                            ExpressionNode::FunctionCallExpression { source: Box::new(source), arguments: args_list, span },
                        );
                    } else if kind_is(&children[0], "OPEN_BRACKET") {
                        return Ok(
                            ExpressionNode::IndexAccessExpression { source: Box::new(source), index: args_list, span },
                        );
                    }
                    let kind = children[0].get_node_kind();
                    return ErrorBuilder::unexpected_token_kind("primary_expr", kind.as_str(), span.0);
                }
                ErrorBuilder::unknown_rule_for("primary_expr", n, span.0)
            },
            ParserNode::Terminal(token) => ErrorBuilder::non_terminal_expected("postfix_expr", token),
        }
    }

    pub fn visit_primary_expr(&self, node: ParserNode) -> (r: Result<ExpressionNode, AstBuilderError>)
        requires
            ast_primary(node_view(node)) is Some,
        ensures
            Some(expr_result(r)) == ast_primary(node_view(node)),
        decreases node_view(node),
    {
        let ghost nv = node_view(node);
        match node {
            ParserNode::NonTerminal { mut children, span, .. } => {
                proof {
                    lemma_nodes_view(children@);
                }
                let n = children.len();
                if n == 1 {
                    proof {
                        lemma_kid_below(nv, 0);
                    }
                    let item = children.remove(0);
                    if kind_is(&item, "literal") {
                        return self.visit_literal(item);
                    }
                    if kind_is(&item, "array_def") {
                        return self.visit_array_def(item);
                    }
                    if kind_is(&item, "IDENTIFIER") {
                        return self.visit_variable(item);
                    }
                    let kind = item.get_node_kind();
                    return ErrorBuilder::unexpected_token_kind(
                        "literal or array_def or IDENTIFIER",
                        kind.as_str(),
                        span.0,
                    );
                } else if n == 3 {
                    proof {
                        lemma_kid_below(nv, 1);
                    }
                    let item = children.remove(1);
                    return self.visit_expr(item);
                }
                ErrorBuilder::unknown_rule_for("primary_expr", n, span.0)
            },
            ParserNode::Terminal(token) => ErrorBuilder::non_terminal_expected("primary_expr", token),
        }
    }

    pub fn visit_array_def(&self, node: ParserNode) -> (r: Result<ExpressionNode, AstBuilderError>)
        requires
            ast_array_def(node_view(node)) is Some,
        ensures
            Some(expr_result(r)) == ast_array_def(node_view(node)),
        decreases node_view(node),
    {
        let ghost nv = node_view(node);
        match node {
            ParserNode::NonTerminal { mut children, span, .. } => {
                proof {
                    lemma_nodes_view(children@);
                }
                let n = children.len();
                if n == 2 {
                    let elements: Vec<ExpressionNode> = Vec::new();
                    proof {
                        assert(exprs_view(elements@) =~= Seq::<ExprView>::empty());
                    }
                    return Ok(ExpressionNode::ArrayDefinition { elements, span });
                }
                if n == 3 {
                    proof {
                        lemma_kid_below(nv, 1);
                    }
                    let elements = match self.visit_expr_list(children.remove(1)) {
                        Ok(elements) => elements,
                        Err(e) => return Err(e),
                    };
                    return Ok(ExpressionNode::ArrayDefinition { elements, span });
                }
                ErrorBuilder::unknown_rule_for("array_def", n, span.0)
            },
            ParserNode::Terminal(token) => ErrorBuilder::non_terminal_expected("array_def", token),
        }
    }

    pub fn visit_expr_list(&self, node: ParserNode) -> (r: Result<Vec<ExpressionNode>, AstBuilderError>)
        requires
            ast_expr_list(node_view(node)) is Some,
        ensures
            Some(exprs_result(r)) == ast_expr_list(node_view(node)),
        decreases node_view(node),
    {
        proof {
            reveal_strlit("expression_list");
        }
        let ghost nv = node_view(node);
        let items = match self.unwrap_left_recursive_tree(node, String::from_str("expression_list")) {
            Ok(items) => items,
            Err(e) => return Err(e),
        };
        let ghost iv = nodes_view(items@);
        proof {
            lemma_list_exprs(nv);
            lemma_unwrap_below(nv, "expression_list"@);
            lemma_nodes_view(items@);
        }
        let n = items.len();
        let mut rest = items;
        let mut results: Vec<Result<ExpressionNode, AstBuilderError>> = Vec::new();
        let mut i: usize = 0;
        while i < n
            invariant
                i <= n,
                n == iv.len(),
                nv == node_view(node),
                rest@.len() == n - i,
                forall|j: int| 0 <= j < rest@.len() ==> node_view(#[trigger] rest@[j]) == iv[i + j],
                exprs_of(iv) is Some,
                forall|j: int| 0 <= j < iv.len() ==> decreases_to!(nv => #[trigger] iv[j]),
                exprs_of(iv.take(i as int)) == Some(results_view(results@)),
            decreases n - i,
        {
            let item = rest.remove(0);
            proof {
                lemma_exprs_of_prefix(iv, i as int);
                assert(node_view(item) == iv[i as int]);
            }
            let r = self.visit_expr(item);
            let ghost before = results@;
            results.push(r);
            proof {
                assert(results@.drop_last() =~= before);
            }
            i += 1;
        }
        proof {
            assert(iv.take(n as int) =~= iv);
            lemma_first_error_exprs(results@);
        }
        first_err(results)
    }

    /// Where the child at `child_index` is not of kind `expected_node_kind`
    /// (or there is none), puts an empty node there (or after the last child)
    /// that stands for the absent optional child.
    pub fn handle_optional_node(
        &self,
        parent_node_children: &mut Vec<ParserNode>,
        child_index: usize,
        expected_node_kind: String,
    )
        requires
            opt_fill(nodes_view(old(parent_node_children)@), child_index as int, expected_node_kind@) is Some,
        ensures
            nodes_view(final(parent_node_children)@) == opt_fill(
                nodes_view(old(parent_node_children)@),
                child_index as int,
                expected_node_kind@,
            )->0,
    {
        proof {
            lemma_nodes_view(parent_node_children@);
        }
        let len = parent_node_children.len();
        if child_index >= len || !(parent_node_children[child_index].get_node_kind() == expected_node_kind) {
            let index = if child_index < len - 1 {
                child_index
            } else {
                len - 1
            };
            let unexpected_node_span = parent_node_children[index].get_node_span();
            let empty = ParserNode::NonTerminal {
                kind: String::from_str("empty_expr"),
                children: Vec::new(),
                span: (unexpected_node_span.0.clone(), unexpected_node_span.0.clone()),
            };
            let ghost before = parent_node_children@;
            proof {
                assert(nodes_view(Seq::<ParserNode>::empty()) =~= Seq::<NodeView>::empty());
                assert(node_view(empty) == empty_node(unexpected_node_span.0));
            }
            parent_node_children.insert(index, empty);
            proof {
                let want = nodes_view(before).insert(index as int, node_view(empty));
                nodes_view(before).insert_ensures(index as int, node_view(empty));
                assert forall|k: int| 0 <= k < parent_node_children@.len() implies node_view(
                    #[trigger] parent_node_children@[k],
                ) == want[k] by {
                    if k > index {
                        assert(parent_node_children@[k] == before[k - 1]);
                    }
                }
                lemma_views_match(parent_node_children@, want);
            }
        }
    }

    /// `None` for an empty node, which stands for an absent optional child.
    pub fn handle_empty_expr(&self, node: ParserNode) -> (r: Result<Option<ParserNode>, AstBuilderError>)
        ensures
            r matches Ok(o) && (if is_empty_node(node_view(node)) {
                o is None
            } else {
                o == Some(node)
            }),
    {
        if kind_is(&node, "empty_expr") {
            return Ok(None);
        }
        Ok(Some(node))
    }

    /// An optional access modifier.
    pub fn visit_optional_access_modifier(&self, node: ParserNode) -> (r: Result<Option<AccessModifier>, AstBuilderError>)
        requires
            !is_empty_node(node_view(node)) ==> ast_access_modifier(node_view(node)) is Some,
        ensures
            is_empty_node(node_view(node)) ==> r == Ok::<Option<AccessModifier>, AstBuilderError>(None),
            !is_empty_node(node_view(node)) ==> r is Ok ==> r->Ok_0 is Some,
            !is_empty_node(node_view(node)) ==> ast_access_modifier(node_view(node)) == Some(
                plain_result(match r {
                    Ok(o) => Ok(o->0),
                    Err(e) => Err(e),
                }),
            ),
    {
        let def = match self.handle_empty_expr(node) {
            Ok(o) => o,
            Err(e) => return Err(e),
        };
        let visited = match def {
            Some(x) => Some(self.visit_access_modifier(x)),
            None => None,
        };
        reorder_option_and_result(visited)
    }

    /// An optional `STATIC`.
    pub fn visit_optional_static(&self, node: ParserNode) -> (r: Result<Option<bool>, AstBuilderError>)
        requires
            !is_empty_node(node_view(node)) ==> ast_static(node_view(node)) is Some,
        ensures
            is_empty_node(node_view(node)) ==> r == Ok::<Option<bool>, AstBuilderError>(None),
            !is_empty_node(node_view(node)) ==> r is Ok ==> r->Ok_0 is Some,
            !is_empty_node(node_view(node)) ==> ast_static(node_view(node)) == Some(
                plain_result(match r {
                    Ok(o) => Ok(o->0),
                    Err(e) => Err(e),
                }),
            ),
    {
        let def = match self.handle_empty_expr(node) {
            Ok(o) => o,
            Err(e) => return Err(e),
        };
        let visited = match def {
            Some(x) => Some(self.visit_static_modifier(x)),
            None => None,
        };
        reorder_option_and_result(visited)
    }

    /// An optional list of arguments.
    pub fn visit_optional_args(&self, node: ParserNode) -> (r: Result<Option<Vec<String>>, AstBuilderError>)
        requires
            !is_empty_node(node_view(node)) ==> ast_args_list(node_view(node)) is Some,
        ensures
            is_empty_node(node_view(node)) ==> r == Ok::<Option<Vec<String>>, AstBuilderError>(None),
            !is_empty_node(node_view(node)) ==> r is Ok ==> r->Ok_0 is Some,
            !is_empty_node(node_view(node)) ==> ast_args_list(node_view(node)) == Some(
                names_result(match r {
                    Ok(o) => Ok(o->0),
                    Err(e) => Err(e),
                }),
            ),
    {
        let def = match self.handle_empty_expr(node) {
            Ok(o) => o,
            Err(e) => return Err(e),
        };
        let visited = match def {
            Some(x) => Some(self.visit_args_list(x)),
            None => None,
        };
        reorder_option_and_result(visited)
    }

    /// An optional `let_def`.
    pub fn visit_optional_let_def(&self, node: ParserNode) -> (r: Result<Option<StatementNode>, AstBuilderError>)
        requires
            !is_empty_node(node_view(node)) ==> ast_let_def(node_view(node)) is Some,
        ensures
            is_empty_node(node_view(node)) ==> r == Ok::<Option<StatementNode>, AstBuilderError>(None),
            !is_empty_node(node_view(node)) ==> r is Ok ==> r->Ok_0 is Some,
            !is_empty_node(node_view(node)) ==> ast_let_def(node_view(node)) == Some(
                stmt_result(match r {
                    Ok(o) => Ok(o->0),
                    Err(e) => Err(e),
                }),
            ),
    {
        let def = match self.handle_empty_expr(node) {
            Ok(o) => o,
            Err(e) => return Err(e),
        };
        let visited = match def {
            Some(x) => Some(self.visit_let_def(x)),
            None => None,
        };
        reorder_option_and_result(visited)
    }

    /// An optional `expr`.
    pub fn visit_optional_expr(&self, node: ParserNode) -> (r: Result<Option<ExpressionNode>, AstBuilderError>)
        requires
            !is_empty_node(node_view(node)) ==> ast_expr(node_view(node)) is Some,
        ensures
            is_empty_node(node_view(node)) ==> r == Ok::<Option<ExpressionNode>, AstBuilderError>(None),
            !is_empty_node(node_view(node)) ==> r is Ok ==> r->Ok_0 is Some,
            !is_empty_node(node_view(node)) ==> ast_expr(node_view(node)) == Some(
                expr_result(match r {
                    Ok(o) => Ok(o->0),
                    Err(e) => Err(e),
                }),
            ),
    {
        let def = match self.handle_empty_expr(node) {
            Ok(o) => o,
            Err(e) => return Err(e),
        };
        let visited = match def {
            Some(x) => Some(self.visit_expr(x)),
            None => None,
        };
        reorder_option_and_result(visited)
    }

    pub fn visit_access_modifier(&self, node: ParserNode) -> (r: Result<AccessModifier, AstBuilderError>)
        requires
            ast_access_modifier(node_view(node)) is Some,
        ensures
            Some(plain_result(r)) == ast_access_modifier(node_view(node)),
    {
        match node {
            ParserNode::NonTerminal { mut children, span, .. } => {
                // PUBLIC, PROTECTED or PRIVATE
                proof {
                    lemma_nodes_view(children@);
                }
                let modifier = children.remove(0);
                match modifier {
                    ParserNode::NonTerminal { kind, .. } => ErrorBuilder::terminal_expected(
                        "PUBLIC or PROTECTED or PRIVATE",
                        kind,
                        span.0,
                    ),
                    ParserNode::Terminal(token) => {
                        if text_is(&token.kind, "PUBLIC") {
                            Ok(AccessModifier::Public)
                        } else if text_is(&token.kind, "PROTECTED") {
                            Ok(AccessModifier::Protected)
                        } else if text_is(&token.kind, "PRIVATE") {
                            Ok(AccessModifier::Private)
                        } else {
                            ErrorBuilder::unexpected_token_kind(
                                "PUBLIC or PROTECTED or PRIVATE",
                                token.kind.as_str(),
                                span.0,
                            )
                        }
                    },
                }
            },
            ParserNode::Terminal(token) => ErrorBuilder::non_terminal_expected("access_modifier", token),
        }
    }

    pub fn visit_static_modifier(&self, node: ParserNode) -> (r: Result<bool, AstBuilderError>)
        requires
            ast_static(node_view(node)) is Some,
        ensures
            Some(plain_result(r)) == ast_static(node_view(node)),
    {
        match node {
            ParserNode::NonTerminal { span, kind, .. } => ErrorBuilder::terminal_expected("STATIC", kind, span.0),
            ParserNode::Terminal(token) => {
                if text_is(&token.kind, "STATIC") {
                    return Ok(true);
                }
                ErrorBuilder::unexpected_token_kind("STATIC", token.kind.as_str(), token.position.clone())
            },
        }
    }

    pub fn visit_extern_stmt(&self, node: ParserNode) -> (r: Result<StatementNode, AstBuilderError>)
        requires
            ast_extern(node_view(node)) is Some,
        ensures
            Some(stmt_result(r)) == ast_extern(node_view(node)),
    {
        match node {
            ParserNode::NonTerminal { kind, span, .. } => ErrorBuilder::terminal_expected("EXTERN", kind, span.0),
            ParserNode::Terminal(token) => Ok(
                StatementNode::ExternStatement { span: (token.position.clone(), token.get_end_position()) },
            ),
        }
    }

    pub fn visit_import_stmt(&self, node: ParserNode) -> (r: Result<StatementNode, AstBuilderError>)
        requires
            ast_import(node_view(node)) is Some,
        ensures
            Some(stmt_result(r)) == ast_import(node_view(node)),
    {
        match node {
            ParserNode::NonTerminal { mut children, span, .. } => {
                // IMPORT STRING
                proof {
                    lemma_nodes_view(children@);
                }
                let file_path = match self.visit_string_literal(children.remove(1)) {
                    Ok(e) => e,
                    Err(e) => return Err(e),
                };
                Ok(StatementNode::ImportStatement { imported_file_name: file_path, span })
            },
            ParserNode::Terminal(token) => ErrorBuilder::non_terminal_expected("import_stmt", token),
        }
    }

    pub fn visit_let_def(&self, node: ParserNode) -> (r: Result<StatementNode, AstBuilderError>)
        requires
            ast_let_def(node_view(node)) is Some,
        ensures
            Some(stmt_result(r)) == ast_let_def(node_view(node)),
    {
        match node {
            ParserNode::NonTerminal { mut children, span, .. } => {
                // LET IDENTIFIER SET expr
                proof {
                    lemma_nodes_view(children@);
                }
                let variable_node = children.remove(1);
                let expr_node = children.remove(2);
                let variable = match self.visit_variable_name(variable_node) {
                    Ok(v) => v,
                    Err(e) => return Err(e),
                };
                let expr = match self.visit_expr(expr_node) {
                    Ok(v) => v,
                    Err(e) => return Err(e),
                };
                Ok(StatementNode::LetStatement { var_name: variable, value: expr, span })
            },
            ParserNode::Terminal(token) => ErrorBuilder::non_terminal_expected("let_def", token),
        }
    }

    pub fn visit_return_stmt(&self, node: ParserNode) -> (r: Result<StatementNode, AstBuilderError>)
        requires
            ast_return(node_view(node)) is Some,
        ensures
            Some(stmt_result(r)) == ast_return(node_view(node)),
    {
        match node {
            ParserNode::NonTerminal { mut children, span, .. } => {
                // RETURN expr
                proof {
                    lemma_nodes_view(children@);
                }
                let returned_expr_node = children.remove(1);
                let returned_expr = match self.visit_expr(returned_expr_node) {
                    Ok(v) => v,
                    Err(e) => return Err(e),
                };
                Ok(StatementNode::ReturnStatement { value: returned_expr, span })
            },
            ParserNode::Terminal(token) => ErrorBuilder::non_terminal_expected("return_stmt", token),
        }
    }

    pub fn visit_assign_stmt(&self, node: ParserNode) -> (r: Result<StatementNode, AstBuilderError>)
        requires
            ast_assign(node_view(node)) is Some,
        ensures
            Some(stmt_result(r)) == ast_assign(node_view(node)),
    {
        match node {
            ParserNode::NonTerminal { mut children, span, .. } => {
                // postfix_expr SET expr
                proof {
                    lemma_nodes_view(children@);
                }
                let postfix_node = match self.visit_postfix_expr(children.remove(0)) {
                    Ok(v) => v,
                    Err(e) => return Err(e),
                };
                let value_node = match self.visit_expr(children.remove(1)) {
                    Ok(v) => v,
                    Err(e) => return Err(e),
                };
                Ok(StatementNode::AssignmentStatement { left_side: postfix_node, right_side: value_node, span })
            },
            ParserNode::Terminal(token) => ErrorBuilder::non_terminal_expected("assign_stmt", token),
        }
    }

    pub fn visit_postfix_stmt_expr(&self, node: ParserNode) -> (r: Result<StatementNode, AstBuilderError>)
        requires
            ast_postfix_stmt(node_view(node)) is Some,
        ensures
            Some(stmt_result(r)) == ast_postfix_stmt(node_view(node)),
    {
        match node {
            ParserNode::NonTerminal { mut children, span, .. } => {
                proof {
                    lemma_nodes_view(children@);
                }
                let n = children.len();
                if n == 2 {
                    let expr = children.remove(0);
                    let operation = children.remove(0);
                    if kind_is(&operation, "INCREMENT") {
                        let source = match self.visit_postfix_expr(expr) {
                            Ok(v) => v,
                            Err(e) => return Err(e),
                        };
                        return Ok(StatementNode::IncrementStatement { source, span });
                    }
                    let source = match self.visit_postfix_expr(expr) {
                        Ok(v) => v,
                        Err(e) => return Err(e),
                    };
                    return Ok(StatementNode::DecrementStatement { source, span });
                }
                if n == 3 {
                    if kind_is(&children[1], "DOT") {
                        // postfix_expr DOT IDENTIFIER
                        let source = match self.visit_postfix_expr(children.remove(0)) {
                            Ok(v) => v,
                            Err(e) => return Err(e),
                        };
                        let symbol = match self.visit_variable_name(children.remove(1)) {
                            Ok(v) => v,
                            Err(e) => return Err(e),
                        };
                        return Ok(StatementNode::SymbolAccessStatement { source, symbol, span });
                    } else if kind_is(&children[1], "OPEN_PAREN") {
                        // postfix_expr OPEN_PAREN CLOSED_PAREN
                        let source = match self.visit_postfix_expr(children.remove(0)) {
                            Ok(v) => v,
                            Err(e) => return Err(e),
                        };
                        let arguments: Vec<ExpressionNode> = Vec::new();
                        proof {
                            assert(exprs_view(arguments@) =~= Seq::<ExprView>::empty());
                        }
                        return Ok(StatementNode::FunctionCallStatement { source, arguments, span });
                    }
                    let kind = children[1].get_node_kind();
                    return ErrorBuilder::unexpected_token_kind(
                        "DOT or OPEN_PAREN",
                        kind.as_str(),
                        children[1].get_node_start(),
                    );
                }
                if n == 4 {
                    // postfix_expr OPEN_PAREN expression_list CLOSED_PAREN
                    // postfix_expr OPEN_BRACKET expression_list CLOSED_BRACKET
                    let source = match self.visit_postfix_expr(children.remove(0)) {
                        Ok(v) => v,
                        Err(e) => return Err(e),
                    };
                    let args_list = match self.visit_expr_list(children.remove(1)) {
                        Ok(v) => v,
                        Err(e) => return Err(e),
                    };
                    if kind_is(&children[0], "OPEN_PAREN") {
                        return Ok(StatementNode::FunctionCallStatement { source, arguments: args_list, span });
                    } else if kind_is(&children[0], "OPEN_BRACKET") {
                        return Ok(StatementNode::ArrayAccessStatement { source, index: args_list, span });
                    }
                    let kind = children[0].get_node_kind();
                    return ErrorBuilder::unexpected_token_kind(
                        "OPEN_PAREN or OPEN_BRACKET",
                        kind.as_str(),
                        children[0].get_node_start(),
                    );
                }
                ErrorBuilder::unknown_rule_for("postfix_expr stmt", n, span.0)
            },
            ParserNode::Terminal(token) => ErrorBuilder::non_terminal_expected("postfix_expr stmt", token),
        }
    }

    pub fn visit_args_list(&self, node: ParserNode) -> (r: Result<Vec<String>, AstBuilderError>)
        requires
            ast_args_list(node_view(node)) is Some,
        ensures
            Some(names_result(r)) == ast_args_list(node_view(node)),
    {
        proof {
            reveal_strlit("args_list");
        }
        let items = match self.unwrap_left_recursive_tree(node, String::from_str("args_list")) {
            Ok(items) => items,
            Err(e) => return Err(e),
        };
        let ghost iv = nodes_view(items@);
        proof {
            lemma_nodes_view(items@);
        }
        let n = items.len();
        let mut rest = items;
        let mut results: Vec<Result<String, AstBuilderError>> = Vec::new();
        let mut i: usize = 0;
        while i < n
            invariant
                i <= n,
                n == iv.len(),
                rest@.len() == n - i,
                forall|j: int| 0 <= j < rest@.len() ==> node_view(#[trigger] rest@[j]) == iv[i + j],
                args_of(iv.take(i as int)) == name_results_view(results@),
            decreases n - i,
        {
            let item = rest.remove(0);
            let r = match item {
                ParserNode::NonTerminal { kind, span, .. } => ErrorBuilder::terminal_expected("IDENTIFIER", kind, span.0),
                ParserNode::Terminal(token) => Ok(token.text),
            };
            let ghost before = results@;
            results.push(r);
            proof {
                assert(iv.take(i + 1).drop_last() =~= iv.take(i as int));
                assert(results@.drop_last() =~= before);
            }
            i += 1;
        }
        proof {
            assert(iv.take(n as int) =~= iv);
            lemma_first_error_names(results@);
        }
        first_err(results)
    }

    pub fn visit_stmt_list(&self, node: ParserNode) -> (r: Result<Vec<StatementNode>, AstBuilderError>)
        requires
            ast_stmt_list(node_view(node)) is Some,
        ensures
            Some(stmts_result(r)) == ast_stmt_list(node_view(node)),
        decreases node_view(node), 0nat,
    {
        proof {
            reveal_strlit("stmt_list");
        }
        let ghost nv = node_view(node);
        let items = match self.unwrap_left_recursive_tree(node, String::from_str("stmt_list")) {
            Ok(items) => items,
            Err(e) => return Err(e),
        };
        let ghost iv = nodes_view(items@);
        proof {
            lemma_list_stmts(nv);
            lemma_unwrap_below(nv, "stmt_list"@);
            lemma_nodes_view(items@);
        }
        let n = items.len();
        let mut rest = items;
        let mut results: Vec<Result<StatementNode, AstBuilderError>> = Vec::new();
        let mut i: usize = 0;
        while i < n
            invariant
                i <= n,
                n == iv.len(),
                nv == node_view(node),
                rest@.len() == n - i,
                forall|j: int| 0 <= j < rest@.len() ==> node_view(#[trigger] rest@[j]) == iv[i + j],
                stmts_of(iv) is Some,
                forall|j: int| 0 <= j < iv.len() ==> decreases_to!(nv => #[trigger] iv[j]),
                stmts_of(iv.take(i as int)) == Some(stmt_results_view(results@)),
            decreases n - i,
        {
            let item = rest.remove(0);
            proof {
                lemma_stmts_of_prefix(iv, i as int);
                assert(node_view(item) == iv[i as int]);
            }
            let r = self.visit_stmt(item);
            let ghost before = results@;
            results.push(r);
            proof {
                assert(results@.drop_last() =~= before);
            }
            i += 1;
        }
        proof {
            assert(iv.take(n as int) =~= iv);
            lemma_first_error_stmts(results@);
        }
        first_err(results)
    }

    pub fn visit_stmt(&self, node: ParserNode) -> (r: Result<StatementNode, AstBuilderError>)
        requires
            ast_stmt(node_view(node)) is Some,
        ensures
            Some(stmt_result(r)) == ast_stmt(node_view(node)),
        decreases node_view(node), 0nat,
    {
        let ghost nv = node_view(node);
        match node {
            ParserNode::NonTerminal { mut children, .. } => {
                proof {
                    lemma_nodes_view(children@);
                    lemma_kid_below(nv, 0);
                }
                let inner_statement_node = children.remove(0);
                if kind_is(&inner_statement_node, "import_stmt") {
                    self.visit_import_stmt(inner_statement_node)
                } else if kind_is(&inner_statement_node, "class_def") {
                    self.visit_class_def(inner_statement_node)
                } else if kind_is(&inner_statement_node, "let_def") {
                    self.visit_let_def(inner_statement_node)
                } else if kind_is(&inner_statement_node, "func_def") {
                    self.visit_func_def(inner_statement_node)
                } else if kind_is(&inner_statement_node, "if_def") {
                    self.visit_if_def(inner_statement_node)
                } else if kind_is(&inner_statement_node, "while_stmt") {
                    self.visit_while_stmt(inner_statement_node)
                } else if kind_is(&inner_statement_node, "for_stmt") {
                    self.visit_for_stmt(inner_statement_node)
                } else if kind_is(&inner_statement_node, "scope_def") {
                    self.visit_scope_def(inner_statement_node)
                } else if kind_is(&inner_statement_node, "return_stmt") {
                    self.visit_return_stmt(inner_statement_node)
                } else if kind_is(&inner_statement_node, "postfix_expr") {
                    self.visit_postfix_stmt_expr(inner_statement_node)
                } else if kind_is(&inner_statement_node, "assign_stmt") {
                    self.visit_assign_stmt(inner_statement_node)
                } else if kind_is(&inner_statement_node, "EXTERN") {
                    self.visit_extern_stmt(inner_statement_node)
                } else {
                    let kind = inner_statement_node.get_node_kind();
                    ErrorBuilder::unexpected_token_kind(
                        "something_def or return_stmt or postfix_expr",
                        kind.as_str(),
                        inner_statement_node.get_node_start(),
                    )
                }
            },
            ParserNode::Terminal(token) => ErrorBuilder::non_terminal_expected("stmt", token),
        }
    }

    pub fn visit_class_def(&self, node: ParserNode) -> (r: Result<StatementNode, AstBuilderError>)
        requires
            ast_class_def(node_view(node)) is Some,
        ensures
            Some(stmt_result(r)) == ast_class_def(node_view(node)),
        decreases node_view(node), 0nat,
    {
        let ghost nv = node_view(node);
        match node {
            ParserNode::NonTerminal { mut children, span, .. } => {
                let ghost c0 = nodes_view(children@);
                proof {
                    lemma_kids_below(nv);
                    lemma_fill_below(nv, c0, 0, "access_modifier"@);
                }
                self.handle_optional_node(&mut children, 0, String::from_str("access_modifier"));
                let ghost c1 = nodes_view(children@);
                proof {
                    lemma_fill_below(nv, c1, 1, "STATIC"@);
                }
                self.handle_optional_node(&mut children, 1, String::from_str("STATIC"));
                let ghost cs = nodes_view(children@);
                proof {
                    lemma_nodes_view(children@);
                    lemma_kinds_not_empty();
                }
                // access_modifier? STATIC? CLASS IDENTIFIER class_scope
                let access_modifier_node = children.remove(0);
                let static_modifier_node = children.remove(0);
                let identifier_node = children.remove(1);
                let class_scope_node = children.remove(1);
                let access_modifier = match self.visit_optional_access_modifier(access_modifier_node) {
                    Ok(Some(a)) => a,
                    Ok(None) => AccessModifier::Private,
                    Err(e) => return Err(e),
                };
                let is_static = match self.visit_optional_static(static_modifier_node) {
                    Ok(Some(b)) => b,
                    Ok(None) => false,
                    Err(e) => return Err(e),
                };
                let class_name = match self.visit_variable_name(identifier_node) {
                    Ok(v) => v,
                    Err(e) => return Err(e),
                };
                let class_body = match self.visit_class_scope(class_scope_node) {
                    Ok(v) => v,
                    Err(e) => return Err(e),
                };
                Ok(StatementNode::ClassDefStatement { class_name, access_modifier, is_static, body: class_body, span })
            },
            ParserNode::Terminal(token) => ErrorBuilder::non_terminal_expected("class_def", token),
        }
    }

    pub fn visit_class_scope(&self, node: ParserNode) -> (r: Result<Vec<ClassMemberNode>, AstBuilderError>)
        requires
            ast_class_scope(node_view(node)) is Some,
        ensures
            Some(members_result(r)) == ast_class_scope(node_view(node)),
        decreases node_view(node), 0nat,
    {
        let ghost nv = node_view(node);
        match node {
            ParserNode::NonTerminal { mut children, .. } => {
                // OPEN_BRACE class_members_list? CLOSED_BRACE
                let ghost c0 = nodes_view(children@);
                proof {
                    lemma_kids_below(nv);
                    lemma_fill_below(nv, c0, 1, "class_members_list"@);
                }
                self.handle_optional_node(&mut children, 1, String::from_str("class_members_list"));
                proof {
                    lemma_nodes_view(children@);
                    lemma_kinds_not_empty();
                }
                let class_member_list_node = children.remove(1);
                let members = match self.handle_empty_expr(class_member_list_node) {
                    Ok(Some(x)) => match self.visit_class_members_list(x) {
                        Ok(m) => m,
                        Err(e) => return Err(e),
                    },
                    Ok(None) => {
                        let none: Vec<ClassMemberNode> = Vec::new();
                        proof {
                            assert(members_view(none@) =~= Seq::<MemberView>::empty());
                        }
                        none
                    },
                    Err(e) => return Err(e),
                };
                Ok(members)
            },
            ParserNode::Terminal(token) => ErrorBuilder::non_terminal_expected("class_scope", token),
        }
    }

    pub fn visit_class_members_list(&self, node: ParserNode) -> (r: Result<Vec<ClassMemberNode>, AstBuilderError>)
        requires
            ast_members_list(node_view(node)) is Some,
        ensures
            Some(members_result(r)) == ast_members_list(node_view(node)),
        decreases node_view(node), 0nat,
    {
        proof {
            reveal_strlit("class_members_list");
        }
        let ghost nv = node_view(node);
        let items = match self.unwrap_left_recursive_tree(node, String::from_str("class_members_list")) {
            Ok(items) => items,
            Err(e) => return Err(e),
        };
        let ghost iv = nodes_view(items@);
        proof {
            lemma_list_members(nv);
            lemma_unwrap_below(nv, "class_members_list"@);
            lemma_nodes_view(items@);
        }
        let n = items.len();
        let mut rest = items;
        let mut results: Vec<Result<ClassMemberNode, AstBuilderError>> = Vec::new();
        let mut i: usize = 0;
        while i < n
            invariant
                i <= n,
                n == iv.len(),
                nv == node_view(node),
                rest@.len() == n - i,
                forall|j: int| 0 <= j < rest@.len() ==> node_view(#[trigger] rest@[j]) == iv[i + j],
                members_of(iv) is Some,
                forall|j: int| 0 <= j < iv.len() ==> decreases_to!(nv => #[trigger] iv[j]),
                members_of(iv.take(i as int)) == Some(member_results_view(results@)),
            decreases n - i,
        {
            let item = rest.remove(0);
            proof {
                lemma_members_of_prefix(iv, i as int);
                assert(node_view(item) == iv[i as int]);
            }
            let r = self.visit_class_member(item);
            let ghost before = results@;
            results.push(r);
            proof {
                assert(results@.drop_last() =~= before);
            }
            i += 1;
        }
        proof {
            assert(iv.take(n as int) =~= iv);
            lemma_first_error_members(results@);
        }
        first_err(results)
    }

    pub fn visit_class_member(&self, node: ParserNode) -> (r: Result<ClassMemberNode, AstBuilderError>)
        requires
            ast_class_member(node_view(node)) is Some,
        ensures
            Some(member_result(r)) == ast_class_member(node_view(node)),
        decreases node_view(node), 0nat,
    {
        let ghost nv = node_view(node);
        match node {
            ParserNode::NonTerminal { mut children, span, .. } => {
                let ghost c0 = nodes_view(children@);
                proof {
                    lemma_kids_below(nv);
                    lemma_fill_below(nv, c0, 0, "access_modifier"@);
                }
                self.handle_optional_node(&mut children, 0, String::from_str("access_modifier"));
                let ghost c1 = nodes_view(children@);
                proof {
                    lemma_fill_below(nv, c1, 1, "STATIC"@);
                }
                self.handle_optional_node(&mut children, 1, String::from_str("STATIC"));
                let ghost cs = nodes_view(children@);
                proof {
                    lemma_nodes_view(children@);
                    lemma_kinds_not_empty();
                    lemma_subrange_below(nv, cs, 3, cs.len() as int);
                }
                // access_modifier? STATIC? IDENTIFIER ...
                let access_modifier_node = children.remove(0);
                let static_modifier_node = children.remove(0);
                let identifier_node = children.remove(0);
                let ghost rest = cs.subrange(3, cs.len() as int);
                proof {
                    assert forall|k: int| 0 <= k < children@.len() implies node_view(#[trigger] children@[k])
                        == rest[k] by {
                        assert(node_view(children@[k]) == cs[k + 3]);
                    }
                    lemma_views_match(children@, rest);
                }
                let access_modifier = match self.visit_optional_access_modifier(access_modifier_node) {
                    Ok(Some(a)) => a,
                    Ok(None) => AccessModifier::Private,
                    Err(e) => return Err(e),
                };
                let is_static = match self.visit_optional_static(static_modifier_node) {
                    Ok(Some(b)) => b,
                    Ok(None) => false,
                    Err(e) => return Err(e),
                };
                proof {
                    assert(ast_class_member(nv) == ast_member_rest(
                        nv,
                        access_modifier,
                        is_static,
                        node_view(identifier_node),
                        rest,
                        span,
                    ));
                }
                if kind_is(&identifier_node, "CLASS") {
                    // IDENTIFIER class_scope
                    let identifier_node = children.remove(0);
                    let name = match self.visit_variable_name(identifier_node) {
                        Ok(v) => v,
                        Err(e) => return Err(e),
                    };
                    let class_scope = match self.visit_class_scope(children.remove(0)) {
                        Ok(v) => v,
                        Err(e) => return Err(e),
                    };
                    return Ok(ClassMemberNode::Class { access_modifier, is_static, name, body: class_scope, span });
                }
                if kind_is(&identifier_node, "CONSTRUCTOR") {
                    // OPEN_PAREN args_list? CLOSED_PAREN scope_def
                    proof {
                        lemma_fill_below(nv, rest, 1, "args_list"@);
                    }
                    self.handle_optional_node(&mut children, 1, String::from_str("args_list"));
                    proof {
                        lemma_nodes_view(children@);
                    }
                    let arguments_node = children.remove(1);
                    let arguments = match self.visit_optional_args(arguments_node) {
                        Ok(Some(a)) => a,
                        Ok(None) => {
                            let none: Vec<String> = Vec::new();
                            proof {
                                assert(strings_view(none@) =~= Seq::<Seq<char>>::empty());
                            }
                            none
                        },
                        Err(e) => return Err(e),
                    };
                    let constructor_body = match self.handle_scope_node(children.remove(2)) {
                        Ok(v) => v,
                        Err(e) => return Err(e),
                    };
                    return Ok(
                        ClassMemberNode::Constructor { access_modifier, is_static, arguments, body: constructor_body, span },
                    );
                }
                let name = match self.visit_variable_name(identifier_node) {
                    Ok(v) => v,
                    Err(e) => return Err(e),
                };
                // SET expr SEMICOLON, SEMICOLON, or OPEN_PAREN ...
                if kind_is(&children[0], "SET") {
                    let value_node = children.remove(1);
                    let value = match self.visit_expr(value_node) {
                        Ok(v) => v,
                        Err(e) => return Err(e),
                    };
                    return Ok(ClassMemberNode::Field { name, value: Some(value), access_modifier, is_static, span });
                }
                if kind_is(&children[0], "SEMICOLON") {
                    return Ok(ClassMemberNode::Field { name, value: None, access_modifier, is_static, span });
                }
                if kind_is(&children[0], "OPEN_PAREN") {
                    // OPEN_PAREN args_list? CLOSED_PAREN scope_def
                    proof {
                        lemma_fill_below(nv, rest, 1, "args_list"@);
                    }
                    self.handle_optional_node(&mut children, 1, String::from_str("args_list"));
                    proof {
                        lemma_nodes_view(children@);
                    }
                    let args_node = children.remove(1);
                    let scope_node = children.remove(2);
                    let arguments = match self.visit_optional_args(args_node) {
                        Ok(Some(a)) => a,
                        Ok(None) => {
                            let none: Vec<String> = Vec::new();
                            proof {
                                assert(strings_view(none@) =~= Seq::<Seq<char>>::empty());
                            }
                            none
                        },
                        Err(e) => return Err(e),
                    };
                    let body = match self.handle_scope_node(scope_node) {
                        Ok(v) => v,
                        Err(e) => return Err(e),
                    };
                    return Ok(ClassMemberNode::Method { access_modifier, is_static, name, arguments, body, span });
                }
                let kind = children[0].get_node_kind();
                ErrorBuilder::unexpected_token_kind("STATIC", kind.as_str(), children[0].get_node_start())
            },
            ParserNode::Terminal(token) => ErrorBuilder::non_terminal_expected("class_member", token),
        }
    }

    /// The statements of a `scope_def` node.
    pub fn handle_scope_node(&self, node: ParserNode) -> (r: Result<Vec<StatementNode>, AstBuilderError>)
        requires
            scope_body(node_view(node)) is Some,
        ensures
            Some(stmts_result(r)) == scope_body(node_view(node)),
        decreases node_view(node), 1nat,
    {
        let node_kind = node.get_node_kind();
        let node_start = node.get_node_start();
        match self.visit_scope_def(node) {
            Ok(StatementNode::ScopeStatement { body, .. }) => Ok(body),
            Ok(_) => ErrorBuilder::unexpected_token_kind("scope_def", node_kind.as_str(), node_start),
            Err(e) => Err(e),
        }
    }

    pub fn visit_scope_def(&self, node: ParserNode) -> (r: Result<StatementNode, AstBuilderError>)
        requires
            ast_scope_def(node_view(node)) is Some,
        ensures
            Some(stmt_result(r)) == ast_scope_def(node_view(node)),
        decreases node_view(node), 0nat,
    {
        let ghost nv = node_view(node);
        match node {
            ParserNode::NonTerminal { mut children, span, .. } => {
                // OPEN_BRACE stmt_list? CLOSED_BRACE
                let ghost c0 = nodes_view(children@);
                proof {
                    lemma_kids_below(nv);
                    lemma_fill_below(nv, c0, 1, "stmt_list"@);
                }
                self.handle_optional_node(&mut children, 1, String::from_str("stmt_list"));
                proof {
                    lemma_nodes_view(children@);
                    lemma_kinds_not_empty();
                }
                let stmt_list_node = children.remove(1);
                let body = match self.handle_empty_expr(stmt_list_node) {
                    Ok(Some(x)) => match self.visit_stmt_list(x) {
                        Ok(v) => v,
                        Err(e) => return Err(e),
                    },
                    Ok(None) => {
                        let none: Vec<StatementNode> = Vec::new();
                        proof {
                            assert(stmts_view(none@) =~= Seq::<StmtView>::empty());
                        }
                        none
                    },
                    Err(e) => return Err(e),
                };
                Ok(StatementNode::ScopeStatement { body, span })
            },
            ParserNode::Terminal(token) => ErrorBuilder::non_terminal_expected("scope_def", token),
        }
    }

    pub fn visit_func_def(&self, node: ParserNode) -> (r: Result<StatementNode, AstBuilderError>)
        requires
            ast_func_def(node_view(node)) is Some,
        ensures
            Some(stmt_result(r)) == ast_func_def(node_view(node)),
        decreases node_view(node), 0nat,
    {
        let ghost nv = node_view(node);
        match node {
            ParserNode::NonTerminal { mut children, span, .. } => {
                proof {
                    lemma_nodes_view(children@);
                    lemma_kids_below(nv);
                }
                // FUNC IDENTIFIER OPEN_PAREN args_list? CLOSED_PAREN scope_def
                let func_name_node = children.remove(1);
                let args_list_node: Option<ParserNode>;
                if kind_is(&children[2], "args_list") {
                    args_list_node = Some(children.remove(2));
                } else {
                    args_list_node = None;
                }
                let body_node = children.remove(3);
                let func_name = match self.visit_variable_name(func_name_node) {
                    Ok(v) => v,
                    Err(e) => return Err(e),
                };
                let body = match self.handle_scope_node(body_node) {
                    Ok(v) => v,
                    Err(e) => return Err(e),
                };
                let arguments = match args_list_node {
                    Some(x) => match self.visit_args_list(x) {
                        Ok(a) => a,
                        Err(e) => return Err(e),
                    },
                    None => {
                        let none: Vec<String> = Vec::new();
                        proof {
                            assert(strings_view(none@) =~= Seq::<Seq<char>>::empty());
                        }
                        none
                    },
                };
                Ok(StatementNode::FunctionDefStatement { func_name, body, arguments, span })
            },
            ParserNode::Terminal(token) => ErrorBuilder::non_terminal_expected("func_def", token),
        }
    }

    pub fn visit_if_def(&self, node: ParserNode) -> (r: Result<StatementNode, AstBuilderError>)
        requires
            ast_if(node_view(node)) is Some,
        ensures
            Some(stmt_result(r)) == ast_if(node_view(node)),
        decreases node_view(node), 0nat,
    {
        let ghost nv = node_view(node);
        match node {
            ParserNode::NonTerminal { mut children, span, .. } => {
                proof {
                    lemma_nodes_view(children@);
                    lemma_kids_below(nv);
                }
                // IF OPEN_PAREN expr CLOSED_PAREN scope_def (ELSE scope_def)?
                let condition_node = children.remove(2);
                let then_node = children.remove(3);
                let else_node = if children.len() > 3 {
                    Some(children.remove(4))
                } else {
                    None
                };
                let condition = match self.visit_expr(condition_node) {
                    Ok(v) => v,
                    Err(e) => return Err(e),
                };
                let then_branch = match self.handle_scope_node(then_node) {
                    Ok(v) => v,
                    Err(e) => return Err(e),
                };
                let else_branch = match else_node {
                    None => None,
                    Some(x) => match self.handle_scope_node(x) {
                        Ok(v) => Some(v),
                        Err(e) => return Err(e),
                    },
                };
                Ok(StatementNode::IfStatement { condition, then_branch, else_branch, span })
            },
            ParserNode::Terminal(token) => ErrorBuilder::non_terminal_expected("if_def", token),
        }
    }

    pub fn visit_while_stmt(&self, node: ParserNode) -> (r: Result<StatementNode, AstBuilderError>)
        requires
            ast_while(node_view(node)) is Some,
        ensures
            Some(stmt_result(r)) == ast_while(node_view(node)),
        decreases node_view(node), 0nat,
    {
        let ghost nv = node_view(node);
        match node {
            ParserNode::NonTerminal { mut children, span, .. } => {
                proof {
                    lemma_nodes_view(children@);
                    lemma_kids_below(nv);
                }
                // WHILE OPEN_PAREN expr CLOSED_PAREN scope_def
                let condition_node = children.remove(2);
                let body_node = children.remove(3);
                let condition = match self.visit_expr(condition_node) {
                    Ok(v) => v,
                    Err(e) => return Err(e),
                };
                let body = match self.handle_scope_node(body_node) {
                    Ok(v) => v,
                    Err(e) => return Err(e),
                };
                Ok(StatementNode::WhileStatement { condition, body, span })
            },
            ParserNode::Terminal(token) => ErrorBuilder::non_terminal_expected("while_stmt", token),
        }
    }

    pub fn visit_for_stmt(&self, node: ParserNode) -> (r: Result<StatementNode, AstBuilderError>)
        requires
            ast_for(node_view(node)) is Some,
        ensures
            Some(stmt_result(r)) == ast_for(node_view(node)),
        decreases node_view(node), 0nat,
    {
        let ghost nv = node_view(node);
        match node {
            ParserNode::NonTerminal { mut children, span, .. } => {
                let ghost c0 = nodes_view(children@);
                proof {
                    lemma_kids_below(nv);
                    lemma_fill_below(nv, c0, 2, "let_def"@);
                }
                self.handle_optional_node(&mut children, 2, String::from_str("let_def"));
                let ghost c1 = nodes_view(children@);
                proof {
                    lemma_fill_below(nv, c1, 4, "expr"@);
                }
                self.handle_optional_node(&mut children, 4, String::from_str("expr"));
                let ghost c2 = nodes_view(children@);
                proof {
                    lemma_fill_below(nv, c2, 6, "expr"@);
                }
                self.handle_optional_node(&mut children, 6, String::from_str("expr"));
                proof {
                    lemma_nodes_view(children@);
                    lemma_kinds_not_empty();
                }
                // FOR OPEN_PAREN let_def SEMICOLON expr SEMICOLON expr CLOSED_PAREN scope_def
                let let_def_node = children.remove(2);
                let condition_expr_node = children.remove(3);
                let update_expr_node = children.remove(4);
                let scope_def = children.remove(5);
                let indexer_def = match self.visit_optional_let_def(let_def_node) {
                    Ok(Some(s)) => Some(Box::new(s)),
                    Ok(None) => None,
                    Err(e) => return Err(e),
                };
                let condition = match self.visit_optional_expr(condition_expr_node) {
                    Ok(Some(e)) => Some(Box::new(e)),
                    Ok(None) => None,
                    Err(e) => return Err(e),
                };
                let update_expr = match self.visit_optional_expr(update_expr_node) {
                    Ok(Some(e)) => Some(Box::new(e)),
                    Ok(None) => None,
                    Err(e) => return Err(e),
                };
                let body = match self.handle_scope_node(scope_def) {
                    Ok(v) => v,
                    Err(e) => return Err(e),
                };
                Ok(StatementNode::ForStatement { indexer_def, condition, update_expr, body, span })
            },
            ParserNode::Terminal(token) => ErrorBuilder::non_terminal_expected("while_stmt", token),
        }
    }

    /// The abstract syntax tree of a source file: its statements, the
    /// imports set apart.
    pub fn visit_code(&self, node: ParserNode) -> (r: Result<CodeNode, AstBuilderError>)
        requires
            ast_code(node_view(node)) is Some,
        ensures
            Some(code_result(r)) == ast_code(node_view(node)),
    {
        match node {
            ParserNode::NonTerminal { kind, mut children, span } => {
                if !text_is(&kind, "code") {
                    return ErrorBuilder::unexpected_token_kind("code", kind.as_str(), span.0);
                }
                proof {
                    lemma_nodes_view(children@);
                }
                let stmt_tree = children.remove(0);
                let statement_list = match self.visit_stmt_list(stmt_tree) {
                    Ok(v) => v,
                    Err(e) => return Err(e),
                };
                let ghost sv = stmts_view(statement_list@);
                proof {
                    lemma_stmts_view(statement_list@);
                }
                let n = statement_list.len();
                let mut rest = statement_list;
                let mut code: Vec<StatementNode> = Vec::new();
                let mut imports: Vec<StatementNode> = Vec::new();
                let mut i: usize = 0;
                proof {
                    assert(stmts_view(code@) =~= Seq::<StmtView>::empty());
                    assert(stmts_view(imports@) =~= Seq::<StmtView>::empty());
                }
                while i < n
                    invariant
                        i <= n,
                        n == sv.len(),
                        rest@.len() == n - i,
                        forall|j: int| 0 <= j < rest@.len() ==> stmt_view(#[trigger] rest@[j]) == sv[i + j],
                        stmts_view(imports@) == imports_of(sv.take(i as int)),
                        stmts_view(code@) == others_of(sv.take(i as int)),
                    decreases n - i,
                {
                    let stmt = rest.remove(0);
                    let is_import = match &stmt {
                        StatementNode::ImportStatement { .. } => true,
                        _ => false,
                    };
                    proof {
                        assert(sv.take(i + 1).drop_last() =~= sv.take(i as int));
                        assert(sv.take(i + 1).last() == stmt_view(stmt));
                    }
                    if is_import {
                        let ghost before = imports@;
                        imports.push(stmt);
                        proof {
                            assert(imports@.drop_last() =~= before);
                        }
                    } else {
                        let ghost before = code@;
                        code.push(stmt);
                        proof {
                            assert(code@.drop_last() =~= before);
                        }
                    }
                    i += 1;
                }
                proof {
                    assert(sv.take(n as int) =~= sv);
                }
                Ok(CodeNode { imports_list: imports, statement_list: code, span })
            },
            ParserNode::Terminal(token) => ErrorBuilder::non_terminal_expected("code", token),
        }
    }
}

} // verus!
