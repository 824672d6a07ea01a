//! The decisions of reading a project: which files the imports of an
//! analyzed file name.
use crate::frontend_v0::ast_builder::ast_spec::{err_view, view_expr_span, view_name, AstErr};
use crate::frontend_v0::ast_builder::nodes::{
    expr_name, expr_span, expr_view, stmt_name, stmt_span, stmt_view, CodeNode, ExprView, ExpressionNode,
    StatementNode, StmtView,
};
use crate::frontend_v0::errors::ast_errors::{AstBuilderError, ErrorBuilder};
use crate::frontend_v0::file_analyzer::FileAnalyzerError;
use crate::text::strs;
use vstd::prelude::*;

verus! {

/// The file that an import statement names: the text of its string; an
/// error for another statement, or an import of something else.
pub open spec fn imported_path(s: StatementNode) -> Result<Seq<char>, AstErr> {
    match stmt_view(s) {
        StmtView::Import { file, .. } => match file {
            ExprView::Str { value, .. } => Ok(value),
            _ => Err(
                AstErr::UnexpectedSyntaxNode {
                    expected: "StringLiteral"@,
                    given: view_name(file),
                    position: view_expr_span(file).0,
                },
            ),
        },
        _ => Err(
            AstErr::UnexpectedSyntaxNode { expected: "StringLiteral"@, given: stmt_name(s), position: stmt_span(s).0 },
        ),
    }
}

/// The name and the span of an expression are those of its view.
proof fn lemma_name_span(e: ExpressionNode)
    ensures
        view_name(expr_view(e)) == expr_name(e),
        view_expr_span(expr_view(e)) == expr_span(e),
{
}

/// The file that the import statement `node` names.
pub fn get_imported_file_path(node: StatementNode) -> (r: Result<String, AstBuilderError>)
    ensures
        match r {
            Ok(s) => imported_path(node) == Ok::<Seq<char>, AstErr>(s@),
            Err(e) => imported_path(node) == Err::<Seq<char>, AstErr>(err_view(e)),
        },
{
    imported_file_path_of(&node)
}

/// The file that the import statement `node` names.
fn imported_file_path_of(node: &StatementNode) -> (r: Result<String, AstBuilderError>)
    ensures
        match r {
            Ok(s) => imported_path(*node) == Ok::<Seq<char>, AstErr>(s@),
            Err(e) => imported_path(*node) == Err::<Seq<char>, AstErr>(err_view(e)),
        },
{
    match node {
        StatementNode::ImportStatement { imported_file_name, .. } => {
            proof {
                lemma_name_span(*imported_file_name);
            }
            match imported_file_name {
                ExpressionNode::StringLiteral { value, .. } => Ok(value.clone()),
                other => {
                    let position = other.span().0;
                    ErrorBuilder::unexpected_syntax_node("StringLiteral", other.name(), position)
                },
            }
        },
        _ => {
            let start = node.span().0;
            ErrorBuilder::unexpected_syntax_node("StringLiteral", node.name(), start)
        },
    }
}

/// The files that the imports of `ast` name, in their order, and the errors
/// of the imports that name none.
pub fn imported_files(ast: &CodeNode) -> (r: (Vec<String>, Vec<AstBuilderError>))
    ensures
        r.0@.len() + r.1@.len() == ast.imports_list@.len(),
        forall|i: int|
            #![trigger ast.imports_list@[i]]
            0 <= i < ast.imports_list@.len() ==> match imported_path(ast.imports_list@[i]) {
                Ok(p) => exists|j: int| 0 <= j < r.0@.len() && r.0@[j]@ == p,
                Err(e) => exists|j: int| 0 <= j < r.1@.len() && err_view(r.1@[j]) == e,
            },
        r.0@.map_values(|s: String| s@) == paths_of(ast.imports_list@),
        r.1@.map_values(|e: AstBuilderError| err_view(e)) == path_errors_of(ast.imports_list@),
{
    let mut paths: Vec<String> = Vec::new();
    let mut errors: Vec<AstBuilderError> = Vec::new();
    let mut i: usize = 0;
    let n = ast.imports_list.len();
    proof {
        assert(paths@.map_values(|s: String| s@) =~= paths_of(ast.imports_list@.take(0)));
        assert(errors@.map_values(|e: AstBuilderError| err_view(e)) =~= path_errors_of(ast.imports_list@.take(0)));
    }
    while i < n
        invariant
            i <= n,
            n == ast.imports_list@.len(),
            paths@.map_values(|s: String| s@) == paths_of(ast.imports_list@.take(i as int)),
            errors@.map_values(|e: AstBuilderError| err_view(e)) == path_errors_of(ast.imports_list@.take(i as int)),
        decreases n - i,
    {
        proof {
            assert(ast.imports_list@.take(i + 1).drop_last() =~= ast.imports_list@.take(i as int));
        }
        match imported_file_path_of(&ast.imports_list[i]) {
            Ok(path) => {
                paths.push(path);
                proof {
                    assert(paths@.map_values(|s: String| s@) =~= paths_of(ast.imports_list@.take(i + 1)));
                    assert(errors@.map_values(|e: AstBuilderError| err_view(e)) =~= path_errors_of(
                        ast.imports_list@.take(i + 1),
                    ));
                }
            },
            Err(e) => {
                errors.push(e);
                proof {
                    assert(paths@.map_values(|s: String| s@) =~= paths_of(ast.imports_list@.take(i + 1)));
                    assert(errors@.map_values(|e: AstBuilderError| err_view(e)) =~= path_errors_of(
                        ast.imports_list@.take(i + 1),
                    ));
                }
            },
        }
        i += 1;
    }
    proof {
        assert(ast.imports_list@.take(n as int) =~= ast.imports_list@);
        lemma_paths_count(ast.imports_list@);
        assert forall|k: int|
            #![trigger ast.imports_list@[k]]
            0 <= k < ast.imports_list@.len() implies match imported_path(ast.imports_list@[k]) {
                Ok(p) => exists|j: int| 0 <= j < paths@.len() && paths@[j]@ == p,
                Err(e) => exists|j: int| 0 <= j < errors@.len() && err_view(errors@[j]) == e,
            } by {
            lemma_paths_contain(ast.imports_list@, k);
            match imported_path(ast.imports_list@[k]) {
                Ok(p) => {
                    let j = choose|j: int| 0 <= j < paths_of(ast.imports_list@).len() && paths_of(ast.imports_list@)[j] == p;
                    assert(paths@.map_values(|s: String| s@)[j] == paths@[j]@);
                },
                Err(e) => {
                    let j = choose|j: int|
                        0 <= j < path_errors_of(ast.imports_list@).len() && path_errors_of(ast.imports_list@)[j] == e;
                    assert(errors@.map_values(|e: AstBuilderError| err_view(e))[j] == err_view(errors@[j]));
                },
            }
        }
    }
    (paths, errors)
}

/// The files that the statements `s` import, in order.
pub open spec fn paths_of(s: Seq<StatementNode>) -> Seq<Seq<char>>
    decreases s.len(),
{
    if s.len() == 0 {
        Seq::empty()
    } else {
        match imported_path(s.last()) {
            Ok(p) => paths_of(s.drop_last()).push(p),
            Err(_) => paths_of(s.drop_last()),
        }
    }
}

/// The errors of the statements `s` that import no file, in order.
pub open spec fn path_errors_of(s: Seq<StatementNode>) -> Seq<AstErr>
    decreases s.len(),
{
    if s.len() == 0 {
        Seq::empty()
    } else {
        match imported_path(s.last()) {
            Ok(_) => path_errors_of(s.drop_last()),
            Err(e) => path_errors_of(s.drop_last()).push(e),
        }
    }
}

proof fn lemma_paths_count(s: Seq<StatementNode>)
    ensures
        paths_of(s).len() + path_errors_of(s).len() == s.len(),
    decreases s.len(),
{
    if s.len() > 0 {
        lemma_paths_count(s.drop_last());
    }
}

proof fn lemma_paths_contain(s: Seq<StatementNode>, k: int)
    requires
        0 <= k < s.len(),
    ensures
        imported_path(s[k]) matches Ok(p) ==> exists|j: int| 0 <= j < paths_of(s).len() && paths_of(s)[j] == p,
        imported_path(s[k]) matches Err(e) ==> exists|j: int|
            0 <= j < path_errors_of(s).len() && path_errors_of(s)[j] == e,
    decreases s.len(),
{
    if k < s.len() - 1 {
        lemma_paths_contain(s.drop_last(), k);
        assert(s.drop_last()[k] == s[k]);
        match imported_path(s[k]) {
            Ok(p) => {
                let j = choose|j: int| 0 <= j < paths_of(s.drop_last()).len() && paths_of(s.drop_last())[j] == p;
                assert(paths_of(s)[j] == p);
            },
            Err(e) => {
                let j = choose|j: int|
                    0 <= j < path_errors_of(s.drop_last()).len() && path_errors_of(s.drop_last())[j] == e;
                assert(path_errors_of(s)[j] == e);
            },
        }
    } else {
        match imported_path(s[k]) {
            Ok(p) => {
                assert(paths_of(s)[paths_of(s).len() - 1] == p);
            },
            Err(e) => {
                assert(path_errors_of(s)[path_errors_of(s).len() - 1] == e);
            },
        }
    }
}

/// One step of reading a project: after the file at the front of the queue
/// was analyzed with `result`, the files still waiting, `rest`, followed by
/// the files that the imports of its tree name when it has one.
pub fn queue_after(rest: Vec<String>, result: &Result<CodeNode, FileAnalyzerError>) -> (r: Vec<String>)
    ensures
        strs(r@) == strs(rest@) + match result {
            Ok(ast) => paths_of(ast.imports_list@),
            Err(_) => Seq::empty(),
        },
{
    let mut queue = rest;
    match result {
        Ok(ast) => {
            let (imports, _errors) = imported_files(ast);
            let ghost start = strs(queue@);
            let mut k: usize = 0;
            while k < imports.len()
                invariant
                    k <= imports@.len(),
                    strs(queue@) == start + strs(imports@.take(k as int)),
                decreases imports@.len() - k,
            {
                let ghost before = strs(queue@);
                queue.push(imports[k].clone());
                assert(strs(queue@) =~= before.push(imports@[k as int]@));
                assert(strs(imports@.take(k + 1)) =~= strs(imports@.take(k as int)).push(imports@[k as int]@));
                k += 1;
            }
            assert(imports@.take(k as int) =~= imports@);
            assert(strs(imports@) == paths_of(ast.imports_list@));
        },
        Err(_) => {
            assert(strs(queue@) + Seq::empty() =~= strs(queue@));
        },
    }
    queue
}

} // verus!
