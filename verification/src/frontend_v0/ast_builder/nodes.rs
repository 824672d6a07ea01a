//! The abstract syntax tree of a FUSS source file.
use crate::frontend_v0::parser::common::parser::Span;
use vstd::prelude::*;

verus! {

/// A source file: its imports, its other statements, and its span.
pub struct CodeNode {
    pub imports_list: Vec<StatementNode>,
    pub statement_list: Vec<StatementNode>,
    pub span: Span,
}

#[derive(Clone, Copy, PartialEq, Eq, Structural, Debug)]
pub enum AccessModifier {
    Public,
    Protected,
    Private,
}

pub enum ClassMemberNode {
    Field { access_modifier: AccessModifier, is_static: bool, name: String, value: Option<ExpressionNode>, span: Span },
    Method {
        access_modifier: AccessModifier,
        is_static: bool,
        name: String,
        arguments: Vec<String>,
        body: Vec<StatementNode>,
        span: Span,
    },
    Constructor { access_modifier: AccessModifier, is_static: bool, arguments: Vec<String>, body: Vec<StatementNode>, span: Span },
    Class { access_modifier: AccessModifier, is_static: bool, name: String, body: Vec<ClassMemberNode>, span: Span },
}

pub enum StatementNode {
    ImportStatement { imported_file_name: ExpressionNode, span: Span },
    LetStatement { var_name: String, value: ExpressionNode, span: Span },
    FunctionDefStatement { func_name: String, arguments: Vec<String>, body: Vec<StatementNode>, span: Span },
    ClassDefStatement {
        class_name: String,
        access_modifier: AccessModifier,
        is_static: bool,
        body: Vec<ClassMemberNode>,
        span: Span,
    },
    IfStatement {
        condition: ExpressionNode,
        then_branch: Vec<StatementNode>,
        else_branch: Option<Vec<StatementNode>>,
        span: Span,
    },
    WhileStatement { condition: ExpressionNode, body: Vec<StatementNode>, span: Span },
    ForStatement {
        indexer_def: Option<Box<StatementNode>>,
        condition: Option<Box<ExpressionNode>>,
        update_expr: Option<Box<ExpressionNode>>,
        body: Vec<StatementNode>,
        span: Span,
    },
    ScopeStatement { body: Vec<StatementNode>, span: Span },
    ReturnStatement { value: ExpressionNode, span: Span },
    FunctionCallStatement { source: ExpressionNode, arguments: Vec<ExpressionNode>, span: Span },
    SymbolAccessStatement { source: ExpressionNode, symbol: String, span: Span },
    ArrayAccessStatement { source: ExpressionNode, index: Vec<ExpressionNode>, span: Span },
    IncrementStatement { source: ExpressionNode, span: Span },
    DecrementStatement { source: ExpressionNode, span: Span },
    AssignmentStatement { left_side: ExpressionNode, right_side: ExpressionNode, span: Span },
    ExternStatement { span: Span },
}

pub enum ExpressionNode {
    AndExpression { left: Box<ExpressionNode>, right: Box<ExpressionNode>, span: Span },
    WideAndExpression { left: Box<ExpressionNode>, right: Box<ExpressionNode>, span: Span },
    OrExpression { left: Box<ExpressionNode>, right: Box<ExpressionNode>, span: Span },
    WideOrExpression { left: Box<ExpressionNode>, right: Box<ExpressionNode>, span: Span },
    XorExpression { left: Box<ExpressionNode>, right: Box<ExpressionNode>, span: Span },
    IsEqualComparison { left: Box<ExpressionNode>, right: Box<ExpressionNode>, span: Span },
    NotEqualComparison { left: Box<ExpressionNode>, right: Box<ExpressionNode>, span: Span },
    GreaterComparison { left: Box<ExpressionNode>, right: Box<ExpressionNode>, span: Span },
    GreaterOrEqualComparison { left: Box<ExpressionNode>, right: Box<ExpressionNode>, span: Span },
    LessComparison { left: Box<ExpressionNode>, right: Box<ExpressionNode>, span: Span },
    LessOrEqualComparison { left: Box<ExpressionNode>, right: Box<ExpressionNode>, span: Span },
    AddExpression { left: Box<ExpressionNode>, right: Box<ExpressionNode>, span: Span },
    SubtractExpression { left: Box<ExpressionNode>, right: Box<ExpressionNode>, span: Span },
    MultiplyExpression { left: Box<ExpressionNode>, right: Box<ExpressionNode>, span: Span },
    DivideExpression { left: Box<ExpressionNode>, right: Box<ExpressionNode>, span: Span },
    NotExpression { source: Box<ExpressionNode>, span: Span },
    NewExpression { class: Box<ExpressionNode>, arguments: Vec<ExpressionNode>, span: Span },
    InverseExpression { source: Box<ExpressionNode>, span: Span },
    NegateExpression { source: Box<ExpressionNode>, span: Span },
    SymbolAccessExpression { source: Box<ExpressionNode>, symbol: String, span: Span },
    FunctionCallExpression { source: Box<ExpressionNode>, arguments: Vec<ExpressionNode>, span: Span },
    IndexAccessExpression { source: Box<ExpressionNode>, index: Vec<ExpressionNode>, span: Span },
    IncrementExpression { source: Box<ExpressionNode>, span: Span },
    DecrementExpression { source: Box<ExpressionNode>, span: Span },
    Variable { name: String, span: Span },
    NumberLiteral { value: i32, span: Span },
    BooleanLiteral { value: bool, span: Span },
    StringLiteral { value: String, span: Span },
    ArrayDefinition { elements: Vec<ExpressionNode>, span: Span },
}

/// The operator of an expression with two operands.
#[derive(Clone, Copy, PartialEq, Eq, Structural, Debug)]
pub enum BinaryOp {
    And,
    WideAnd,
    Or,
    WideOr,
    Xor,
    IsEqual,
    NotEqual,
    Greater,
    GreaterOrEqual,
    Less,
    LessOrEqual,
    Add,
    Subtract,
    Multiply,
    Divide,
}

/// The operator of an expression with one operand.
#[derive(Clone, Copy, PartialEq, Eq, Structural, Debug)]
pub enum UnaryOp {
    Not,
    Inverse,
    Negate,
    Increment,
    Decrement,
}

/// The view of an expression: strings as character sequences, lists as
/// sequences.
pub enum ExprView {
    Binary { op: BinaryOp, left: Box<ExprView>, right: Box<ExprView>, span: Span },
    Unary { op: UnaryOp, source: Box<ExprView>, span: Span },
    New { class: Box<ExprView>, arguments: Seq<ExprView>, span: Span },
    SymbolAccess { source: Box<ExprView>, symbol: Seq<char>, span: Span },
    FunctionCall { source: Box<ExprView>, arguments: Seq<ExprView>, span: Span },
    IndexAccess { source: Box<ExprView>, index: Seq<ExprView>, span: Span },
    Variable { name: Seq<char>, span: Span },
    Number { value: i32, span: Span },
    Boolean { value: bool, span: Span },
    Str { value: Seq<char>, span: Span },
    Array { elements: Seq<ExprView>, span: Span },
}

/// The view of an expression.
pub open spec fn expr_view(e: ExpressionNode) -> ExprView
    decreases e, 0nat,
{
    match e {
        ExpressionNode::AndExpression { left, right, span } => ExprView::Binary { op: BinaryOp::And, left: Box::new(expr_view(*left)), right: Box::new(expr_view(*right)), span },
        ExpressionNode::WideAndExpression { left, right, span } => ExprView::Binary { op: BinaryOp::WideAnd, left: Box::new(expr_view(*left)), right: Box::new(expr_view(*right)), span },
        ExpressionNode::OrExpression { left, right, span } => ExprView::Binary { op: BinaryOp::Or, left: Box::new(expr_view(*left)), right: Box::new(expr_view(*right)), span },
        ExpressionNode::WideOrExpression { left, right, span } => ExprView::Binary { op: BinaryOp::WideOr, left: Box::new(expr_view(*left)), right: Box::new(expr_view(*right)), span },
        ExpressionNode::XorExpression { left, right, span } => ExprView::Binary { op: BinaryOp::Xor, left: Box::new(expr_view(*left)), right: Box::new(expr_view(*right)), span },
        ExpressionNode::IsEqualComparison { left, right, span } => ExprView::Binary { op: BinaryOp::IsEqual, left: Box::new(expr_view(*left)), right: Box::new(expr_view(*right)), span },
        ExpressionNode::NotEqualComparison { left, right, span } => ExprView::Binary { op: BinaryOp::NotEqual, left: Box::new(expr_view(*left)), right: Box::new(expr_view(*right)), span },
        ExpressionNode::GreaterComparison { left, right, span } => ExprView::Binary { op: BinaryOp::Greater, left: Box::new(expr_view(*left)), right: Box::new(expr_view(*right)), span },
        ExpressionNode::GreaterOrEqualComparison { left, right, span } => ExprView::Binary { op: BinaryOp::GreaterOrEqual, left: Box::new(expr_view(*left)), right: Box::new(expr_view(*right)), span },
        ExpressionNode::LessComparison { left, right, span } => ExprView::Binary { op: BinaryOp::Less, left: Box::new(expr_view(*left)), right: Box::new(expr_view(*right)), span },
        ExpressionNode::LessOrEqualComparison { left, right, span } => ExprView::Binary { op: BinaryOp::LessOrEqual, left: Box::new(expr_view(*left)), right: Box::new(expr_view(*right)), span },
        ExpressionNode::AddExpression { left, right, span } => ExprView::Binary { op: BinaryOp::Add, left: Box::new(expr_view(*left)), right: Box::new(expr_view(*right)), span },
        ExpressionNode::SubtractExpression { left, right, span } => ExprView::Binary { op: BinaryOp::Subtract, left: Box::new(expr_view(*left)), right: Box::new(expr_view(*right)), span },
        ExpressionNode::MultiplyExpression { left, right, span } => ExprView::Binary { op: BinaryOp::Multiply, left: Box::new(expr_view(*left)), right: Box::new(expr_view(*right)), span },
        ExpressionNode::DivideExpression { left, right, span } => ExprView::Binary { op: BinaryOp::Divide, left: Box::new(expr_view(*left)), right: Box::new(expr_view(*right)), span },
        ExpressionNode::NotExpression { source, span } => ExprView::Unary { op: UnaryOp::Not, source: Box::new(expr_view(*source)), span },
        ExpressionNode::InverseExpression { source, span } => ExprView::Unary { op: UnaryOp::Inverse, source: Box::new(expr_view(*source)), span },
        ExpressionNode::NegateExpression { source, span } => ExprView::Unary { op: UnaryOp::Negate, source: Box::new(expr_view(*source)), span },
        ExpressionNode::IncrementExpression { source, span } => ExprView::Unary { op: UnaryOp::Increment, source: Box::new(expr_view(*source)), span },
        ExpressionNode::DecrementExpression { source, span } => ExprView::Unary { op: UnaryOp::Decrement, source: Box::new(expr_view(*source)), span },
        ExpressionNode::NewExpression { class, arguments, span } => ExprView::New { class: Box::new(expr_view(*class)), arguments: exprs_view(arguments@), span },
        ExpressionNode::SymbolAccessExpression { source, symbol, span } => ExprView::SymbolAccess { source: Box::new(expr_view(*source)), symbol: symbol@, span },
        ExpressionNode::FunctionCallExpression { source, arguments, span } => ExprView::FunctionCall { source: Box::new(expr_view(*source)), arguments: exprs_view(arguments@), span },
        ExpressionNode::IndexAccessExpression { source, index, span } => ExprView::IndexAccess { source: Box::new(expr_view(*source)), index: exprs_view(index@), span },
        ExpressionNode::Variable { name, span } => ExprView::Variable { name: name@, span },
        ExpressionNode::NumberLiteral { value, span } => ExprView::Number { value, span },
        ExpressionNode::BooleanLiteral { value, span } => ExprView::Boolean { value, span },
        ExpressionNode::StringLiteral { value, span } => ExprView::Str { value: value@, span },
        ExpressionNode::ArrayDefinition { elements, span } => ExprView::Array { elements: exprs_view(elements@), span },
    }
}

/// The views of a list of expressions.
pub open spec fn exprs_view(s: Seq<ExpressionNode>) -> Seq<ExprView>
    decreases s, 1nat,
{
    if s.len() == 0 {
        Seq::empty()
    } else {
        exprs_view(s.drop_last()).push(expr_view(s.last()))
    }
}

pub proof fn lemma_exprs_view(s: Seq<ExpressionNode>)
    ensures
        exprs_view(s).len() == s.len(),
        forall|i: int| 0 <= i < s.len() ==> #[trigger] exprs_view(s)[i] == expr_view(s[i]),
    decreases s.len(),
{
    if s.len() > 0 {
        lemma_exprs_view(s.drop_last());
        assert forall|i: int| 0 <= i < s.len() implies #[trigger] exprs_view(s)[i] == expr_view(s[i]) by {
            if i < s.len() - 1 {
                assert(s.drop_last()[i] == s[i]);
            }
        }
    }
}

/// The view of a statement.
pub enum StmtView {
    Import { file: ExprView, span: Span },
    Let { var_name: Seq<char>, value: ExprView, span: Span },
    FunctionDef { name: Seq<char>, arguments: Seq<Seq<char>>, body: Seq<StmtView>, span: Span },
    ClassDef { name: Seq<char>, access: AccessModifier, is_static: bool, body: Seq<MemberView>, span: Span },
    If { condition: ExprView, then_branch: Seq<StmtView>, else_branch: Option<Seq<StmtView>>, span: Span },
    While { condition: ExprView, body: Seq<StmtView>, span: Span },
    For {
        indexer: Option<Box<StmtView>>,
        condition: Option<ExprView>,
        update: Option<ExprView>,
        body: Seq<StmtView>,
        span: Span,
    },
    Scope { body: Seq<StmtView>, span: Span },
    Return { value: ExprView, span: Span },
    FunctionCall { source: ExprView, arguments: Seq<ExprView>, span: Span },
    SymbolAccess { source: ExprView, symbol: Seq<char>, span: Span },
    ArrayAccess { source: ExprView, index: Seq<ExprView>, span: Span },
    Increment { source: ExprView, span: Span },
    Decrement { source: ExprView, span: Span },
    Assignment { left: ExprView, right: ExprView, span: Span },
    Extern { span: Span },
}

/// The view of a member of a class.
pub enum MemberView {
    Field { access: AccessModifier, is_static: bool, name: Seq<char>, value: Option<ExprView>, span: Span },
    Method { access: AccessModifier, is_static: bool, name: Seq<char>, arguments: Seq<Seq<char>>, body: Seq<StmtView>, span: Span },
    Constructor { access: AccessModifier, is_static: bool, arguments: Seq<Seq<char>>, body: Seq<StmtView>, span: Span },
    Class { access: AccessModifier, is_static: bool, name: Seq<char>, body: Seq<MemberView>, span: Span },
}

pub open spec fn strings_view(v: Seq<String>) -> Seq<Seq<char>> {
    v.map_values(|s: String| s@)
}

/// The view of a statement.
pub open spec fn stmt_view(s: StatementNode) -> StmtView
    decreases s, 0nat,
{
    match s {
        StatementNode::ImportStatement { imported_file_name, span } => StmtView::Import { file: expr_view(imported_file_name), span },
        StatementNode::LetStatement { var_name, value, span } => StmtView::Let { var_name: var_name@, value: expr_view(value), span },
        StatementNode::FunctionDefStatement { func_name, arguments, body, span } => StmtView::FunctionDef {
            name: func_name@,
            arguments: strings_view(arguments@),
            body: stmts_view(body@),
            span,
        },
        StatementNode::ClassDefStatement { class_name, access_modifier, is_static, body, span } => StmtView::ClassDef {
            name: class_name@,
            access: access_modifier,
            is_static,
            body: members_view(body@),
            span,
        },
        StatementNode::IfStatement { condition, then_branch, else_branch, span } => StmtView::If {
            condition: expr_view(condition),
            then_branch: stmts_view(then_branch@),
            else_branch: match else_branch {
                Some(b) => Some(stmts_view(b@)),
                None => None,
            },
            span,
        },
        StatementNode::WhileStatement { condition, body, span } => StmtView::While { condition: expr_view(condition), body: stmts_view(body@), span },
        StatementNode::ForStatement { indexer_def, condition, update_expr, body, span } => StmtView::For {
            indexer: match indexer_def {
                Some(b) => Some(Box::new(stmt_view(*b))),
                None => None,
            },
            condition: match condition {
                Some(c) => Some(expr_view(*c)),
                None => None,
            },
            update: match update_expr {
                Some(u) => Some(expr_view(*u)),
                None => None,
            },
            body: stmts_view(body@),
            span,
        },
        StatementNode::ScopeStatement { body, span } => StmtView::Scope { body: stmts_view(body@), span },
        StatementNode::ReturnStatement { value, span } => StmtView::Return { value: expr_view(value), span },
        StatementNode::FunctionCallStatement { source, arguments, span } => StmtView::FunctionCall { source: expr_view(source), arguments: exprs_view(arguments@), span },
        StatementNode::SymbolAccessStatement { source, symbol, span } => StmtView::SymbolAccess { source: expr_view(source), symbol: symbol@, span },
        StatementNode::ArrayAccessStatement { source, index, span } => StmtView::ArrayAccess { source: expr_view(source), index: exprs_view(index@), span },
        StatementNode::IncrementStatement { source, span } => StmtView::Increment { source: expr_view(source), span },
        StatementNode::DecrementStatement { source, span } => StmtView::Decrement { source: expr_view(source), span },
        StatementNode::AssignmentStatement { left_side, right_side, span } => StmtView::Assignment { left: expr_view(left_side), right: expr_view(right_side), span },
        StatementNode::ExternStatement { span } => StmtView::Extern { span },
    }
}

/// The views of a list of statements.
pub open spec fn stmts_view(s: Seq<StatementNode>) -> Seq<StmtView>
    decreases s, 1nat,
{
    if s.len() == 0 {
        Seq::empty()
    } else {
        stmts_view(s.drop_last()).push(stmt_view(s.last()))
    }
}

/// The view of a member of a class.
pub open spec fn member_view(m: ClassMemberNode) -> MemberView
    decreases m, 0nat,
{
    match m {
        ClassMemberNode::Field { access_modifier, is_static, name, value, span } => MemberView::Field {
            access: access_modifier,
            is_static,
            name: name@,
            value: match value {
                Some(v) => Some(expr_view(v)),
                None => None,
            },
            span,
        },
        ClassMemberNode::Method { access_modifier, is_static, name, arguments, body, span } => MemberView::Method {
            access: access_modifier,
            is_static,
            name: name@,
            arguments: strings_view(arguments@),
            body: stmts_view(body@),
            span,
        },
        ClassMemberNode::Constructor { access_modifier, is_static, arguments, body, span } => MemberView::Constructor {
            access: access_modifier,
            is_static,
            arguments: strings_view(arguments@),
            body: stmts_view(body@),
            span,
        },
        ClassMemberNode::Class { access_modifier, is_static, name, body, span } => MemberView::Class {
            access: access_modifier,
            is_static,
            name: name@,
            body: members_view(body@),
            span,
        },
    }
}

/// The views of a list of members.
pub open spec fn members_view(s: Seq<ClassMemberNode>) -> Seq<MemberView>
    decreases s, 1nat,
{
    if s.len() == 0 {
        Seq::empty()
    } else {
        members_view(s.drop_last()).push(member_view(s.last()))
    }
}

pub proof fn lemma_stmts_view(s: Seq<StatementNode>)
    ensures
        stmts_view(s).len() == s.len(),
        forall|i: int| 0 <= i < s.len() ==> #[trigger] stmts_view(s)[i] == stmt_view(s[i]),
    decreases s.len(),
{
    if s.len() > 0 {
        lemma_stmts_view(s.drop_last());
        assert forall|i: int| 0 <= i < s.len() implies #[trigger] stmts_view(s)[i] == stmt_view(s[i]) by {
            if i < s.len() - 1 {
                assert(s.drop_last()[i] == s[i]);
            }
        }
    }
}

pub proof fn lemma_members_view(s: Seq<ClassMemberNode>)
    ensures
        members_view(s).len() == s.len(),
        forall|i: int| 0 <= i < s.len() ==> #[trigger] members_view(s)[i] == member_view(s[i]),
    decreases s.len(),
{
    if s.len() > 0 {
        lemma_members_view(s.drop_last());
        assert forall|i: int| 0 <= i < s.len() implies #[trigger] members_view(s)[i] == member_view(s[i]) by {
            if i < s.len() - 1 {
                assert(s.drop_last()[i] == s[i]);
            }
        }
    }
}

/// The view of a source file.
pub struct CodeView {
    pub imports: Seq<StmtView>,
    pub statements: Seq<StmtView>,
    pub span: Span,
}

pub open spec fn code_view(c: CodeNode) -> CodeView {
    CodeView { imports: stmts_view(c.imports_list@), statements: stmts_view(c.statement_list@), span: c.span }
}

/// The span of a statement.
pub open spec fn stmt_span(s: StatementNode) -> Span {
    match s {
        StatementNode::ImportStatement { span, .. } => span,
        StatementNode::LetStatement { span, .. } => span,
        StatementNode::FunctionDefStatement { span, .. } => span,
        StatementNode::ClassDefStatement { span, .. } => span,
        StatementNode::IfStatement { span, .. } => span,
        StatementNode::WhileStatement { span, .. } => span,
        StatementNode::ForStatement { span, .. } => span,
        StatementNode::ScopeStatement { span, .. } => span,
        StatementNode::ReturnStatement { span, .. } => span,
        StatementNode::FunctionCallStatement { span, .. } => span,
        StatementNode::SymbolAccessStatement { span, .. } => span,
        StatementNode::ArrayAccessStatement { span, .. } => span,
        StatementNode::IncrementStatement { span, .. } => span,
        StatementNode::DecrementStatement { span, .. } => span,
        StatementNode::AssignmentStatement { span, .. } => span,
        StatementNode::ExternStatement { span, .. } => span,
    }
}

/// The name of the kind of a statement.
pub open spec fn stmt_name(s: StatementNode) -> Seq<char> {
    match s {
        StatementNode::ImportStatement { .. } => "ImportStatement"@,
        StatementNode::LetStatement { .. } => "LetStatement"@,
        StatementNode::FunctionDefStatement { .. } => "FunctionDefStatement"@,
        StatementNode::ClassDefStatement { .. } => "ClassDefStatement"@,
        StatementNode::IfStatement { .. } => "IfStatement"@,
        StatementNode::WhileStatement { .. } => "WhileStatement"@,
        StatementNode::ForStatement { .. } => "ForStatement"@,
        StatementNode::ScopeStatement { .. } => "ScopeStatement"@,
        StatementNode::ReturnStatement { .. } => "ReturnStatement"@,
        StatementNode::FunctionCallStatement { .. } => "FunctionCallStatement"@,
        StatementNode::SymbolAccessStatement { .. } => "SymbolAccessStatement"@,
        StatementNode::ArrayAccessStatement { .. } => "ArrayAccessStatement"@,
        StatementNode::IncrementStatement { .. } => "IncrementStatement"@,
        StatementNode::DecrementStatement { .. } => "DecrementStatement"@,
        StatementNode::AssignmentStatement { .. } => "AssignmentStatement"@,
        StatementNode::ExternStatement { .. } => "ExternStatement"@,
    }
}

/// The span of an expression.
pub open spec fn expr_span(e: ExpressionNode) -> Span {
    match e {
        ExpressionNode::AndExpression { span, .. } => span,
        ExpressionNode::WideAndExpression { span, .. } => span,
        ExpressionNode::OrExpression { span, .. } => span,
        ExpressionNode::WideOrExpression { span, .. } => span,
        ExpressionNode::XorExpression { span, .. } => span,
        ExpressionNode::IsEqualComparison { span, .. } => span,
        ExpressionNode::NotEqualComparison { span, .. } => span,
        ExpressionNode::GreaterComparison { span, .. } => span,
        ExpressionNode::GreaterOrEqualComparison { span, .. } => span,
        ExpressionNode::LessComparison { span, .. } => span,
        ExpressionNode::LessOrEqualComparison { span, .. } => span,
        ExpressionNode::AddExpression { span, .. } => span,
        ExpressionNode::SubtractExpression { span, .. } => span,
        ExpressionNode::MultiplyExpression { span, .. } => span,
        ExpressionNode::DivideExpression { span, .. } => span,
        ExpressionNode::NotExpression { span, .. } => span,
        ExpressionNode::NewExpression { span, .. } => span,
        ExpressionNode::InverseExpression { span, .. } => span,
        ExpressionNode::NegateExpression { span, .. } => span,
        ExpressionNode::SymbolAccessExpression { span, .. } => span,
        ExpressionNode::FunctionCallExpression { span, .. } => span,
        ExpressionNode::IndexAccessExpression { span, .. } => span,
        ExpressionNode::IncrementExpression { span, .. } => span,
        ExpressionNode::DecrementExpression { span, .. } => span,
        ExpressionNode::Variable { span, .. } => span,
        ExpressionNode::NumberLiteral { span, .. } => span,
        ExpressionNode::BooleanLiteral { span, .. } => span,
        ExpressionNode::StringLiteral { span, .. } => span,
        ExpressionNode::ArrayDefinition { span, .. } => span,
    }
}

/// The name of the kind of an expression.
pub open spec fn expr_name(e: ExpressionNode) -> Seq<char> {
    match e {
        ExpressionNode::AndExpression { .. } => "AndExpression"@,
        ExpressionNode::WideAndExpression { .. } => "WideAndExpression"@,
        ExpressionNode::OrExpression { .. } => "OrExpression"@,
        ExpressionNode::WideOrExpression { .. } => "WideOrExpression"@,
        ExpressionNode::XorExpression { .. } => "XorExpression"@,
        ExpressionNode::IsEqualComparison { .. } => "IsEqualComparison"@,
        ExpressionNode::NotEqualComparison { .. } => "NotEqualComparison"@,
        ExpressionNode::GreaterComparison { .. } => "GreaterComparison"@,
        ExpressionNode::GreaterOrEqualComparison { .. } => "GreaterOrEqualComparison"@,
        ExpressionNode::LessComparison { .. } => "LessComparison"@,
        ExpressionNode::LessOrEqualComparison { .. } => "LessOrEqualComparison"@,
        ExpressionNode::AddExpression { .. } => "AddExpression"@,
        ExpressionNode::SubtractExpression { .. } => "SubtractExpression"@,
        ExpressionNode::MultiplyExpression { .. } => "MultiplyExpression"@,
        ExpressionNode::DivideExpression { .. } => "DivideExpression"@,
        ExpressionNode::NotExpression { .. } => "NotExpression"@,
        ExpressionNode::NewExpression { .. } => "NewExpression"@,
        ExpressionNode::InverseExpression { .. } => "InverseExpression"@,
        ExpressionNode::NegateExpression { .. } => "NegateExpression"@,
        ExpressionNode::SymbolAccessExpression { .. } => "SymbolAccessExpression"@,
        ExpressionNode::FunctionCallExpression { .. } => "FunctionCallExpression"@,
        ExpressionNode::IndexAccessExpression { .. } => "IndexAccessExpression"@,
        ExpressionNode::IncrementExpression { .. } => "IncrementExpression"@,
        ExpressionNode::DecrementExpression { .. } => "DecrementExpression"@,
        ExpressionNode::Variable { .. } => "Variable"@,
        ExpressionNode::NumberLiteral { .. } => "NumberLiteral"@,
        ExpressionNode::BooleanLiteral { .. } => "BooleanLiteral"@,
        ExpressionNode::StringLiteral { .. } => "StringLiteral"@,
        ExpressionNode::ArrayDefinition { .. } => "ArrayDefinition"@,
    }
}

impl StatementNode {
    pub fn span(&self) -> (r: Span)
        ensures
            r == stmt_span(*self),
    {
        match self {
            StatementNode::ImportStatement { span, .. } => (span.0.clone(), span.1.clone()),
            StatementNode::LetStatement { span, .. } => (span.0.clone(), span.1.clone()),
            StatementNode::FunctionDefStatement { span, .. } => (span.0.clone(), span.1.clone()),
            StatementNode::ClassDefStatement { span, .. } => (span.0.clone(), span.1.clone()),
            StatementNode::IfStatement { span, .. } => (span.0.clone(), span.1.clone()),
            StatementNode::WhileStatement { span, .. } => (span.0.clone(), span.1.clone()),
            StatementNode::ForStatement { span, .. } => (span.0.clone(), span.1.clone()),
            StatementNode::ScopeStatement { span, .. } => (span.0.clone(), span.1.clone()),
            StatementNode::ReturnStatement { span, .. } => (span.0.clone(), span.1.clone()),
            StatementNode::FunctionCallStatement { span, .. } => (span.0.clone(), span.1.clone()),
            StatementNode::SymbolAccessStatement { span, .. } => (span.0.clone(), span.1.clone()),
            StatementNode::ArrayAccessStatement { span, .. } => (span.0.clone(), span.1.clone()),
            StatementNode::IncrementStatement { span, .. } => (span.0.clone(), span.1.clone()),
            StatementNode::DecrementStatement { span, .. } => (span.0.clone(), span.1.clone()),
            StatementNode::AssignmentStatement { span, .. } => (span.0.clone(), span.1.clone()),
            StatementNode::ExternStatement { span, .. } => (span.0.clone(), span.1.clone()),
        }
    }

    pub fn name(&self) -> (r: &str)
        ensures
            r@ == stmt_name(*self),
    {
        match self {
            StatementNode::ImportStatement { .. } => "ImportStatement",
            StatementNode::LetStatement { .. } => "LetStatement",
            StatementNode::FunctionDefStatement { .. } => "FunctionDefStatement",
            StatementNode::ClassDefStatement { .. } => "ClassDefStatement",
            StatementNode::IfStatement { .. } => "IfStatement",
            StatementNode::WhileStatement { .. } => "WhileStatement",
            StatementNode::ForStatement { .. } => "ForStatement",
            StatementNode::ScopeStatement { .. } => "ScopeStatement",
            StatementNode::ReturnStatement { .. } => "ReturnStatement",
            StatementNode::FunctionCallStatement { .. } => "FunctionCallStatement",
            StatementNode::SymbolAccessStatement { .. } => "SymbolAccessStatement",
            StatementNode::ArrayAccessStatement { .. } => "ArrayAccessStatement",
            StatementNode::IncrementStatement { .. } => "IncrementStatement",
            StatementNode::DecrementStatement { .. } => "DecrementStatement",
            StatementNode::AssignmentStatement { .. } => "AssignmentStatement",
            StatementNode::ExternStatement { .. } => "ExternStatement",
        }
    }
}

impl ExpressionNode {
    pub fn span(&self) -> (r: Span)
        ensures
            r == expr_span(*self),
    {
        match self {
            ExpressionNode::AndExpression { span, .. } => (span.0.clone(), span.1.clone()),
            ExpressionNode::WideAndExpression { span, .. } => (span.0.clone(), span.1.clone()),
            ExpressionNode::OrExpression { span, .. } => (span.0.clone(), span.1.clone()),
            ExpressionNode::WideOrExpression { span, .. } => (span.0.clone(), span.1.clone()),
            ExpressionNode::XorExpression { span, .. } => (span.0.clone(), span.1.clone()),
            ExpressionNode::IsEqualComparison { span, .. } => (span.0.clone(), span.1.clone()),
            ExpressionNode::NotEqualComparison { span, .. } => (span.0.clone(), span.1.clone()),
            ExpressionNode::GreaterComparison { span, .. } => (span.0.clone(), span.1.clone()),
            ExpressionNode::GreaterOrEqualComparison { span, .. } => (span.0.clone(), span.1.clone()),
            ExpressionNode::LessComparison { span, .. } => (span.0.clone(), span.1.clone()),
            ExpressionNode::LessOrEqualComparison { span, .. } => (span.0.clone(), span.1.clone()),
            ExpressionNode::AddExpression { span, .. } => (span.0.clone(), span.1.clone()),
            ExpressionNode::SubtractExpression { span, .. } => (span.0.clone(), span.1.clone()),
            ExpressionNode::MultiplyExpression { span, .. } => (span.0.clone(), span.1.clone()),
            ExpressionNode::DivideExpression { span, .. } => (span.0.clone(), span.1.clone()),
            ExpressionNode::NotExpression { span, .. } => (span.0.clone(), span.1.clone()),
            ExpressionNode::NewExpression { span, .. } => (span.0.clone(), span.1.clone()),
            ExpressionNode::InverseExpression { span, .. } => (span.0.clone(), span.1.clone()),
            ExpressionNode::NegateExpression { span, .. } => (span.0.clone(), span.1.clone()),
            ExpressionNode::SymbolAccessExpression { span, .. } => (span.0.clone(), span.1.clone()),
            ExpressionNode::FunctionCallExpression { span, .. } => (span.0.clone(), span.1.clone()),
            ExpressionNode::IndexAccessExpression { span, .. } => (span.0.clone(), span.1.clone()),
            ExpressionNode::IncrementExpression { span, .. } => (span.0.clone(), span.1.clone()),
            ExpressionNode::DecrementExpression { span, .. } => (span.0.clone(), span.1.clone()),
            ExpressionNode::Variable { span, .. } => (span.0.clone(), span.1.clone()),
            ExpressionNode::NumberLiteral { span, .. } => (span.0.clone(), span.1.clone()),
            ExpressionNode::BooleanLiteral { span, .. } => (span.0.clone(), span.1.clone()),
            ExpressionNode::StringLiteral { span, .. } => (span.0.clone(), span.1.clone()),
            ExpressionNode::ArrayDefinition { span, .. } => (span.0.clone(), span.1.clone()),
        }
    }

    pub fn name(&self) -> (r: &str)
        ensures
            r@ == expr_name(*self),
    {
        match self {
            ExpressionNode::AndExpression { .. } => "AndExpression",
            ExpressionNode::WideAndExpression { .. } => "WideAndExpression",
            ExpressionNode::OrExpression { .. } => "OrExpression",
            ExpressionNode::WideOrExpression { .. } => "WideOrExpression",
            ExpressionNode::XorExpression { .. } => "XorExpression",
            ExpressionNode::IsEqualComparison { .. } => "IsEqualComparison",
            ExpressionNode::NotEqualComparison { .. } => "NotEqualComparison",
            ExpressionNode::GreaterComparison { .. } => "GreaterComparison",
            ExpressionNode::GreaterOrEqualComparison { .. } => "GreaterOrEqualComparison",
            ExpressionNode::LessComparison { .. } => "LessComparison",
            ExpressionNode::LessOrEqualComparison { .. } => "LessOrEqualComparison",
            ExpressionNode::AddExpression { .. } => "AddExpression",
            ExpressionNode::SubtractExpression { .. } => "SubtractExpression",
            ExpressionNode::MultiplyExpression { .. } => "MultiplyExpression",
            ExpressionNode::DivideExpression { .. } => "DivideExpression",
            ExpressionNode::NotExpression { .. } => "NotExpression",
            ExpressionNode::NewExpression { .. } => "NewExpression",
            ExpressionNode::InverseExpression { .. } => "InverseExpression",
            ExpressionNode::NegateExpression { .. } => "NegateExpression",
            ExpressionNode::SymbolAccessExpression { .. } => "SymbolAccessExpression",
            ExpressionNode::FunctionCallExpression { .. } => "FunctionCallExpression",
            ExpressionNode::IndexAccessExpression { .. } => "IndexAccessExpression",
            ExpressionNode::IncrementExpression { .. } => "IncrementExpression",
            ExpressionNode::DecrementExpression { .. } => "DecrementExpression",
            ExpressionNode::Variable { .. } => "Variable",
            ExpressionNode::NumberLiteral { .. } => "NumberLiteral",
            ExpressionNode::BooleanLiteral { .. } => "BooleanLiteral",
            ExpressionNode::StringLiteral { .. } => "StringLiteral",
            ExpressionNode::ArrayDefinition { .. } => "ArrayDefinition",
        }
    }
}


/// The position of the variant of a statement among the variants of `StatementNode`.
pub open spec fn stmt_kind(x: StatementNode) -> nat {
    match x {
        StatementNode::ImportStatement { .. } => 0nat,
        StatementNode::LetStatement { .. } => 1nat,
        StatementNode::FunctionDefStatement { .. } => 2nat,
        StatementNode::ClassDefStatement { .. } => 3nat,
        StatementNode::IfStatement { .. } => 4nat,
        StatementNode::WhileStatement { .. } => 5nat,
        StatementNode::ForStatement { .. } => 6nat,
        StatementNode::ScopeStatement { .. } => 7nat,
        StatementNode::ReturnStatement { .. } => 8nat,
        StatementNode::FunctionCallStatement { .. } => 9nat,
        StatementNode::SymbolAccessStatement { .. } => 10nat,
        StatementNode::ArrayAccessStatement { .. } => 11nat,
        StatementNode::IncrementStatement { .. } => 12nat,
        StatementNode::DecrementStatement { .. } => 13nat,
        StatementNode::AssignmentStatement { .. } => 14nat,
        StatementNode::ExternStatement { .. } => 15nat,
    }
}

/// The variant that the name of a statement names, told by its length and character 0.
pub open spec fn stmt_kind_of_name(n: Seq<char>) -> nat {
    if n.len() == 15 && n[0] == 'I' {
        0nat
    } else if n.len() == 12 && n[0] == 'L' {
        1nat
    } else if n.len() == 20 && n[0] == 'F' {
        2nat
    } else if n.len() == 17 && n[0] == 'C' {
        3nat
    } else if n.len() == 11 && n[0] == 'I' {
        4nat
    } else if n.len() == 14 && n[0] == 'W' {
        5nat
    } else if n.len() == 12 && n[0] == 'F' {
        6nat
    } else if n.len() == 14 && n[0] == 'S' {
        7nat
    } else if n.len() == 15 && n[0] == 'R' {
        8nat
    } else if n.len() == 21 && n[0] == 'F' {
        9nat
    } else if n.len() == 21 && n[0] == 'S' {
        10nat
    } else if n.len() == 20 && n[0] == 'A' {
        11nat
    } else if n.len() == 18 && n[0] == 'I' {
        12nat
    } else if n.len() == 18 && n[0] == 'D' {
        13nat
    } else if n.len() == 19 && n[0] == 'A' {
        14nat
    } else if n.len() == 15 && n[0] == 'E' {
        15nat
    } else {
        16nat
    }
}

proof fn lemma_stmt_kind_of_name(x: StatementNode)
    ensures
        stmt_kind_of_name(stmt_name(x)) == stmt_kind(x),
{
    match x {
        StatementNode::ImportStatement { .. } => {
            reveal_strlit("ImportStatement");
        },
        StatementNode::LetStatement { .. } => {
            reveal_strlit("LetStatement");
        },
        StatementNode::FunctionDefStatement { .. } => {
            reveal_strlit("FunctionDefStatement");
        },
        StatementNode::ClassDefStatement { .. } => {
            reveal_strlit("ClassDefStatement");
        },
        StatementNode::IfStatement { .. } => {
            reveal_strlit("IfStatement");
        },
        StatementNode::WhileStatement { .. } => {
            reveal_strlit("WhileStatement");
        },
        StatementNode::ForStatement { .. } => {
            reveal_strlit("ForStatement");
        },
        StatementNode::ScopeStatement { .. } => {
            reveal_strlit("ScopeStatement");
        },
        StatementNode::ReturnStatement { .. } => {
            reveal_strlit("ReturnStatement");
        },
        StatementNode::FunctionCallStatement { .. } => {
            reveal_strlit("FunctionCallStatement");
        },
        StatementNode::SymbolAccessStatement { .. } => {
            reveal_strlit("SymbolAccessStatement");
        },
        StatementNode::ArrayAccessStatement { .. } => {
            reveal_strlit("ArrayAccessStatement");
        },
        StatementNode::IncrementStatement { .. } => {
            reveal_strlit("IncrementStatement");
        },
        StatementNode::DecrementStatement { .. } => {
            reveal_strlit("DecrementStatement");
        },
        StatementNode::AssignmentStatement { .. } => {
            reveal_strlit("AssignmentStatement");
        },
        StatementNode::ExternStatement { .. } => {
            reveal_strlit("ExternStatement");
        },
    }
}

/// Law of the names of the statements: two nodes with the same name are of the
/// same variant.
pub proof fn law_stmt_names_distinct(a: StatementNode, b: StatementNode)
    requires
        stmt_name(a) == stmt_name(b),
    ensures
        stmt_kind(a) == stmt_kind(b),
{
    lemma_stmt_kind_of_name(a);
    lemma_stmt_kind_of_name(b);
}

/// The position of the variant of a expression among the variants of `ExpressionNode`.
pub open spec fn expr_kind(x: ExpressionNode) -> nat {
    match x {
        ExpressionNode::AndExpression { .. } => 0nat,
        ExpressionNode::WideAndExpression { .. } => 1nat,
        ExpressionNode::OrExpression { .. } => 2nat,
        ExpressionNode::WideOrExpression { .. } => 3nat,
        ExpressionNode::XorExpression { .. } => 4nat,
        ExpressionNode::IsEqualComparison { .. } => 5nat,
        ExpressionNode::NotEqualComparison { .. } => 6nat,
        ExpressionNode::GreaterComparison { .. } => 7nat,
        ExpressionNode::GreaterOrEqualComparison { .. } => 8nat,
        ExpressionNode::LessComparison { .. } => 9nat,
        ExpressionNode::LessOrEqualComparison { .. } => 10nat,
        ExpressionNode::AddExpression { .. } => 11nat,
        ExpressionNode::SubtractExpression { .. } => 12nat,
        ExpressionNode::MultiplyExpression { .. } => 13nat,
        ExpressionNode::DivideExpression { .. } => 14nat,
        ExpressionNode::NotExpression { .. } => 15nat,
        ExpressionNode::NewExpression { .. } => 16nat,
        ExpressionNode::InverseExpression { .. } => 17nat,
        ExpressionNode::NegateExpression { .. } => 18nat,
        ExpressionNode::SymbolAccessExpression { .. } => 19nat,
        ExpressionNode::FunctionCallExpression { .. } => 20nat,
        ExpressionNode::IndexAccessExpression { .. } => 21nat,
        ExpressionNode::IncrementExpression { .. } => 22nat,
        ExpressionNode::DecrementExpression { .. } => 23nat,
        ExpressionNode::Variable { .. } => 24nat,
        ExpressionNode::NumberLiteral { .. } => 25nat,
        ExpressionNode::BooleanLiteral { .. } => 26nat,
        ExpressionNode::StringLiteral { .. } => 27nat,
        ExpressionNode::ArrayDefinition { .. } => 28nat,
    }
}

/// The variant that the name of a expression names, told by its length and character 0 and character 1.
pub open spec fn expr_kind_of_name(n: Seq<char>) -> nat {
    if n.len() == 13 && n[0] == 'A' && n[1] == 'n' {
        0nat
    } else if n.len() == 17 && n[0] == 'W' && n[1] == 'i' {
        1nat
    } else if n.len() == 12 && n[0] == 'O' && n[1] == 'r' {
        2nat
    } else if n.len() == 16 && n[0] == 'W' && n[1] == 'i' {
        3nat
    } else if n.len() == 13 && n[0] == 'X' && n[1] == 'o' {
        4nat
    } else if n.len() == 17 && n[0] == 'I' && n[1] == 's' {
        5nat
    } else if n.len() == 18 && n[0] == 'N' && n[1] == 'o' {
        6nat
    } else if n.len() == 17 && n[0] == 'G' && n[1] == 'r' {
        7nat
    } else if n.len() == 24 && n[0] == 'G' && n[1] == 'r' {
        8nat
    } else if n.len() == 14 && n[0] == 'L' && n[1] == 'e' {
        9nat
    } else if n.len() == 21 && n[0] == 'L' && n[1] == 'e' {
        10nat
    } else if n.len() == 13 && n[0] == 'A' && n[1] == 'd' {
        11nat
    } else if n.len() == 18 && n[0] == 'S' && n[1] == 'u' {
        12nat
    } else if n.len() == 18 && n[0] == 'M' && n[1] == 'u' {
        13nat
    } else if n.len() == 16 && n[0] == 'D' && n[1] == 'i' {
        14nat
    } else if n.len() == 13 && n[0] == 'N' && n[1] == 'o' {
        15nat
    } else if n.len() == 13 && n[0] == 'N' && n[1] == 'e' {
        16nat
    } else if n.len() == 17 && n[0] == 'I' && n[1] == 'n' {
        17nat
    } else if n.len() == 16 && n[0] == 'N' && n[1] == 'e' {
        18nat
    } else if n.len() == 22 && n[0] == 'S' && n[1] == 'y' {
        19nat
    } else if n.len() == 22 && n[0] == 'F' && n[1] == 'u' {
        20nat
    } else if n.len() == 21 && n[0] == 'I' && n[1] == 'n' {
        21nat
    } else if n.len() == 19 && n[0] == 'I' && n[1] == 'n' {
        22nat
    } else if n.len() == 19 && n[0] == 'D' && n[1] == 'e' {
        23nat
    } else if n.len() == 8 && n[0] == 'V' && n[1] == 'a' {
        24nat
    } else if n.len() == 13 && n[0] == 'N' && n[1] == 'u' {
        25nat
    } else if n.len() == 14 && n[0] == 'B' && n[1] == 'o' {
        26nat
    } else if n.len() == 13 && n[0] == 'S' && n[1] == 't' {
        27nat
    } else if n.len() == 15 && n[0] == 'A' && n[1] == 'r' {
        28nat
    } else {
        29nat
    }
}

proof fn lemma_expr_kind_of_name(x: ExpressionNode)
    ensures
        expr_kind_of_name(expr_name(x)) == expr_kind(x),
{
    match x {
        ExpressionNode::AndExpression { .. } => {
            reveal_strlit("AndExpression");
        },
        ExpressionNode::WideAndExpression { .. } => {
            reveal_strlit("WideAndExpression");
        },
        ExpressionNode::OrExpression { .. } => {
            reveal_strlit("OrExpression");
        },
        ExpressionNode::WideOrExpression { .. } => {
            reveal_strlit("WideOrExpression");
        },
        ExpressionNode::XorExpression { .. } => {
            reveal_strlit("XorExpression");
        },
        ExpressionNode::IsEqualComparison { .. } => {
            reveal_strlit("IsEqualComparison");
        },
        ExpressionNode::NotEqualComparison { .. } => {
            reveal_strlit("NotEqualComparison");
        },
        ExpressionNode::GreaterComparison { .. } => {
            reveal_strlit("GreaterComparison");
        },
        ExpressionNode::GreaterOrEqualComparison { .. } => {
            reveal_strlit("GreaterOrEqualComparison");
        },
        ExpressionNode::LessComparison { .. } => {
            reveal_strlit("LessComparison");
        },
        ExpressionNode::LessOrEqualComparison { .. } => {
            reveal_strlit("LessOrEqualComparison");
        },
        ExpressionNode::AddExpression { .. } => {
            reveal_strlit("AddExpression");
        },
        ExpressionNode::SubtractExpression { .. } => {
            reveal_strlit("SubtractExpression");
        },
        ExpressionNode::MultiplyExpression { .. } => {
            reveal_strlit("MultiplyExpression");
        },
        ExpressionNode::DivideExpression { .. } => {
            reveal_strlit("DivideExpression");
        },
        ExpressionNode::NotExpression { .. } => {
            reveal_strlit("NotExpression");
        },
        ExpressionNode::NewExpression { .. } => {
            reveal_strlit("NewExpression");
        },
        ExpressionNode::InverseExpression { .. } => {
            reveal_strlit("InverseExpression");
        },
        ExpressionNode::NegateExpression { .. } => {
            reveal_strlit("NegateExpression");
        },
        ExpressionNode::SymbolAccessExpression { .. } => {
            reveal_strlit("SymbolAccessExpression");
        },
        ExpressionNode::FunctionCallExpression { .. } => {
            reveal_strlit("FunctionCallExpression");
        },
        ExpressionNode::IndexAccessExpression { .. } => {
            reveal_strlit("IndexAccessExpression");
        },
        ExpressionNode::IncrementExpression { .. } => {
            reveal_strlit("IncrementExpression");
        },
        ExpressionNode::DecrementExpression { .. } => {
            reveal_strlit("DecrementExpression");
        },
        ExpressionNode::Variable { .. } => {
            reveal_strlit("Variable");
        },
        ExpressionNode::NumberLiteral { .. } => {
            reveal_strlit("NumberLiteral");
        },
        ExpressionNode::BooleanLiteral { .. } => {
            reveal_strlit("BooleanLiteral");
        },
        ExpressionNode::StringLiteral { .. } => {
            reveal_strlit("StringLiteral");
        },
        ExpressionNode::ArrayDefinition { .. } => {
            reveal_strlit("ArrayDefinition");
        },
    }
}

/// Law of the names of the expressions: two nodes with the same name are of the
/// same variant.
pub proof fn law_expr_names_distinct(a: ExpressionNode, b: ExpressionNode)
    requires
        expr_name(a) == expr_name(b),
    ensures
        expr_kind(a) == expr_kind(b),
{
    lemma_expr_kind_of_name(a);
    lemma_expr_kind_of_name(b);
}

} // verus!
