//! The nodes of the syntax tree that the parser builds.
use crate::frontend_v0::lexer::common::lexer::{end_fits, end_position, Position, Token};
use vstd::prelude::*;

verus! {

/// Where a node starts and where it ends.
pub type Span = (Position, Position);

/// A node of the syntax tree: a non-terminal with its children, or a token.
pub enum ParserNode {
    NonTerminal { kind: String, span: Span, children: Vec<ParserNode> },
    Terminal(Token),
}

/// The view of a node: its children as a sequence of views.
pub enum NodeView {
    NonTerminal { kind: Seq<char>, span: Span, children: Seq<NodeView> },
    Terminal(Token),
}

/// The view of a node.
pub open spec fn node_view(n: ParserNode) -> NodeView
    decreases n, 0nat,
{
    match n {
        ParserNode::NonTerminal { kind, span, children } => NodeView::NonTerminal {
            kind: kind@,
            span: span,
            children: nodes_view(children@),
        },
        ParserNode::Terminal(t) => NodeView::Terminal(t),
    }
}

/// The views of a list of nodes.
pub open spec fn nodes_view(s: Seq<ParserNode>) -> Seq<NodeView>
    decreases s, 1nat,
{
    if s.len() == 0 {
        Seq::empty()
    } else {
        nodes_view(s.drop_last()).push(node_view(s.last()))
    }
}

pub proof fn lemma_nodes_view(s: Seq<ParserNode>)
    ensures
        nodes_view(s).len() == s.len(),
        forall|i: int| 0 <= i < s.len() ==> #[trigger] nodes_view(s)[i] == node_view(s[i]),
    decreases s.len(),
{
    if s.len() > 0 {
        lemma_nodes_view(s.drop_last());
        assert forall|i: int| 0 <= i < s.len() implies #[trigger] nodes_view(s)[i] == node_view(s[i]) by {
            if i < s.len() - 1 {
                assert(s.drop_last()[i] == s[i]);
            }
        }
    }
}

/// The kind of a node: a non-terminal's name, or a token's kind.
pub open spec fn view_kind(v: NodeView) -> Seq<char> {
    match v {
        NodeView::NonTerminal { kind, .. } => kind,
        NodeView::Terminal(t) => t.kind@,
    }
}

/// Where a node starts.
pub open spec fn view_start(v: NodeView) -> Position {
    match v {
        NodeView::NonTerminal { span, .. } => span.0,
        NodeView::Terminal(t) => t.position,
    }
}

/// The span of a token node can be computed: its end column fits.
pub open spec fn view_fits(v: NodeView) -> bool {
    match v {
        NodeView::NonTerminal { .. } => true,
        NodeView::Terminal(t) => end_fits(t),
    }
}

/// The span of a node: a non-terminal's span, or a token's position and the
/// position after its text.
pub open spec fn view_span(v: NodeView) -> Span {
    match v {
        NodeView::NonTerminal { span, .. } => span,
        NodeView::Terminal(t) => (t.position, end_position(t)),
    }
}

impl ParserNode {
    pub fn clone(&self) -> (r: ParserNode)
        ensures
            node_view(r) == node_view(*self),
        decreases *self,
    {
        match self {
            ParserNode::NonTerminal { kind, span, children } => {
                let mut copies: Vec<ParserNode> = Vec::new();
                let mut i: usize = 0;
                while i < children.len()
                    invariant
                        *self is NonTerminal,
                        (*self)->children == *children,
                        i <= children@.len(),
                        copies@.len() == i,
                        forall|j: int| 0 <= j < i ==> node_view(#[trigger] copies@[j]) == node_view(children@[j]),
                    decreases children@.len() - i,
                {
                    proof {
                        assert(decreases_to!(*self => (*self)->children));
                        assert((*self)->children == *children);
                        assert(decreases_to!(*children => children@));
                        assert(decreases_to!(children@ => children@[i as int]));
                        assert(decreases_to!(*self => children@[i as int]));
                    }
                    let c = children[i].clone();
                    copies.push(c);
                    i += 1;
                }
                proof {
                    lemma_nodes_view(copies@);
                    lemma_nodes_view(children@);
                    assert(nodes_view(copies@) =~= nodes_view(children@));
                }
                ParserNode::NonTerminal { kind: kind.clone(), span: (span.0.clone(), span.1.clone()), children: copies }
            },
            ParserNode::Terminal(token) => ParserNode::Terminal(token.clone()),
        }
    }

    pub fn get_node_span(&self) -> (r: Span)
        requires
            view_fits(node_view(*self)),
        ensures
            r == view_span(node_view(*self)),
    {
        match self {
            ParserNode::NonTerminal { span, .. } => (span.0.clone(), span.1.clone()),
            ParserNode::Terminal(token) => (token.position.clone(), token.get_end_position()),
        }
    }

    pub fn get_node_kind(&self) -> (r: String)
        ensures
            r@ == view_kind(node_view(*self)),
    {
        match self {
            ParserNode::NonTerminal { kind, .. } => kind.clone(),
            ParserNode::Terminal(token) => token.kind.clone(),
        }
    }

    pub fn get_node_start(&self) -> (r: Position)
        ensures
            r == view_start(node_view(*self)),
    {
        match self {
            ParserNode::NonTerminal { span, .. } => span.0.clone(),
            ParserNode::Terminal(token) => token.position.clone(),
        }
    }
}

/// The span from the start of `first` to the end of `second`.
pub fn join_node_spans(first: &ParserNode, second: &ParserNode) -> (r: Span)
    requires
        view_fits(node_view(*first)),
        view_fits(node_view(*second)),
    ensures
        r == (view_span(node_view(*first)).0, view_span(node_view(*second)).1),
{
    let first_span = first.get_node_span();
    let second_span = second.get_node_span();
    (first_span.0.clone(), second_span.1.clone())
}

/// The span from the start of `first` to the end of `second`.
pub fn join_spans(first: Span, second: Span) -> (r: Span)
    ensures
        r == (first.0, second.1),
{
    (first.0, second.1)
}

} // verus!
