//! The shift-reduce parser that runs an LR automaton over a list of tokens.
use crate::collections::stable_ordered_set::StableOrderedSet;
use crate::frontend_v0::lexer::common::lexer::{Position, Token};
use crate::frontend_v0::parser::automaton::{maps_of, table_overrides_view, LR1Automata, TableOverride};
use crate::frontend_v0::parser::common::parser::{
    join_node_spans, lemma_nodes_view, node_view, nodes_view, view_fits, view_kind, view_span, view_start,
    NodeView, ParserNode, Span,
};
use crate::frontend_v0::parser::lr1_automata_builder::LR1ParserAction;
use crate::frontend_v0::parser::parser_grammar::RuleView;
use crate::text::strs;
use vstd::prelude::*;
use vstd::string::*;

verus! {

/// An error of the parser: a token for which the current state has no
/// action, where it starts, and the tokens that the state expected.
pub enum ParserError {
    UnexpectedToken(ParserNode, Position, StableOrderedSet<String>),
}

/// The view of an error of the parser.
pub struct ParserErrorView {
    pub token: NodeView,
    pub position: Position,
    pub expected: Set<Seq<char>>,
}

pub open spec fn error_view(e: ParserError) -> ParserErrorView {
    match e {
        ParserError::UnexpectedToken(token, position, expected) => ParserErrorView {
            token: node_view(token),
            position,
            expected: expected@.to_set(),
        },
    }
}

pub open spec fn errors_view(s: Seq<ParserError>) -> Seq<ParserErrorView> {
    s.map_values(|e: ParserError| error_view(e))
}

/// The message of an unexpected token of kind `kind` at `position`.
pub open spec fn unexpected_token_message(kind: Seq<char>, position: Position) -> Seq<char> {
    "Unexpected token "@ + kind + ". Expected "@ + " at "@ + position.spec_text()
}

impl ParserError {
    pub fn get_message(&self) -> (r: String)
        ensures
            r@ == unexpected_token_message(view_kind(error_view(*self).token), error_view(*self).position),
    {
        match self {
            ParserError::UnexpectedToken(token, position, _expected) => {
                let mut r = String::from_str("Unexpected token ");
                let kind = token.get_node_kind();
                r.append(kind.as_str());
                r.append(". Expected ");
                r.append(" at ");
                let place = position.to_text();
                r.append(place.as_str());
                proof {
                    reveal_strlit("Unexpected token ");
                    reveal_strlit(". Expected ");
                    reveal_strlit(" at ");
                }
                r
            },
        }
    }
}

/// The state of a run of the parser: the current state of the automaton, the
/// stack of states and nodes, the nodes still to read, and the errors so far.
pub struct ParseConfig {
    pub state: usize,
    pub stack: Seq<(usize, NodeView)>,
    pub queue: Seq<NodeView>,
    pub errors: Seq<ParserErrorView>,
}

/// The reduction by rule `rule`: the nodes of the top of the stack, as many as
/// the rule's production has symbols, become the children of a node of the
/// rule's name; the state below them becomes the current state.  `None` when
/// the rule does not exist, has an empty production, or the stack is too
/// short.
pub open spec fn reduced(rules: Seq<RuleView>, stack: Seq<(usize, NodeView)>, rule: usize) -> Option<
    (NodeView, usize, Seq<(usize, NodeView)>),
> {
    if rule >= rules.len() {
        None
    } else {
        let n = rules[rule as int].production.len() as int;
        let cut = stack.len() - n;
        if n == 0 || cut < 0 {
            None
        } else {
            let children = stack.subrange(cut, stack.len() as int).map_values(|p: (usize, NodeView)| p.1);
            if !view_fits(children[0]) || !view_fits(children[n - 1]) {
                None
            } else {
                Some(
                    (
                        NodeView::NonTerminal {
                            kind: rules[rule as int].name,
                            span: (view_span(children[0]).0, view_span(children[n - 1]).1),
                            children: children,
                        },
                        stack[cut].0,
                        stack.subrange(0, cut),
                    ),
                )
            }
        }
    }
}

/// One step of the parser on the first node to read: shift it, reduce, or
/// skip it as unexpected.  `None` when the step cannot be made.
pub open spec fn parse_step(
    table: Seq<Map<Seq<char>, LR1ParserAction>>,
    rules: Seq<RuleView>,
    c: ParseConfig,
) -> Option<ParseConfig> {
    let node = c.queue[0];
    if c.state >= table.len() {
        None
    } else {
        let m = table[c.state as int];
        match m.get(view_kind(node)) {
            Some(LR1ParserAction::Shift(next)) => Some(
                ParseConfig { state: next, stack: c.stack.push((c.state, node)), queue: c.queue.drop_first(), errors: c.errors },
            ),
            Some(LR1ParserAction::Reduce(r)) => match reduced(rules, c.stack, r) {
                Some(red) => Some(
                    ParseConfig { state: red.1, stack: red.2, queue: seq![red.0] + c.queue, errors: c.errors },
                ),
                None => None,
            },
            None => Some(
                ParseConfig {
                    state: c.state,
                    stack: c.stack,
                    queue: c.queue.drop_first(),
                    errors: c.errors.push(ParserErrorView { token: node, position: view_start(node), expected: m.dom() }),
                },
            ),
        }
    }
}

/// The parser run from `c` until no node is left to read, in at most `fuel`
/// steps; `None` when it does not end within them or a step cannot be made.
pub open spec fn parse_run(
    table: Seq<Map<Seq<char>, LR1ParserAction>>,
    rules: Seq<RuleView>,
    c: ParseConfig,
    fuel: nat,
) -> Option<ParseConfig>
    decreases fuel,
{
    if c.queue.len() == 0 {
        Some(c)
    } else if fuel == 0 {
        None
    } else {
        match parse_step(table, rules, c) {
            Some(next) => parse_run(table, rules, next, (fuel - 1) as nat),
            None => None,
        }
    }
}

/// The tree of a run: the reduction by the first rule at its end, and the
/// configuration after it.
pub open spec fn parse_outcome(
    table: Seq<Map<Seq<char>, LR1ParserAction>>,
    rules: Seq<RuleView>,
    c: ParseConfig,
    fuel: nat,
) -> Option<(NodeView, ParseConfig)> {
    match parse_run(table, rules, c, fuel) {
        Some(end) => match reduced(rules, end.stack, 0) {
            Some(red) => Some((red.0, ParseConfig { state: end.state, stack: red.2, queue: end.queue, errors: end.errors })),
            None => None,
        },
        None => None,
    }
}

/// The nodes of the tokens, in order.
pub open spec fn token_nodes(tokens: Seq<Token>) -> Seq<NodeView> {
    tokens.map_values(|t: Token| NodeView::Terminal(t))
}

/// A parser: an automaton, its current state and its stack.
pub struct LR1Parser {
    automata: LR1Automata,
    state: usize,
    stack: Vec<(usize, ParserNode)>,
}

pub open spec fn stack_view(s: Seq<(usize, ParserNode)>) -> Seq<(usize, NodeView)> {
    s.map_values(|p: (usize, ParserNode)| (p.0, node_view(p.1)))
}

impl LR1Parser {
    /// The action maps of the automaton's states.
    pub closed spec fn spec_table(&self) -> Seq<Map<Seq<char>, LR1ParserAction>> {
        maps_of(self.automata.goto_table@)
    }

    /// The entries that reductions overrode while the automaton's table was
    /// filled in.
    pub closed spec fn spec_overrides(&self) -> Seq<(usize, Seq<char>, LR1ParserAction, usize)> {
        table_overrides_view(self.automata.overrides@)
    }

    /// The entries that reductions overrode while the automaton's table was
    /// filled in.
    pub fn overrides(&self) -> (r: &Vec<TableOverride>)
        ensures
            table_overrides_view(r@) == self.spec_overrides(),
    {
        &self.automata.overrides
    }

    /// The rules of the automaton's grammar.
    pub closed spec fn spec_rules(&self) -> Seq<RuleView> {
        self.automata.grammar.spec_rules()
    }

    pub closed spec fn spec_state(&self) -> usize {
        self.state
    }

    pub closed spec fn spec_stack(&self) -> Seq<(usize, NodeView)> {
        stack_view(self.stack@)
    }

    pub closed spec fn wf(&self) -> bool {
        forall|i: int| 0 <= i < self.automata.goto_table@.len() ==> (#[trigger] self.automata.goto_table@[i]).wf()
    }

    /// The automaton of a parser whose every action map is well formed.
    pub open spec fn automata_ok(automata: &LR1Automata) -> bool {
        forall|i: int| 0 <= i < automata.goto_table@.len() ==> (#[trigger] automata.goto_table@[i]).wf()
    }

    pub fn new(automata: LR1Automata) -> (r: LR1Parser)
        requires
            Self::automata_ok(&automata),
        ensures
            r.wf(),
            r.spec_table() == maps_of(automata.goto_table@),
            r.spec_rules() == automata.grammar.spec_rules(),
            r.spec_overrides() == table_overrides_view(automata.overrides@),
            r.spec_state() == 0,
            r.spec_stack() == Seq::<(usize, NodeView)>::empty(),
    {
        let r = LR1Parser { automata, state: 0, stack: Vec::new() };
        assert(r.spec_stack() =~= Seq::empty());
        r
    }

    /// Back to the starting state with an empty stack.
    pub fn reset(&mut self)
        ensures
            final(self).wf() == old(self).wf(),
            final(self).spec_table() == old(self).spec_table(),
            final(self).spec_rules() == old(self).spec_rules(),
            final(self).spec_state() == 0,
            final(self).spec_stack() == Seq::<(usize, NodeView)>::empty(),
    {
        let ghost a0 = self.automata;
        self.state = 0;
        self.stack = Vec::new();
        assert(self.automata == a0);
        assert(self.spec_stack() =~= Seq::empty());
    }

    /// The configuration of a run with `pending` read in reverse order.
    closed spec fn config(&self, pending: Seq<ParserNode>, errors: Seq<ParserError>) -> ParseConfig {
        ParseConfig {
            state: self.state,
            stack: stack_view(self.stack@),
            queue: nodes_view(pending).reverse(),
            errors: errors_view(errors),
        }
    }

    /// Reduces by rule `rule`.
    fn reduce(&mut self, rule: usize) -> (r: (ParserNode, usize))
        requires
            reduced(old(self).spec_rules(), old(self).spec_stack(), rule) is Some,
        ensures
            final(self).automata == old(self).automata,
            final(self).state == old(self).state,
            ({
                let red = reduced(old(self).spec_rules(), old(self).spec_stack(), rule)->0;
                &&& node_view(r.0) == red.0
                &&& r.1 == red.1
                &&& final(self).spec_stack() == red.2
            }),
    {
        let ghost st = stack_view(self.stack@);
        let ghost red = reduced(self.spec_rules(), st, rule)->0;
        let ghost a0 = self.automata;
        let ghost s0 = self.state;
        proof {
            assert(self.automata.grammar.spec_rules()[rule as int] == self.automata.grammar.rules@[rule as int].spec_view());
        }
        let n = self.automata.grammar.rules[rule].production.len();
        let ghost cut = st.len() - n;
        proof {
            assert(strs(self.automata.grammar.rules@[rule as int].production@).len() == n);
        }
        let mut popped: Vec<ParserNode> = Vec::new();
        let mut last_state = self.state;
        let mut i: usize = 0;
        while i < n
            invariant
                self.automata == a0,
                self.state == s0,
                i <= n,
                n as int == st.len() - cut,
                0 <= cut,
                self.stack@.len() == st.len() - i,
                stack_view(self.stack@) == st.subrange(0, st.len() - i),
                popped@.len() == i,
                forall|j: int| 0 <= j < i ==> node_view(#[trigger] popped@[j]) == st[st.len() - 1 - j].1,
                i > 0 ==> last_state == st[st.len() - i].0,
            decreases n - i,
        {
            let ghost before = self.stack@;
            let (s, t) = self.stack.pop().unwrap();
            proof {
                assert(stack_view(before)[before.len() - 1] == (s, node_view(t)));
                assert(stack_view(self.stack@) =~= st.subrange(0, st.len() - i - 1));
            }
            popped.push(t);
            last_state = s;
            i += 1;
        }
        let mut children: Vec<ParserNode> = Vec::new();
        let mut k: usize = n;
        while k > 0
            invariant
                k <= n,
                n as int == st.len() - cut,
                popped@.len() == k,
                forall|j: int| 0 <= j < k ==> node_view(#[trigger] popped@[j]) == st[st.len() - 1 - j].1,
                children@.len() == n - k,
                forall|j: int| 0 <= j < n - k ==> node_view(#[trigger] children@[j]) == st[cut + j].1,
            decreases k,
        {
            let node = popped.pop().unwrap();
            children.push(node);
            k -= 1;
        }
        proof {
            lemma_nodes_view(children@);
            let kids = st.subrange(cut, st.len() as int).map_values(|p: (usize, NodeView)| p.1);
            assert(nodes_view(children@) =~= kids);
            assert(node_view(children@[0]) == kids[0]);
            assert(node_view(children@[n - 1]) == kids[n - 1]);
        }
        let span = join_node_spans(&children[0], &children[n - 1]);
        let kind = self.automata.grammar.rules[rule].name.clone();
        let node = ParserNode::NonTerminal { kind, span, children };
        (node, last_state)
    }

    /// Runs the parser over `tokens`: reads them in order, shifting, reducing
    /// and skipping unexpected tokens with an error, then reduces by the first
    /// rule and returns its node and the errors.  The run must end: the
    /// parser loops forever or stops on some automata and inputs.
    pub fn parse(&mut self, tokens: &Vec<Token>) -> (r: (ParserNode, Vec<ParserError>))
        requires
            old(self).wf(),
            exists|fuel: nat|
                parse_outcome(
                    old(self).spec_table(),
                    old(self).spec_rules(),
                    ParseConfig {
                        state: old(self).spec_state(),
                        stack: old(self).spec_stack(),
                        queue: token_nodes(tokens@),
                        errors: Seq::empty(),
                    },
                    fuel,
                ) is Some,
        ensures
            final(self).wf(),
            final(self).spec_table() == old(self).spec_table(),
            final(self).spec_rules() == old(self).spec_rules(),
            forall|fuel: nat|
                #[trigger] parse_outcome(
                    old(self).spec_table(),
                    old(self).spec_rules(),
                    ParseConfig {
                        state: old(self).spec_state(),
                        stack: old(self).spec_stack(),
                        queue: token_nodes(tokens@),
                        errors: Seq::empty(),
                    },
                    fuel,
                ) is Some ==> {
                    let out = parse_outcome(
                        old(self).spec_table(),
                        old(self).spec_rules(),
                        ParseConfig {
                            state: old(self).spec_state(),
                            stack: old(self).spec_stack(),
                            queue: token_nodes(tokens@),
                            errors: Seq::empty(),
                        },
                        fuel,
                    )->0;
                    &&& node_view(r.0) == out.0
                    &&& errors_view(r.1@) == out.1.errors
                    &&& final(self).spec_state() == out.1.state
                    &&& final(self).spec_stack() == out.1.stack
                },
    {
        let ghost table = self.spec_table();
        let ghost rules = self.spec_rules();
        let ghost init = ParseConfig {
            state: self.state,
            stack: stack_view(self.stack@),
            queue: token_nodes(tokens@),
            errors: Seq::empty(),
        };
        let ghost fuel = choose|fuel: nat| parse_outcome(table, rules, init, fuel) is Some;
        let mut pending: Vec<ParserNode> = Vec::new();
        let mut k: usize = tokens.len();
        while k > 0
            invariant
                k <= tokens@.len(),
                pending@.len() == tokens@.len() - k,
                forall|j: int| 0 <= j < pending@.len() ==> node_view(#[trigger] pending@[j]) == NodeView::Terminal(tokens@[tokens@.len() - 1 - j]),
            decreases k,
        {
            k -= 1;
            pending.push(ParserNode::Terminal(tokens[k].clone()));
        }
        let mut errors: Vec<ParserError> = Vec::new();
        proof {
            lemma_nodes_view(pending@);
            assert(nodes_view(pending@).reverse() =~= token_nodes(tokens@));
            assert(errors_view(errors@) =~= Seq::empty());
            assert(self.config(pending@, errors@) == init);
        }
        let ghost mut f = fuel;
        while pending.len() > 0
            invariant
                self.wf(),
                self.spec_table() == table,
                self.spec_rules() == rules,
                parse_run(table, rules, self.config(pending@, errors@), f) == parse_run(table, rules, init, fuel),
                parse_outcome(table, rules, init, fuel) is Some,
            decreases f,
        {
            let ghost c = self.config(pending@, errors@);
            let ghost before = pending@;
            proof {
                lemma_nodes_view(before);
                assert(c.queue.len() > 0);
                assert(f > 0);
                assert(parse_step(table, rules, c) is Some);
                assert(c.queue[0] == node_view(before[before.len() - 1]));
            }
            let current = pending.pop().unwrap();
            let kind = current.get_node_kind();
            let actions = &self.automata.goto_table[self.state];
            match actions.get(&kind) {
                Some(LR1ParserAction::Shift(next_state)) => {
                    self.stack.push((self.state, current));
                    self.state = next_state;
                    proof {
                        lemma_nodes_view(pending@);
                        assert(nodes_view(pending@).reverse() =~= c.queue.drop_first());
                        assert(stack_view(self.stack@) =~= c.stack.push((c.state, c.queue[0])));
                    }
                },
                Some(LR1ParserAction::Reduce(rule)) => {
                    let (new_node, last_state) = self.reduce(rule);
                    pending.push(current);
                    pending.push(new_node);
                    self.state = last_state;
                    proof {
                        lemma_nodes_view(pending@);
                        assert(nodes_view(pending@).reverse() =~= seq![node_view(new_node)] + c.queue);
                    }
                },
                None => {
                    let mut expected: StableOrderedSet<String> = StableOrderedSet::new();
                    let mut q: usize = 0;
                    let count = actions.len();
                    while q < count
                        invariant
                            actions.wf(),
                            count == actions.spec_tokens().len(),
                            q <= count,
                            expected.wf(),
                            expected@.to_set() == actions.spec_tokens().take(q as int).to_set(),
                        decreases count - q,
                    {
                        let (token, _) = actions.entry(q);
                        let ghost before_set = expected@;
                        expected.insert(token.clone());
                        proof {
                            crate::frontend_v0::parser::symbol_sets::lemma_inserted_to_set(before_set, token@);
                            assert(actions.spec_tokens().take(q + 1) =~= actions.spec_tokens().take(q as int).push(token@));
                            actions.spec_tokens().take(q as int).lemma_push_to_set_commute(token@);
                        }
                        q += 1;
                    }
                    proof {
                        actions.lemma_dom();
                        assert(actions.spec_tokens().take(count as int) =~= actions.spec_tokens());
                    }
                    let start = current.get_node_start();
                    errors.push(ParserError::UnexpectedToken(current, start, expected));
                    proof {
                        lemma_nodes_view(pending@);
                        assert(nodes_view(pending@).reverse() =~= c.queue.drop_first());
                        assert(errors_view(errors@) =~= c.errors.push(ParserErrorView { token: c.queue[0], position: view_start(c.queue[0]), expected: table[c.state as int].dom() }));
                    }
                },
            }
            proof {
                f = (f - 1) as nat;
            }
        }
        let ghost end = self.config(pending@, errors@);
        proof {
            assert(parse_run(table, rules, end, f) == Some(end));
            assert(parse_run(table, rules, init, fuel) == Some(end));
        }
        let (tree, _) = self.reduce(0);
        proof {
            assert forall|g: nat| #[trigger] parse_outcome(table, rules, init, g) is Some implies parse_run(table, rules, init, g) == Some(end) by {
                lemma_run_unique(table, rules, init, g, fuel);
            }
        }
        (tree, errors)
    }
}

/// Runs that end give the same configuration, whatever their fuel.
pub proof fn lemma_run_unique(
    table: Seq<Map<Seq<char>, LR1ParserAction>>,
    rules: Seq<RuleView>,
    c: ParseConfig,
    f: nat,
    g: nat,
)
    requires
        parse_run(table, rules, c, f) is Some,
        parse_run(table, rules, c, g) is Some,
    ensures
        parse_run(table, rules, c, f) == parse_run(table, rules, c, g),
    decreases f,
{
    if c.queue.len() > 0 {
        let next = parse_step(table, rules, c)->0;
        lemma_run_unique(table, rules, next, (f - 1) as nat, (g - 1) as nat);
    }
}

/// The tokens at the leaves of a node, from left to right.
pub open spec fn leaves(n: NodeView) -> Seq<Token>
    decreases n, 0nat,
{
    match n {
        NodeView::Terminal(t) => seq![t],
        NodeView::NonTerminal { children, .. } => leaves_of(children),
    }
}

/// The tokens at the leaves of a list of nodes, from left to right.
pub open spec fn leaves_of(s: Seq<NodeView>) -> Seq<Token>
    decreases s, 1nat,
{
    if s.len() == 0 {
        Seq::empty()
    } else {
        leaves_of(s.drop_last()) + leaves(s.last())
    }
}

/// The nodes of a stack of the parser, from the bottom.
pub open spec fn stack_nodes(st: Seq<(usize, NodeView)>) -> Seq<NodeView> {
    st.map_values(|p: (usize, NodeView)| p.1)
}

proof fn lemma_leaves_concat(a: Seq<NodeView>, b: Seq<NodeView>)
    ensures
        leaves_of(a + b) == leaves_of(a) + leaves_of(b),
    decreases b.len(),
{
    if b.len() == 0 {
        assert(a + b =~= a);
        assert(leaves_of(a) + leaves_of(b) =~= leaves_of(a));
    } else {
        lemma_leaves_concat(a, b.drop_last());
        assert((a + b).drop_last() =~= a + b.drop_last());
        assert((a + b).last() == b.last());
        assert(leaves_of(a + b) =~= leaves_of(a) + leaves_of(b));
    }
}

proof fn lemma_leaves_single(x: NodeView)
    ensures
        leaves_of(seq![x]) == leaves(x),
{
    assert(seq![x].drop_last() =~= Seq::<NodeView>::empty());
    assert(leaves_of(Seq::<NodeView>::empty()) + leaves(x) =~= leaves(x));
}

proof fn lemma_leaves_front(x: NodeView, q: Seq<NodeView>)
    ensures
        leaves_of(seq![x] + q) == leaves(x) + leaves_of(q),
{
    lemma_leaves_concat(seq![x], q);
    lemma_leaves_single(x);
}

proof fn lemma_leaves_tokens(tokens: Seq<Token>)
    ensures
        leaves_of(token_nodes(tokens)) == tokens,
    decreases tokens.len(),
{
    if tokens.len() > 0 {
        lemma_leaves_tokens(tokens.drop_last());
        assert(token_nodes(tokens).drop_last() =~= token_nodes(tokens.drop_last()));
        assert(leaves(token_nodes(tokens).last()) =~= seq![tokens.last()]);
        assert(tokens.drop_last() + seq![tokens.last()] =~= tokens);
    } else {
        assert(token_nodes(tokens) =~= Seq::<NodeView>::empty());
    }
}

/// A step that reports no error keeps the leaves of the stack and of the
/// nodes still to read.
proof fn lemma_step_leaves(table: Seq<Map<Seq<char>, LR1ParserAction>>, rules: Seq<RuleView>, c: ParseConfig)
    requires
        c.queue.len() > 0,
        parse_step(table, rules, c) is Some,
    ensures
        ({
            let next = parse_step(table, rules, c)->0;
            &&& next.errors.len() >= c.errors.len()
            &&& next.errors.len() == c.errors.len() ==> leaves_of(stack_nodes(next.stack)) + leaves_of(next.queue)
                == leaves_of(stack_nodes(c.stack)) + leaves_of(c.queue)
        }),
{
    let next = parse_step(table, rules, c)->0;
    let node = c.queue[0];
    let m = table[c.state as int];
    assert(c.queue =~= seq![node] + c.queue.drop_first());
    lemma_leaves_front(node, c.queue.drop_first());
    match m.get(view_kind(node)) {
        Some(LR1ParserAction::Shift(s)) => {
            assert(stack_nodes(next.stack) =~= stack_nodes(c.stack) + seq![node]);
            lemma_leaves_concat(stack_nodes(c.stack), seq![node]);
            lemma_leaves_single(node);
            assert(leaves_of(stack_nodes(next.stack)) + leaves_of(next.queue) =~= leaves_of(stack_nodes(c.stack))
                + leaves_of(c.queue));
        },
        Some(LR1ParserAction::Reduce(r)) => {
            let red = reduced(rules, c.stack, r)->0;
            let n = rules[r as int].production.len() as int;
            let cut = c.stack.len() - n;
            let children = c.stack.subrange(cut, c.stack.len() as int).map_values(|p: (usize, NodeView)| p.1);
            assert(stack_nodes(c.stack) =~= stack_nodes(red.2) + children);
            lemma_leaves_concat(stack_nodes(red.2), children);
            lemma_leaves_front(red.0, c.queue);
            assert(leaves(red.0) == leaves_of(children));
            assert(leaves_of(stack_nodes(next.stack)) + leaves_of(next.queue) =~= leaves_of(stack_nodes(c.stack))
                + leaves_of(c.queue));
        },
        None => {},
    }
}

/// A run that reports no new error keeps the leaves of the stack and of the
/// nodes still to read.
proof fn lemma_run_leaves(table: Seq<Map<Seq<char>, LR1ParserAction>>, rules: Seq<RuleView>, c: ParseConfig, fuel: nat)
    requires
        parse_run(table, rules, c, fuel) is Some,
    ensures
        ({
            let end = parse_run(table, rules, c, fuel)->0;
            &&& end.queue.len() == 0
            &&& end.errors.len() >= c.errors.len()
            &&& end.errors.len() == c.errors.len() ==> leaves_of(stack_nodes(end.stack)) + leaves_of(end.queue)
                == leaves_of(stack_nodes(c.stack)) + leaves_of(c.queue)
        }),
    decreases fuel,
{
    if c.queue.len() > 0 {
        let next = parse_step(table, rules, c)->0;
        lemma_step_leaves(table, rules, c);
        lemma_run_leaves(table, rules, next, (fuel - 1) as nat);
    }
}

/// The children of a node (none for a token).
pub open spec fn node_children(n: NodeView) -> Seq<NodeView> {
    match n {
        NodeView::NonTerminal { children, .. } => children,
        NodeView::Terminal(_) => Seq::empty(),
    }
}

/// Law of a step of the parser: it does what the table says for the kind of
/// the next node in the current state.  On a shift to `s` the node goes onto
/// the stack and `s` becomes the state; on a reduction by a rule the top
/// nodes of the stack, as many as the rule's production has symbols and in
/// their order, become the children of a new node named by the rule, which is
/// read next, and the stack is that much shorter; with no action the node is
/// skipped and reported, and the stack stays as it was.
pub proof fn law_step_follows_table(table: Seq<Map<Seq<char>, LR1ParserAction>>, rules: Seq<RuleView>, c: ParseConfig)
    requires
        c.queue.len() > 0,
        c.state < table.len(),
    ensures
        ({
            let node = c.queue[0];
            let m = table[c.state as int];
            &&& m.get(view_kind(node)) matches Some(LR1ParserAction::Shift(s)) ==> (parse_step(table, rules, c) matches Some(
                next,
            ) && next.state == s && next.stack == c.stack.push((c.state, node)) && next.queue == c.queue.drop_first()
                && next.errors == c.errors)
            &&& m.get(view_kind(node)) matches Some(LR1ParserAction::Reduce(r)) ==> (parse_step(table, rules, c) matches Some(
                next,
            ) ==> {
                let k = rules[r as int].production.len();
                &&& r < rules.len()
                &&& 0 < k <= c.stack.len()
                &&& next.stack == c.stack.subrange(0, c.stack.len() - k)
                &&& view_kind(next.queue[0]) == rules[r as int].name
                &&& node_children(next.queue[0]) == stack_nodes(c.stack).subrange(c.stack.len() - k, c.stack.len() as int)
                &&& next.queue.drop_first() == c.queue
                &&& next.errors == c.errors
            })
            &&& m.get(view_kind(node)) is None ==> (parse_step(table, rules, c) matches Some(next) && next.stack == c.stack
                && next.state == c.state && next.queue == c.queue.drop_first() && next.errors.len() == c.errors.len() + 1
                && next.errors.last().token == node)
        }),
{
    let node = c.queue[0];
    let m = table[c.state as int];
    if let Some(LR1ParserAction::Reduce(r)) = m.get(view_kind(node)) {
        if let Some(red) = reduced(rules, c.stack, r) {
            let next = parse_step(table, rules, c)->0;
            let k = rules[r as int].production.len();
            assert(stack_nodes(c.stack).subrange(c.stack.len() - k, c.stack.len() as int) =~= c.stack.subrange(
                c.stack.len() - k,
                c.stack.len() as int,
            ).map_values(|p: (usize, NodeView)| p.1));
            assert((seq![red.0] + c.queue).drop_first() =~= c.queue);
        }
    }
}

/// Law of the parser: when a run over tokens from an empty stack reports no
/// error and its last reduction takes the whole stack, the leaves of the tree
/// are the tokens, in their order.
pub proof fn law_tree_leaves_are_the_tokens(
    table: Seq<Map<Seq<char>, LR1ParserAction>>,
    rules: Seq<RuleView>,
    state: usize,
    tokens: Seq<Token>,
    fuel: nat,
)
    requires
        parse_outcome(
            table,
            rules,
            ParseConfig { state, stack: Seq::empty(), queue: token_nodes(tokens), errors: Seq::empty() },
            fuel,
        ) matches Some(out) && out.1.errors.len() == 0 && out.1.stack.len() == 0,
    ensures
        leaves(
            (parse_outcome(
                table,
                rules,
                ParseConfig { state, stack: Seq::empty(), queue: token_nodes(tokens), errors: Seq::empty() },
                fuel,
            )->0).0,
        ) == tokens,
{
    let c = ParseConfig { state, stack: Seq::empty(), queue: token_nodes(tokens), errors: Seq::empty() };
    let end = parse_run(table, rules, c, fuel)->0;
    lemma_run_leaves(table, rules, c, fuel);
    lemma_leaves_tokens(tokens);
    assert(stack_nodes(c.stack) =~= Seq::<NodeView>::empty());
    assert(end.queue.len() == 0);
    assert(leaves_of(end.queue) =~= Seq::<Token>::empty());
    let red = reduced(rules, end.stack, 0)->0;
    let n = rules[0].production.len() as int;
    let cut = end.stack.len() - n;
    let children = end.stack.subrange(cut, end.stack.len() as int).map_values(|p: (usize, NodeView)| p.1);
    assert(red.2.len() == 0);
    assert(stack_nodes(end.stack) =~= children);
    assert(leaves_of(stack_nodes(end.stack)) + leaves_of(end.queue) =~= leaves_of(stack_nodes(end.stack)));
    assert(leaves_of(stack_nodes(c.stack)) + leaves_of(c.queue) =~= leaves_of(c.queue));
}

} // verus!
