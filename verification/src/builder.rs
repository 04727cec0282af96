//! Construction of the graph from discovery answers. Discovery is outside
//! work: the builder says which token to ask about next, the caller asks and
//! hands the answer back.

use crate::graph::{ArbitrageGraph, GraphView};
use crate::types::{Route, RouteView};
use vstd::prelude::*;

verus! {

/// Where construction stands.
#[derive(Clone, Copy, Debug, PartialEq, Eq, Structural)]
pub enum Phase {
    /// Expanding from the start token.
    Primary,
    /// Asking about the start token once more, to widen the graph.
    Widening,
    /// Expanding from the tokens one hop away from the start token.
    Secondary,
    /// The graph is complete.
    Done,
    /// Discovery could not answer for the start token.
    Failed,
}

/// What the caller has to do next.
#[derive(Debug)]
pub enum Action {
    /// Ask discovery which venues swap this token, and hand in the answer.
    Discover(String),
    /// Nothing: the graph is complete.
    Done,
    /// Nothing: construction has failed.
    Failed,
}

/// An action as plain values.
pub enum ActionView {
    Discover(Seq<char>),
    Done,
    Failed,
}

impl View for Action {
    type V = ActionView;

    open spec fn view(&self) -> ActionView {
        match self {
            Action::Discover(t) => ActionView::Discover(t@),
            Action::Done => ActionView::Done,
            Action::Failed => ActionView::Failed,
        }
    }
}

/// The state of construction as plain values.
#[verifier::ext_equal]
pub struct BuilderView {
    /// The graph built so far.
    pub graph: GraphView,
    /// The start token.
    pub root: Seq<char>,
    pub phase: Phase,
    /// The tokens expanded in the current traversal.
    pub visited: Seq<Seq<char>>,
    /// The tokens waiting to be expanded, the next one last.
    pub stack: Seq<Seq<char>>,
    /// The token that discovery has been asked about and not yet answered.
    pub pending: Option<Seq<char>>,
    /// The tokens from which a traversal is still to start, the next first.
    pub roots: Seq<Seq<char>>,
}

/// An answer of discovery as plain values: the routes, or nothing where
/// discovery failed.
pub open spec fn answer_view(found: &Option<Vec<Route>>) -> Option<Seq<RouteView>> {
    match found {
        Some(routes) => Some(routes.deep_view()),
        None => None,
    }
}

/// The state before the first question: the graph holds the start token
/// alone, which waits to be expanded.
pub open spec fn initial_state(root: Seq<char>) -> BuilderView {
    BuilderView {
        graph: GraphView { tokens: seq![root], edges: seq![Seq::empty()] },
        root,
        phase: Phase::Primary,
        visited: Seq::empty(),
        stack: seq![root],
        pending: None,
        roots: Seq::empty(),
    }
}

/// `stack` without the visited tokens at its top.
pub open spec fn unvisited_top(visited: Seq<Seq<char>>, stack: Seq<Seq<char>>) -> Seq<Seq<char>>
    decreases stack.len(),
{
    if stack.len() == 0 || !visited.contains(stack.last()) {
        stack
    } else {
        unvisited_top(visited, stack.drop_last())
    }
}

/// The state in which the token at the top of `top` is being expanded: it
/// is visited, has a node, and discovery is asked about it.
pub open spec fn expanding(b: BuilderView, top: Seq<Seq<char>>) -> BuilderView {
    BuilderView {
        graph: b.graph.with_node(top.last()),
        visited: b.visited.push(top.last()),
        stack: top.drop_last(),
        pending: Some(top.last()),
        ..b
    }
}

/// The state after the builder has chosen what to do next, and the action
/// it asks for.
///
/// A question that is still open is asked again. During a traversal the
/// next unvisited token of the stack is expanded. When the stack of the
/// first traversal is used up, the start token is asked about once more;
/// when that of a later traversal is used up, the next traversal starts, or
/// construction is complete.
pub open spec fn next_state(b: BuilderView) -> (BuilderView, ActionView) {
    match b.pending {
        Some(t) => (b, ActionView::Discover(t)),
        None => {
            let top = unvisited_top(b.visited, b.stack);
            match b.phase {
                Phase::Done => (b, ActionView::Done),
                Phase::Failed => (b, ActionView::Failed),
                Phase::Widening => (
                    BuilderView { pending: Some(b.root), ..b },
                    ActionView::Discover(b.root),
                ),
                Phase::Primary => if top.len() > 0 {
                    (expanding(b, top), ActionView::Discover(top.last()))
                } else {
                    (
                        BuilderView {
                            phase: Phase::Widening,
                            stack: top,
                            pending: Some(b.root),
                            ..b
                        },
                        ActionView::Discover(b.root),
                    )
                },
                Phase::Secondary => if top.len() > 0 {
                    (expanding(b, top), ActionView::Discover(top.last()))
                } else if b.roots.len() > 0 {
                    (
                        BuilderView {
                            graph: b.graph.with_node(b.roots[0]),
                            visited: seq![b.roots[0]],
                            stack: top,
                            pending: Some(b.roots[0]),
                            roots: b.roots.drop_first(),
                            ..b
                        },
                        ActionView::Discover(b.roots[0]),
                    )
                } else {
                    (BuilderView { phase: Phase::Done, stack: top, ..b }, ActionView::Done)
                },
            }
        },
    }
}

/// The graph with an edge from `from` for each of the first `k` routes, in
/// order.
pub open spec fn add_routes(g: GraphView, from: Seq<char>, routes: Seq<RouteView>, k: nat) -> GraphView
    decreases k,
{
    if k == 0 {
        g
    } else {
        add_routes(g, from, routes, (k - 1) as nat).with_edge(
            from,
            routes[k - 1].dex,
            routes[k - 1].weight,
        )
    }
}

/// The stack with the output token of each of the first `k` routes pushed,
/// in order, unless the token is visited.
pub open spec fn push_unvisited(
    stack: Seq<Seq<char>>,
    visited: Seq<Seq<char>>,
    routes: Seq<RouteView>,
    k: nat,
) -> Seq<Seq<char>>
    decreases k,
{
    if k == 0 {
        stack
    } else {
        let below = push_unvisited(stack, visited, routes, (k - 1) as nat);
        if visited.contains(routes[k - 1].dex.coin_out_type) {
            below
        } else {
            below.push(routes[k - 1].dex.coin_out_type)
        }
    }
}

/// The output tokens of those of the first `k` routes that do not lead to a
/// native alias, in order.
pub open spec fn secondary_roots(routes: Seq<RouteView>, k: nat) -> Seq<Seq<char>>
    decreases k,
{
    if k == 0 {
        Seq::empty()
    } else {
        let before = secondary_roots(routes, (k - 1) as nat);
        if routes[k - 1].native_out {
            before
        } else {
            before.push(routes[k - 1].dex.coin_out_type)
        }
    }
}

/// The open question is the first of the construction: the start token is
/// the only token visited.
pub open spec fn is_first_question(b: BuilderView) -> bool {
    b.phase == Phase::Primary && b.visited.len() == 1
}

/// The state after discovery has answered the open question.
///
/// During a traversal an answer adds an edge per route and pushes the output
/// tokens that are not visited; a failed discovery adds nothing, unless it
/// is the very first question, the one about the start token, whose failure
/// fails construction. The widening question decides from where the later
/// traversals start; if it fails, construction fails. Without an open
/// question nothing changes.
pub open spec fn answered(b: BuilderView, found: Option<Seq<RouteView>>) -> BuilderView {
    match b.pending {
        None => b,
        Some(t) => match b.phase {
            Phase::Widening => match found {
                None => BuilderView { phase: Phase::Failed, pending: None, ..b },
                Some(routes) => BuilderView {
                    phase: Phase::Secondary,
                    visited: Seq::empty(),
                    stack: Seq::empty(),
                    pending: None,
                    roots: secondary_roots(routes, routes.len()),
                    ..b
                },
            },
            Phase::Primary | Phase::Secondary => match found {
                None => if is_first_question(b) {
                    BuilderView { phase: Phase::Failed, pending: None, ..b }
                } else {
                    BuilderView { pending: None, ..b }
                },
                Some(routes) => BuilderView {
                    graph: add_routes(b.graph, t, routes, routes.len()),
                    stack: push_unvisited(b.stack, b.visited, routes, routes.len()),
                    pending: None,
                    ..b
                },
            },
            Phase::Done | Phase::Failed => BuilderView { pending: None, ..b },
        },
    }
}

/// Whether `list` holds the token `token`.
fn has_token(list: &Vec<String>, token: &String) -> (found: bool)
    ensures
        found == list.deep_view().contains(token@),
{
    let n = list.len();
    let mut i: usize = 0;
    while i < n
        invariant
            n == list@.len(),
            i <= n,
            forall|k: int| 0 <= k < i ==> (#[trigger] list.deep_view()[k]) != token@,
        decreases n - i,
    {
        if list[i] == *token {
            assert(list.deep_view()[i as int] == token@);
            return true;
        }
        assert(list.deep_view()[i as int] != token@);
        i += 1;
    }
    false
}

/// The construction of one graph, from its start token.
pub struct GraphBuilder {
    graph: ArbitrageGraph,
    root: String,
    phase: Phase,
    visited: Vec<String>,
    stack: Vec<String>,
    pending: Option<String>,
    roots: Vec<String>,
    next_root: usize,
}

impl View for GraphBuilder {
    type V = BuilderView;

    closed spec fn view(&self) -> BuilderView {
        BuilderView {
            graph: self.graph@,
            root: self.root@,
            phase: self.phase,
            visited: self.visited.deep_view(),
            stack: self.stack.deep_view(),
            pending: match self.pending {
                Some(t) => Some(t@),
                None => None,
            },
            roots: self.roots.deep_view().subrange(
                self.next_root as int,
                self.roots.deep_view().len() as int,
            ),
        }
    }
}

impl GraphBuilder {
    /// The invariant of the builder.
    pub closed spec fn wf(&self) -> bool {
        self.graph.wf() && self.next_root <= self.roots@.len()
    }

    /// A builder for the graph around the token `root`.
    pub fn new(root: &str) -> (b: Self)
        ensures
            b.wf(),
            b@ == initial_state(root@),
    {
        let mut graph = ArbitrageGraph::new();
        graph.add_node(root);
        let mut stack: Vec<String> = Vec::new();
        stack.push(root.to_owned());
        let b = GraphBuilder {
            graph,
            root: root.to_owned(),
            phase: Phase::Primary,
            visited: Vec::new(),
            stack,
            pending: None,
            roots: Vec::new(),
            next_root: 0,
        };
        proof {
            assert(b@.graph.tokens =~= seq![root@]);
            assert(b@.graph.edges =~= seq![Seq::empty()]);
            assert(b@.stack =~= seq![root@]);
            assert(b@.visited =~= Seq::empty());
            assert(b@.roots =~= Seq::empty());
        }
        b
    }

    /// Where construction stands.
    pub fn phase(&self) -> (p: Phase)
        ensures
            p == self@.phase,
    {
        self.phase
    }

    /// Whether discovery has been asked a question that it has not answered.
    pub fn has_open_question(&self) -> (open: bool)
        ensures
            open == (self@.pending is Some),
    {
        self.pending.is_some()
    }

    /// The graph built so far.
    pub fn graph(&self) -> (g: &ArbitrageGraph)
        requires
            self.wf(),
        ensures
            g.wf(),
            g@ == self@.graph,
    {
        &self.graph
    }

    /// Takes the visited tokens off the top of the stack and then the first
    /// unvisited one, which it returns.
    fn pop_unvisited(&mut self) -> (next: Option<String>)
        ensures
            final(self).graph == old(self).graph,
            final(self).root == old(self).root,
            final(self).phase == old(self).phase,
            final(self).visited == old(self).visited,
            final(self).pending == old(self).pending,
            final(self).roots == old(self).roots,
            final(self).next_root == old(self).next_root,
            match next {
                Some(t) => final(self)@.stack.push(t@) == unvisited_top(
                    old(self)@.visited,
                    old(self)@.stack,
                ),
                None => unvisited_top(old(self)@.visited, old(self)@.stack).len() == 0
                    && final(self)@.stack.len() == 0,
            },
    {
        let ghost visited = self@.visited;
        let ghost start = self@.stack;
        let mut next: Option<String> = None;
        while next.is_none() && self.stack.len() > 0
            invariant
                self.graph == old(self).graph,
                self.root == old(self).root,
                self.phase == old(self).phase,
                self.visited == old(self).visited,
                self.pending == old(self).pending,
                self.roots == old(self).roots,
                self.next_root == old(self).next_root,
                visited == self@.visited,
                match next {
                    Some(t) => unvisited_top(visited, start) == self@.stack.push(t@),
                    None => unvisited_top(visited, start) == unvisited_top(visited, self@.stack),
                },
            decreases self.stack@.len() + (if next is None { 1int } else { 0int }),
        {
            let ghost before = self@.stack;
            let t = self.stack.pop().unwrap();
            assert(t@ == before.last());
            assert(self@.stack =~= before.drop_last());
            if !has_token(&self.visited, &t) {
                assert(before =~= self@.stack.push(t@));
                next = Some(t);
            }
        }
        next
    }

    /// Chooses what to do next and says what the caller has to do.
    pub fn next_action(&mut self) -> (action: Action)
        requires
            old(self).wf(),
        ensures
            final(self).wf(),
            (final(self)@, action@) == next_state(old(self)@),
    {
        match &self.pending {
            Some(t) => {
                return Action::Discover(t.clone());
            },
            None => {},
        }
        match self.phase {
            Phase::Done => Action::Done,
            Phase::Failed => Action::Failed,
            Phase::Widening => {
                self.pending = Some(self.root.clone());
                Action::Discover(self.root.clone())
            },
            Phase::Primary | Phase::Secondary => {
                let ghost before = self@;
                match self.pop_unvisited() {
                    Some(t) => {
                        let ghost top = unvisited_top(before.visited, before.stack);
                        assert(top.last() == t@);
                        assert(top.drop_last() =~= self@.stack);
                        self.graph.add_node(t.as_str());
                        self.visited.push(t.clone());
                        self.pending = Some(t.clone());
                        assert(self@.visited =~= before.visited.push(t@));
                        assert(self@ == expanding(before, top));
                        Action::Discover(t)
                    },
                    None => {
                        assert(self@.stack =~= unvisited_top(before.visited, before.stack));
                        if self.phase == Phase::Primary {
                            self.phase = Phase::Widening;
                            self.pending = Some(self.root.clone());
                            Action::Discover(self.root.clone())
                        } else if self.next_root < self.roots.len() {
                            let r = self.roots[self.next_root].clone();
                            assert(r@ == before.roots[0]);
                            self.next_root += 1;
                            self.graph.add_node(r.as_str());
                            let mut visited: Vec<String> = Vec::new();
                            visited.push(r.clone());
                            self.visited = visited;
                            self.pending = Some(r.clone());
                            assert(self@.visited =~= seq![r@]);
                            assert(self@.roots =~= before.roots.drop_first());
                            Action::Discover(r)
                        } else {
                            self.phase = Phase::Done;
                            Action::Done
                        }
                    },
                }
            },
        }
    }

    /// Takes the answer of discovery to the open question: the routes from
    /// the token that was asked about, or nothing where discovery failed.
    pub fn answer(&mut self, found: Option<Vec<Route>>)
        requires
            old(self).wf(),
        ensures
            final(self).wf(),
            final(self)@ == answered(old(self)@, answer_view(&found)),
    {
        let ghost before = self@;
        let token = match self.pending.take() {
            Some(t) => t,
            None => {
                assert(self@ == before);
                return ;
            },
        };
        match self.phase {
            Phase::Widening => match found {
                None => {
                    self.phase = Phase::Failed;
                },
                Some(routes) => {
                    let ghost rv = routes.deep_view();
                    let mut roots: Vec<String> = Vec::new();
                    let n = routes.len();
                    let mut k: usize = 0;
                    while k < n
                        invariant
                            n == routes@.len(),
                            rv == routes.deep_view(),
                            k <= n,
                            roots.deep_view() == secondary_roots(rv, k as nat),
                        decreases n - k,
                    {
                        let ghost sofar = roots.deep_view();
                        assert(rv[k as int] == routes@[k as int]@);
                        if !routes[k].native_out {
                            roots.push(routes[k].dex.coin_out_type.clone());
                            assert(roots.deep_view() =~= sofar.push(rv[k as int].dex.coin_out_type));
                        }
                        k += 1;
                    }
                    self.roots = roots;
                    self.next_root = 0;
                    self.visited = Vec::new();
                    self.stack = Vec::new();
                    self.phase = Phase::Secondary;
                    assert(self@.roots =~= secondary_roots(rv, rv.len()));
                    assert(self@.visited =~= Seq::empty());
                    assert(self@.stack =~= Seq::empty());
                },
            },
            Phase::Primary | Phase::Secondary => match found {
                None => {
                    if self.phase == Phase::Primary && self.visited.len() == 1 {
                        self.phase = Phase::Failed;
                    }
                },
                Some(routes) => {
                    let ghost rv = routes.deep_view();
                    let n = routes.len();
                    let mut k: usize = 0;
                    while k < n
                        invariant
                            n == routes@.len(),
                            rv == routes.deep_view(),
                            k <= n,
                            self.wf(),
                            self.root == old(self).root,
                            self.phase == old(self).phase,
                            self.visited == old(self).visited,
                            self.pending is None,
                            before == old(self)@,
                            self.roots == old(self).roots,
                            self.next_root == old(self).next_root,
                            self@.graph == add_routes(before.graph, token@, rv, k as nat),
                            self@.stack == push_unvisited(
                                before.stack,
                                before.visited,
                                rv,
                                k as nat,
                            ),
                        decreases n - k,
                    {
                        let ghost sofar = self@.stack;
                        assert(rv[k as int] == routes@[k as int]@);
                        let out = routes[k].dex.coin_out_type.clone();
                        self.graph.add_edge(token.as_str(), routes[k].dex.clone(), routes[k].weight);
                        if !has_token(&self.visited, &out) {
                            self.stack.push(out);
                            assert(self@.stack =~= sofar.push(rv[k as int].dex.coin_out_type));
                        }
                        k += 1;
                    }
                },
            },
            Phase::Done | Phase::Failed => {},
        }
    }

    /// The graph, once construction is complete; nothing before that or
    /// after a failure.
    pub fn into_graph(self) -> (g: Option<ArbitrageGraph>)
        requires
            self.wf(),
        ensures
            match g {
                Some(graph) => self@.phase == Phase::Done && self@.pending is None && graph.wf()
                    && graph@ == self@.graph,
                None => !(self@.phase == Phase::Done && self@.pending is None),
            },
    {
        if self.phase == Phase::Done && self.pending.is_none() {
            Some(self.graph)
        } else {
            None
        }
    }
}

} // verus!
