//! The arbitrage graph: the set of known tokens and, for each of them, the
//! ordered list of its outgoing exchange edges.

use crate::detect::{negative_cycles, opportunities};
use crate::network::{
    has_negative_cycle, hop_ok, hop_to, hop_weight, hops_view, is_walk, net_ok, net_view,
    walk_weight, HopRef, Link,
};
use crate::sound::{
    genuine, lemma_dead_end_no_opportunity, lemma_no_negative_cycle_no_opportunity,
    lemma_opportunities_genuine,
};
use crate::types::{
    is_arbitrage_cycle, is_chain, is_loop, total_weight, Dex, DexView, Edge, EdgeView, Node, Path,
};
use vstd::prelude::*;

verus! {

/// The place of `token` among `tokens`, if it is one of them.
pub open spec fn position_of(tokens: Seq<Seq<char>>, token: Seq<char>) -> Option<int> {
    if tokens.contains(token) {
        Some(tokens.index_of(token))
    } else {
        None
    }
}

/// An edge in the list of token `i` leaves that token and ends at a token of
/// the graph, the output token of its venue.
pub open spec fn edge_ok(tokens: Seq<Seq<char>>, i: int, e: EdgeView) -> bool {
    &&& e.from == tokens[i]
    &&& tokens.contains(e.to)
    &&& e.to == e.dex.coin_out_type
}

/// The link that stands for the edge `e`: the place of its target and its
/// weight.
pub open spec fn link_of(tokens: Seq<Seq<char>>, e: EdgeView) -> Link {
    Link { to: tokens.index_of(e.to) as usize, weight: e.weight }
}

/// The edges that the hops of `hops` name.
pub open spec fn edges_at(edges: Seq<Seq<EdgeView>>, hops: Seq<HopRef>) -> Seq<EdgeView> {
    Seq::new(hops.len(), |k: int| edges[hops[k].node as int][hops[k].slot as int])
}

/// The edge lists that the cycles of `cycles` name.
pub open spec fn cycles_at(
    edges: Seq<Seq<EdgeView>>,
    cycles: Seq<Seq<HopRef>>,
) -> Seq<Seq<EdgeView>> {
    Seq::new(cycles.len(), |c: int| edges_at(edges, cycles[c]))
}

/// What a graph holds: the names of its tokens in the order in which they
/// were met and, for every token, its outgoing edges in the order in which
/// they were added.
#[verifier::ext_equal]
pub struct GraphView {
    pub tokens: Seq<Seq<char>>,
    pub edges: Seq<Seq<EdgeView>>,
}

impl GraphView {
    /// No token occurs twice, every token has its list of edges, and every
    /// edge runs between tokens of the graph.
    pub open spec fn consistent(self) -> bool {
        &&& self.tokens.no_duplicates()
        &&& self.edges.len() == self.tokens.len()
        &&& forall|i: int, j: int|
            0 <= i < self.edges.len() && 0 <= j < self.edges[i].len() ==> edge_ok(
                self.tokens,
                i,
                #[trigger] self.edges[i][j],
            )
    }

    /// The positions of nodes and edges fit a machine word.
    pub open spec fn fits(self) -> bool {
        &&& self.tokens.len() <= usize::MAX
        &&& forall|i: int| 0 <= i < self.edges.len() ==> (#[trigger] self.edges[i]).len() <= usize::MAX
    }

    /// The graph is consistent and fits the machine.
    pub open spec fn wf(self) -> bool {
        self.consistent() && self.fits()
    }

    /// The graph as a network of indices and weights, edge for edge.
    pub open spec fn links(self) -> Seq<Seq<Link>> {
        Seq::new(
            self.edges.len(),
            |i: int| Seq::new(self.edges[i].len(), |j: int| link_of(self.tokens, self.edges[i][j])),
        )
    }

    /// The graph with a node for `token`: unchanged where it has one.
    pub open spec fn with_node(self, token: Seq<char>) -> GraphView {
        if self.tokens.contains(token) {
            self
        } else {
            GraphView { tokens: self.tokens.push(token), edges: self.edges.push(Seq::empty()) }
        }
    }

    /// The graph with one edge more, from `from` through `dex` to the
    /// output token of `dex`, at the end of the edges of `from`. Both tokens
    /// get a node where they have none.
    pub open spec fn with_edge(self, from: Seq<char>, dex: DexView, weight: i64) -> GraphView {
        let g = self.with_node(from).with_node(dex.coin_out_type);
        let u = g.tokens.index_of(from);
        GraphView {
            tokens: g.tokens,
            edges: g.edges.update(
                u,
                g.edges[u].push(EdgeView { from, to: dex.coin_out_type, dex, weight }),
            ),
        }
    }

    /// The cycles that detection reports from the token `start`: the
    /// opportunities of the network, as edges. None where the graph does
    /// not know the token.
    pub open spec fn reported(self, start: Seq<char>) -> Seq<Seq<EdgeView>> {
        match position_of(self.tokens, start) {
            Some(s) => cycles_at(self.edges, opportunities(self.links(), s)),
            None => Seq::empty(),
        }
    }

    /// The links of a well-formed graph lead to its nodes.
    pub proof fn lemma_links_ok(self)
        requires
            self.wf(),
        ensures
            net_ok(self.links()),
            self.links().len() == self.tokens.len(),
    {
        let net = self.links();
        assert forall|i: int, j: int| 0 <= i < net.len() && 0 <= j < net[i].len() implies (
        #[trigger] net[i][j]).to < net.len() by {
            assert(edge_ok(self.tokens, i, self.edges[i][j]));
        }
        assert forall|i: int| 0 <= i < net.len() implies (#[trigger] net[i]).len() <= usize::MAX by {
            assert(self.edges[i].len() <= usize::MAX);
        }
    }

    /// The edges along a walk of the network weigh what the walk weighs,
    /// are chained by token, and run from the token where the walk starts to
    /// the token where it ends.
    pub proof fn lemma_walk_edges(self, hops: Seq<HopRef>)
        requires
            self.wf(),
            is_walk(self.links(), hops),
        ensures
            total_weight(edges_at(self.edges, hops)) == walk_weight(self.links(), hops),
            is_chain(edges_at(self.edges, hops)),
            hops.len() > 0 ==> edges_at(self.edges, hops)[0].from == self.tokens[hops[0].node as int]
                && edges_at(self.edges, hops).last().to == self.tokens[hop_to(
                self.links(),
                hops.last(),
            )],
        decreases hops.len(),
    {
        let net = self.links();
        let edges = edges_at(self.edges, hops);
        assert forall|k: int| 0 <= k < hops.len() implies edge_ok(
            self.tokens,
            hops[k].node as int,
            #[trigger] edges[k],
        ) && self.tokens[hop_to(net, hops[k])] == edges[k].to && hop_weight(net, hops[k])
            == edges[k].weight by {
            assert(hop_ok(net, hops[k]));
            assert(edge_ok(
                self.tokens,
                hops[k].node as int,
                self.edges[hops[k].node as int][hops[k].slot as int],
            ));
        }
        assert forall|k: int| 0 <= k < edges.len() - 1 implies (#[trigger] edges[k]).to == edges[k
            + 1].from by {
            assert(hop_to(net, hops[k]) == hops[k + 1].node);
            assert(edge_ok(self.tokens, hops[k + 1].node as int, edges[k + 1]));
        }
        if hops.len() > 0 {
            let shorter = hops.drop_last();
            assert forall|k: int| 0 <= k < shorter.len() implies hop_ok(net, #[trigger] shorter[k]) by {
                assert(shorter[k] == hops[k]);
            }
            assert forall|k: int| 0 <= k < shorter.len() - 1 implies hop_to(
                net,
                #[trigger] shorter[k],
            ) == shorter[k + 1].node by {
                assert(shorter[k] == hops[k]);
                assert(shorter[k + 1] == hops[k + 1]);
            }
            self.lemma_walk_edges(shorter);
            assert(edges.drop_last() =~= edges_at(self.edges, shorter));
            assert(edge_ok(self.tokens, hops[0].node as int, edges[0]));
            assert(edges.last() == edges[hops.len() - 1]);
        }
    }

    /// A node for a token keeps the graph consistent and adds that token to
    /// its tokens, and nothing else.
    pub proof fn lemma_with_node(self, token: Seq<char>)
        requires
            self.consistent(),
        ensures
            self.with_node(token).consistent(),
            self.with_node(token).tokens.to_set() == self.tokens.to_set().insert(token),
            forall|i: int|
                0 <= i < self.tokens.len() ==> #[trigger] self.with_node(token).tokens[i]
                    == self.tokens[i] && self.with_node(token).edges[i] == self.edges[i],
            self.with_node(token).tokens.len() >= self.tokens.len(),
    {
        let g = self.with_node(token);
        if !self.tokens.contains(token) {
            assert forall|i: int, j: int|
                0 <= i < g.tokens.len() && 0 <= j < g.tokens.len() && i != j implies g.tokens[i]
                != g.tokens[j] by {
                if i < self.tokens.len() && j < self.tokens.len() {
                } else if i < self.tokens.len() {
                    assert(self.tokens.contains(self.tokens[i]));
                } else {
                    assert(self.tokens.contains(self.tokens[j]));
                }
            }
            assert forall|i: int, j: int|
                0 <= i < g.edges.len() && 0 <= j < g.edges[i].len() implies edge_ok(
                g.tokens,
                i,
                #[trigger] g.edges[i][j],
            ) by {
                let e = self.edges[i][j];
                assert(edge_ok(self.tokens, i, e));
                let t = self.tokens.index_of(e.to);
                assert(g.tokens[t] == e.to);
            }
        }
        assert forall|x: Seq<char>| g.tokens.to_set().contains(x) <==> self.tokens.to_set().insert(
            token,
        ).contains(x) by {
            if g.tokens.contains(x) {
                let i = g.tokens.index_of(x);
                if i < self.tokens.len() {
                    assert(self.tokens[i] == x);
                }
            }
            if self.tokens.contains(x) {
                let i = self.tokens.index_of(x);
                assert(g.tokens[i] == x);
            }
            if x == token {
                if self.tokens.contains(token) {
                } else {
                    assert(g.tokens[self.tokens.len() as int] == token);
                }
            }
        }
        assert(g.tokens.to_set() =~= self.tokens.to_set().insert(token));
    }

    /// An edge keeps the graph consistent and adds its two tokens to the
    /// tokens of the graph, and no other.
    pub proof fn lemma_with_edge(self, from: Seq<char>, dex: DexView, weight: i64)
        requires
            self.consistent(),
        ensures
            self.with_edge(from, dex, weight).consistent(),
            self.with_edge(from, dex, weight).tokens.to_set() == self.tokens.to_set().insert(
                from,
            ).insert(dex.coin_out_type),
    {
        let g1 = self.with_node(from);
        self.lemma_with_node(from);
        let g2 = g1.with_node(dex.coin_out_type);
        g1.lemma_with_node(dex.coin_out_type);
        let g = self.with_edge(from, dex, weight);
        assert(g1.tokens.to_set().contains(from));
        assert(g2.tokens.to_set().contains(from));
        assert(g2.tokens.to_set().contains(dex.coin_out_type));
        let u = g2.tokens.index_of(from);
        assert forall|i: int, j: int|
            0 <= i < g.edges.len() && 0 <= j < g.edges[i].len() implies edge_ok(
            g.tokens,
            i,
            #[trigger] g.edges[i][j],
        ) by {
            if i != u || j < g2.edges[i].len() {
                assert(edge_ok(g2.tokens, i, g2.edges[i][j]));
            }
        }
    }

    /// Every venue of the graph takes in the token that its edge leaves.
    pub open spec fn venues_agree(self) -> bool {
        forall|i: int, j: int|
            0 <= i < self.edges.len() && 0 <= j < self.edges[i].len() ==> (
            #[trigger] self.edges[i][j]).dex.coin_in_type == self.edges[i][j].from
    }

    /// Where every venue takes in the token that its edge leaves, the
    /// venues of every reported cycle are a closed trading loop.
    pub proof fn lemma_reported_are_loops(self, start: Seq<char>)
        requires
            self.wf(),
            self.venues_agree(),
        ensures
            forall|c: int|
                0 <= c < self.reported(start).len() ==> is_loop(
                    hops_of(#[trigger] self.reported(start)[c]),
                ),
    {
        match position_of(self.tokens, start) {
            Some(s) => {
                let found = opportunities(self.links(), s);
                self.lemma_links_ok();
                lemma_opportunities_genuine(self.links(), s);
                assert forall|c: int| 0 <= c < self.reported(start).len() implies is_loop(
                    hops_of(#[trigger] self.reported(start)[c]),
                ) by {
                    let cycle = self.reported(start)[c];
                    let hops = hops_of(cycle);
                    assert(genuine(self.links(), s, found[c]));
                    self.lemma_walk_edges(found[c]);
                    assert(is_arbitrage_cycle(cycle)) by {
                        self.lemma_reported_are_arbitrage(start);
                    }
                    assert forall|k: int| 0 <= k < cycle.len() implies (#[trigger] cycle[k]).to
                        == cycle[k].dex.coin_out_type && cycle[k].from
                        == cycle[k].dex.coin_in_type by {
                        let h = found[c][k];
                        assert(hop_ok(self.links(), h));
                        assert(edge_ok(
                            self.tokens,
                            h.node as int,
                            self.edges[h.node as int][h.slot as int],
                        ));
                    }
                    assert forall|k: int| 0 <= k < hops.len() - 1 implies (#[trigger] hops[k]).coin_out_type
                        == hops[k + 1].coin_in_type by {
                        assert(cycle[k].to == cycle[k + 1].from);
                    }
                    assert(hops.last() == cycle.last().dex);
                }
            },
            None => {},
        }
    }

    /// Every cycle that detection reports is a profitable round trip.
    pub proof fn lemma_reported_are_arbitrage(self, start: Seq<char>)
        requires
            self.wf(),
        ensures
            forall|c: int|
                0 <= c < self.reported(start).len() ==> is_arbitrage_cycle(
                    #[trigger] self.reported(start)[c],
                ),
    {
        match position_of(self.tokens, start) {
            Some(s) => {
                let found = opportunities(self.links(), s);
                self.lemma_links_ok();
                lemma_opportunities_genuine(self.links(), s);
                assert forall|c: int| 0 <= c < self.reported(start).len() implies is_arbitrage_cycle(
                    #[trigger] self.reported(start)[c],
                ) by {
                    assert(genuine(self.links(), s, found[c]));
                    self.lemma_walk_edges(found[c]);
                }
            },
            None => {},
        }
    }
}

/// The number of edges in the first `k` lists of `edges`.
pub open spec fn edge_total(edges: Seq<Seq<EdgeView>>, k: nat) -> nat
    decreases k,
{
    if k == 0 {
        0
    } else {
        edge_total(edges, (k - 1) as nat) + edges[k - 1].len()
    }
}

/// More lists hold no fewer edges.
pub proof fn lemma_edge_total_grows(edges: Seq<Seq<EdgeView>>, k: nat, m: nat)
    requires
        k <= m,
    ensures
        edge_total(edges, k) <= edge_total(edges, m),
    decreases m,
{
    if k < m {
        lemma_edge_total_grows(edges, k, (m - 1) as nat);
    }
}

/// In a sequence without duplicates an element is found where it stands.
pub proof fn lemma_index_of_unique(tokens: Seq<Seq<char>>, i: int)
    requires
        tokens.no_duplicates(),
        0 <= i < tokens.len(),
    ensures
        tokens.contains(tokens[i]),
        tokens.index_of(tokens[i]) == i,
{
}

/// A graph of the tokens and swap routes that discovery has shown.
pub struct ArbitrageGraph {
    nodes: Vec<Node>,
    edges: Vec<Vec<Edge>>,
    links: Vec<Vec<Link>>,
}

impl View for ArbitrageGraph {
    type V = GraphView;

    closed spec fn view(&self) -> GraphView {
        GraphView { tokens: self.nodes.deep_view(), edges: self.edges.deep_view() }
    }
}

impl ArbitrageGraph {
    /// The stored links are those of the graph.
    pub closed spec fn links_agree(&self) -> bool {
        net_view(&self.links) == self@.links()
    }

    /// The invariant of the graph.
    pub open spec fn wf(&self) -> bool {
        self@.wf() && self.links_agree()
    }

    /// The graph without tokens.
    pub fn new() -> (g: Self)
        ensures
            g.wf(),
            g@.tokens.len() == 0,
            g@.edges.len() == 0,
    {
        let g = ArbitrageGraph { nodes: Vec::new(), edges: Vec::new(), links: Vec::new() };
        assert(net_view(&g.links) =~= g@.links());
        g
    }

    /// The number of tokens.
    pub fn node_count(&self) -> (n: usize)
        ensures
            n == self@.tokens.len(),
    {
        self.nodes.len()
    }

    /// The number of edges, or nothing where it does not fit a machine
    /// word.
    pub fn edge_count(&self) -> (count: Option<usize>)
        ensures
            match count {
                Some(n) => n == edge_total(self@.edges, self@.edges.len()),
                None => edge_total(self@.edges, self@.edges.len()) > usize::MAX,
            },
    {
        let n = self.edges.len();
        let mut total: usize = 0;
        let mut i: usize = 0;
        while i < n
            invariant
                n == self.edges@.len(),
                i <= n,
                total == edge_total(self@.edges, i as nat),
            decreases n - i,
        {
            assert(self@.edges[i as int].len() == self.edges@[i as int]@.len());
            proof {
                lemma_edge_total_grows(self@.edges, (i + 1) as nat, n as nat);
            }
            match total.checked_add(self.edges[i].len()) {
                Some(sum) => {
                    total = sum;
                },
                None => {
                    return None;
                },
            }
            i += 1;
        }
        Some(total)
    }

    /// The place of the token named `token`, if the graph knows it.
    pub fn position(&self, token: &str) -> (r: Option<usize>)
        ensures
            match r {
                Some(i) => i < self@.tokens.len() && self@.tokens[i as int] == token@,
                None => !self@.tokens.contains(token@),
            },
    {
        let name = token.to_owned();
        let n = self.nodes.len();
        let mut i: usize = 0;
        while i < n
            invariant
                n == self.nodes@.len(),
                i <= n,
                name@ == token@,
                forall|k: int| 0 <= k < i ==> (#[trigger] self@.tokens[k]) != token@,
            decreases n - i,
        {
            if self.nodes[i].token_type == name {
                return Some(i);
            }
            i += 1;
        }
        None
    }

    /// Whether the graph has a node for `token`.
    pub fn contains(&self, token: &str) -> (known: bool)
        ensures
            known == self@.tokens.contains(token@),
    {
        self.position(token).is_some()
    }

    /// Makes sure that the graph has a node for `token`, and returns its
    /// place. A token that is known already is not added again.
    pub fn add_node(&mut self, token: &str) -> (at: usize)
        requires
            old(self).wf(),
        ensures
            final(self).wf(),
            final(self)@ == old(self)@.with_node(token@),
            at < final(self)@.tokens.len(),
            final(self)@.tokens[at as int] == token@,
    {
        match self.position(token) {
            Some(i) => i,
            None => {
                let ghost before = *self;
                let at = self.nodes.len();
                assert(net_view(&self.links).len() == self@.links().len());
                self.nodes.push(Node { token_type: token.to_owned() });
                self.edges.push(Vec::new());
                self.links.push(Vec::new());
                proof {
                    let tokens = self@.tokens;
                    assert(self.links@.len() == self.links.len());
                    assert(tokens =~= before@.tokens.push(token@));
                    assert(self.edges@[at as int].deep_view() =~= Seq::<EdgeView>::empty());
                    assert(self@.edges =~= before@.edges.push(Seq::empty()));
                    assert(self@ == before@.with_node(token@));
                    assert forall|i: int, j: int|
                        0 <= i < tokens.len() && 0 <= j < tokens.len() && i != j implies tokens[i]
                        != tokens[j] by {
                        if i < at && j < at {
                            assert(before@.tokens[i] != before@.tokens[j]);
                        } else if i < at {
                            assert(before@.tokens.contains(before@.tokens[i]));
                        } else {
                            assert(before@.tokens.contains(before@.tokens[j]));
                        }
                    }
                    assert forall|i: int, j: int|
                        0 <= i < self@.edges.len() && 0 <= j < self@.edges[i].len() implies edge_ok(
                        tokens,
                        i,
                        #[trigger] self@.edges[i][j],
                    ) && link_of(tokens, self@.edges[i][j]) == link_of(
                        before@.tokens,
                        before@.edges[i][j],
                    ) by {
                        let e = before@.edges[i][j];
                        assert(edge_ok(before@.tokens, i, e));
                        let t = before@.tokens.index_of(e.to);
                        assert(tokens[t] == e.to);
                        lemma_index_of_unique(tokens, t);
                    }
                    assert forall|i: int| 0 <= i < self@.edges.len() implies (
                    #[trigger] self@.edges[i]).len() <= usize::MAX by {
                        if i < at {
                            assert(before@.edges[i].len() <= usize::MAX);
                        }
                    }
                    assert forall|i: int| 0 <= i < self@.edges.len() implies net_view(
                        &self.links,
                    )[i] =~= #[trigger] self@.links()[i] by {
                        if i < at {
                            assert(net_view(&before.links)[i] == before@.links()[i]);
                        }
                    }
                    assert(net_view(&self.links) =~= self@.links());
                }
                at
            },
        }
    }

    /// Adds the edge from `from` through `dex` to the output token of `dex`
    /// at the end of the edges of `from`. Both tokens get a node where they
    /// have none. An edge that is there already is added once more.
    pub fn add_edge(&mut self, from: &str, dex: Dex, weight: i64)
        requires
            old(self).wf(),
        ensures
            final(self).wf(),
            final(self)@ == old(self)@.with_edge(from@, dex@, weight),
    {
        let u = self.add_node(from);
        let t = self.add_node(dex.coin_out_type.as_str());
        let ghost both = *self;
        assert(net_view(&self.links).len() == self@.links().len());
        let edge = Edge { from: self.nodes[u].clone(), to: self.nodes[t].clone(), dex, weight };
        let ghost ev = edge@;
        self.edges[u].push(edge);
        self.links[u].push(Link { to: t, weight });
        proof {
            let tokens = self@.tokens;
            assert(tokens =~= both@.tokens);
            lemma_index_of_unique(tokens, u as int);
            lemma_index_of_unique(tokens, t as int);
            assert(ev == EdgeView { from: from@, to: dex@.coin_out_type, dex: dex@, weight });
            assert(self.edges@[u as int]@.len() == self.edges[u as int].len());
            assert(self@.edges[u as int] =~= both@.edges[u as int].push(ev));
            assert(self@.edges =~= both@.edges.update(u as int, both@.edges[u as int].push(ev)));
            assert(self@ == old(self)@.with_edge(from@, dex@, weight));
            assert forall|i: int, j: int|
                0 <= i < self@.edges.len() && 0 <= j < self@.edges[i].len() implies edge_ok(
                tokens,
                i,
                #[trigger] self@.edges[i][j],
            ) by {
                if i != u || j < both@.edges[i].len() {
                    assert(edge_ok(tokens, i, both@.edges[i][j]));
                }
            }
            assert forall|i: int| 0 <= i < self@.edges.len() implies (#[trigger] self@.edges[i]).len()
                <= usize::MAX by {
                assert(both@.edges[i].len() <= usize::MAX);
            }
            assert forall|i: int| 0 <= i < self@.edges.len() implies net_view(&self.links)[i]
                =~= #[trigger] self@.links()[i] by {
                assert(net_view(&both.links)[i] == both@.links()[i]);
                if i == u {
                    assert(net_view(&self.links)[i] =~= net_view(&both.links)[i].push(
                        Link { to: t, weight },
                    ));
                }
            }
            assert(net_view(&self.links) =~= self@.links());
        }
    }

    /// Bellman-Ford from the token `start_token`: the negative cycles that
    /// the predecessor links close after relaxation, each as its edges in
    /// travel order. Nothing where the graph does not know the token.
    pub fn find_arbitrage_opportunities(&self, start_token: &str) -> (cycles: Vec<Vec<Edge>>)
        requires
            self.wf(),
        ensures
            cycles.deep_view() == self@.reported(start_token@),
            forall|c: int|
                0 <= c < cycles@.len() ==> is_arbitrage_cycle(#[trigger] cycles.deep_view()[c]),
            position_of(self@.tokens, start_token@) matches Some(s) ==> (!has_negative_cycle(
                self@.links(),
                s,
            ) || self@.edges[s].len() == 0 ==> cycles@.len() == 0),
    {
        let start = match self.position(start_token) {
            Some(s) => s,
            None => {
                let none: Vec<Vec<Edge>> = Vec::new();
                assert(none.deep_view() =~= self@.reported(start_token@));
                return none;
            },
        };
        let ghost s = start as int;
        let ghost net = self@.links();
        let ghost shown = self@.edges;
        proof {
            lemma_index_of_unique(self@.tokens, s);
            self@.lemma_links_ok();
        }
        let found = negative_cycles(&self.links, start);
        let ghost ops = opportunities(net, s);
        proof {
            lemma_opportunities_genuine(net, s);
            self@.lemma_reported_are_arbitrage(start_token@);
            if !has_negative_cycle(net, s) {
                lemma_no_negative_cycle_no_opportunity(net, s);
            }
            if shown[s].len() == 0 {
                lemma_dead_end_no_opportunity(net, s);
            }
        }
        let mut cycles: Vec<Vec<Edge>> = Vec::new();
        let n = found.len();
        let mut c: usize = 0;
        while c < n
            invariant
                self.wf(),
                net == self@.links(),
                shown == self@.edges,
                hops_view(&found) == ops,
                n == found@.len(),
                c <= n,
                forall|i: int| 0 <= i < ops.len() ==> genuine(net, s, #[trigger] ops[i]),
                cycles@.len() == c,
                forall|i: int|
                    0 <= i < c ==> (#[trigger] cycles@[i]).deep_view() == edges_at(shown, ops[i]),
            decreases n - c,
        {
            let hops = &found[c];
            assert(hops@ == ops[c as int]);
            assert(genuine(net, s, ops[c as int]));
            let m = hops.len();
            let mut edges: Vec<Edge> = Vec::new();
            let mut k: usize = 0;
            while k < m
                invariant
                    self.wf(),
                    net == self@.links(),
                    shown == self@.edges,
                    is_walk(net, hops@),
                    m == hops@.len(),
                    k <= m,
                    edges@.len() == k,
                    forall|i: int|
                        0 <= i < k ==> (#[trigger] edges@[i])@ == shown[hops@[i].node as int][hops@[i].slot as int],
                decreases m - k,
            {
                let h = hops[k];
                assert(hop_ok(net, hops@[k as int]));
                edges.push(self.edges[h.node][h.slot].clone());
                k += 1;
            }
            assert(edges.deep_view() =~= edges_at(shown, ops[c as int]));
            cycles.push(edges);
            c += 1;
        }
        assert(cycles.deep_view() =~= self@.reported(start_token@));
        cycles
    }

    /// The trade path of a cycle: the venue of every edge, in order.
    pub fn cycle_to_path(&self, cycle: &Vec<Edge>) -> (path: Path)
        ensures
            path@ == hops_of(cycle.deep_view()),
    {
        let n = cycle.len();
        let mut dexes: Vec<Dex> = Vec::new();
        let mut k: usize = 0;
        while k < n
            invariant
                n == cycle@.len(),
                k <= n,
                dexes@.len() == k,
                forall|i: int| 0 <= i < k ==> #[trigger] dexes@[i] == cycle@[i].dex,
            decreases n - k,
        {
            dexes.push(cycle[k].dex.clone());
            k += 1;
        }
        let path = Path::new(dexes);
        assert(path@ =~= hops_of(cycle.deep_view()));
        path
    }
}

/// The venues of the edges of `cycle`, in order.
pub open spec fn hops_of(cycle: Seq<EdgeView>) -> Seq<DexView> {
    Seq::new(cycle.len(), |k: int| cycle[k].dex)
}

} // verus!
