//! The numeric side of the graph: nodes are indices, links carry a target
//! index and an integer weight. Walks, their weights, reachability and
//! negative cycles are defined here.

use vstd::prelude::*;

verus! {

/// One outgoing link of a node: the index of the node it leads to and its
/// weight, the negative logarithm of the exchange rate in fixed-point units.
#[derive(Clone, Copy, Debug, PartialEq, Eq, Structural)]
pub struct Link {
    pub to: usize,
    pub weight: i64,
}

/// The position of a link in a network: the node it leaves and its place in
/// that node's list.
#[derive(Clone, Copy, Debug, PartialEq, Eq, Structural)]
pub struct HopRef {
    pub node: usize,
    pub slot: usize,
}

/// The network that a vector of link lists stands for.
pub open spec fn net_view(links: &Vec<Vec<Link>>) -> Seq<Seq<Link>> {
    Seq::new(links@.len(), |i: int| links@[i]@)
}

/// The sequences that a vector of hop lists stands for.
pub open spec fn hops_view(cycles: &Vec<Vec<HopRef>>) -> Seq<Seq<HopRef>> {
    Seq::new(cycles@.len(), |i: int| cycles@[i]@)
}

/// Every link leads to a node of the network, and node and link positions
/// fit a machine word.
pub open spec fn net_ok(net: Seq<Seq<Link>>) -> bool {
    &&& net.len() <= usize::MAX
    &&& forall|i: int| 0 <= i < net.len() ==> (#[trigger] net[i]).len() <= usize::MAX
    &&& forall|i: int, j: int|
        0 <= i < net.len() && 0 <= j < net[i].len() ==> (#[trigger] net[i][j]).to < net.len()
}

/// `h` names a link of the network.
pub open spec fn hop_ok(net: Seq<Seq<Link>>, h: HopRef) -> bool {
    h.node < net.len() && h.slot < net[h.node as int].len()
}

/// The node that the link at `h` leads to.
pub open spec fn hop_to(net: Seq<Seq<Link>>, h: HopRef) -> int {
    net[h.node as int][h.slot as int].to as int
}

/// The weight of the link at `h`.
pub open spec fn hop_weight(net: Seq<Seq<Link>>, h: HopRef) -> int {
    net[h.node as int][h.slot as int].weight as int
}

/// Every hop names a link, and each link ends where the next one starts.
pub open spec fn is_walk(net: Seq<Seq<Link>>, w: Seq<HopRef>) -> bool {
    &&& forall|k: int| 0 <= k < w.len() ==> hop_ok(net, #[trigger] w[k])
    &&& forall|k: int| 0 <= k < w.len() - 1 ==> hop_to(net, #[trigger] w[k]) == w[k + 1].node
}

/// The sum of the weights along `w`.
pub open spec fn walk_weight(net: Seq<Seq<Link>>, w: Seq<HopRef>) -> int
    decreases w.len(),
{
    if w.len() == 0 {
        0
    } else {
        walk_weight(net, w.drop_last()) + hop_weight(net, w.last())
    }
}

/// `w` is a walk from node `a` to node `b`; the empty walk stays at `a`.
pub open spec fn connects(net: Seq<Seq<Link>>, w: Seq<HopRef>, a: int, b: int) -> bool {
    &&& is_walk(net, w)
    &&& if w.len() == 0 {
        a == b
    } else {
        w[0].node == a && hop_to(net, w.last()) == b
    }
}

/// Some walk leads from `a` to `b`.
pub open spec fn reachable(net: Seq<Seq<Link>>, a: int, b: int) -> bool {
    exists|w: Seq<HopRef>| connects(net, w, a, b)
}

/// A non-empty walk that ends at the node it starts from.
pub open spec fn is_cycle(net: Seq<Seq<Link>>, c: Seq<HopRef>) -> bool {
    &&& c.len() >= 1
    &&& is_walk(net, c)
    &&& hop_to(net, c.last()) == c[0].node
}

/// `c` is a cycle of negative total weight on a node that `start` reaches.
pub open spec fn negative_cycle_from(net: Seq<Seq<Link>>, start: int, c: Seq<HopRef>) -> bool {
    &&& is_cycle(net, c)
    &&& walk_weight(net, c) < 0
    &&& reachable(net, start, c[0].node as int)
}

/// Some cycle of negative total weight can be reached from `start`.
pub open spec fn has_negative_cycle(net: Seq<Seq<Link>>, start: int) -> bool {
    exists|c: Seq<HopRef>| negative_cycle_from(net, start, c)
}

/// A node reaches itself.
pub proof fn lemma_reachable_self(net: Seq<Seq<Link>>, a: int)
    ensures
        reachable(net, a, a),
{
    assert(connects(net, Seq::<HopRef>::empty(), a, a));
}

/// A walk can be extended by a link that leaves its last node.
pub proof fn lemma_reachable_step(net: Seq<Seq<Link>>, a: int, h: HopRef)
    requires
        hop_ok(net, h),
        reachable(net, a, h.node as int),
    ensures
        reachable(net, a, hop_to(net, h)),
{
    let w = choose|w: Seq<HopRef>| connects(net, w, a, h.node as int);
    let w2 = w.push(h);
    assert forall|k: int| 0 <= k < w2.len() implies hop_ok(net, #[trigger] w2[k]) by {
        if k < w.len() {
            assert(w2[k] == w[k]);
        }
    }
    assert forall|k: int| 0 <= k < w2.len() - 1 implies hop_to(net, #[trigger] w2[k]) == w2[k
        + 1].node by {
        if k < w.len() - 1 {
            assert(w2[k] == w[k]);
            assert(w2[k + 1] == w[k + 1]);
        } else {
            assert(w2[k] == w.last());
        }
    }
    assert(connects(net, w2, a, hop_to(net, h)));
}

} // verus!
