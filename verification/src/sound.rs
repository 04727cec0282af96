//! Why every reported cycle is a real one: the labels that relaxation keeps
//! stay consistent with the network, and a cycle of predecessor links has
//! negative weight.

use crate::detect::{backtrack, cycle_through, detect, detect_node, opportunities};
use crate::network::{
    connects, has_negative_cycle, hop_ok, hop_to, hop_weight, is_walk, lemma_reachable_self,
    lemma_reachable_step, negative_cycle_from, net_ok, reachable, walk_weight, HopRef, Link,
};
use crate::relax::{
    better, improves, initial, labels_fit, lemma_relax_node_no_worse, preds_fit, relax_link,
    relax_node, relax_pass, relax_rounds, settled, tentative, LabelsView,
};
use vstd::prelude::*;

verus! {

/// For every node the moment at which its label was last set, and the
/// latest moment handed out. They order the predecessor links in time.
struct Stamps {
    at: Seq<nat>,
    clock: nat,
}

/// The predecessor link `h` of node `v` is a link into `v` that accounts for
/// the distance of `v`: going through it from its source is no worse than
/// the label of `v`, and gives exactly that label only while the source has
/// not been relabelled since.
spec fn pred_edge_ok(st: LabelsView, at: Seq<nat>, net: Seq<Seq<Link>>, v: int, h: HopRef) -> bool {
    &&& hop_ok(net, h)
    &&& hop_to(net, h) == v
    &&& st.dist[v] is Some
    &&& st.dist[h.node as int] is Some
    &&& st.dist[v].unwrap() >= st.dist[h.node as int].unwrap() + hop_weight(net, h)
    &&& (st.dist[v].unwrap() == st.dist[h.node as int].unwrap() + hop_weight(net, h) ==> at[h.node as int]
        < at[v])
}

/// The number of nodes with a finite distance.
spec fn finite_count(dist: Seq<Option<i128>>) -> nat
    decreases dist.len(),
{
    if dist.len() == 0 {
        0
    } else {
        finite_count(dist.drop_last()) + if dist.last() is Some {
            1nat
        } else {
            0nat
        }
    }
}

/// The most that a distance can be while `count` nodes have a finite one:
/// the heaviest walk over so many nodes.
spec fn ceiling(count: nat) -> int {
    (count - 1) * i64::MAX
}

/// The count is at most the number of nodes, and less where some node has
/// no finite distance; it is positive where some node has one.
proof fn lemma_finite_count(dist: Seq<Option<i128>>, i: int)
    requires
        0 <= i < dist.len(),
    ensures
        finite_count(dist) <= dist.len(),
        dist[i] is None ==> finite_count(dist) < dist.len(),
        dist[i] is Some ==> finite_count(dist) >= 1,
    decreases dist.len(),
{
    if i < dist.len() - 1 {
        lemma_finite_count(dist.drop_last(), i);
    } else if dist.len() > 1 {
        lemma_finite_count(dist.drop_last(), 0);
    } else {
        assert(finite_count(dist.drop_last()) == 0);
    }
}

/// Setting a distance adds one to the count where the node had none, and
/// nothing where it had one.
proof fn lemma_finite_count_update(dist: Seq<Option<i128>>, i: int, x: i128)
    requires
        0 <= i < dist.len(),
    ensures
        finite_count(dist.update(i, Some(x))) == finite_count(dist) + if dist[i] is None {
            1nat
        } else {
            0nat
        },
    decreases dist.len(),
{
    let after = dist.update(i, Some(x));
    if i == dist.len() - 1 {
        assert(after.drop_last() =~= dist.drop_last());
    } else {
        assert(after.drop_last() =~= dist.drop_last().update(i, Some(x)));
        lemma_finite_count_update(dist.drop_last(), i, x);
    }
}

/// The labels are consistent with the network: a finite distance belongs to
/// a node that `start` reaches and is no more than the heaviest walk over
/// the nodes labelled so far, and every predecessor link accounts for the
/// distance of its node.
spec fn sound(st: LabelsView, sp: Stamps, net: Seq<Seq<Link>>, start: int) -> bool {
    &&& labels_fit(st, net.len())
    &&& sp.at.len() == net.len()
    &&& forall|v: int| 0 <= v < net.len() ==> #[trigger] sp.at[v] <= sp.clock
    &&& forall|v: int|
        0 <= v < net.len() ==> ((#[trigger] st.dist[v]) is Some ==> reachable(net, start, v)
            && st.dist[v].unwrap() <= ceiling(finite_count(st.dist)))
    &&& forall|v: int|
        0 <= v < net.len() ==> ((#[trigger] st.pred[v]) matches Some(h) ==> pred_edge_ok(
            st,
            sp.at,
            net,
            v,
            h,
        ))
}

proof fn lemma_initial_sound(net: Seq<Seq<Link>>, start: int) -> (sp: Stamps)
    requires
        0 <= start < net.len(),
    ensures
        sound(initial(net.len(), start), sp, net, start),
{
    lemma_reachable_self(net, start);
    lemma_finite_count(initial(net.len(), start).dist, start);
    Stamps { at: Seq::new(net.len(), |v: int| 0nat), clock: 0 }
}

proof fn lemma_relax_link_sound(
    st: LabelsView,
    sp: Stamps,
    net: Seq<Seq<Link>>,
    start: int,
    d: i128,
    h: HopRef,
) -> (sp2: Stamps)
    requires
        net_ok(net),
        sound(st, sp, net, start),
        hop_ok(net, h),
        st.dist[h.node as int] matches Some(c) && c <= d,
        d <= ceiling(finite_count(st.dist)),
    ensures
        sound(relax_link(st, d, h, net[h.node as int][h.slot as int]), sp2, net, start),
        finite_count(relax_link(st, d, h, net[h.node as int][h.slot as int]).dist) >= finite_count(
            st.dist,
        ),
{
    let link = net[h.node as int][h.slot as int];
    let st2 = relax_link(st, d, h, link);
    if improves(st, d, link) {
        let t = link.to as int;
        let sp2 = Stamps { at: sp.at.update(t, sp.clock + 1), clock: sp.clock + 1 };
        let nd = tentative(d, link.weight);
        let c = st.dist[h.node as int].unwrap();
        let count = finite_count(st.dist);
        assert(hop_to(net, h) == t);
        lemma_reachable_step(net, start, h);
        lemma_finite_count(st.dist, t);
        lemma_finite_count_update(st.dist, t, nd);
        assert(d + link.weight <= i128::MAX) by {
            assert(count <= net.len() <= usize::MAX);
            assert(d <= (count - 1) * i64::MAX);
            assert(link.weight <= i64::MAX);
            assert(usize::MAX <= 0xffff_ffff_ffff_ffff);
        }
        assert(nd >= d + link.weight);
        assert(nd <= ceiling(finite_count(st2.dist)));
        assert forall|v: int| 0 <= v < net.len() implies #[trigger] sp2.at[v] <= sp2.clock by {
            assert(sp.at[v] <= sp.clock);
        }
        assert forall|v: int| 0 <= v < net.len() && (#[trigger] st2.dist[v]) is Some implies reachable(
            net,
            start,
            v,
        ) && st2.dist[v].unwrap() <= ceiling(finite_count(st2.dist)) by {
            if v != t {
                assert(st2.dist[v] == st.dist[v]);
            }
        }
        assert forall|v: int| 0 <= v < net.len() && (#[trigger] st2.pred[v]) is Some implies pred_edge_ok(
            st2,
            sp2.at,
            net,
            v,
            st2.pred[v].unwrap(),
        ) by {
            {
                let h2 = st2.pred[v].unwrap();
                if v == t {
                    assert(h2 == h);
                    assert(sp.at[h.node as int] <= sp.clock);
                    if h.node as int == t {
                        assert(st.dist[t] == Some(c));
                        assert(nd < c);
                    }
                } else {
                    assert(st2.pred[v] == st.pred[v]);
                    assert(pred_edge_ok(st, sp.at, net, v, h2));
                    if h2.node as int == t {
                        assert(better(Some(nd), st.dist[t]));
                    }
                }
            }
        }
        sp2
    } else {
        sp
    }
}

proof fn lemma_relax_node_sound(
    st: LabelsView,
    sp: Stamps,
    net: Seq<Seq<Link>>,
    start: int,
    d: i128,
    u: usize,
    k: nat,
) -> (sp2: Stamps)
    requires
        net_ok(net),
        sound(st, sp, net, start),
        u < net.len(),
        k <= net[u as int].len(),
        st.dist[u as int] matches Some(c) && c <= d,
        d <= ceiling(finite_count(st.dist)),
    ensures
        sound(relax_node(st, d, u, k, net), sp2, net, start),
        finite_count(relax_node(st, d, u, k, net).dist) >= finite_count(st.dist),
    decreases k,
{
    if k == 0 {
        sp
    } else {
        let prev = relax_node(st, d, u, (k - 1) as nat, net);
        let sp1 = lemma_relax_node_sound(st, sp, net, start, d, u, (k - 1) as nat);
        lemma_relax_node_no_worse(st, d, u, (k - 1) as nat, net);
        assert(prev.dist[u as int] == st.dist[u as int] || better(
            prev.dist[u as int],
            st.dist[u as int],
        ));
        let h = HopRef { node: u, slot: (k - 1) as usize };
        lemma_relax_link_sound(prev, sp1, net, start, d, h)
    }
}

proof fn lemma_relax_pass_sound(
    st: LabelsView,
    sp: Stamps,
    net: Seq<Seq<Link>>,
    start: int,
    m: nat,
) -> (sp2: Stamps)
    requires
        net_ok(net),
        sound(st, sp, net, start),
        m <= net.len(),
    ensures
        sound(relax_pass(st, m, net), sp2, net, start),
    decreases m,
{
    if m == 0 {
        sp
    } else {
        let prev = relax_pass(st, (m - 1) as nat, net);
        let sp1 = lemma_relax_pass_sound(st, sp, net, start, (m - 1) as nat);
        match prev.dist[m - 1] {
            Some(d) => lemma_relax_node_sound(
                prev,
                sp1,
                net,
                start,
                d,
                (m - 1) as usize,
                net[m - 1].len(),
            ),
            None => sp1,
        }
    }
}

proof fn lemma_relax_rounds_sound(
    st: LabelsView,
    sp: Stamps,
    net: Seq<Seq<Link>>,
    start: int,
    r: nat,
) -> (sp2: Stamps)
    requires
        net_ok(net),
        sound(st, sp, net, start),
    ensures
        sound(relax_rounds(st, r, net), sp2, net, start),
    decreases r,
{
    if r == 0 {
        sp
    } else {
        let next = relax_pass(st, net.len(), net);
        let sp1 = lemma_relax_pass_sound(st, sp, net, start, net.len());
        if next == st {
            sp
        } else {
            lemma_relax_rounds_sound(next, sp1, net, start, (r - 1) as nat)
        }
    }
}

proof fn lemma_settled_sound(net: Seq<Seq<Link>>, start: int) -> (sp: Stamps)
    requires
        net_ok(net),
        0 <= start < net.len(),
    ensures
        sound(settled(net, start), sp, net, start),
{
    let sp0 = lemma_initial_sound(net, start);
    lemma_relax_rounds_sound(
        initial(net.len(), start),
        sp0,
        net,
        start,
        (net.len() - 1) as nat,
    )
}

/// `hops` follows predecessor links backwards from `v`.
spec fn is_pred_chain(pred: Seq<Option<HopRef>>, v: int, hops: Seq<HopRef>) -> bool
    decreases hops.len(),
{
    hops.len() == 0 || (0 <= v < pred.len() && pred[v] == Some(hops[0]) && is_pred_chain(
        pred,
        hops[0].node as int,
        hops.drop_first(),
    ))
}

proof fn lemma_backtrack_chain(st: LabelsView, cur: int, seen: Seq<bool>, fuel: nat)
    requires
        preds_fit(st),
        0 <= cur < st.pred.len(),
        seen.len() == st.pred.len(),
    ensures
        is_pred_chain(st.pred, cur, backtrack(st.pred, cur, seen, fuel)),
    decreases fuel,
{
    if fuel == 0 || seen[cur] {
    } else {
        match st.pred[cur] {
            Some(h) => {
                let rest = backtrack(
                    st.pred,
                    h.node as int,
                    seen.update(cur, true),
                    (fuel - 1) as nat,
                );
                let all = seq![h] + rest;
                assert(all[0] == h);
                assert(all.drop_first() =~= rest);
                lemma_backtrack_chain(st, h.node as int, seen.update(cur, true), (fuel - 1) as nat);
            },
            None => {},
        }
    }
}

/// The preds of consistent labels leave nodes of the network.
proof fn lemma_sound_preds_fit(st: LabelsView, sp: Stamps, net: Seq<Seq<Link>>, start: int)
    requires
        sound(st, sp, net, start),
    ensures
        preds_fit(st),
{
    assert forall|v: int| 0 <= v < st.pred.len() && (#[trigger] st.pred[v]) is Some implies st.pred[v].unwrap().node
        < st.pred.len() by {
        assert(pred_edge_ok(st, sp.at, net, v, st.pred[v].unwrap()));
    }
}

/// Along a chain of predecessor links from `v` back to the node `e` where
/// it ends, the links in travel order are a walk from `e` to `v` that weighs
/// no more than the distance of `v` less that of `e`, and exactly that only
/// if `e` was labelled before `v`.
proof fn lemma_chain_bound(
    st: LabelsView,
    sp: Stamps,
    net: Seq<Seq<Link>>,
    start: int,
    v: int,
    hops: Seq<HopRef>,
)
    requires
        sound(st, sp, net, start),
        0 <= v < net.len(),
        hops.len() >= 1,
        is_pred_chain(st.pred, v, hops),
    ensures
        is_walk(net, hops.reverse()),
        hops.reverse().len() == hops.len(),
        hops.reverse()[0].node == hops.last().node,
        hop_to(net, hops.reverse().last()) == v,
        0 <= (hops.last().node as int) < net.len(),
        st.dist[v] is Some,
        st.dist[hops.last().node as int] is Some,
        walk_weight(net, hops.reverse()) <= st.dist[v].unwrap() - st.dist[hops.last().node as int].unwrap(),
        walk_weight(net, hops.reverse()) == st.dist[v].unwrap() - st.dist[hops.last().node as int].unwrap()
            ==> sp.at[hops.last().node as int] < sp.at[v],
    decreases hops.len(),
{
    let h0 = hops[0];
    let f = hops.reverse();
    assert(st.pred[v] == Some(h0));
    assert(pred_edge_ok(st, sp.at, net, v, h0));
    if hops.len() == 1 {
        assert(f.drop_last() =~= Seq::<HopRef>::empty());
        assert(f.last() == h0);
        assert(walk_weight(net, f.drop_last()) == 0);
    } else {
        let rest = hops.drop_first();
        lemma_chain_bound(st, sp, net, start, h0.node as int, rest);
        let fr = rest.reverse();
        assert(f =~= fr.push(h0));
        assert(f.drop_last() =~= fr);
        assert(f.last() == h0);
        assert(rest.last() == hops.last());
        assert forall|k: int| 0 <= k < f.len() implies hop_ok(net, #[trigger] f[k]) by {
            if k < fr.len() {
                assert(f[k] == fr[k]);
            }
        }
        assert forall|k: int| 0 <= k < f.len() - 1 implies hop_to(net, #[trigger] f[k]) == f[k
            + 1].node by {
            if k < fr.len() - 1 {
                assert(f[k] == fr[k]);
                assert(f[k + 1] == fr[k + 1]);
            } else {
                assert(f[k] == fr.last());
            }
        }
    }
}

/// A reported cycle: at least two hops, closed, of negative weight, on a
/// node that `start` reaches.
pub open spec fn genuine(net: Seq<Seq<Link>>, start: int, c: Seq<HopRef>) -> bool {
    c.len() >= 2 && negative_cycle_from(net, start, c)
}

proof fn lemma_cycle_through_sound(
    st: LabelsView,
    sp: Stamps,
    net: Seq<Seq<Link>>,
    start: int,
    v: int,
)
    requires
        sound(st, sp, net, start),
        0 <= v < net.len(),
    ensures
        cycle_through(st.pred, v).len() > 0 ==> genuine(net, start, cycle_through(st.pred, v)),
{
    let unseen = Seq::new(st.pred.len(), |i: int| false);
    let hops = backtrack(st.pred, v, unseen, st.pred.len());
    lemma_sound_preds_fit(st, sp, net, start);
    lemma_backtrack_chain(st, v, unseen, st.pred.len());
    if hops.len() > 1 && hops.last().node == v {
        lemma_chain_bound(st, sp, net, start, v, hops);
    }
}

proof fn lemma_detect_node_sound(
    st: LabelsView,
    sp: Stamps,
    net: Seq<Seq<Link>>,
    start: int,
    u: int,
    d: i128,
    k: nat,
)
    requires
        net_ok(net),
        sound(st, sp, net, start),
        0 <= u < net.len(),
        k <= net[u].len(),
    ensures
        forall|i: int|
            0 <= i < detect_node(st, net, u, d, k).len() ==> genuine(
                net,
                start,
                #[trigger] detect_node(st, net, u, d, k)[i],
            ),
    decreases k,
{
    if k > 0 {
        lemma_detect_node_sound(st, sp, net, start, u, d, (k - 1) as nat);
        let found = detect_node(st, net, u, d, (k - 1) as nat);
        let all = detect_node(st, net, u, d, k);
        let link = net[u][k - 1];
        lemma_cycle_through_sound(st, sp, net, start, link.to as int);
        assert forall|i: int| 0 <= i < all.len() implies genuine(net, start, #[trigger] all[i]) by {
            if i < found.len() {
                assert(all[i] == found[i]);
            }
        }
    }
}

proof fn lemma_detect_sound(
    st: LabelsView,
    sp: Stamps,
    net: Seq<Seq<Link>>,
    start: int,
    m: nat,
)
    requires
        net_ok(net),
        sound(st, sp, net, start),
        m <= net.len(),
    ensures
        forall|i: int|
            0 <= i < detect(st, net, m).len() ==> genuine(net, start, #[trigger] detect(st, net, m)[i]),
    decreases m,
{
    if m > 0 {
        lemma_detect_sound(st, sp, net, start, (m - 1) as nat);
        let found = detect(st, net, (m - 1) as nat);
        let all = detect(st, net, m);
        match st.dist[m - 1] {
            Some(d) => {
                let more = detect_node(st, net, m - 1, d, net[m - 1].len());
                lemma_detect_node_sound(st, sp, net, start, m - 1, d, net[m - 1].len());
                assert forall|i: int| 0 <= i < all.len() implies genuine(
                    net,
                    start,
                    #[trigger] all[i],
                ) by {
                    if i < found.len() {
                        assert(all[i] == found[i]);
                    } else {
                        assert(all[i] == more[i - found.len()]);
                    }
                }
            },
            None => {},
        }
    }
}

/// Every cycle that detection reports from `start` has at least two hops,
/// closes on itself, has negative total weight and lies on a node that
/// `start` reaches.
pub proof fn lemma_opportunities_genuine(net: Seq<Seq<Link>>, start: int)
    requires
        net_ok(net),
        0 <= start < net.len(),
    ensures
        forall|i: int|
            0 <= i < opportunities(net, start).len() ==> genuine(
                net,
                start,
                #[trigger] opportunities(net, start)[i],
            ),
{
    let sp = lemma_settled_sound(net, start);
    lemma_detect_sound(settled(net, start), sp, net, start, net.len());
}

/// Where no cycle of negative weight can be reached from `start`, detection
/// reports nothing.
pub proof fn lemma_no_negative_cycle_no_opportunity(net: Seq<Seq<Link>>, start: int)
    requires
        net_ok(net),
        0 <= start < net.len(),
        !has_negative_cycle(net, start),
    ensures
        opportunities(net, start).len() == 0,
{
    lemma_opportunities_genuine(net, start);
    if opportunities(net, start).len() > 0 {
        let c = opportunities(net, start)[0];
        assert(genuine(net, start, c));
        assert(negative_cycle_from(net, start, c));
    }
}

/// Where no link leaves `start`, detection reports nothing.
pub proof fn lemma_dead_end_no_opportunity(net: Seq<Seq<Link>>, start: int)
    requires
        net_ok(net),
        0 <= start < net.len(),
        net[start].len() == 0,
    ensures
        opportunities(net, start).len() == 0,
{
    lemma_opportunities_genuine(net, start);
    if opportunities(net, start).len() > 0 {
        let c = opportunities(net, start)[0];
        assert(genuine(net, start, c));
        let w = choose|w: Seq<HopRef>| connects(net, w, start, c[0].node as int);
        if w.len() == 0 {
            assert(hop_ok(net, c[0]));
        } else {
            assert(hop_ok(net, w[0]));
        }
    }
}

/// No distance outgrows the heaviest walk over all nodes, so that a sum of
/// a distance and a weight is never held at the top of the range.
pub proof fn lemma_distances_have_a_ceiling(net: Seq<Seq<Link>>, start: int)
    requires
        net_ok(net),
        0 <= start < net.len(),
    ensures
        forall|v: int|
            0 <= v < net.len() ==> ((#[trigger] settled(net, start).dist[v]) matches Some(x) ==> x
                <= (net.len() - 1) * i64::MAX),
{
    let st = settled(net, start);
    let sp = lemma_settled_sound(net, start);
    assert forall|v: int| 0 <= v < net.len() && (#[trigger] st.dist[v]) is Some implies st.dist[v].unwrap()
        <= (net.len() - 1) * i64::MAX by {
        lemma_finite_count(st.dist, v);
    }
}

/// The number of nodes that a backward walk has not seen.
spec fn unseen_count(seen: Seq<bool>) -> nat
    decreases seen.len(),
{
    if seen.len() == 0 {
        0
    } else {
        unseen_count(seen.drop_last()) + if seen.last() {
            0nat
        } else {
            1nat
        }
    }
}

proof fn lemma_unseen_count(seen: Seq<bool>, i: int)
    requires
        0 <= i < seen.len(),
    ensures
        !seen[i] ==> unseen_count(seen) >= 1,
        unseen_count(seen.update(i, true)) == unseen_count(seen) - if seen[i] {
            0int
        } else {
            1int
        },
    decreases seen.len(),
{
    let after = seen.update(i, true);
    if i == seen.len() - 1 {
        assert(after.drop_last() =~= seen.drop_last());
    } else {
        assert(after.drop_last() =~= seen.drop_last().update(i, true));
        lemma_unseen_count(seen.drop_last(), i);
    }
}

proof fn lemma_fuel_suffices(st: LabelsView, cur: int, seen: Seq<bool>, fuel: nat, more: nat)
    requires
        preds_fit(st),
        0 <= cur < st.pred.len(),
        seen.len() == st.pred.len(),
        unseen_count(seen) <= fuel,
    ensures
        backtrack(st.pred, cur, seen, fuel) == backtrack(st.pred, cur, seen, fuel + more),
    decreases fuel,
{
    lemma_unseen_count(seen, cur);
    if !seen[cur] {
        match st.pred[cur] {
            Some(h) => {
                lemma_fuel_suffices(
                    st,
                    h.node as int,
                    seen.update(cur, true),
                    (fuel - 1) as nat,
                    more,
                );
                assert((fuel + more - 1) as nat == (fuel - 1) as nat + more);
            },
            None => {},
        }
    }
}

/// A backward walk sees no node twice, so that the bound on its hops, the
/// number of nodes, never cuts it short: with more hops allowed it is the
/// same walk.
pub proof fn lemma_walk_is_never_cut(st: LabelsView, v: int, more: nat)
    requires
        preds_fit(st),
        0 <= v < st.pred.len(),
    ensures
        backtrack(st.pred, v, Seq::new(st.pred.len(), |i: int| false), st.pred.len())
            == backtrack(
            st.pred,
            v,
            Seq::new(st.pred.len(), |i: int| false),
            st.pred.len() + more,
        ),
{
    let unseen = Seq::new(st.pred.len(), |i: int| false);
    lemma_unseen_le_len(unseen);
    lemma_fuel_suffices(st, v, unseen, st.pred.len(), more);
}

proof fn lemma_unseen_le_len(seen: Seq<bool>)
    ensures
        unseen_count(seen) <= seen.len(),
    decreases seen.len(),
{
    if seen.len() > 0 {
        lemma_unseen_le_len(seen.drop_last());
    }
}

} // verus!
