//! Detection: after relaxation, every link that still improves its target
//! witnesses a negative cycle, which is read off the predecessor links.

use crate::network::{has_negative_cycle, hops_view, net_ok, net_view, HopRef, Link};
use crate::sound::{
    genuine, lemma_no_negative_cycle_no_opportunity, lemma_opportunities_genuine,
};
use crate::relax::{
    improved_distance, improves, labels_fit, preds_fit, relax_all, settled, Labels, LabelsView,
};
use vstd::prelude::*;

verus! {

/// The hops met walking predecessor links backwards from `cur`, nearest
/// first. The walk ends at a node it has seen, at a node without
/// predecessor, or after `fuel` hops.
pub open spec fn backtrack(
    pred: Seq<Option<HopRef>>,
    cur: int,
    seen: Seq<bool>,
    fuel: nat,
) -> Seq<HopRef>
    decreases fuel,
{
    if fuel == 0 || seen[cur] {
        Seq::empty()
    } else {
        match pred[cur] {
            Some(h) => seq![h] + backtrack(
                pred,
                h.node as int,
                seen.update(cur, true),
                (fuel - 1) as nat,
            ),
            None => Seq::empty(),
        }
    }
}

/// The cycle that the predecessor links close on node `v`, in travel order:
/// the backward walk from `v`, reversed, where it has more than one hop and
/// its first hop leaves `v`. Empty where the walk does not close on `v`.
pub open spec fn cycle_through(pred: Seq<Option<HopRef>>, v: int) -> Seq<HopRef> {
    let hops = backtrack(pred, v, Seq::new(pred.len(), |i: int| false), pred.len());
    if hops.len() > 1 && hops.last().node == v {
        hops.reverse()
    } else {
        Seq::empty()
    }
}

/// The cycles found at the first `k` links of node `u`, whose distance is
/// `d`: one for every link that still improves its target and whose target
/// lies on a cycle of predecessor links.
pub open spec fn detect_node(
    st: LabelsView,
    net: Seq<Seq<Link>>,
    u: int,
    d: i128,
    k: nat,
) -> Seq<Seq<HopRef>>
    decreases k,
{
    if k == 0 {
        Seq::empty()
    } else {
        let found = detect_node(st, net, u, d, (k - 1) as nat);
        let link = net[u][k - 1];
        let cycle = cycle_through(st.pred, link.to as int);
        if improves(st, d, link) && cycle.len() > 0 {
            found.push(cycle)
        } else {
            found
        }
    }
}

/// The cycles found at the first `m` nodes, in the order of nodes and links.
pub open spec fn detect(st: LabelsView, net: Seq<Seq<Link>>, m: nat) -> Seq<Seq<HopRef>>
    decreases m,
{
    if m == 0 {
        Seq::empty()
    } else {
        let found = detect(st, net, (m - 1) as nat);
        match st.dist[m - 1] {
            Some(d) => found + detect_node(st, net, m - 1, d, net[m - 1].len()),
            None => found,
        }
    }
}

/// The negative cycles that Bellman-Ford reports from `start`.
pub open spec fn opportunities(net: Seq<Seq<Link>>, start: int) -> Seq<Seq<HopRef>> {
    detect(settled(net, start), net, net.len())
}

/// The cycle that the predecessor links close on node `v`, or nothing.
pub fn extract_cycle(labels: &Labels, v: usize) -> (cycle: Vec<HopRef>)
    requires
        labels@.dist.len() == labels@.pred.len(),
        preds_fit(labels@),
        v < labels@.pred.len(),
    ensures
        cycle@ == cycle_through(labels@.pred, v as int),
{
    let n = labels.pred.len();
    let ghost pred = labels@.pred;
    let ghost unseen = Seq::new(n as nat, |i: int| false);
    let mut seen: Vec<bool> = Vec::new();
    let mut i: usize = 0;
    while i < n
        invariant
            i <= n,
            seen@.len() == i,
            forall|x: int| 0 <= x < i ==> !(#[trigger] seen@[x]),
        decreases n - i,
    {
        seen.push(false);
        i += 1;
    }
    assert(seen@ == unseen);
    let mut hops: Vec<HopRef> = Vec::new();
    let mut cur = v;
    let mut fuel = n;
    let mut open = true;
    while open && fuel > 0 && !seen[cur]
        invariant
            n == pred.len(),
            pred == labels@.pred,
            preds_fit(labels@),
            seen@.len() == n,
            cur < n,
            fuel <= n,
            open ==> backtrack(pred, v as int, unseen, n as nat) == hops@ + backtrack(
                pred,
                cur as int,
                seen@,
                fuel as nat,
            ),
            !open ==> backtrack(pred, v as int, unseen, n as nat) == hops@,
        decreases fuel + (if open { 1int } else { 0int }),
    {
        match labels.pred[cur] {
            Some(h) => {
                let ghost rest = backtrack(
                    pred,
                    h.node as int,
                    seen@.update(cur as int, true),
                    (fuel - 1) as nat,
                );
                assert(hops@ + (seq![h] + rest) == hops@.push(h) + rest);
                seen.set(cur, true);
                hops.push(h);
                cur = h.node;
                fuel -= 1;
            },
            None => {
                open = false;
            },
        }
    }
    assert(backtrack(pred, v as int, unseen, n as nat) == hops@);
    let len = hops.len();
    if len > 1 && hops[len - 1].node == v {
        let mut cycle: Vec<HopRef> = Vec::new();
        let mut k: usize = len;
        while k > 0
            invariant
                len == hops@.len(),
                k <= len,
                cycle@.len() == len - k,
                forall|x: int| 0 <= x < cycle@.len() ==> #[trigger] cycle@[x] == hops@[len - 1 - x],
            decreases k,
        {
            k -= 1;
            cycle.push(hops[k]);
        }
        assert(cycle@ == hops@.reverse());
        cycle
    } else {
        Vec::new()
    }
}

/// Runs Bellman-Ford from `start` and returns the negative cycles it finds,
/// each as the positions of its links in travel order.
pub fn negative_cycles(net: &Vec<Vec<Link>>, start: usize) -> (cycles: Vec<Vec<HopRef>>)
    requires
        net_ok(net_view(net)),
        start < net@.len(),
    ensures
        hops_view(&cycles) == opportunities(net_view(net), start as int),
        forall|i: int|
            0 <= i < cycles@.len() ==> genuine(
                net_view(net),
                start as int,
                #[trigger] hops_view(&cycles)[i],
            ),
        !has_negative_cycle(net_view(net), start as int) ==> cycles@.len() == 0,
{
    proof {
        lemma_opportunities_genuine(net_view(net), start as int);
        if !has_negative_cycle(net_view(net), start as int) {
            lemma_no_negative_cycle_no_opportunity(net_view(net), start as int);
        }
    }
    let labels = relax_all(net, start);
    let ghost nv = net_view(net);
    let ghost st = labels@;
    let n = net.len();
    let mut cycles: Vec<Vec<HopRef>> = Vec::new();
    let mut u: usize = 0;
    while u < n
        invariant
            n == net@.len(),
            nv == net_view(net),
            net_ok(nv),
            st == labels@,
            labels_fit(st, n as nat),
            preds_fit(st),
            u <= n,
            hops_view(&cycles) == detect(st, nv, u as nat),
        decreases n - u,
    {
        match labels.dist[u] {
            Some(d) => {
                let ghost before = hops_view(&cycles);
                let links = &net[u];
                let m = links.len();
                let mut j: usize = 0;
                while j < m
                    invariant
                        n == net@.len(),
                        nv == net_view(net),
                        net_ok(nv),
                        st == labels@,
                        labels_fit(st, n as nat),
                        preds_fit(st),
                        u < n,
                        links@ == nv[u as int],
                        m == links@.len(),
                        j <= m,
                        hops_view(&cycles) == before + detect_node(st, nv, u as int, d, j as nat),
                    decreases m - j,
                {
                    let link = links[j];
                    assert(link == nv[u as int][j as int]);
                    let ghost sofar = hops_view(&cycles);
                    let hit = improved_distance(&labels, d, link).is_some();
                    assert(hit == improves(st, d, link));
                    if hit {
                        let cycle = extract_cycle(&labels, link.to);
                        if cycle.len() > 0 {
                            cycles.push(cycle);
                            assert(hops_view(&cycles) == sofar.push(
                                cycle_through(st.pred, link.to as int),
                            ));
                        }
                    }
                    j += 1;
                }
            },
            None => {},
        }
        u += 1;
    }
    cycles
}

} // verus!
