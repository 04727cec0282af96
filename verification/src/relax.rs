//! Bellman-Ford relaxation: distance and predecessor labels, the order in
//! which links are relaxed, and the rounds that settle the labels.

use crate::network::{net_ok, net_view, HopRef, Link};
use vstd::prelude::*;

verus! {

/// The labels that relaxation keeps for every node: the best distance found
/// so far (`None` stands for infinity) and the link that gave it.
pub struct Labels {
    pub dist: Vec<Option<i128>>,
    pub pred: Vec<Option<HopRef>>,
}

/// The labels as sequences.
#[verifier::ext_equal]
pub struct LabelsView {
    pub dist: Seq<Option<i128>>,
    pub pred: Seq<Option<HopRef>>,
}

impl View for Labels {
    type V = LabelsView;

    open spec fn view(&self) -> LabelsView {
        LabelsView { dist: self.dist@, pred: self.pred@ }
    }
}

/// The labels cover the nodes of a network of `n` nodes.
pub open spec fn labels_fit(st: LabelsView, n: nat) -> bool {
    st.dist.len() == n && st.pred.len() == n
}

/// Every predecessor link leaves a node that the labels cover.
pub open spec fn preds_fit(st: LabelsView) -> bool {
    forall|v: int|
        0 <= v < st.pred.len() ==> ((#[trigger] st.pred[v]) matches Some(h) ==> h.node
            < st.pred.len())
}

/// The distance through a link of weight `w` from a node at distance `d`:
/// their sum, held inside the range of distances. The bottom of the range
/// plays the part of minus infinity.
pub open spec fn tentative(d: i128, w: i64) -> i128 {
    if d + w < i128::MIN {
        i128::MIN
    } else if d + w > i128::MAX {
        i128::MAX
    } else {
        (d + w) as i128
    }
}

/// The label `a` is strictly better than `b`.
pub open spec fn better(a: Option<i128>, b: Option<i128>) -> bool {
    match (a, b) {
        (Some(x), Some(y)) => x < y,
        (Some(_), None) => true,
        _ => false,
    }
}

/// Going through `link` from distance `d` beats the label of its target.
pub open spec fn improves(st: LabelsView, d: i128, link: Link) -> bool {
    better(Some(tentative(d, link.weight)), st.dist[link.to as int])
}

/// Relaxing the link at `h` from distance `d`: where it improves, the target
/// takes the new distance and `h` as its predecessor.
pub open spec fn relax_link(st: LabelsView, d: i128, h: HopRef, link: Link) -> LabelsView {
    if improves(st, d, link) {
        LabelsView {
            dist: st.dist.update(link.to as int, Some(tentative(d, link.weight))),
            pred: st.pred.update(link.to as int, Some(h)),
        }
    } else {
        st
    }
}

/// Relaxing the first `k` links of node `u` in order, all from the distance
/// `d` that `u` had when its turn came.
pub open spec fn relax_node(
    st: LabelsView,
    d: i128,
    u: usize,
    k: nat,
    net: Seq<Seq<Link>>,
) -> LabelsView
    decreases k,
{
    if k == 0 {
        st
    } else {
        relax_link(
            relax_node(st, d, u, (k - 1) as nat, net),
            d,
            HopRef { node: u, slot: (k - 1) as usize },
            net[u as int][k - 1],
        )
    }
}

/// One pass over the first `m` nodes in order: every node with a finite
/// distance relaxes all its links.
pub open spec fn relax_pass(st: LabelsView, m: nat, net: Seq<Seq<Link>>) -> LabelsView
    decreases m,
{
    if m == 0 {
        st
    } else {
        let prev = relax_pass(st, (m - 1) as nat, net);
        match prev.dist[m - 1] {
            Some(d) => relax_node(prev, d, (m - 1) as usize, net[m - 1].len(), net),
            None => prev,
        }
    }
}

/// At most `r` passes, stopping early at a pass that changes nothing.
pub open spec fn relax_rounds(st: LabelsView, r: nat, net: Seq<Seq<Link>>) -> LabelsView
    decreases r,
{
    if r == 0 {
        st
    } else {
        let next = relax_pass(st, net.len(), net);
        if next == st {
            st
        } else {
            relax_rounds(next, (r - 1) as nat, net)
        }
    }
}

/// The labels before the first pass: distance zero at `start`, infinity
/// elsewhere, no predecessor anywhere.
pub open spec fn initial(n: nat, start: int) -> LabelsView {
    LabelsView {
        dist: Seq::new(n, |v: int| if v == start { Some(0i128) } else { None }),
        pred: Seq::new(n, |v: int| None),
    }
}

/// The labels after relaxation from `start`: one pass fewer than there are
/// nodes, or fewer when a pass changes nothing.
pub open spec fn settled(net: Seq<Seq<Link>>, start: int) -> LabelsView {
    relax_rounds(initial(net.len(), start), (net.len() - 1) as nat, net)
}

/// No label of `a` is worse than the label that `b` has for the same node.
pub open spec fn no_worse(a: LabelsView, b: LabelsView) -> bool {
    &&& a.dist.len() == b.dist.len()
    &&& forall|v: int|
        0 <= v < a.dist.len() ==> #[trigger] a.dist[v] == b.dist[v] || better(a.dist[v], b.dist[v])
}

/// Relaxing a link keeps the shape of the labels and worsens none.
pub proof fn lemma_relax_link_no_worse(st: LabelsView, d: i128, h: HopRef, link: Link)
    requires
        link.to < st.dist.len(),
        st.dist.len() == st.pred.len(),
    ensures
        labels_fit(relax_link(st, d, h, link), st.dist.len()),
        no_worse(relax_link(st, d, h, link), st),
        improves(st, d, link) ==> better(
            relax_link(st, d, h, link).dist[link.to as int],
            st.dist[link.to as int],
        ),
        !improves(st, d, link) ==> relax_link(st, d, h, link) == st,
{
}

/// `no_worse` composes, and a strict improvement survives the composition.
pub proof fn lemma_no_worse_trans(a: LabelsView, b: LabelsView, c: LabelsView)
    requires
        no_worse(a, b),
        no_worse(b, c),
    ensures
        no_worse(a, c),
        forall|v: int|
            0 <= v < a.dist.len() && (better(a.dist[v], b.dist[v]) || better(b.dist[v], c.dist[v]))
                ==> better(#[trigger] a.dist[v], c.dist[v]),
{
    assert forall|v: int| 0 <= v < a.dist.len() implies #[trigger] a.dist[v] == c.dist[v] || better(
        a.dist[v],
        c.dist[v],
    ) by {
        assert(a.dist[v] == b.dist[v] || better(a.dist[v], b.dist[v]));
        assert(b.dist[v] == c.dist[v] || better(b.dist[v], c.dist[v]));
    }
    assert forall|v: int|
        0 <= v < a.dist.len() && (better(a.dist[v], b.dist[v]) || better(
            b.dist[v],
            c.dist[v],
        )) implies better(#[trigger] a.dist[v], c.dist[v]) by {
        assert(a.dist[v] == b.dist[v] || better(a.dist[v], b.dist[v]));
        assert(b.dist[v] == c.dist[v] || better(b.dist[v], c.dist[v]));
    }
}

/// Relaxing the links of a node keeps the shape of the labels and worsens
/// none.
pub proof fn lemma_relax_node_no_worse(
    st: LabelsView,
    d: i128,
    u: usize,
    k: nat,
    net: Seq<Seq<Link>>,
)
    requires
        net_ok(net),
        labels_fit(st, net.len()),
        u < net.len(),
        k <= net[u as int].len(),
    ensures
        labels_fit(relax_node(st, d, u, k, net), net.len()),
        no_worse(relax_node(st, d, u, k, net), st),
    decreases k,
{
    if k > 0 {
        let prev = relax_node(st, d, u, (k - 1) as nat, net);
        lemma_relax_node_no_worse(st, d, u, (k - 1) as nat, net);
        let link = net[u as int][k - 1];
        lemma_relax_link_no_worse(prev, d, HopRef { node: u, slot: (k - 1) as usize }, link);
        lemma_no_worse_trans(relax_node(st, d, u, k, net), prev, st);
    }
}

/// The distance through a link of weight `w` from distance `d`.
fn tentative_distance(d: i128, w: i64) -> (r: i128)
    ensures
        r == tentative(d, w),
{
    match d.checked_add(w as i128) {
        Some(s) => s,
        None => if w < 0 {
            i128::MIN
        } else {
            i128::MAX
        },
    }
}

/// The distance that the target of `link` takes when the link is relaxed
/// from distance `d`, or nothing where the link does not improve it.
pub fn improved_distance(labels: &Labels, d: i128, link: Link) -> (r: Option<i128>)
    requires
        link.to < labels@.dist.len(),
    ensures
        r is Some <==> improves(labels@, d, link),
        r is Some ==> r == Some(tentative(d, link.weight)),
{
    let nd = tentative_distance(d, link.weight);
    match labels.dist[link.to] {
        Some(old_d) => if nd < old_d {
            Some(nd)
        } else {
            None
        },
        None => Some(nd),
    }
}

/// Relaxes one link from distance `d` and says whether the target's label
/// changed.
fn relax_one(labels: &mut Labels, d: i128, h: HopRef, link: Link) -> (changed: bool)
    requires
        link.to < old(labels).dist.len(),
        old(labels).dist.len() == old(labels).pred.len(),
        h.node < old(labels).pred.len(),
        preds_fit(old(labels)@),
    ensures
        final(labels)@ == relax_link(old(labels)@, d, h, link),
        changed == improves(old(labels)@, d, link),
        preds_fit(final(labels)@),
{
    match improved_distance(labels, d, link) {
        Some(nd) => {
            labels.dist.set(link.to, Some(nd));
            labels.pred.set(link.to, Some(h));
            true
        },
        None => false,
    }
}

/// One pass over all nodes in order. Says whether any label changed.
pub fn relax_once(labels: &mut Labels, net: &Vec<Vec<Link>>) -> (changed: bool)
    requires
        net_ok(net_view(net)),
        labels_fit(old(labels)@, net@.len()),
        preds_fit(old(labels)@),
    ensures
        final(labels)@ == relax_pass(old(labels)@, net@.len(), net_view(net)),
        changed == (final(labels)@ != old(labels)@),
        labels_fit(final(labels)@, net@.len()),
        preds_fit(final(labels)@),
{
    let ghost nv = net_view(net);
    let ghost st0 = labels@;
    let ghost witness: int = 0;
    let mut changed = false;
    let n = net.len();
    let mut u: usize = 0;
    while u < n
        invariant
            n == net@.len(),
            nv == net_view(net),
            net_ok(nv),
            u <= n,
            labels_fit(st0, n as nat),
            labels_fit(labels@, n as nat),
            preds_fit(labels@),
            labels@ == relax_pass(st0, u as nat, nv),
            no_worse(labels@, st0),
            changed ==> 0 <= witness < n && better(labels@.dist[witness], st0.dist[witness]),
            !changed ==> labels@ == st0,
        decreases n - u,
    {
        let ghost before = labels@;
        match labels.dist[u] {
            Some(d) => {
                let links = &net[u];
                let m = links.len();
                let mut j: usize = 0;
                while j < m
                    invariant
                        n == net@.len(),
                        nv == net_view(net),
                        net_ok(nv),
                        u < n,
                        links@ == nv[u as int],
                        m == links@.len(),
                        j <= m,
                        labels_fit(st0, n as nat),
                        labels_fit(labels@, n as nat),
                        preds_fit(labels@),
                        labels@ == relax_node(before, d, u, j as nat, nv),
                        no_worse(labels@, st0),
                        changed ==> 0 <= witness < n && better(
                            labels@.dist[witness],
                            st0.dist[witness],
                        ),
                        !changed ==> labels@ == st0,
                    decreases m - j,
                {
                    let link = links[j];
                    let ghost cur = labels@;
                    assert(link == nv[u as int][j as int]);
                    let hit = relax_one(labels, d, HopRef { node: u, slot: j }, link);
                    proof {
                        lemma_relax_link_no_worse(cur, d, HopRef { node: u, slot: j }, link);
                        lemma_no_worse_trans(labels@, cur, st0);
                        if hit {
                            witness = link.to as int;
                        }
                    }
                    if hit {
                        changed = true;
                    }
                    j += 1;
                }
            },
            None => {},
        }
        u += 1;
    }
    changed
}

/// Relaxes from `start` until the labels are settled.
pub fn relax_all(net: &Vec<Vec<Link>>, start: usize) -> (labels: Labels)
    requires
        net_ok(net_view(net)),
        start < net@.len(),
    ensures
        labels@ == settled(net_view(net), start as int),
        labels_fit(labels@, net@.len()),
        preds_fit(labels@),
{
    let n = net.len();
    let ghost nv = net_view(net);
    let mut dist: Vec<Option<i128>> = Vec::new();
    let mut pred: Vec<Option<HopRef>> = Vec::new();
    let mut v: usize = 0;
    while v < n
        invariant
            v <= n,
            dist@.len() == v,
            pred@.len() == v,
            forall|x: int| 0 <= x < v ==> #[trigger] dist@[x] == initial(n as nat, start as int).dist[x],
            forall|x: int| 0 <= x < v ==> #[trigger] pred@[x] == initial(n as nat, start as int).pred[x],
        decreases n - v,
    {
        dist.push(if v == start {
            Some(0i128)
        } else {
            None
        });
        pred.push(None);
        v += 1;
    }
    let mut labels = Labels { dist, pred };
    assert(labels@ == initial(n as nat, start as int));
    let ghost st0 = labels@;
    let rounds = n - 1;
    let mut round: usize = 0;
    let mut done = false;
    while round < rounds && !done
        invariant
            n == net@.len(),
            nv == net_view(net),
            net_ok(nv),
            rounds == n - 1,
            round <= rounds,
            labels_fit(labels@, n as nat),
            preds_fit(labels@),
            !done ==> relax_rounds(st0, rounds as nat, nv) == relax_rounds(
                labels@,
                (rounds - round) as nat,
                nv,
            ),
            done ==> relax_rounds(st0, rounds as nat, nv) == labels@,
        decreases rounds - round + (if done { 0int } else { 1int }),
    {
        let changed = relax_once(&mut labels, net);
        if changed {
            round += 1;
        } else {
            done = true;
        }
    }
    labels
}

} // verus!
