//! The records of the graph: token nodes, venue adapters, discovered routes,
//! exchange edges and trade paths, each with the plain value it stands for.

use vstd::prelude::*;
use vstd::std_specs::cmp::PartialEqSpecImpl;

verus! {

/// A token of the graph, known by the canonical name of its asset type.
/// Two nodes are the same node where their names are equal.
#[derive(Debug, Hash)]
pub struct Node {
    pub token_type: String,
}

impl View for Node {
    type V = Seq<char>;

    open spec fn view(&self) -> Seq<char> {
        self.token_type@
    }
}

impl DeepView for Node {
    type V = Seq<char>;

    open spec fn deep_view(&self) -> Seq<char> {
        self@
    }
}

impl Clone for Node {
    fn clone(&self) -> (r: Self)
        ensures
            r == *self,
    {
        Node { token_type: self.token_type.clone() }
    }
}

impl PartialEq for Node {
    fn eq(&self, other: &Self) -> (r: bool) {
        self.token_type == other.token_type
    }
}

impl Eq for Node {

}

impl PartialEqSpecImpl for Node {
    open spec fn obeys_eq_spec() -> bool {
        true
    }

    open spec fn eq_spec(&self, other: &Self) -> bool {
        self@ == other@
    }
}

/// The identifier of an on-chain object, such as a liquidity pool.
#[derive(Clone, Copy, Debug, Hash)]
pub struct ObjectId {
    pub bytes: [u8; 32],
}

impl View for ObjectId {
    type V = Seq<u8>;

    open spec fn view(&self) -> Seq<u8> {
        self.bytes@
    }
}

impl PartialEq for ObjectId {
    fn eq(&self, other: &Self) -> (r: bool) {
        let mut i: usize = 0;
        while i < 32
            invariant
                i <= 32,
                forall|k: int| 0 <= k < i ==> self.bytes@[k] == other.bytes@[k],
            decreases 32 - i,
        {
            if self.bytes[i] != other.bytes[i] {
                return false;
            }
            i += 1;
        }
        assert(self.bytes@ =~= other.bytes@);
        true
    }
}

impl Eq for ObjectId {

}

impl PartialEqSpecImpl for ObjectId {
    open spec fn obeys_eq_spec() -> bool {
        true
    }

    open spec fn eq_spec(&self, other: &Self) -> bool {
        self@ == other@
    }
}

impl ObjectId {
    /// The identifier with the given bytes.
    pub fn new(bytes: [u8; 32]) -> (id: Self)
        ensures
            id@ == bytes@,
    {
        ObjectId { bytes }
    }
}

/// What the engine reads of a liquidity venue that swaps one token for
/// another: the two tokens, the name of its protocol and its object.
#[derive(Debug)]
pub struct Dex {
    pub coin_in_type: String,
    pub coin_out_type: String,
    pub protocol: String,
    pub object_id: ObjectId,
}

/// A venue as plain values.
pub struct DexView {
    pub coin_in_type: Seq<char>,
    pub coin_out_type: Seq<char>,
    pub protocol: Seq<char>,
    pub object_id: Seq<u8>,
}

impl View for Dex {
    type V = DexView;

    open spec fn view(&self) -> DexView {
        DexView {
            coin_in_type: self.coin_in_type@,
            coin_out_type: self.coin_out_type@,
            protocol: self.protocol@,
            object_id: self.object_id@,
        }
    }
}

impl DeepView for Dex {
    type V = DexView;

    open spec fn deep_view(&self) -> DexView {
        self@
    }
}

impl Clone for Dex {
    fn clone(&self) -> (r: Self)
        ensures
            r == *self,
    {
        Dex {
            coin_in_type: self.coin_in_type.clone(),
            coin_out_type: self.coin_out_type.clone(),
            protocol: self.protocol.clone(),
            object_id: self.object_id,
        }
    }
}

/// One answer of discovery: a venue, the weight of swapping through it (the
/// negative logarithm of its exchange rate, in fixed-point units), and
/// whether its output token is a native alias of the asset that was asked
/// about.
#[derive(Debug)]
pub struct Route {
    pub dex: Dex,
    pub weight: i64,
    pub native_out: bool,
}

/// A route as plain values.
pub struct RouteView {
    pub dex: DexView,
    pub weight: i64,
    pub native_out: bool,
}

impl View for Route {
    type V = RouteView;

    open spec fn view(&self) -> RouteView {
        RouteView { dex: self.dex@, weight: self.weight, native_out: self.native_out }
    }
}

impl DeepView for Route {
    type V = RouteView;

    open spec fn deep_view(&self) -> RouteView {
        self@
    }
}

impl Clone for Route {
    fn clone(&self) -> (r: Self)
        ensures
            r == *self,
    {
        Route { dex: self.dex.clone(), weight: self.weight, native_out: self.native_out }
    }
}

/// A directed, weighted relation from one token to another through one
/// venue. A more negative weight is a more favourable rate.
#[derive(Debug)]
pub struct Edge {
    pub from: Node,
    pub to: Node,
    pub dex: Dex,
    pub weight: i64,
}

/// An edge as plain values.
pub struct EdgeView {
    pub from: Seq<char>,
    pub to: Seq<char>,
    pub dex: DexView,
    pub weight: i64,
}

impl View for Edge {
    type V = EdgeView;

    open spec fn view(&self) -> EdgeView {
        EdgeView { from: self.from@, to: self.to@, dex: self.dex@, weight: self.weight }
    }
}

impl DeepView for Edge {
    type V = EdgeView;

    open spec fn deep_view(&self) -> EdgeView {
        self@
    }
}

impl Clone for Edge {
    fn clone(&self) -> (r: Self)
        ensures
            r == *self,
    {
        Edge {
            from: self.from.clone(),
            to: self.to.clone(),
            dex: self.dex.clone(),
            weight: self.weight,
        }
    }
}

/// The sum of the weights of `edges`.
pub open spec fn total_weight(edges: Seq<EdgeView>) -> int
    decreases edges.len(),
{
    if edges.len() == 0 {
        0
    } else {
        total_weight(edges.drop_last()) + edges.last().weight
    }
}

/// Each edge starts at the token where the one before it ends.
pub open spec fn is_chain(edges: Seq<EdgeView>) -> bool {
    forall|k: int| 0 <= k < edges.len() - 1 ==> (#[trigger] edges[k]).to == edges[k + 1].from
}

/// A profitable round trip: at least two edges, chained, back at the token
/// they started from, with negative total weight.
pub open spec fn is_arbitrage_cycle(edges: Seq<EdgeView>) -> bool {
    &&& edges.len() >= 2
    &&& is_chain(edges)
    &&& edges[0].from == edges.last().to
    &&& total_weight(edges) < 0
}

/// The hops of a closed trading loop, in the order of execution.
#[derive(Debug)]
pub struct Path {
    pub path: Vec<Dex>,
}

impl View for Path {
    type V = Seq<DexView>;

    open spec fn view(&self) -> Seq<DexView> {
        self.path.deep_view()
    }
}

impl DeepView for Path {
    type V = Seq<DexView>;

    open spec fn deep_view(&self) -> Seq<DexView> {
        self@
    }
}

/// A closed trading loop: at least two hops, each taking in the token that
/// the hop before it gives out, and the first taking in what the last gives
/// out.
pub open spec fn is_loop(hops: Seq<DexView>) -> bool {
    &&& hops.len() >= 2
    &&& forall|k: int|
        0 <= k < hops.len() - 1 ==> (#[trigger] hops[k]).coin_out_type == hops[k + 1].coin_in_type
    &&& hops.last().coin_out_type == hops[0].coin_in_type
}

/// Some hop of `hops` goes through the object `id`.
pub open spec fn has_pool(hops: Seq<DexView>, id: Seq<u8>) -> bool {
    exists|i: int| 0 <= i < hops.len() && (#[trigger] hops[i]).object_id == id
}

impl Path {
    /// The path with the given hops.
    pub fn new(path: Vec<Dex>) -> (r: Self)
        ensures
            r.path == path,
    {
        Path { path }
    }

    /// Whether some hop of the path goes through the pool `pool_id`.
    pub fn contains_pool(&self, pool_id: &ObjectId) -> (found: bool)
        ensures
            found == has_pool(self@, pool_id@),
    {
        let n = self.path.len();
        let mut i: usize = 0;
        while i < n
            invariant
                n == self.path@.len(),
                i <= n,
                forall|k: int| 0 <= k < i ==> (#[trigger] self@[k]).object_id != pool_id@,
            decreases n - i,
        {
            if self.path[i].object_id == *pool_id {
                assert(self@[i as int].object_id == pool_id@);
                return true;
            }
            assert(self@[i as int].object_id != pool_id@);
            i += 1;
        }
        false
    }
}

} // verus!
