//! The path finder: builds the graph around a start token, runs detection
//! from it, and returns the cycles as trade paths, all or those through one
//! pool.

use crate::builder::{
    answer_view, answered, initial_state, next_state, Action, BuilderView, GraphBuilder, Phase,
};
use crate::graph::{hops_of, ArbitrageGraph, GraphView};
use crate::types::{has_pool, DexView, EdgeView, ObjectId, Path, Route};
use vstd::prelude::*;

verus! {

/// Why a search has no paths to give.
#[derive(Clone, Copy, Debug, PartialEq, Eq, Structural)]
pub enum SearchError {
    /// Discovery could not answer for the start token, so there is no graph.
    DiscoveryFailed,
    /// The graph is not complete: discovery has questions left to answer.
    Unfinished,
}

/// The pool asked for, as plain values.
pub open spec fn pool_view(pool_id: Option<ObjectId>) -> Option<Seq<u8>> {
    match pool_id {
        Some(id) => Some(id@),
        None => None,
    }
}

/// A path passes the filter: without a pool every path does, with one those
/// that have a hop through it.
pub open spec fn keeps(path: Seq<DexView>, pool: Option<Seq<u8>>) -> bool {
    match pool {
        Some(id) => has_pool(path, id),
        None => true,
    }
}

/// The paths of the first `k` cycles that pass the filter, in order.
pub open spec fn select(
    cycles: Seq<Seq<EdgeView>>,
    pool: Option<Seq<u8>>,
    k: nat,
) -> Seq<Seq<DexView>>
    decreases k,
{
    if k == 0 {
        Seq::empty()
    } else {
        let before = select(cycles, pool, (k - 1) as nat);
        if keeps(hops_of(cycles[k - 1]), pool) {
            before.push(hops_of(cycles[k - 1]))
        } else {
            before
        }
    }
}

/// The paths that a search from `start` in the graph `g` returns.
pub open spec fn paths_found(
    g: GraphView,
    start: Seq<char>,
    pool: Option<Seq<u8>>,
) -> Seq<Seq<DexView>> {
    select(g.reported(start), pool, g.reported(start).len())
}

/// Every selected path passes the filter and is the path of one of the
/// cycles; where no cycle passes, nothing is selected.
pub proof fn lemma_select(cycles: Seq<Seq<EdgeView>>, pool: Option<Seq<u8>>, k: nat)
    requires
        k <= cycles.len(),
    ensures
        forall|i: int|
            0 <= i < select(cycles, pool, k).len() ==> keeps(
                #[trigger] select(cycles, pool, k)[i],
                pool,
            ) && exists|c: int| 0 <= c < k && select(cycles, pool, k)[i] == hops_of(cycles[c]),
        (forall|c: int| 0 <= c < k ==> !keeps(hops_of(#[trigger] cycles[c]), pool)) ==> select(
            cycles,
            pool,
            k,
        ).len() == 0,
        pool is None ==> select(cycles, pool, k).len() == k,
    decreases k,
{
    if k > 0 {
        lemma_select(cycles, pool, (k - 1) as nat);
        let before = select(cycles, pool, (k - 1) as nat);
        let all = select(cycles, pool, k);
        assert forall|i: int| 0 <= i < all.len() implies keeps(#[trigger] all[i], pool) && exists|
            c: int,
        | 0 <= c < k && all[i] == hops_of(cycles[c]) by {
            if i < before.len() {
                assert(all[i] == before[i]);
                let c = choose|c: int| 0 <= c < k - 1 && before[i] == hops_of(cycles[c]);
                assert(0 <= c < k && all[i] == hops_of(cycles[c]));
            } else {
                assert(all[i] == hops_of(cycles[k - 1]));
            }
        }
    }
}

/// What a search has to give from the token `start`: the paths once the
/// graph is complete, the failure of discovery, or the news that
/// construction is not over.
pub open spec fn outcome(
    b: BuilderView,
    start: Seq<char>,
    pool: Option<Seq<u8>>,
) -> Result<Seq<Seq<DexView>>, SearchError> {
    if b.pending is Some {
        Err(SearchError::Unfinished)
    } else {
        match b.phase {
            Phase::Done => Ok(paths_found(b.graph, start, pool)),
            Phase::Failed => Err(SearchError::DiscoveryFailed),
            _ => Err(SearchError::Unfinished),
        }
    }
}

/// A finder of arbitrage paths by Bellman-Ford. It builds its graph from
/// the answers of discovery that it is handed, and searches the complete
/// graph.
pub struct BellmanFordPathFinder {
    builder: GraphBuilder,
}

impl View for BellmanFordPathFinder {
    type V = BuilderView;

    closed spec fn view(&self) -> BuilderView {
        self.builder@
    }
}

impl BellmanFordPathFinder {
    /// The invariant of the finder.
    pub closed spec fn wf(&self) -> bool {
        self.builder.wf()
    }

    /// A finder whose graph is built around the token `root`.
    pub fn new(root: &str) -> (finder: Self)
        ensures
            finder.wf(),
            finder@ == initial_state(root@),
    {
        BellmanFordPathFinder { builder: GraphBuilder::new(root) }
    }

    /// Chooses what to do next and says what the caller has to do.
    pub fn next_action(&mut self) -> (action: Action)
        requires
            old(self).wf(),
        ensures
            final(self).wf(),
            (final(self)@, action@) == next_state(old(self)@),
    {
        self.builder.next_action()
    }

    /// Takes the answer of discovery to the open question.
    pub fn answer(&mut self, found: Option<Vec<Route>>)
        requires
            old(self).wf(),
        ensures
            final(self).wf(),
            final(self)@ == answered(old(self)@, answer_view(&found)),
    {
        self.builder.answer(found)
    }

    /// The graph built so far.
    pub fn graph(&self) -> (g: &ArbitrageGraph)
        requires
            self.wf(),
        ensures
            g.wf(),
            g@ == self@.graph,
    {
        self.builder.graph()
    }

    /// The trade paths of the negative cycles that detection finds from
    /// `start_token` in `graph`: all of them, or those with a hop through
    /// `pool_id`.
    pub fn search(graph: &ArbitrageGraph, start_token: &str, pool_id: Option<ObjectId>) -> (paths:
        Vec<Path>)
        requires
            graph.wf(),
        ensures
            paths.deep_view() == paths_found(graph@, start_token@, pool_view(pool_id)),
            forall|i: int|
                0 <= i < paths@.len() ==> keeps(#[trigger] paths.deep_view()[i], pool_view(pool_id)),
    {
        let cycles = graph.find_arbitrage_opportunities(start_token);
        let ghost shown = cycles.deep_view();
        let ghost pool = pool_view(pool_id);
        let mut paths: Vec<Path> = Vec::new();
        let n = cycles.len();
        let mut k: usize = 0;
        while k < n
            invariant
                n == cycles@.len(),
                shown == cycles.deep_view(),
                pool == pool_view(pool_id),
                k <= n,
                paths.deep_view() == select(shown, pool, k as nat),
            decreases n - k,
        {
            let ghost sofar = paths.deep_view();
            let path = graph.cycle_to_path(&cycles[k]);
            assert(path@ == hops_of(shown[k as int]));
            let keep = match &pool_id {
                Some(id) => path.contains_pool(id),
                None => true,
            };
            if keep {
                paths.push(path);
                assert(paths.deep_view() =~= sofar.push(hops_of(shown[k as int])));
            }
            k += 1;
        }
        proof {
            lemma_select(shown, pool, shown.len());
        }
        paths
    }

    /// The arbitrage paths from `start_token`, all or those through
    /// `pool_id`, once the graph is complete. Fails where discovery could
    /// not answer for the token that the graph is built around, and where
    /// construction is not over.
    pub fn find_arbitrage_paths(&self, start_token: &str, pool_id: Option<ObjectId>) -> (result:
        Result<Vec<Path>, SearchError>)
        requires
            self.wf(),
        ensures
            match result {
                Ok(paths) => outcome(self@, start_token@, pool_view(pool_id)) == Ok::<
                    Seq<Seq<DexView>>,
                    SearchError,
                >(paths.deep_view()),
                Err(e) => outcome(self@, start_token@, pool_view(pool_id)) == Err::<
                    Seq<Seq<DexView>>,
                    SearchError,
                >(e),
            },
    {
        if self.builder.has_open_question() {
            return Err(SearchError::Unfinished);
        }
        match self.builder.phase() {
            Phase::Done => Ok(Self::search(self.builder.graph(), start_token, pool_id)),
            Phase::Failed => Err(SearchError::DiscoveryFailed),
            _ => Err(SearchError::Unfinished),
        }
    }
}

} // verus!
