//! What holds of a whole search: the graph is built by rounds of questions
//! and answers, and the paths are read off the complete graph.

use crate::builder::{initial_state, unvisited_top, BuilderView, Phase};
use crate::discovery::{run, step};
use crate::finder::{keeps, lemma_select, outcome, paths_found, SearchError};
use crate::graph::{hops_of, GraphView};
use crate::sound::lemma_dead_end_no_opportunity;
use crate::types::{DexView, RouteView};
use vstd::prelude::*;

verus! {

/// Two discoveries that answer every token alike lead construction through
/// the same states.
pub proof fn lemma_same_answers_same_run(
    b: BuilderView,
    first: spec_fn(Seq<char>) -> Option<Seq<RouteView>>,
    second: spec_fn(Seq<char>) -> Option<Seq<RouteView>>,
    n: nat,
)
    requires
        forall|t: Seq<char>| #[trigger] first(t) == second(t),
    ensures
        run(b, first, n) == run(b, second, n),
    decreases n,
{
    if n > 0 {
        lemma_same_answers_same_run(b, first, second, (n - 1) as nat);
    }
}

/// A search that is repeated while discovery answers every token as before
/// gives the same result: the same failure, or the same paths, and so the
/// same paths as an unordered collection.
pub proof fn lemma_repeated_search(
    first: spec_fn(Seq<char>) -> Option<Seq<RouteView>>,
    second: spec_fn(Seq<char>) -> Option<Seq<RouteView>>,
    root: Seq<char>,
    start: Seq<char>,
    pool: Option<Seq<u8>>,
    n: nat,
)
    requires
        forall|t: Seq<char>| #[trigger] first(t) == second(t),
    ensures
        outcome(run(initial_state(root), first, n), start, pool) == outcome(
            run(initial_state(root), second, n),
            start,
            pool,
        ),
        outcome(run(initial_state(root), first, n), start, pool) matches Ok(paths) ==> outcome(
            run(initial_state(root), second, n),
            start,
            pool,
        ) matches Ok(again) && paths.to_multiset() == again.to_multiset(),
{
    lemma_same_answers_same_run(initial_state(root), first, second, n);
}

/// A search from a token that no route leaves ends after three rounds, and
/// it ends well, with no path.
pub proof fn lemma_search_from_dead_end(
    oracle: spec_fn(Seq<char>) -> Option<Seq<RouteView>>,
    root: Seq<char>,
    pool: Option<Seq<u8>>,
)
    requires
        oracle(root) == Some(Seq::<RouteView>::empty()),
    ensures
        outcome(run(initial_state(root), oracle, 3), root, pool) == Ok::<
            Seq<Seq<DexView>>,
            SearchError,
        >(Seq::empty()),
{
    let b0 = initial_state(root);
    let b1 = step(b0, oracle);
    let b2 = step(b1, oracle);
    let b3 = step(b2, oracle);
    reveal_with_fuel(run, 4);
    reveal_with_fuel(unvisited_top, 2);
    assert(run(b0, oracle, 3) == b3);
    assert(b0.stack.last() == root);
    assert(!b0.visited.contains(root));
    assert(b0.graph.tokens[0] == root);
    assert(b0.graph.with_node(root) == b0.graph);
    assert(b1.phase == Phase::Primary);
    assert(b1.stack =~= Seq::<Seq<char>>::empty());
    assert(b1.graph == b0.graph);
    assert(b2.phase == Phase::Secondary);
    assert(b2.stack =~= Seq::<Seq<char>>::empty());
    assert(b2.roots =~= Seq::<Seq<char>>::empty());
    assert(b3.phase == Phase::Done);
    assert(b3.pending is None);
    let g = b3.graph;
    assert(g == b0.graph);
    assert(g.tokens.index_of(root) == 0);
    assert(g.wf());
    g.lemma_links_ok();
    lemma_dead_end_no_opportunity(g.links(), 0);
    assert(g.reported(root) =~= Seq::empty());
    assert(paths_found(g, root, pool) =~= Seq::empty());
}

/// With a pool, a search returns only paths that have a hop through it, and
/// none where no cycle of the graph has such a hop; without one it returns
/// the path of every cycle.
pub proof fn lemma_paths_pass_the_filter(g: GraphView, start: Seq<char>, pool: Option<Seq<u8>>)
    ensures
        forall|i: int|
            0 <= i < paths_found(g, start, pool).len() ==> keeps(
                #[trigger] paths_found(g, start, pool)[i],
                pool,
            ),
        (forall|c: int|
            0 <= c < g.reported(start).len() ==> !keeps(
                hops_of(#[trigger] g.reported(start)[c]),
                pool,
            )) ==> paths_found(g, start, pool).len() == 0,
        pool is None ==> paths_found(g, start, pool).len() == g.reported(start).len(),
{
    lemma_select(g.reported(start), pool, g.reported(start).len());
}

} // verus!
