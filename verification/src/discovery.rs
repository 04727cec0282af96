//! Construction against a discovery that answers every token in one way:
//! the tokens that can be reached from the start token, and why the graph
//! holds exactly those.

use crate::builder::{
    add_routes, answered, expanding, initial_state, is_first_question, next_state, push_unvisited,
    secondary_roots, unvisited_top, ActionView, BuilderView, Phase,
};
use crate::graph::GraphView;
use crate::types::{EdgeView, RouteView};
use vstd::prelude::*;

verus! {

/// Some route that `oracle` gives for the token `t` leads to the token `o`.
pub open spec fn leads_to(
    oracle: spec_fn(Seq<char>) -> Option<Seq<RouteView>>,
    t: Seq<char>,
    o: Seq<char>,
) -> bool {
    oracle(t) matches Some(routes) && exists|k: int|
        0 <= k < routes.len() && (#[trigger] routes[k]).dex.coin_out_type == o
}

/// A sequence of tokens, each led to by a route from the one before.
pub open spec fn is_trail(
    oracle: spec_fn(Seq<char>) -> Option<Seq<RouteView>>,
    p: Seq<Seq<char>>,
) -> bool {
    p.len() >= 1 && forall|i: int| 0 <= i < p.len() - 1 ==> leads_to(oracle, #[trigger] p[i], p[i + 1])
}

/// Routes lead from `root` to `t`, in any number of hops.
pub open spec fn reaches(
    oracle: spec_fn(Seq<char>) -> Option<Seq<RouteView>>,
    root: Seq<char>,
    t: Seq<char>,
) -> bool {
    exists|p: Seq<Seq<char>>| is_trail(oracle, p) && p[0] == root && p.last() == t
}

/// The tokens that can be reached from `root`.
pub open spec fn reach_set(
    oracle: spec_fn(Seq<char>) -> Option<Seq<RouteView>>,
    root: Seq<char>,
) -> Set<Seq<char>> {
    Set::new(|t: Seq<char>| reaches(oracle, root, t))
}

/// One round of construction: the builder chooses, and where it asks about
/// a token, `oracle` answers.
pub open spec fn step(
    b: BuilderView,
    oracle: spec_fn(Seq<char>) -> Option<Seq<RouteView>>,
) -> BuilderView {
    let (asked, action) = next_state(b);
    match action {
        ActionView::Discover(t) => answered(asked, oracle(t)),
        _ => asked,
    }
}

/// `n` rounds of construction.
pub open spec fn run(
    b: BuilderView,
    oracle: spec_fn(Seq<char>) -> Option<Seq<RouteView>>,
    n: nat,
) -> BuilderView
    decreases n,
{
    if n == 0 {
        b
    } else {
        step(run(b, oracle, (n - 1) as nat), oracle)
    }
}

/// A token reaches itself.
pub proof fn lemma_reaches_self(
    oracle: spec_fn(Seq<char>) -> Option<Seq<RouteView>>,
    root: Seq<char>,
)
    ensures
        reaches(oracle, root, root),
{
    let p = seq![root];
    assert(is_trail(oracle, p) && p[0] == root && p.last() == root);
}

/// What a reached token leads to is reached.
pub proof fn lemma_reaches_step(
    oracle: spec_fn(Seq<char>) -> Option<Seq<RouteView>>,
    root: Seq<char>,
    t: Seq<char>,
    o: Seq<char>,
)
    requires
        reaches(oracle, root, t),
        leads_to(oracle, t, o),
    ensures
        reaches(oracle, root, o),
{
    let p = choose|p: Seq<Seq<char>>| is_trail(oracle, p) && p[0] == root && p.last() == t;
    let q = p.push(o);
    assert forall|i: int| 0 <= i < q.len() - 1 implies leads_to(oracle, #[trigger] q[i], q[i + 1]) by {
        if i < p.len() - 1 {
            assert(q[i] == p[i]);
            assert(q[i + 1] == p[i + 1]);
            assert(leads_to(oracle, p[i], p[i + 1]));
        } else {
            assert(q[i] == t);
            assert(q[i + 1] == o);
        }
    }
    assert(is_trail(oracle, q) && q[0] == root && q.last() == o);
}

/// A set is closed: what one of its tokens leads to is in it.
spec fn closed(oracle: spec_fn(Seq<char>) -> Option<Seq<RouteView>>, s: Set<Seq<char>>) -> bool {
    forall|t: Seq<char>, o: Seq<char>|
        s.contains(t) && #[trigger] leads_to(oracle, t, o) ==> s.contains(o)
}

proof fn lemma_trail_stays(
    oracle: spec_fn(Seq<char>) -> Option<Seq<RouteView>>,
    s: Set<Seq<char>>,
    p: Seq<Seq<char>>,
    i: int,
)
    requires
        closed(oracle, s),
        is_trail(oracle, p),
        s.contains(p[0]),
        0 <= i < p.len(),
    ensures
        s.contains(p[i]),
    decreases i,
{
    if i > 0 {
        lemma_trail_stays(oracle, s, p, i - 1);
        assert(leads_to(oracle, p[i - 1], p[i - 1 + 1]));
    }
}

/// A closed set that holds `root` holds every token that `root` reaches.
proof fn lemma_closed_holds_reach(
    oracle: spec_fn(Seq<char>) -> Option<Seq<RouteView>>,
    root: Seq<char>,
    s: Set<Seq<char>>,
)
    requires
        closed(oracle, s),
        s.contains(root),
    ensures
        forall|t: Seq<char>| reaches(oracle, root, t) ==> s.contains(t),
{
    assert forall|t: Seq<char>| reaches(oracle, root, t) implies s.contains(t) by {
        let p = choose|p: Seq<Seq<char>>| is_trail(oracle, p) && p[0] == root && p.last() == t;
        lemma_trail_stays(oracle, s, p, p.len() - 1);
    }
}

/// What is left of the stack is its lower part; what was taken off was
/// visited; and the token on top, if there is one, is not.
proof fn lemma_unvisited_top(visited: Seq<Seq<char>>, stack: Seq<Seq<char>>)
    ensures
        unvisited_top(visited, stack).len() <= stack.len(),
        forall|i: int|
            0 <= i < unvisited_top(visited, stack).len() ==> #[trigger] unvisited_top(
                visited,
                stack,
            )[i] == stack[i],
        forall|i: int|
            unvisited_top(visited, stack).len() <= i < stack.len() ==> visited.contains(
                #[trigger] stack[i],
            ),
        unvisited_top(visited, stack).len() > 0 ==> !visited.contains(
            unvisited_top(visited, stack).last(),
        ),
    decreases stack.len(),
{
    if stack.len() == 0 || !visited.contains(stack.last()) {
    } else {
        lemma_unvisited_top(visited, stack.drop_last());
        let top = unvisited_top(visited, stack.drop_last());
        assert forall|i: int| top.len() <= i < stack.len() implies visited.contains(
            #[trigger] stack[i],
        ) by {
            if i < stack.len() - 1 {
                assert(stack.drop_last()[i] == stack[i]);
            }
        }
    }
}

/// Pushing keeps the stack below; what is pushed is led to by one of the
/// routes and is not visited; and what any of the routes leads to is visited
/// or on the stack.
proof fn lemma_push_unvisited(
    stack: Seq<Seq<char>>,
    visited: Seq<Seq<char>>,
    routes: Seq<RouteView>,
    k: nat,
)
    requires
        k <= routes.len(),
    ensures
        push_unvisited(stack, visited, routes, k).len() >= stack.len(),
        forall|i: int|
            0 <= i < stack.len() ==> #[trigger] push_unvisited(stack, visited, routes, k)[i]
                == stack[i],
        forall|i: int|
            stack.len() <= i < push_unvisited(stack, visited, routes, k).len() ==> exists|j: int|
                0 <= j < k && (#[trigger] routes[j]).dex.coin_out_type == #[trigger] push_unvisited(
                    stack,
                    visited,
                    routes,
                    k,
                )[i],
        forall|j: int|
            0 <= j < k ==> visited.contains((#[trigger] routes[j]).dex.coin_out_type)
                || push_unvisited(stack, visited, routes, k).contains(routes[j].dex.coin_out_type),
    decreases k,
{
    if k > 0 {
        lemma_push_unvisited(stack, visited, routes, (k - 1) as nat);
        let below = push_unvisited(stack, visited, routes, (k - 1) as nat);
        let all = push_unvisited(stack, visited, routes, k);
        let out = routes[k - 1].dex.coin_out_type;
        assert forall|i: int| stack.len() <= i < all.len() implies exists|j: int|
            0 <= j < k && (#[trigger] routes[j]).dex.coin_out_type == #[trigger] all[i] by {
            if i < below.len() {
                assert(all[i] == below[i]);
                let j = choose|j: int|
                    0 <= j < k - 1 && (#[trigger] routes[j]).dex.coin_out_type == below[i];
                assert(0 <= j < k && routes[j].dex.coin_out_type == all[i]);
            } else {
                assert(routes[k - 1].dex.coin_out_type == all[i]);
            }
        }
        assert forall|j: int| 0 <= j < k implies visited.contains(
            (#[trigger] routes[j]).dex.coin_out_type,
        ) || all.contains(routes[j].dex.coin_out_type) by {
            if j < k - 1 {
                if below.contains(routes[j].dex.coin_out_type) {
                    let i = below.index_of(routes[j].dex.coin_out_type);
                    assert(all[i] == routes[j].dex.coin_out_type);
                }
            } else {
                if !visited.contains(out) {
                    assert(all[all.len() - 1] == out);
                }
            }
        }
    }
}

/// Adding the routes from a token of the graph keeps the graph consistent;
/// its tokens are those it had and those that the routes lead to.
proof fn lemma_add_routes(g: GraphView, from: Seq<char>, routes: Seq<RouteView>, k: nat)
    requires
        g.consistent(),
        g.tokens.contains(from),
        k <= routes.len(),
    ensures
        add_routes(g, from, routes, k).consistent(),
        forall|t: Seq<char>|
            #![trigger add_routes(g, from, routes, k).tokens.contains(t)]
            add_routes(g, from, routes, k).tokens.contains(t) <==> (g.tokens.contains(t) || exists|
                j: int,
            | 0 <= j < k && (#[trigger] routes[j]).dex.coin_out_type == t),
    decreases k,
{
    if k > 0 {
        lemma_add_routes(g, from, routes, (k - 1) as nat);
        let before = add_routes(g, from, routes, (k - 1) as nat);
        let after = add_routes(g, from, routes, k);
        let out = routes[k - 1].dex.coin_out_type;
        before.lemma_with_edge(from, routes[k - 1].dex, routes[k - 1].weight);
        assert(before.tokens.contains(from));
        assert forall|t: Seq<char>|
            #![trigger after.tokens.contains(t)]
            after.tokens.contains(t) <==> (g.tokens.contains(t) || exists|j: int|
                0 <= j < k && (#[trigger] routes[j]).dex.coin_out_type == t) by {
            assert(after.tokens.to_set().contains(t) <==> before.tokens.to_set().insert(from).insert(
                out,
            ).contains(t));
            if before.tokens.contains(t) && !g.tokens.contains(t) {
                let j = choose|j: int| 0 <= j < k - 1 && (#[trigger] routes[j]).dex.coin_out_type == t;
                assert(0 <= j < k && routes[j].dex.coin_out_type == t);
            }
            if t == out {
                assert(routes[k - 1].dex.coin_out_type == t);
            }
            if exists|j: int| 0 <= j < k && (#[trigger] routes[j]).dex.coin_out_type == t {
                let j = choose|j: int| 0 <= j < k && (#[trigger] routes[j]).dex.coin_out_type == t;
                if j < k - 1 {
                    assert(before.tokens.contains(t));
                }
            }
        }
    }
}

/// Every token from which a later traversal starts is led to by one of the
/// routes.
proof fn lemma_secondary_roots(routes: Seq<RouteView>, k: nat)
    requires
        k <= routes.len(),
    ensures
        forall|i: int|
            0 <= i < secondary_roots(routes, k).len() ==> exists|j: int|
                0 <= j < k && (#[trigger] routes[j]).dex.coin_out_type == #[trigger] secondary_roots(
                    routes,
                    k,
                )[i],
    decreases k,
{
    if k > 0 {
        lemma_secondary_roots(routes, (k - 1) as nat);
        let before = secondary_roots(routes, (k - 1) as nat);
        let all = secondary_roots(routes, k);
        assert forall|i: int| 0 <= i < all.len() implies exists|j: int|
            0 <= j < k && (#[trigger] routes[j]).dex.coin_out_type == #[trigger] all[i] by {
            if i < before.len() {
                assert(all[i] == before[i]);
                let j = choose|j: int|
                    0 <= j < k - 1 && (#[trigger] routes[j]).dex.coin_out_type == before[i];
                assert(0 <= j < k && routes[j].dex.coin_out_type == all[i]);
            } else {
                assert(routes[k - 1].dex.coin_out_type == all[i]);
            }
        }
    }
}

/// Every token of `list` is a token of `tokens`.
spec fn all_in(list: Seq<Seq<char>>, tokens: Seq<Seq<char>>) -> bool {
    forall|i: int| 0 <= i < list.len() ==> tokens.contains(#[trigger] list[i])
}

/// Every token that `root` reaches is a token of `tokens`.
spec fn complete(
    oracle: spec_fn(Seq<char>) -> Option<Seq<RouteView>>,
    root: Seq<char>,
    tokens: Seq<Seq<char>>,
) -> bool {
    forall|t: Seq<char>| #[trigger] reaches(oracle, root, t) ==> tokens.contains(t)
}

/// What a visited token leads to is visited or waits on the stack.
spec fn covered(
    oracle: spec_fn(Seq<char>) -> Option<Seq<RouteView>>,
    visited: Seq<Seq<char>>,
    stack: Seq<Seq<char>>,
) -> bool {
    forall|t: Seq<char>, o: Seq<char>|
        visited.contains(t) && #[trigger] leads_to(oracle, t, o) ==> visited.contains(o)
            || stack.contains(o)
}

/// What holds between two rounds of a construction from `root`.
spec fn inv(
    b: BuilderView,
    oracle: spec_fn(Seq<char>) -> Option<Seq<RouteView>>,
    root: Seq<char>,
) -> bool {
    &&& b.root == root
    &&& b.pending is None
    &&& b.graph.consistent()
    &&& b.graph.tokens.contains(root)
    &&& forall|t: Seq<char>| #[trigger] b.graph.tokens.contains(t) ==> reaches(oracle, root, t)
    &&& match b.phase {
        Phase::Primary => {
            &&& all_in(b.visited, b.graph.tokens)
            &&& all_in(b.stack, b.graph.tokens)
            &&& (b.visited.contains(root) || b.stack.contains(root))
            &&& covered(oracle, b.visited, b.stack)
        },
        Phase::Widening => false,
        Phase::Secondary => {
            &&& complete(oracle, root, b.graph.tokens)
            &&& all_in(b.stack, b.graph.tokens)
            &&& all_in(b.roots, b.graph.tokens)
        },
        Phase::Done => complete(oracle, root, b.graph.tokens),
        Phase::Failed => true,
    }
}

/// A token that was visited or on the stack is, after the next token of the
/// stack has been taken to be expanded, visited or still on the stack.
proof fn lemma_taken(visited: Seq<Seq<char>>, stack: Seq<Seq<char>>, x: Seq<char>)
    requires
        visited.contains(x) || stack.contains(x),
    ensures
        unvisited_top(visited, stack).len() > 0 ==> visited.push(
            unvisited_top(visited, stack).last(),
        ).contains(x) || unvisited_top(visited, stack).drop_last().contains(x),
        unvisited_top(visited, stack).len() == 0 ==> visited.contains(x),
{
    let top = unvisited_top(visited, stack);
    lemma_unvisited_top(visited, stack);
    if top.len() > 0 {
        let more = visited.push(top.last());
        if visited.contains(x) {
            let i = visited.index_of(x);
            assert(more[i] == x);
        } else {
            let i = stack.index_of(x);
            if i < top.len() - 1 {
                assert(top.drop_last()[i] == x);
            } else if i == top.len() - 1 {
                assert(more[visited.len() as int] == x);
            } else {
                assert(visited.contains(stack[i]));
            }
        }
    } else {
        if !visited.contains(x) {
            let i = stack.index_of(x);
            assert(visited.contains(stack[i]));
        }
    }
}

/// The answer to the question about a token of the graph keeps a traversal
/// in order: the tokens stay reachable ones, and what the token leads to is
/// visited or waits on the stack.
proof fn lemma_answer_in_traversal(
    g: GraphView,
    visited: Seq<Seq<char>>,
    stack: Seq<Seq<char>>,
    oracle: spec_fn(Seq<char>) -> Option<Seq<RouteView>>,
    root: Seq<char>,
    t: Seq<char>,
    routes: Seq<RouteView>,
)
    requires
        g.consistent(),
        g.tokens.contains(t),
        oracle(t) == Some(routes),
        forall|x: Seq<char>| #[trigger] g.tokens.contains(x) ==> reaches(oracle, root, x),
        all_in(stack, g.tokens),
    ensures
        add_routes(g, t, routes, routes.len()).consistent(),
        forall|x: Seq<char>|
            g.tokens.contains(x) ==> #[trigger] add_routes(g, t, routes, routes.len()).tokens.contains(
                x,
            ),
        forall|x: Seq<char>|
            #[trigger] add_routes(g, t, routes, routes.len()).tokens.contains(x) ==> reaches(
                oracle,
                root,
                x,
            ),
        all_in(
            push_unvisited(stack, visited, routes, routes.len()),
            add_routes(g, t, routes, routes.len()).tokens,
        ),
        forall|x: Seq<char>|
            stack.contains(x) ==> #[trigger] push_unvisited(
                stack,
                visited,
                routes,
                routes.len(),
            ).contains(x),
        forall|o: Seq<char>|
            #[trigger] leads_to(oracle, t, o) ==> visited.contains(o) || push_unvisited(
                stack,
                visited,
                routes,
                routes.len(),
            ).contains(o),
{
    let n = routes.len();
    let g2 = add_routes(g, t, routes, n);
    let s2 = push_unvisited(stack, visited, routes, n);
    lemma_add_routes(g, t, routes, n);
    lemma_push_unvisited(stack, visited, routes, n);
    assert forall|x: Seq<char>| #[trigger] g2.tokens.contains(x) implies reaches(oracle, root, x) by {
        if !g.tokens.contains(x) {
            let j = choose|j: int| 0 <= j < n && (#[trigger] routes[j]).dex.coin_out_type == x;
            assert(oracle(t).unwrap()[j].dex.coin_out_type == x);
            assert(leads_to(oracle, t, x));
            lemma_reaches_step(oracle, root, t, x);
        }
    }
    assert forall|i: int| 0 <= i < s2.len() implies g2.tokens.contains(#[trigger] s2[i]) by {
        if i < stack.len() {
            assert(s2[i] == stack[i]);
            assert(g.tokens.contains(stack[i]));
        } else {
            let j = choose|j: int| 0 <= j < n && (#[trigger] routes[j]).dex.coin_out_type == s2[i];
            assert(0 <= j < n && routes[j].dex.coin_out_type == s2[i]);
        }
    }
    assert forall|x: Seq<char>| stack.contains(x) implies #[trigger] s2.contains(x) by {
        let i = stack.index_of(x);
        assert(s2[i] == x);
    }
    assert forall|o: Seq<char>| #[trigger] leads_to(oracle, t, o) implies visited.contains(o)
        || s2.contains(o) by {
        let k = choose|k: int| 0 <= k < n && (#[trigger] routes[k]).dex.coin_out_type == o;
        assert(visited.contains(routes[k].dex.coin_out_type) || s2.contains(
            routes[k].dex.coin_out_type,
        ));
    }
}

/// A round of construction keeps what holds between rounds.
proof fn lemma_step(
    b: BuilderView,
    oracle: spec_fn(Seq<char>) -> Option<Seq<RouteView>>,
    root: Seq<char>,
)
    requires
        inv(b, oracle, root),
    ensures
        inv(step(b, oracle), oracle, root),
{
    let top = unvisited_top(b.visited, b.stack);
    let tokens = b.graph.tokens;
    lemma_unvisited_top(b.visited, b.stack);
    let after = step(b, oracle);
    match b.phase {
        Phase::Primary => {
            if top.len() > 0 {
                let t = top.last();
                let visited = b.visited.push(t);
                let stack = top.drop_last();
                assert(top[top.len() - 1] == b.stack[top.len() - 1]);
                assert(tokens.contains(t));
                assert(expanding(b, top).graph == b.graph);
                assert forall|i: int| 0 <= i < visited.len() implies tokens.contains(
                    #[trigger] visited[i],
                ) by {
                    if i < b.visited.len() {
                        assert(visited[i] == b.visited[i]);
                    }
                }
                assert forall|i: int| 0 <= i < stack.len() implies tokens.contains(
                    #[trigger] stack[i],
                ) by {
                    assert(stack[i] == b.stack[i]);
                }
                lemma_taken(b.visited, b.stack, root);
                match oracle(t) {
                    None => {
                        if !is_first_question(expanding(b, top)) {
                            assert forall|x: Seq<char>, o: Seq<char>|
                                visited.contains(x) && #[trigger] leads_to(
                                    oracle,
                                    x,
                                    o,
                                ) implies visited.contains(o) || stack.contains(o) by {
                                if x != t {
                                    let i = visited.index_of(x);
                                    assert(b.visited[i] == x);
                                    assert(b.visited.contains(o) || b.stack.contains(o));
                                    lemma_taken(b.visited, b.stack, o);
                                }
                            }
                        }
                    },
                    Some(routes) => {
                        lemma_answer_in_traversal(
                            b.graph,
                            visited,
                            stack,
                            oracle,
                            root,
                            t,
                            routes,
                        );
                        let s2 = push_unvisited(stack, visited, routes, routes.len());
                        let g2 = add_routes(b.graph, t, routes, routes.len());
                        assert(after.graph == g2);
                        assert(after.stack == s2);
                        assert(after.visited == visited);
                        assert forall|x: Seq<char>, o: Seq<char>|
                            visited.contains(x) && #[trigger] leads_to(
                                oracle,
                                x,
                                o,
                            ) implies visited.contains(o) || s2.contains(o) by {
                            if x != t {
                                let i = visited.index_of(x);
                                assert(b.visited[i] == x);
                                assert(b.visited.contains(o) || b.stack.contains(o));
                                lemma_taken(b.visited, b.stack, o);
                            }
                        }
                        assert forall|i: int| 0 <= i < visited.len() implies g2.tokens.contains(
                            #[trigger] visited[i],
                        ) by {
                            assert(tokens.contains(visited[i]));
                        }
                    },
                }
            } else {
                match oracle(root) {
                    None => {},
                    Some(routes) => {
                        let s = b.visited.to_set();
                        lemma_taken(b.visited, b.stack, root);
                        assert forall|x: Seq<char>, o: Seq<char>|
                            s.contains(x) && #[trigger] leads_to(oracle, x, o) implies s.contains(
                            o,
                        ) by {
                            assert(b.visited.contains(o) || b.stack.contains(o));
                            lemma_taken(b.visited, b.stack, o);
                        }
                        lemma_closed_holds_reach(oracle, root, s);
                        assert forall|x: Seq<char>| #[trigger] reaches(
                            oracle,
                            root,
                            x,
                        ) implies tokens.contains(x) by {
                            assert(s.contains(x));
                            let i = b.visited.index_of(x);
                            assert(tokens.contains(b.visited[i]));
                        }
                        lemma_secondary_roots(routes, routes.len());
                        let roots = secondary_roots(routes, routes.len());
                        lemma_reaches_self(oracle, root);
                        assert forall|i: int| 0 <= i < roots.len() implies tokens.contains(
                            #[trigger] roots[i],
                        ) by {
                            let j = choose|j: int|
                                0 <= j < routes.len() && (#[trigger] routes[j]).dex.coin_out_type
                                    == roots[i];
                            assert(leads_to(oracle, root, roots[i]));
                            lemma_reaches_step(oracle, root, root, roots[i]);
                        }
                    },
                }
            }
        },
        Phase::Secondary => {
            if top.len() > 0 || b.roots.len() > 0 {
                let t = if top.len() > 0 {
                    top.last()
                } else {
                    b.roots[0]
                };
                let visited = if top.len() > 0 {
                    b.visited.push(t)
                } else {
                    seq![t]
                };
                let stack = if top.len() > 0 {
                    top.drop_last()
                } else {
                    top
                };
                let roots = if top.len() > 0 {
                    b.roots
                } else {
                    b.roots.drop_first()
                };
                if top.len() > 0 {
                    assert(top[top.len() - 1] == b.stack[top.len() - 1]);
                }
                assert(tokens.contains(t));
                assert(next_state(b).0.graph == b.graph);
                assert forall|i: int| 0 <= i < stack.len() implies tokens.contains(
                    #[trigger] stack[i],
                ) by {
                    assert(stack[i] == b.stack[i]);
                }
                assert forall|i: int| 0 <= i < roots.len() implies tokens.contains(
                    #[trigger] roots[i],
                ) by {
                    if top.len() == 0 {
                        assert(roots[i] == b.roots[i + 1]);
                    }
                }
                match oracle(t) {
                    None => {},
                    Some(routes) => {
                        lemma_answer_in_traversal(
                            b.graph,
                            visited,
                            stack,
                            oracle,
                            root,
                            t,
                            routes,
                        );
                        let g2 = add_routes(b.graph, t, routes, routes.len());
                        assert(after.graph == g2);
                        assert forall|i: int| 0 <= i < roots.len() implies g2.tokens.contains(
                            #[trigger] roots[i],
                        ) by {
                            assert(tokens.contains(roots[i]));
                        }
                    },
                }
            }
        },
        _ => {},
    }
}

/// What holds between rounds holds after any number of rounds from the
/// start.
proof fn lemma_run(oracle: spec_fn(Seq<char>) -> Option<Seq<RouteView>>, root: Seq<char>, n: nat)
    ensures
        inv(run(initial_state(root), oracle, n), oracle, root),
    decreases n,
{
    if n == 0 {
        let b = initial_state(root);
        lemma_reaches_self(oracle, root);
        assert(b.graph.tokens[0] == root);
        assert(b.stack[0] == root);
        assert forall|t: Seq<char>| #[trigger] b.graph.tokens.contains(t) implies reaches(
            oracle,
            root,
            t,
        ) by {
            let i = b.graph.tokens.index_of(t);
            assert(b.graph.tokens[i] == root);
        }
    } else {
        lemma_run(oracle, root, (n - 1) as nat);
        lemma_step(run(initial_state(root), oracle, (n - 1) as nat), oracle, root);
    }
}

/// After any number of rounds the graph holds no token twice and only
/// tokens that the start token reaches. Once construction is complete it
/// holds exactly those: its number of nodes is the number of tokens that
/// can be reached.
pub proof fn lemma_nodes_are_the_reachable_tokens(
    oracle: spec_fn(Seq<char>) -> Option<Seq<RouteView>>,
    root: Seq<char>,
    n: nat,
)
    ensures
        run(initial_state(root), oracle, n).graph.consistent(),
        run(initial_state(root), oracle, n).graph.tokens.to_set().subset_of(reach_set(oracle, root)),
        run(initial_state(root), oracle, n).phase == Phase::Done ==> run(
            initial_state(root),
            oracle,
            n,
        ).graph.tokens.to_set() == reach_set(oracle, root) && run(
            initial_state(root),
            oracle,
            n,
        ).graph.tokens.len() == reach_set(oracle, root).len(),
{
    let b = run(initial_state(root), oracle, n);
    lemma_run(oracle, root, n);
    if b.phase == Phase::Done {
        assert forall|t: Seq<char>| reach_set(oracle, root).contains(t) implies b.graph.tokens.to_set().contains(
            t,
        ) by {
            assert(reaches(oracle, root, t));
        }
        assert(b.graph.tokens.to_set() =~= reach_set(oracle, root));
        b.graph.tokens.unique_seq_to_set();
    }
}

/// `oracle` gives at least `k + 1` routes for the token `t`.
pub open spec fn offers(
    oracle: spec_fn(Seq<char>) -> Option<Seq<RouteView>>,
    t: Seq<char>,
    k: int,
) -> bool {
    oracle(t) matches Some(routes) && 0 <= k < routes.len()
}

/// The edge that a route from the token `t` becomes.
pub open spec fn edge_of(t: Seq<char>, r: RouteView) -> EdgeView {
    EdgeView { from: t, to: r.dex.coin_out_type, dex: r.dex, weight: r.weight }
}

/// The edge of the route at place `k` among those that `oracle` gives for
/// `t`.
pub open spec fn route_edge(
    oracle: spec_fn(Seq<char>) -> Option<Seq<RouteView>>,
    t: Seq<char>,
    k: int,
) -> EdgeView {
    edge_of(t, oracle(t).unwrap()[k])
}

/// `e` is the edge of a route that `oracle` gives for a token that `root`
/// reaches.
pub open spec fn offered(
    oracle: spec_fn(Seq<char>) -> Option<Seq<RouteView>>,
    root: Seq<char>,
    e: EdgeView,
) -> bool {
    exists|t: Seq<char>, k: int|
        reaches(oracle, root, t) && #[trigger] offers(oracle, t, k) && e == route_edge(oracle, t, k)
}

/// The graph holds the edge `e`, once or more often.
pub open spec fn has_edge(g: GraphView, e: EdgeView) -> bool {
    exists|i: int, j: int|
        0 <= i < g.edges.len() && 0 <= j < g.edges[i].len() && #[trigger] g.edges[i][j] == e
}

/// A node more changes no edge.
proof fn lemma_with_node_edges(g: GraphView, token: Seq<char>, e: EdgeView)
    ensures
        has_edge(g.with_node(token), e) <==> has_edge(g, e),
{
    let g2 = g.with_node(token);
    if has_edge(g, e) {
        let (i, j) = choose|i: int, j: int|
            0 <= i < g.edges.len() && 0 <= j < g.edges[i].len() && #[trigger] g.edges[i][j] == e;
        assert(g2.edges[i][j] == e);
    }
    if has_edge(g2, e) {
        let (i, j) = choose|i: int, j: int|
            0 <= i < g2.edges.len() && 0 <= j < g2.edges[i].len() && #[trigger] g2.edges[i][j] == e;
        assert(g.edges[i][j] == e);
    }
}

/// An edge more: the graph holds what it held, and that edge.
proof fn lemma_with_edge_edges(
    g: GraphView,
    from: Seq<char>,
    r: RouteView,
    e: EdgeView,
)
    requires
        g.consistent(),
    ensures
        has_edge(g.with_edge(from, r.dex, r.weight), e) <==> has_edge(g, e) || e == edge_of(from, r),
{
    let g1 = g.with_node(from);
    let g2 = g1.with_node(r.dex.coin_out_type);
    let g3 = g.with_edge(from, r.dex, r.weight);
    g.lemma_with_node(from);
    g1.lemma_with_node(r.dex.coin_out_type);
    lemma_with_node_edges(g, from, e);
    lemma_with_node_edges(g1, r.dex.coin_out_type, e);
    assert(g1.tokens.to_set().contains(from));
    assert(g2.tokens.to_set().contains(from));
    let u = g2.tokens.index_of(from);
    if has_edge(g2, e) {
        let (i, j) = choose|i: int, j: int|
            0 <= i < g2.edges.len() && 0 <= j < g2.edges[i].len() && #[trigger] g2.edges[i][j] == e;
        assert(g3.edges[i][j] == e);
    }
    if e == edge_of(from, r) {
        assert(g3.edges[u][g2.edges[u].len() as int] == e);
    }
    if has_edge(g3, e) {
        let (i, j) = choose|i: int, j: int|
            0 <= i < g3.edges.len() && 0 <= j < g3.edges[i].len() && #[trigger] g3.edges[i][j] == e;
        if i == u && j == g2.edges[u].len() {
        } else {
            assert(g2.edges[i][j] == e);
        }
    }
}

/// The routes from a token added: the graph holds what it held, and the
/// edges of those routes.
proof fn lemma_add_routes_edges(
    g: GraphView,
    from: Seq<char>,
    routes: Seq<RouteView>,
    k: nat,
    e: EdgeView,
)
    requires
        g.consistent(),
        g.tokens.contains(from),
        k <= routes.len(),
    ensures
        has_edge(add_routes(g, from, routes, k), e) <==> has_edge(g, e) || exists|j: int|
            0 <= j < k && e == edge_of(from, #[trigger] routes[j]),
    decreases k,
{
    if k > 0 {
        let before = add_routes(g, from, routes, (k - 1) as nat);
        lemma_add_routes(g, from, routes, (k - 1) as nat);
        lemma_add_routes_edges(g, from, routes, (k - 1) as nat, e);
        lemma_with_edge_edges(before, from, routes[k - 1], e);
        if exists|j: int| 0 <= j < k && e == edge_of(from, #[trigger] routes[j]) {
            let j = choose|j: int| 0 <= j < k && e == edge_of(from, #[trigger] routes[j]);
            if j < k - 1 {
                assert(has_edge(before, e));
            }
        }
        if has_edge(before, e) && !has_edge(g, e) {
            let j = choose|j: int| 0 <= j < k - 1 && e == edge_of(from, #[trigger] routes[j]);
            assert(0 <= j < k && e == edge_of(from, routes[j]));
        }
        if e == edge_of(from, routes[k - 1]) {
            assert(0 <= k - 1 < k && e == edge_of(from, routes[k - 1]));
        }
    }
}

/// What holds of the edges between two rounds of a construction.
spec fn edges_inv(
    b: BuilderView,
    oracle: spec_fn(Seq<char>) -> Option<Seq<RouteView>>,
    root: Seq<char>,
) -> bool {
    &&& forall|e: EdgeView| #[trigger] has_edge(b.graph, e) ==> offered(oracle, root, e)
    &&& match b.phase {
        Phase::Primary => forall|t: Seq<char>, k: int|
            b.visited.contains(t) && #[trigger] offers(oracle, t, k) ==> has_edge(
                b.graph,
                route_edge(oracle, t, k),
            ),
        Phase::Secondary | Phase::Done => forall|e: EdgeView| #[trigger]
            offered(oracle, root, e) ==> has_edge(b.graph, e),
        _ => true,
    }
}

/// When the stack of the first traversal is used up, every token that the
/// start token reaches has been visited.
proof fn lemma_first_traversal_over(
    b: BuilderView,
    oracle: spec_fn(Seq<char>) -> Option<Seq<RouteView>>,
    root: Seq<char>,
)
    requires
        inv(b, oracle, root),
        b.phase == Phase::Primary,
        unvisited_top(b.visited, b.stack).len() == 0,
    ensures
        forall|t: Seq<char>| #[trigger] reaches(oracle, root, t) ==> b.visited.contains(t),
{
    let s = b.visited.to_set();
    lemma_taken(b.visited, b.stack, root);
    assert forall|x: Seq<char>, o: Seq<char>|
        s.contains(x) && #[trigger] leads_to(oracle, x, o) implies s.contains(o) by {
        assert(b.visited.contains(o) || b.stack.contains(o));
        lemma_taken(b.visited, b.stack, o);
    }
    lemma_closed_holds_reach(oracle, root, s);
    assert forall|t: Seq<char>| #[trigger] reaches(oracle, root, t) implies b.visited.contains(t) by {
        assert(s.contains(t));
    }
}

/// The edges that the answer about a reached token of the graph adds are
/// offered ones, and all that the token offers are then held.
proof fn lemma_answer_edges(
    g: GraphView,
    oracle: spec_fn(Seq<char>) -> Option<Seq<RouteView>>,
    root: Seq<char>,
    t: Seq<char>,
    routes: Seq<RouteView>,
)
    requires
        g.consistent(),
        g.tokens.contains(t),
        reaches(oracle, root, t),
        oracle(t) == Some(routes),
        forall|e: EdgeView| #[trigger] has_edge(g, e) ==> offered(oracle, root, e),
    ensures
        forall|e: EdgeView|
            #[trigger] has_edge(add_routes(g, t, routes, routes.len()), e) ==> offered(
                oracle,
                root,
                e,
            ),
        forall|e: EdgeView|
            has_edge(g, e) ==> #[trigger] has_edge(add_routes(g, t, routes, routes.len()), e),
        forall|k: int|
            #[trigger] offers(oracle, t, k) ==> has_edge(
                add_routes(g, t, routes, routes.len()),
                route_edge(oracle, t, k),
            ),
{
    let g2 = add_routes(g, t, routes, routes.len());
    assert forall|e: EdgeView| #[trigger] has_edge(g2, e) implies offered(oracle, root, e) by {
        lemma_add_routes_edges(g, t, routes, routes.len(), e);
        if !has_edge(g, e) {
            let j = choose|j: int| 0 <= j < routes.len() && e == edge_of(t, #[trigger] routes[j]);
            assert(offers(oracle, t, j) && e == route_edge(oracle, t, j));
        }
    }
    assert forall|e: EdgeView| has_edge(g, e) implies #[trigger] has_edge(g2, e) by {
        lemma_add_routes_edges(g, t, routes, routes.len(), e);
    }
    assert forall|k: int| #[trigger] offers(oracle, t, k) implies has_edge(
        g2,
        route_edge(oracle, t, k),
    ) by {
        lemma_add_routes_edges(g, t, routes, routes.len(), route_edge(oracle, t, k));
        assert(0 <= k < routes.len() && route_edge(oracle, t, k) == edge_of(t, routes[k]));
    }
}

/// A round of construction keeps what holds of the edges between rounds.
proof fn lemma_step_edges(
    b: BuilderView,
    oracle: spec_fn(Seq<char>) -> Option<Seq<RouteView>>,
    root: Seq<char>,
)
    requires
        inv(b, oracle, root),
        edges_inv(b, oracle, root),
    ensures
        edges_inv(step(b, oracle), oracle, root),
{
    let top = unvisited_top(b.visited, b.stack);
    let tokens = b.graph.tokens;
    lemma_unvisited_top(b.visited, b.stack);
    let after = step(b, oracle);
    match b.phase {
        Phase::Primary => {
            if top.len() > 0 {
                let t = top.last();
                let visited = b.visited.push(t);
                assert(top[top.len() - 1] == b.stack[top.len() - 1]);
                assert(tokens.contains(t));
                assert(expanding(b, top).graph == b.graph);
                match oracle(t) {
                    None => {
                        if !is_first_question(expanding(b, top)) {
                            assert forall|x: Seq<char>, k: int|
                                visited.contains(x) && #[trigger] offers(
                                    oracle,
                                    x,
                                    k,
                                ) implies has_edge(b.graph, route_edge(oracle, x, k)) by {
                                let i = visited.index_of(x);
                                assert(b.visited[i] == x);
                            }
                        }
                    },
                    Some(routes) => {
                        lemma_answer_edges(b.graph, oracle, root, t, routes);
                        let g2 = add_routes(b.graph, t, routes, routes.len());
                        assert(after.graph == g2);
                        assert(after.visited == visited);
                        assert forall|x: Seq<char>, k: int|
                            visited.contains(x) && #[trigger] offers(
                                oracle,
                                x,
                                k,
                            ) implies has_edge(g2, route_edge(oracle, x, k)) by {
                            if x != t {
                                let i = visited.index_of(x);
                                assert(b.visited[i] == x);
                                assert(has_edge(b.graph, route_edge(oracle, x, k)));
                            }
                        }
                    },
                }
            } else {
                match oracle(root) {
                    None => {},
                    Some(routes) => {
                        lemma_first_traversal_over(b, oracle, root);
                        assert(after.graph == b.graph);
                        assert forall|e: EdgeView| #[trigger]
                            offered(oracle, root, e) implies has_edge(b.graph, e) by {
                            let (t, k) = choose|t: Seq<char>, k: int|
                                reaches(oracle, root, t) && #[trigger] offers(oracle, t, k) && e
                                    == route_edge(oracle, t, k);
                            assert(b.visited.contains(t));
                        }
                    },
                }
            }
        },
        Phase::Secondary => {
            if top.len() > 0 || b.roots.len() > 0 {
                let t = if top.len() > 0 {
                    top.last()
                } else {
                    b.roots[0]
                };
                if top.len() > 0 {
                    assert(top[top.len() - 1] == b.stack[top.len() - 1]);
                }
                assert(tokens.contains(t));
                assert(next_state(b).0.graph == b.graph);
                match oracle(t) {
                    None => {},
                    Some(routes) => {
                        lemma_answer_edges(b.graph, oracle, root, t, routes);
                        let g2 = add_routes(b.graph, t, routes, routes.len());
                        assert(after.graph == g2);
                        assert forall|e: EdgeView| #[trigger]
                            offered(oracle, root, e) implies has_edge(g2, e) by {
                            assert(has_edge(b.graph, e));
                        }
                    },
                }
            }
        },
        _ => {},
    }
}

proof fn lemma_run_edges(
    oracle: spec_fn(Seq<char>) -> Option<Seq<RouteView>>,
    root: Seq<char>,
    n: nat,
)
    ensures
        inv(run(initial_state(root), oracle, n), oracle, root),
        edges_inv(run(initial_state(root), oracle, n), oracle, root),
    decreases n,
{
    lemma_run(oracle, root, n);
    if n == 0 {
        let b = initial_state(root);
        assert forall|e: EdgeView| !has_edge(b.graph, e) by {
            if has_edge(b.graph, e) {
                let (i, j) = choose|i: int, j: int|
                    0 <= i < b.graph.edges.len() && 0 <= j < b.graph.edges[i].len()
                        && #[trigger] b.graph.edges[i][j] == e;
            }
        }
        assert forall|t: Seq<char>, k: int|
            b.visited.contains(t) && #[trigger] offers(oracle, t, k) implies has_edge(
            b.graph,
            route_edge(oracle, t, k),
        ) by {
            let i = b.visited.index_of(t);
        }
    } else {
        lemma_run_edges(oracle, root, (n - 1) as nat);
        lemma_step_edges(run(initial_state(root), oracle, (n - 1) as nat), oracle, root);
    }
}

/// After any number of rounds every edge of the graph is the edge of a
/// route offered at a token that the start token reaches. Once the first
/// traversal is over the graph holds every such edge: the later traversals
/// add edges that it holds already, and change neither which tokens nor
/// which edges are in the graph.
pub proof fn lemma_edges_are_the_offered_routes(
    oracle: spec_fn(Seq<char>) -> Option<Seq<RouteView>>,
    root: Seq<char>,
    n: nat,
)
    ensures
        forall|e: EdgeView|
            #[trigger] has_edge(run(initial_state(root), oracle, n).graph, e) ==> offered(
                oracle,
                root,
                e,
            ),
        run(initial_state(root), oracle, n).phase == Phase::Secondary || run(
            initial_state(root),
            oracle,
            n,
        ).phase == Phase::Done ==> run(initial_state(root), oracle, n).graph.tokens.to_set()
            == reach_set(oracle, root) && forall|e: EdgeView| #[trigger]
            offered(oracle, root, e) ==> has_edge(run(initial_state(root), oracle, n).graph, e),
{
    let b = run(initial_state(root), oracle, n);
    lemma_run_edges(oracle, root, n);
    if b.phase == Phase::Secondary || b.phase == Phase::Done {
        assert forall|t: Seq<char>| reach_set(oracle, root).contains(t) implies b.graph.tokens.to_set().contains(
            t,
        ) by {
            assert(reaches(oracle, root, t));
        }
        assert(b.graph.tokens.to_set() =~= reach_set(oracle, root));
    }
}

/// Where discovery answers a token only with venues that take that token
/// in, every venue of the graph takes in the token that its edge leaves.
pub proof fn lemma_built_venues_agree(
    oracle: spec_fn(Seq<char>) -> Option<Seq<RouteView>>,
    root: Seq<char>,
    n: nat,
)
    requires
        forall|t: Seq<char>, k: int| #[trigger]
            offers(oracle, t, k) ==> oracle(t).unwrap()[k].dex.coin_in_type == t,
    ensures
        run(initial_state(root), oracle, n).graph.venues_agree(),
{
    let g = run(initial_state(root), oracle, n).graph;
    lemma_edges_are_the_offered_routes(oracle, root, n);
    assert forall|i: int, j: int|
        0 <= i < g.edges.len() && 0 <= j < g.edges[i].len() implies (#[trigger] g.edges[i][j]).dex.coin_in_type
        == g.edges[i][j].from by {
        let e = g.edges[i][j];
        assert(has_edge(g, e));
        assert(offered(oracle, root, e));
        let (t, k) = choose|t: Seq<char>, k: int|
            reaches(oracle, root, t) && #[trigger] offers(oracle, t, k) && e == route_edge(
                oracle,
                t,
                k,
            );
        assert(oracle(t).unwrap()[k].dex.coin_in_type == t);
    }
}

} // verus!
