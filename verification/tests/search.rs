use arb::{
    Action, Args, BellmanFordPathFinder, Dex, DisplayPlan, GraphBuilder, HttpConfig, ObjectId,
    Phase, Route, SearchError,
};
use std::collections::HashMap;

fn id(n: u8) -> ObjectId {
    let mut bytes = [0u8; 32];
    bytes[31] = n;
    ObjectId::new(bytes)
}

fn route(from: &str, to: &str, n: u8, weight: i64) -> Route {
    Route {
        dex: Dex {
            coin_in_type: from.to_string(),
            coin_out_type: to.to_string(),
            protocol: "pool".to_string(),
            object_id: id(n),
        },
        weight,
        native_out: false,
    }
}

fn native(mut r: Route) -> Route {
    r.native_out = true;
    r
}

type Discovery = HashMap<String, Option<Vec<Route>>>;

fn answer_of(discovery: &Discovery, token: &str) -> Option<Vec<Route>> {
    match discovery.get(token) {
        Some(found) => found.clone(),
        None => Some(Vec::new()),
    }
}

fn build(root: &str, discovery: &Discovery) -> (GraphBuilder, Vec<String>) {
    let mut builder = GraphBuilder::new(root);
    let mut asked = Vec::new();
    loop {
        match builder.next_action() {
            Action::Discover(token) => {
                builder.answer(answer_of(discovery, &token));
                asked.push(token);
            }
            Action::Done | Action::Failed => break,
        }
        assert!(asked.len() < 1000);
    }
    (builder, asked)
}

fn find(root: &str, discovery: &Discovery, pool: Option<ObjectId>) -> Result<Vec<Vec<ObjectId>>, SearchError> {
    let mut finder = BellmanFordPathFinder::new(root);
    let mut rounds = 0;
    loop {
        match finder.next_action() {
            Action::Discover(token) => finder.answer(answer_of(discovery, &token)),
            Action::Done | Action::Failed => break,
        }
        rounds += 1;
        assert!(rounds < 1000);
    }
    let paths = finder.find_arbitrage_paths(root, pool)?;
    Ok(paths.iter().map(|p| p.path.iter().map(|d| d.object_id).collect()).collect())
}

fn triangle() -> Discovery {
    let mut d = Discovery::new();
    d.insert("A".to_string(), Some(vec![route("A", "B", 1, -500_000)]));
    d.insert("B".to_string(), Some(vec![route("B", "C", 2, -500_000)]));
    d.insert("C".to_string(), Some(vec![route("C", "A", 3, -500_000)]));
    d
}

#[test]
fn builder_starts_by_asking_about_the_root() {
    let mut builder = GraphBuilder::new("A");
    assert_eq!(builder.phase(), Phase::Primary);
    assert!(!builder.has_open_question());
    assert_eq!(builder.graph().node_count(), 1);
    match builder.next_action() {
        Action::Discover(token) => assert_eq!(token, "A"),
        other => panic!("{:?}", other),
    }
    assert!(builder.has_open_question());
    match builder.next_action() {
        Action::Discover(token) => assert_eq!(token, "A"),
        other => panic!("{:?}", other),
    }
    assert!(builder.into_graph().is_none());
}

#[test]
fn builder_ignores_an_answer_without_a_question() {
    let mut builder = GraphBuilder::new("A");
    builder.answer(Some(vec![route("A", "B", 1, -1)]));
    assert_eq!(builder.phase(), Phase::Primary);
    assert_eq!(builder.graph().node_count(), 1);
    builder.answer(None);
    assert_eq!(builder.phase(), Phase::Primary);
}

#[test]
fn traversal_is_depth_first_and_visits_each_token_once() {
    let mut d = Discovery::new();
    d.insert(
        "A".to_string(),
        Some(vec![native(route("A", "B", 1, 1)), native(route("A", "C", 2, 1))]),
    );
    d.insert("B".to_string(), Some(vec![native(route("B", "D", 3, 1))]));
    d.insert("C".to_string(), Some(vec![native(route("C", "A", 4, 1)), native(route("C", "D", 5, 1))]));
    let (builder, asked) = build("A", &d);
    assert_eq!(asked, vec!["A", "C", "D", "B", "A"]);
    assert_eq!(builder.phase(), Phase::Done);
    let graph = builder.into_graph().unwrap();
    assert_eq!(graph.node_count(), 4);
    assert_eq!(graph.position("A"), Some(0));
    assert_eq!(graph.position("B"), Some(1));
    assert_eq!(graph.position("C"), Some(2));
    assert_eq!(graph.position("D"), Some(3));
}

#[test]
fn nodes_are_the_distinct_reachable_tokens() {
    let mut d = triangle();
    d.insert("C".to_string(), Some(vec![route("C", "A", 3, 1), route("C", "B", 4, 1), route("C", "E", 5, 1)]));
    d.insert("X".to_string(), Some(vec![route("X", "Y", 6, 1)]));
    let (builder, _) = build("A", &d);
    let graph = builder.into_graph().unwrap();
    assert_eq!(graph.node_count(), 4);
    for token in ["A", "B", "C", "E"] {
        assert!(graph.contains(token));
    }
    assert!(!graph.contains("X"));
    assert!(!graph.contains("Y"));
}

#[test]
fn widening_expands_from_the_neighbours_that_are_not_native() {
    let mut d = Discovery::new();
    d.insert(
        "A".to_string(),
        Some(vec![route("A", "B", 1, 1), native(route("A", "N", 2, 1)), route("A", "C", 3, 1)]),
    );
    let (builder, asked) = build("A", &d);
    assert_eq!(asked, vec!["A", "C", "N", "B", "A", "B", "C"]);
    assert_eq!(builder.into_graph().unwrap().node_count(), 4);
}

#[test]
fn widening_appends_the_edges_of_a_token_again() {
    let mut d = Discovery::new();
    d.insert("A".to_string(), Some(vec![route("A", "B", 1, -1)]));
    d.insert("B".to_string(), Some(vec![route("B", "A", 2, -1)]));
    let (builder, asked) = build("A", &d);
    assert_eq!(asked, vec!["A", "B", "A", "B", "A"]);
    let graph = builder.into_graph().unwrap();
    assert_eq!(graph.node_count(), 2);
    let cycles = graph.find_arbitrage_opportunities("A");
    assert!(!cycles.is_empty());
    for cycle in &cycles {
        assert_eq!(cycle.len(), 2);
    }
}

#[test]
fn failed_discovery_of_a_later_token_adds_no_edges() {
    let mut d = triangle();
    d.insert("B".to_string(), None);
    let (builder, _) = build("A", &d);
    assert_eq!(builder.phase(), Phase::Done);
    let graph = builder.into_graph().unwrap();
    assert_eq!(graph.node_count(), 2);
    assert!(graph.find_arbitrage_opportunities("A").is_empty());
}

#[test]
fn failed_discovery_of_the_root_fails_the_search() {
    let mut d = Discovery::new();
    d.insert("A".to_string(), None);
    let (builder, asked) = build("A", &d);
    assert_eq!(asked, vec!["A"]);
    assert_eq!(builder.phase(), Phase::Failed);
    assert!(builder.into_graph().is_none());
    assert_eq!(find("A", &d, None), Err(SearchError::DiscoveryFailed));
}

#[test]
fn failed_widening_fails_the_search() {
    let mut builder = GraphBuilder::new("A");
    assert!(matches!(builder.next_action(), Action::Discover(_)));
    builder.answer(Some(Vec::new()));
    assert_eq!(builder.phase(), Phase::Primary);
    match builder.next_action() {
        Action::Discover(token) => assert_eq!(token, "A"),
        other => panic!("{:?}", other),
    }
    assert_eq!(builder.phase(), Phase::Widening);
    builder.answer(None);
    assert_eq!(builder.phase(), Phase::Failed);
    assert!(matches!(builder.next_action(), Action::Failed));
    assert!(builder.into_graph().is_none());
}

#[test]
fn finder_shows_the_graph_it_builds() {
    let d = triangle();
    let mut finder = BellmanFordPathFinder::new("A");
    assert_eq!(finder.graph().node_count(), 1);
    loop {
        match finder.next_action() {
            Action::Discover(token) => finder.answer(answer_of(&d, &token)),
            _ => break,
        }
    }
    assert_eq!(finder.graph().node_count(), 3);
    assert_eq!(finder.graph().edge_count(), Some(6));
}

#[test]
fn unfinished_search_has_no_paths() {
    let mut finder = BellmanFordPathFinder::new("A");
    assert!(matches!(finder.find_arbitrage_paths("A", None), Err(SearchError::Unfinished)));
    assert!(matches!(finder.next_action(), Action::Discover(_)));
    assert!(matches!(finder.find_arbitrage_paths("A", None), Err(SearchError::Unfinished)));
    finder.answer(Some(Vec::new()));
    assert!(matches!(finder.find_arbitrage_paths("A", None), Err(SearchError::Unfinished)));
}

#[test]
fn search_finds_the_triangle() {
    let found = find("A", &triangle(), None).unwrap();
    assert!(!found.is_empty());
    for path in &found {
        assert_eq!(path.len(), 3);
        let mut ids = path.clone();
        ids.sort_by_key(|i| i.bytes);
        assert_eq!(ids, vec![id(1), id(2), id(3)]);
    }
}

#[test]
fn found_paths_are_closed_trading_loops() {
    let d = triangle();
    let mut finder = BellmanFordPathFinder::new("A");
    loop {
        match finder.next_action() {
            Action::Discover(token) => finder.answer(answer_of(&d, &token)),
            _ => break,
        }
    }
    let paths = finder.find_arbitrage_paths("A", None).unwrap();
    assert!(!paths.is_empty());
    for path in &paths {
        let hops = &path.path;
        assert!(hops.len() >= 2);
        for k in 0..hops.len() - 1 {
            assert_eq!(hops[k].coin_out_type, hops[k + 1].coin_in_type);
        }
        assert_eq!(hops[hops.len() - 1].coin_out_type, hops[0].coin_in_type);
    }
}

#[test]
fn search_with_pool_returns_only_paths_through_it() {
    let mut d = triangle();
    d.insert("A".to_string(), Some(vec![route("A", "B", 1, -500_000), route("A", "D", 4, -1)]));
    d.insert("D".to_string(), Some(vec![route("D", "A", 5, -1)]));
    let all = find("A", &d, None).unwrap();
    assert!(!all.is_empty());
    for pool in [1u8, 2, 3, 4, 5] {
        let through = find("A", &d, Some(id(pool))).unwrap();
        for path in &through {
            assert!(path.contains(&id(pool)));
        }
        let expected: Vec<Vec<ObjectId>> =
            all.iter().filter(|p| p.contains(&id(pool))).cloned().collect();
        assert_eq!(through, expected);
    }
    assert!(find("A", &d, Some(id(9))).unwrap().is_empty());
}

#[test]
fn start_token_without_routes_gives_no_paths_and_no_failure() {
    let d = Discovery::new();
    assert_eq!(find("A", &d, None), Ok(Vec::new()));
    let (builder, asked) = build("A", &d);
    assert_eq!(asked, vec!["A", "A"]);
    assert_eq!(builder.phase(), Phase::Done);
    assert_eq!(builder.into_graph().unwrap().node_count(), 1);
}

#[test]
fn start_token_outside_the_graph_gives_no_paths() {
    let d = triangle();
    let mut finder = BellmanFordPathFinder::new("A");
    loop {
        match finder.next_action() {
            Action::Discover(token) => finder.answer(answer_of(&d, &token)),
            _ => break,
        }
    }
    assert!(finder.find_arbitrage_paths("Z", None).unwrap().is_empty());
    assert!(!finder.find_arbitrage_paths("B", None).unwrap().is_empty());
}

#[test]
fn repeated_search_gives_the_same_paths() {
    let d = triangle();
    let mut first = find("A", &d, None).unwrap();
    let mut second = find("A", &d, None).unwrap();
    assert_eq!(first, second);
    first.sort_by_key(|p| p.iter().map(|i| i.bytes).collect::<Vec<_>>());
    second.sort_by_key(|p| p.iter().map(|i| i.bytes).collect::<Vec<_>>());
    assert_eq!(first, second);
}

#[test]
fn display_plan_shows_at_most_max_paths() {
    let args = Args {
        start_token: "A".to_string(),
        pool_id: None,
        max_paths: 10,
        http_config: HttpConfig { rpc_url: "http://localhost:9000".to_string(), ipc_path: None },
    };
    assert_eq!(args.display_plan(0), DisplayPlan { shown: 0, hidden: 0 });
    assert_eq!(args.display_plan(3), DisplayPlan { shown: 3, hidden: 0 });
    assert_eq!(args.display_plan(10), DisplayPlan { shown: 10, hidden: 0 });
    assert_eq!(args.display_plan(25), DisplayPlan { shown: 10, hidden: 15 });
    let none = Args { max_paths: 0, ..args.clone() };
    assert_eq!(none.display_plan(4), DisplayPlan { shown: 0, hidden: 4 });
    assert_eq!(args.clone().http_config.rpc_url, "http://localhost:9000");
}
