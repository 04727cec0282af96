use arb::{ArbitrageGraph, BellmanFordPathFinder, Dex, Edge, Node, ObjectId, Path};

fn id(n: u8) -> ObjectId {
    let mut bytes = [0u8; 32];
    bytes[31] = n;
    ObjectId::new(bytes)
}

fn dex(from: &str, to: &str, n: u8) -> Dex {
    Dex {
        coin_in_type: from.to_string(),
        coin_out_type: to.to_string(),
        protocol: "pool".to_string(),
        object_id: id(n),
    }
}

fn link(g: &mut ArbitrageGraph, from: &str, to: &str, n: u8, weight: i64) {
    g.add_edge(from, dex(from, to, n), weight);
}

fn weight_of(cycle: &[Edge]) -> i128 {
    cycle.iter().map(|e| e.weight as i128).sum()
}

fn tokens_of(cycle: &[Edge]) -> Vec<String> {
    cycle.iter().map(|e| e.from.token_type.clone()).collect()
}

fn is_closed_chain(cycle: &[Edge]) -> bool {
    let n = cycle.len();
    n >= 2
        && cycle[0].from.token_type == cycle[n - 1].to.token_type
        && (0..n - 1).all(|k| cycle[k].to.token_type == cycle[k + 1].from.token_type)
}

fn triangle() -> ArbitrageGraph {
    let mut g = ArbitrageGraph::new();
    link(&mut g, "A", "B", 1, -500_000);
    link(&mut g, "B", "C", 2, -500_000);
    link(&mut g, "C", "A", 3, -500_000);
    g
}

#[test]
fn new_graph_is_empty() {
    let g = ArbitrageGraph::new();
    assert_eq!(g.node_count(), 0);
    assert!(!g.contains("A"));
    assert_eq!(g.position("A"), None);
    assert!(g.find_arbitrage_opportunities("A").is_empty());
}

#[test]
fn add_node_does_not_duplicate() {
    let mut g = ArbitrageGraph::new();
    assert_eq!(g.add_node("A"), 0);
    assert_eq!(g.add_node("B"), 1);
    assert_eq!(g.add_node("A"), 0);
    assert_eq!(g.node_count(), 2);
    assert_eq!(g.position("B"), Some(1));
    assert!(g.contains("A"));
    assert!(!g.contains("C"));
}

#[test]
fn add_edge_creates_both_nodes() {
    let mut g = ArbitrageGraph::new();
    link(&mut g, "A", "B", 1, 7);
    assert_eq!(g.node_count(), 2);
    assert_eq!(g.position("A"), Some(0));
    assert_eq!(g.position("B"), Some(1));
    link(&mut g, "B", "A", 2, 7);
    assert_eq!(g.node_count(), 2);
}

#[test]
fn three_node_cycle_is_found_once() {
    let g = triangle();
    let cycles = g.find_arbitrage_opportunities("A");
    assert_eq!(cycles.len(), 1);
    let cycle = &cycles[0];
    assert_eq!(cycle.len(), 3);
    assert_eq!(weight_of(cycle), -1_500_000);
    assert!(is_closed_chain(cycle));
    assert_eq!(tokens_of(cycle), vec!["B", "C", "A"]);
    assert_eq!(cycle[0].dex.object_id, id(2));
    assert_eq!(cycle[1].dex.object_id, id(3));
    assert_eq!(cycle[2].dex.object_id, id(1));
}

#[test]
fn reported_cycles_are_closed_and_negative() {
    let mut g = triangle();
    link(&mut g, "A", "D", 4, -3);
    link(&mut g, "D", "A", 5, 2);
    link(&mut g, "C", "D", 6, -10);
    for start in ["A", "B", "C", "D"] {
        for cycle in g.find_arbitrage_opportunities(start) {
            assert!(is_closed_chain(&cycle));
            assert!(weight_of(&cycle) < 0);
        }
    }
    assert!(!g.find_arbitrage_opportunities("A").is_empty());
}

#[test]
fn no_negative_cycle_gives_nothing() {
    let mut g = ArbitrageGraph::new();
    link(&mut g, "A", "B", 1, -5);
    link(&mut g, "B", "C", 2, -5);
    link(&mut g, "C", "A", 3, 10);
    link(&mut g, "A", "C", 4, 1);
    assert!(g.find_arbitrage_opportunities("A").is_empty());
    assert!(g.find_arbitrage_opportunities("B").is_empty());
    assert!(g.find_arbitrage_opportunities("C").is_empty());
}

#[test]
fn positive_cycle_gives_nothing() {
    let mut g = ArbitrageGraph::new();
    link(&mut g, "A", "B", 1, 1);
    link(&mut g, "B", "A", 2, 1);
    assert!(g.find_arbitrage_opportunities("A").is_empty());
}

#[test]
fn unreachable_negative_cycle_gives_nothing() {
    let mut g = ArbitrageGraph::new();
    link(&mut g, "A", "B", 1, 1);
    link(&mut g, "C", "D", 2, -1);
    link(&mut g, "D", "C", 3, -1);
    assert!(g.find_arbitrage_opportunities("A").is_empty());
    assert!(!g.find_arbitrage_opportunities("C").is_empty());
}

#[test]
fn two_node_cycle_is_found() {
    let mut g = ArbitrageGraph::new();
    link(&mut g, "A", "B", 1, -1);
    link(&mut g, "B", "A", 2, -1);
    let cycles = g.find_arbitrage_opportunities("A");
    assert_eq!(cycles.len(), 1);
    assert_eq!(cycles[0].len(), 2);
    assert_eq!(weight_of(&cycles[0]), -2);
    assert!(is_closed_chain(&cycles[0]));
}

#[test]
fn self_loop_alone_is_not_reported() {
    let mut g = ArbitrageGraph::new();
    link(&mut g, "A", "A", 1, -1);
    link(&mut g, "A", "B", 2, 1);
    assert!(g.find_arbitrage_opportunities("A").is_empty());
}

#[test]
fn two_disjoint_cycles_are_both_found() {
    let mut g = ArbitrageGraph::new();
    link(&mut g, "S", "A", 1, 0);
    link(&mut g, "S", "C", 2, 0);
    link(&mut g, "A", "B", 3, -1);
    link(&mut g, "B", "A", 4, -1);
    link(&mut g, "C", "D", 5, -2);
    link(&mut g, "D", "C", 6, -2);
    let cycles = g.find_arbitrage_opportunities("S");
    assert!(cycles.len() >= 2);
    let mut seen: Vec<Vec<String>> = Vec::new();
    for cycle in &cycles {
        assert!(is_closed_chain(cycle));
        assert!(weight_of(cycle) < 0);
        let mut names = tokens_of(cycle);
        names.sort();
        if !seen.contains(&names) {
            seen.push(names);
        }
    }
    assert!(seen.contains(&vec!["A".to_string(), "B".to_string()]));
    assert!(seen.contains(&vec!["C".to_string(), "D".to_string()]));
}

#[test]
fn unknown_start_token_gives_nothing() {
    let g = triangle();
    assert!(g.find_arbitrage_opportunities("Z").is_empty());
}

#[test]
fn start_without_outgoing_edges_gives_nothing() {
    let mut g = triangle();
    link(&mut g, "A", "E", 4, -1);
    assert!(g.find_arbitrage_opportunities("E").is_empty());
    assert!(BellmanFordPathFinder::search(&g, "E", None).is_empty());
}

#[test]
fn detection_is_repeatable() {
    let g = triangle();
    let first = g.find_arbitrage_opportunities("A");
    let second = g.find_arbitrage_opportunities("A");
    assert_eq!(first.len(), second.len());
    for (a, b) in first.iter().zip(second.iter()) {
        assert_eq!(tokens_of(a), tokens_of(b));
        assert_eq!(weight_of(a), weight_of(b));
    }
}

#[test]
fn extreme_negative_weights_do_not_wrap() {
    let mut g = ArbitrageGraph::new();
    link(&mut g, "A", "B", 1, i64::MIN);
    link(&mut g, "B", "A", 2, i64::MIN);
    let cycles = g.find_arbitrage_opportunities("A");
    assert_eq!(cycles.len(), 1);
    assert!(is_closed_chain(&cycles[0]));
    assert_eq!(weight_of(&cycles[0]), 2 * (i64::MIN as i128));
}

#[test]
fn extreme_positive_weights_do_not_wrap() {
    let mut g = ArbitrageGraph::new();
    link(&mut g, "A", "B", 1, i64::MAX);
    link(&mut g, "B", "C", 2, i64::MAX);
    link(&mut g, "C", "A", 3, i64::MAX);
    assert!(g.find_arbitrage_opportunities("A").is_empty());
    link(&mut g, "C", "D", 4, -1);
    link(&mut g, "D", "C", 5, -1);
    let cycles = g.find_arbitrage_opportunities("A");
    assert_eq!(cycles.len(), 1);
    assert_eq!(tokens_of(&cycles[0]), vec!["D", "C"]);
    assert_eq!(weight_of(&cycles[0]), -2);
}

#[test]
fn edge_count_adds_up_all_lists() {
    let mut g = ArbitrageGraph::new();
    assert_eq!(g.edge_count(), Some(0));
    g.add_node("A");
    assert_eq!(g.edge_count(), Some(0));
    link(&mut g, "A", "B", 1, 1);
    link(&mut g, "A", "B", 1, 1);
    link(&mut g, "B", "C", 2, 1);
    assert_eq!(g.edge_count(), Some(3));
    assert_eq!(g.node_count(), 3);
}

#[test]
fn cycle_to_path_keeps_the_venues_in_order() {
    let g = triangle();
    let cycles = g.find_arbitrage_opportunities("A");
    let path = g.cycle_to_path(&cycles[0]);
    let ids: Vec<ObjectId> = path.path.iter().map(|d| d.object_id).collect();
    assert_eq!(ids, vec![id(2), id(3), id(1)]);
    for k in 0..3 {
        assert_eq!(path.path[k].coin_in_type, cycles[0][k].from.token_type);
        assert_eq!(path.path[k].coin_out_type, cycles[0][k].to.token_type);
    }
    let empty = g.cycle_to_path(&Vec::new());
    assert!(empty.path.is_empty());
}

#[test]
fn path_contains_pool_only_for_its_hops() {
    let path = Path::new(vec![dex("A", "B", 1), dex("B", "A", 2)]);
    assert!(path.contains_pool(&id(1)));
    assert!(path.contains_pool(&id(2)));
    assert!(!path.contains_pool(&id(3)));
    assert!(!Path::new(Vec::new()).contains_pool(&id(1)));
}

#[test]
fn search_filters_by_pool() {
    let g = triangle();
    let all = BellmanFordPathFinder::search(&g, "A", None);
    assert_eq!(all.len(), 1);
    assert_eq!(all[0].path.len(), 3);
    let through = BellmanFordPathFinder::search(&g, "A", Some(id(3)));
    assert_eq!(through.len(), 1);
    assert!(through[0].contains_pool(&id(3)));
    let none = BellmanFordPathFinder::search(&g, "A", Some(id(9)));
    assert!(none.is_empty());
}

#[test]
fn nodes_and_object_ids_compare_by_value() {
    let a = Node { token_type: "A".to_string() };
    let b = Node { token_type: "A".to_string() };
    let c = Node { token_type: "C".to_string() };
    assert!(a == b);
    assert!(a != c);
    assert!(a.clone() == a);
    assert!(id(1) == id(1));
    assert!(id(1) != id(2));
    let mut bytes = [0u8; 32];
    bytes[0] = 1;
    assert!(ObjectId::new(bytes) != id(1));
}
