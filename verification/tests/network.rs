use arb::detect::{extract_cycle, negative_cycles};
use arb::relax::{improved_distance, relax_all, relax_once, Labels};
use arb::{HopRef, Link};

fn link(to: usize, weight: i64) -> Link {
    Link { to, weight }
}

fn hop(node: usize, slot: usize) -> HopRef {
    HopRef { node, slot }
}

fn labels(dist: Vec<Option<i128>>, pred: Vec<Option<HopRef>>) -> Labels {
    Labels { dist, pred }
}

#[test]
fn relaxation_settles_shortest_distances() {
    let net = vec![vec![link(1, 5), link(2, 9)], vec![link(2, -2)], vec![], vec![link(0, 1)]];
    let settled = relax_all(&net, 0);
    assert_eq!(settled.dist, vec![Some(0), Some(5), Some(3), None]);
    assert_eq!(settled.pred, vec![None, Some(hop(0, 0)), Some(hop(1, 0)), None]);
}

#[test]
fn relaxation_of_a_single_node_changes_nothing() {
    let net = vec![vec![]];
    let settled = relax_all(&net, 0);
    assert_eq!(settled.dist, vec![Some(0)]);
    assert_eq!(settled.pred, vec![None]);
}

#[test]
fn relaxation_stops_after_one_pass_fewer_than_nodes() {
    let net = vec![vec![link(1, -1)], vec![link(0, -1)]];
    let settled = relax_all(&net, 0);
    assert_eq!(settled.dist, vec![Some(-2), Some(-1)]);
    assert_eq!(settled.pred, vec![Some(hop(1, 0)), Some(hop(0, 0))]);
}

#[test]
fn a_node_relaxes_its_links_from_the_distance_it_had_at_its_turn() {
    let net = vec![vec![link(0, -1), link(1, 0)], vec![]];
    let settled = relax_all(&net, 0);
    assert_eq!(settled.dist, vec![Some(-1), Some(0)]);
    assert_eq!(settled.pred, vec![Some(hop(0, 0)), Some(hop(0, 1))]);
}

#[test]
fn pass_reports_whether_a_label_changed() {
    let net = vec![vec![link(1, 4)], vec![link(2, 4)], vec![]];
    let mut state = labels(vec![Some(0), None, None], vec![None, None, None]);
    assert!(relax_once(&mut state, &net));
    assert_eq!(state.dist, vec![Some(0), Some(4), Some(8)]);
    assert!(!relax_once(&mut state, &net));
    assert_eq!(state.dist, vec![Some(0), Some(4), Some(8)]);
    assert_eq!(state.pred, vec![None, Some(hop(0, 0)), Some(hop(1, 0))]);
}

#[test]
fn pass_skips_nodes_without_a_distance() {
    let net = vec![vec![], vec![link(0, -5)]];
    let mut state = labels(vec![Some(0), None], vec![None, None]);
    assert!(!relax_once(&mut state, &net));
    assert_eq!(state.dist, vec![Some(0), None]);
}

#[test]
fn improvement_is_strict() {
    let state = labels(vec![Some(0), Some(7), None], vec![None, None, None]);
    assert_eq!(improved_distance(&state, 0, link(1, 6)), Some(6));
    assert_eq!(improved_distance(&state, 0, link(1, 7)), None);
    assert_eq!(improved_distance(&state, 0, link(1, 8)), None);
    assert_eq!(improved_distance(&state, 3, link(2, 100)), Some(103));
    assert_eq!(improved_distance(&state, -3, link(0, 2)), Some(-1));
}

#[test]
fn distances_are_held_inside_their_range() {
    let state = labels(vec![Some(0), None, Some(i128::MIN)], vec![None, None, None]);
    assert_eq!(improved_distance(&state, i128::MIN + 5, link(1, -10)), Some(i128::MIN));
    assert_eq!(improved_distance(&state, i128::MAX - 1, link(1, 5)), Some(i128::MAX));
    assert_eq!(improved_distance(&state, i128::MIN + 5, link(2, -10)), None);
    assert_eq!(improved_distance(&state, i128::MIN, link(0, i64::MIN)), Some(i128::MIN));
}

#[test]
fn cycle_is_read_off_the_predecessors_in_travel_order() {
    let state = labels(
        vec![Some(-3), Some(-4), Some(-5)],
        vec![Some(hop(2, 0)), Some(hop(0, 0)), Some(hop(1, 0))],
    );
    assert_eq!(extract_cycle(&state, 0), vec![hop(0, 0), hop(1, 0), hop(2, 0)]);
    assert_eq!(extract_cycle(&state, 1), vec![hop(1, 0), hop(2, 0), hop(0, 0)]);
    assert_eq!(extract_cycle(&state, 2), vec![hop(2, 0), hop(0, 0), hop(1, 0)]);
}

#[test]
fn walk_that_does_not_close_on_its_start_gives_no_cycle() {
    let tail = labels(
        vec![Some(0), Some(0), Some(0)],
        vec![Some(hop(1, 0)), Some(hop(0, 0)), Some(hop(1, 1))],
    );
    assert_eq!(extract_cycle(&tail, 2), vec![]);
    assert_eq!(extract_cycle(&tail, 0), vec![hop(0, 0), hop(1, 0)]);
    let ends = labels(vec![Some(0), Some(0), Some(0)], vec![None, Some(hop(0, 0)), Some(hop(1, 0))]);
    assert_eq!(extract_cycle(&ends, 2), vec![]);
    assert_eq!(extract_cycle(&ends, 0), vec![]);
    let own = labels(vec![Some(0)], vec![Some(hop(0, 0))]);
    assert_eq!(extract_cycle(&own, 0), vec![]);
}

#[test]
fn negative_cycles_of_a_triangle() {
    let net = vec![vec![link(1, -5)], vec![link(2, -5)], vec![link(0, -5)]];
    assert_eq!(negative_cycles(&net, 0), vec![vec![hop(1, 0), hop(2, 0), hop(0, 0)]]);
    let heavy = vec![vec![link(1, -5)], vec![link(2, -5)], vec![link(0, 10)]];
    assert_eq!(negative_cycles(&heavy, 0), Vec::<Vec<HopRef>>::new());
}

#[test]
fn the_same_cycle_may_be_reported_more_than_once() {
    let net = vec![vec![link(1, -1)], vec![link(0, -1), link(0, -1)]];
    let found = negative_cycles(&net, 0);
    assert!(found.len() >= 1);
    for cycle in &found {
        assert_eq!(cycle.len(), 2);
        assert_eq!(net[cycle[1].node][cycle[1].slot].to, cycle[0].node);
        assert_eq!(net[cycle[0].node][cycle[0].slot].to, cycle[1].node);
    }
}
