use ontime::formulae::{Expr, Formula};
use ontime::game::reachable_at;
use ontime::parser::NodeAttr;
use ontime::temporal_graphs::{Edge, TemporalGraph};

// Helper function to create a single-state graph owned by player 0 with a
// self-loop. Creates: s0 (player 0) with a self-loop edge that is always
// available (constraint "true").
fn create_self_loop() -> TemporalGraph {
    let node_count = 1;
    let node_id_map = vec![("s0".to_string(), 0)];
    let node_attrs = vec![vec![
        NodeAttr::Owner(false),
        NodeAttr::Label("s0".to_string()),
    ]];
    let edges = vec![Edge::new(0, 0, Formula::True)];
    TemporalGraph::new(node_count, node_id_map, node_attrs, edges)
}

// Helper: two-state graph, both with self-loops (constraint true), and
// state 0 has an edge to state 1 with constraint x >= 5.
fn create_two_state_graph() -> TemporalGraph {
    let node_count = 2;
    let node_id_map = vec![("s0".to_string(), 0), ("s1".to_string(), 1)];
    let node_attrs = vec![
        vec![NodeAttr::Owner(false), NodeAttr::Label("s0".to_string())],
        vec![NodeAttr::Owner(false), NodeAttr::Label("s1".to_string())],
    ];
    let edges = vec![
        // self-loops
        Edge::new(0, 0, Formula::True),
        Edge::new(1, 1, Formula::True),
        // edge from 0 to 1 with constraint x >= 5
        Edge::new(
            0,
            1,
            Formula::Ge(
                Box::new(Expr::Var("x".to_string())),
                Box::new(Expr::Const(5)),
            ),
        ),
    ];
    TemporalGraph::new(node_count, node_id_map, node_attrs, edges)
}

#[test]
fn test_self_loop_0() {
    let graph = create_self_loop();

    // Target the single state (node 0) at time 0
    let target = vec![true]; // node 0 is the target
    let k = 0;

    assert_eq!(reachable_at(&graph, k, true, &target), vec![true]);
    assert_eq!(reachable_at(&graph, k, false, &target), vec![true]);
}

#[test]
fn test_self_loop_1() {
    let graph = create_self_loop();

    // Target the single state (node 0) at time 0
    let target = vec![true]; // node 0 is the target
    let k = 1;

    assert_eq!(reachable_at(&graph, k, true, &target), vec![true]);
    assert_eq!(reachable_at(&graph, k, false, &target), vec![true]);
}

#[test]
fn test_two_state_reachability() {
    let graph = create_two_state_graph();

    // Let state 1 be the only target
    let target = vec![false, true];

    // assume perspective of player false
    let reacher = false;

    // player false can force to reach the target at time 0 only from the target
    assert_eq!(reachable_at(&graph, 0, reacher, &target), vec![false, true]);
    // player false can force to reach the target at times 1-4 only from the target
    assert_eq!(reachable_at(&graph, 1, reacher, &target), vec![false, true]);
    assert_eq!(reachable_at(&graph, 2, reacher, &target), vec![false, true]);
    assert_eq!(reachable_at(&graph, 3, reacher, &target), vec![false, true]);
    assert_eq!(reachable_at(&graph, 4, reacher, &target), vec![false, true]);

    // player false can force to reach the target at time 5 only from the
    // target, because it would have to take the edge 0 --> 1 at time 4;
    // it is only available from time 5 onwards.
    assert_eq!(reachable_at(&graph, 5, reacher, &target), vec![false, true]);

    // player false CAN force to reach the target at time 6 and later
    // from states 1 (target) AND 0
    // (by waiting at 0 and then taking edge 0 --> 1 at time 5)
    assert_eq!(reachable_at(&graph, 6, reacher, &target), vec![true, true]);
    assert_eq!(reachable_at(&graph, 7, reacher, &target), vec![true, true]);

    // player !reacher == true (the opponent here) can force to reach the
    // target only from the target, no matter when, because she does not
    // control the edges (owns state 0 in particular)
    assert_eq!(
        reachable_at(&graph, 7, !reacher, &target),
        vec![false, true]
    );
}

#[test]
fn test_self_loop_all_horizons_both_players() {
    // a node with an always-available self-loop keeps its target status
    // at every horizon, whichever player computes the region
    let graph = create_self_loop();
    let target = vec![true];
    for k in 0..=5 {
        assert_eq!(reachable_at(&graph, k, true, &target), vec![true]);
        assert_eq!(reachable_at(&graph, k, false, &target), vec![true]);
    }
}

#[test]
fn test_no_move_is_a_loss_not_a_vacuous_win() {
    // node 0 belongs to player two (false) and has no outgoing edge at
    // all; even with every node in the target set, it is losing one step
    // before the horizon for both roles: the universal attractor is not
    // vacuously true, and the existential one has no move to pick.
    let node_count = 2;
    let node_id_map = vec![("s0".to_string(), 0), ("s1".to_string(), 1)];
    let node_attrs = vec![vec![NodeAttr::Owner(false)], vec![NodeAttr::Owner(false)]];
    let edges = vec![Edge::new(1, 1, Formula::True)];
    let graph = TemporalGraph::new(node_count, node_id_map, node_attrs, edges);

    let target = vec![true, true];
    // at horizon 0 the target comes back unchanged
    assert_eq!(reachable_at(&graph, 0, true, &target), vec![true, true]);
    // one step earlier the edgeless node is losing for either role
    assert_eq!(reachable_at(&graph, 1, true, &target), vec![false, true]);
    assert_eq!(reachable_at(&graph, 1, false, &target), vec![false, true]);
}

#[test]
fn test_edge_with_rejected_constraint_is_never_usable() {
    // an edge whose constraint has a quantifier is treated as permanently
    // unavailable; the rest of the graph still works
    let node_count = 2;
    let node_id_map = vec![("a".to_string(), 0), ("b".to_string(), 1)];
    let node_attrs = vec![vec![NodeAttr::Owner(true)], vec![NodeAttr::Owner(true)]];
    let bad = Formula::Exists(
        "y".to_string(),
        Box::new(Formula::Eq(
            Box::new(Expr::Var("y".to_string())),
            Box::new(Expr::Const(0)),
        )),
    );
    let edges = vec![Edge::new(0, 1, bad), Edge::new(1, 1, Formula::True)];
    let graph = TemporalGraph::new(node_count, node_id_map, node_attrs, edges);

    let target = vec![false, true];
    // player true owns node 0 but its only edge never becomes available
    assert_eq!(reachable_at(&graph, 3, true, &target), vec![false, true]);
}
