use ontime::formulae::{Expr, Formula};
use ontime::parser::NodeAttr;
use ontime::temporal_graphs::{Edge, TemporalGraph};

// Helper: two-state graph, state 1 with a self-loop (constraint true),
// and state 0 has an edge to state 1 with constraint x >= 5.
fn create_two_state_graph() -> TemporalGraph {
    let node_count = 2;
    let node_id_map = vec![("s0".to_string(), 0), ("s1".to_string(), 1)];
    let node_attrs = vec![
        vec![NodeAttr::Owner(false), NodeAttr::Label("s0".to_string())],
        vec![NodeAttr::Owner(false), NodeAttr::Label("s1".to_string())],
    ];
    let edges = vec![
        Edge::new(1, 1, Formula::True),
        // edge from 0 to 1 with constraint x >= 5
        Edge::new(
            0,
            1,
            Formula::Ge(
                Box::new(Expr::Var("x".to_string())),
                Box::new(Expr::Const(5)),
            ),
        ),
    ];
    TemporalGraph::new(node_count, node_id_map, node_attrs, edges)
}

#[test]
fn test_two_state_successors_at_4() {
    let graph = create_two_state_graph();
    //  At time 4, state 0 cannot reach any state
    let successors: Vec<_> = graph.successors_at(0, 4);
    assert_eq!(successors, vec![]);

    //  At time 4, state 1 can reach states {1}
    let successors: Vec<_> = graph.successors_at(1, 4);
    assert_eq!(successors, vec![1]);
}

#[test]
fn test_two_state_successors_at_5() {
    let graph = create_two_state_graph();
    //  At time 5, state 0 can reach state 1 only
    let successors: Vec<_> = graph.successors_at(0, 5);
    assert_eq!(successors, vec![1]);

    //  At time 5, state 1 can reach state 1 only
    let successors: Vec<_> = graph.successors_at(1, 5);
    assert_eq!(successors, vec![1]);
}

#[test]
fn test_edge_accessors_and_availability() {
    let e = Edge::new(
        0,
        1,
        Formula::Ge(
            Box::new(Expr::Var("x".to_string())),
            Box::new(Expr::Const(5)),
        ),
    );
    assert_eq!(e.source(), 0);
    assert_eq!(e.target(), 1);
    assert!(!e.is_available(0));
    assert!(!e.is_available(4));
    assert!(e.is_available(5));
    assert!(e.is_available(6));

    let always = Edge::new_simple(1, 0);
    assert_eq!(always.source(), 1);
    assert_eq!(always.target(), 0);
    assert!(always.is_available(0));
    assert!(always.is_available(123));
}

#[test]
fn test_edge_listing_keeps_input_order() {
    let graph = create_two_state_graph();
    let all: Vec<_> = graph.edges();
    // grouped by source node: node 0's edge first, then node 1's loop
    assert_eq!(all.len(), 2);
    assert_eq!(all[0].source(), 0);
    assert_eq!(all[0].target(), 1);
    assert_eq!(all[1].source(), 1);
    assert_eq!(all[1].target(), 1);

    let from0: Vec<_> = graph.edges_from(0);
    assert_eq!(from0.len(), 1);
    assert_eq!(from0[0].target(), 1);
    // an index outside the graph has no edges
    let nowhere: Vec<_> = graph.edges_from(7);
    assert_eq!(nowhere.len(), 0);

    let avail4: Vec<_> = graph.edges_from_at(0, 4);
    assert_eq!(avail4.len(), 0);
    let avail5: Vec<_> = graph.edges_from_at(0, 5);
    assert_eq!(avail5.len(), 1);
    assert_eq!(avail5[0].target(), 1);
}

#[test]
fn test_nodes_and_ownership_defaults() {
    let node_count = 3;
    let node_id_map = vec![
        ("a".to_string(), 0),
        ("b".to_string(), 1),
        ("c".to_string(), 2),
    ];
    // node 0: player one; node 1: no owner attribute (defaults to player
    // two); node 2: two owner attributes, the last one wins
    let node_attrs = vec![
        vec![NodeAttr::Owner(true)],
        vec![NodeAttr::Label("b".to_string())],
        vec![NodeAttr::Owner(true), NodeAttr::Owner(false)],
    ];
    let graph = TemporalGraph::new(node_count, node_id_map, node_attrs, vec![]);

    assert_eq!(graph.nodes(), vec![0, 1, 2]);
    assert_eq!(graph.node_ownership(), vec![true, false, false]);
}

#[test]
fn test_id_translation_both_ways() {
    let node_count = 3;
    let node_id_map = vec![
        ("a".to_string(), 0),
        ("b".to_string(), 1),
        ("c".to_string(), 2),
    ];
    let node_attrs = vec![vec![], vec![], vec![]];
    let graph = TemporalGraph::new(node_count, node_id_map, node_attrs, vec![]);

    // an id the graph does not know is dropped without a complaint
    let ids = vec!["c".to_string(), "nope".to_string(), "a".to_string()];
    assert_eq!(
        graph.nodes_selected_from_ids(&ids),
        vec![true, false, true]
    );

    let back = graph.ids_from_nodes_vec(&[true, false, true]);
    assert_eq!(back, vec!["a".to_string(), "c".to_string()]);

    // a too-short marking vector only names the nodes it covers
    let short = graph.ids_from_nodes_vec(&[false, true]);
    assert_eq!(short, vec!["b".to_string()]);

    assert_eq!(graph.lookup_id(&"b".to_string()), Some(1));
    assert_eq!(graph.lookup_id(&"zz".to_string()), None);
}
