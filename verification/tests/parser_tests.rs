use ontime::formulae::{Expr, Formula};
use ontime::game::reachable_at;
use ontime::parser::{temporal_graph_from_lines, NodeAttr, ParsedLine};

#[test]
fn test_graph_from_lines_basic() {
    let lines = vec![
        ParsedLine::Node("s0".to_string(), vec![NodeAttr::Owner(false)]),
        ParsedLine::Empty,
        ParsedLine::Node("s1".to_string(), vec![NodeAttr::Owner(true)]),
        ParsedLine::Edge("s0".to_string(), "s0".to_string(), None),
        ParsedLine::Edge(
            "s0".to_string(),
            "s1".to_string(),
            Some(Formula::Ge(
                Box::new(Expr::Var("x".to_string())),
                Box::new(Expr::Const(5)),
            )),
        ),
        ParsedLine::Edge("s1".to_string(), "s1".to_string(), None),
    ];
    let graph = temporal_graph_from_lines(lines);

    assert_eq!(graph.node_count, 2);
    assert_eq!(graph.lookup_id(&"s0".to_string()), Some(0));
    assert_eq!(graph.lookup_id(&"s1".to_string()), Some(1));
    assert_eq!(graph.node_ownership(), vec![false, true]);

    // the edge without a constraint is always available
    assert_eq!(graph.successors_at(0, 0), vec![0]);
    // the constrained edge opens at time 5
    assert_eq!(graph.successors_at(0, 5), vec![0, 1]);
    assert_eq!(graph.successors_at(1, 3), vec![1]);
}

#[test]
fn test_graph_from_lines_repeated_node_line() {
    // a later node line with the same id keeps the index and replaces the
    // attributes
    let lines = vec![
        ParsedLine::Node("a".to_string(), vec![NodeAttr::Owner(true)]),
        ParsedLine::Node("b".to_string(), vec![]),
        ParsedLine::Node("a".to_string(), vec![NodeAttr::Owner(false)]),
    ];
    let graph = temporal_graph_from_lines(lines);
    assert_eq!(graph.node_count, 2);
    assert_eq!(graph.lookup_id(&"a".to_string()), Some(0));
    assert_eq!(graph.lookup_id(&"b".to_string()), Some(1));
    assert_eq!(graph.node_ownership(), vec![false, false]);
}

#[test]
fn test_graph_from_lines_solves() {
    // the assembled graph plays like the hand-built two-state example
    let lines = vec![
        ParsedLine::Node("s0".to_string(), vec![NodeAttr::Owner(false)]),
        ParsedLine::Node("s1".to_string(), vec![NodeAttr::Owner(false)]),
        ParsedLine::Edge("s0".to_string(), "s0".to_string(), None),
        ParsedLine::Edge("s1".to_string(), "s1".to_string(), None),
        ParsedLine::Edge(
            "s0".to_string(),
            "s1".to_string(),
            Some(Formula::Ge(
                Box::new(Expr::Var("x".to_string())),
                Box::new(Expr::Const(5)),
            )),
        ),
    ];
    let graph = temporal_graph_from_lines(lines);
    let target = graph.nodes_selected_from_ids(&vec!["s1".to_string()]);
    assert_eq!(target, vec![false, true]);

    assert_eq!(reachable_at(&graph, 5, false, &target), vec![false, true]);
    assert_eq!(reachable_at(&graph, 6, false, &target), vec![true, true]);
    assert_eq!(reachable_at(&graph, 7, true, &target), vec![false, true]);
}
