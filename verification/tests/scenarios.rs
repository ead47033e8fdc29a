use bv_graph::graph::DiGraph;
use bv_graph::reachability::{
    actionable_nodes, is_actionable, open_blocker_count, reachable_from, reachable_to,
};
use bv_graph::topo::{is_dag, topological_sort};

fn diamond() -> DiGraph {
    // a=0 -> b=1, a -> c=2, b -> d=3, c -> d
    let mut g = DiGraph::new();
    let a = g.add_node("a".to_string());
    let b = g.add_node("b".to_string());
    let c = g.add_node("c".to_string());
    let d = g.add_node("d".to_string());
    g.add_edge(a, b);
    g.add_edge(a, c);
    g.add_edge(b, d);
    g.add_edge(c, d);
    g
}

#[test]
fn test_diamond_scenario() {
    let g = diamond();
    assert_eq!(topological_sort(&g), Some(vec![0, 1, 2, 3]));

    let mut from_a = reachable_from(&g, 0);
    from_a.sort();
    assert_eq!(from_a, vec![0, 1, 2, 3]);

    let mut to_d = reachable_to(&g, 3);
    to_d.sort();
    assert_eq!(to_d, vec![0, 1, 2, 3]);

    let closed = vec![true, false, false, false];
    assert_eq!(actionable_nodes(&g, &closed), vec![1, 2]);
    assert_eq!(open_blocker_count(&g, 3, &closed), 2);
}

#[test]
fn test_cycle_scenario() {
    // a=0 -> b=1 -> c=2 -> a
    let mut g = DiGraph::new();
    let a = g.add_node("a".to_string());
    let b = g.add_node("b".to_string());
    let c = g.add_node("c".to_string());
    g.add_edge(a, b);
    g.add_edge(b, c);
    g.add_edge(c, a);

    assert!(topological_sort(&g).is_none());
    assert!(!is_dag(&g));

    let mut from_a = reachable_from(&g, 0);
    from_a.sort();
    assert_eq!(from_a, vec![0, 1, 2]);

    let mut to_a = reachable_to(&g, 0);
    to_a.sort();
    assert_eq!(to_a, vec![0, 1, 2]);
}

#[test]
fn test_reachable_to_equals_from_on_reversed() {
    // The backward closure of the diamond equals the forward closure on
    // the diamond with every edge reversed.
    let g = diamond();
    let mut rev = DiGraph::new();
    for label in ["a", "b", "c", "d"] {
        rev.add_node(label.to_string());
    }
    rev.add_edge(1, 0);
    rev.add_edge(2, 0);
    rev.add_edge(3, 1);
    rev.add_edge(3, 2);

    for node in 0..4 {
        assert_eq!(reachable_to(&g, node), reachable_from(&rev, node));
    }
}

#[test]
fn test_actionable_nodes_idempotent() {
    let g = diamond();
    let closed = vec![true, true, false, false];
    let first = actionable_nodes(&g, &closed);
    let second = actionable_nodes(&g, &closed);
    let third = actionable_nodes(&g, &closed);
    assert_eq!(first, second);
    assert_eq!(second, third);
}

#[test]
fn test_open_blocker_count_monotone() {
    let g = diamond();
    let smaller = vec![false, true, false, false];
    let larger = vec![true, true, false, true];
    for node in 0..4 {
        assert!(open_blocker_count(&g, node, &larger) <= open_blocker_count(&g, node, &smaller));
    }
}

#[test]
fn test_short_closed_set_defaults_open() {
    // A closed set shorter than the node count treats absent entries as
    // not closed.
    let mut g = DiGraph::new();
    let a = g.add_node("a".to_string());
    let b = g.add_node("b".to_string());
    g.add_edge(a, b);

    let closed = vec![true];
    assert_eq!(actionable_nodes(&g, &closed), vec![b]);
    assert_eq!(open_blocker_count(&g, b, &closed), 0);
    let empty: Vec<bool> = Vec::new();
    assert_eq!(actionable_nodes(&g, &empty), vec![a]);
    assert_eq!(open_blocker_count(&g, b, &empty), 1);
}

#[test]
fn test_is_actionable_out_of_range_is_false() {
    // An out-of-range index on an actionability query yields a false
    // result rather than an error.
    let mut g = DiGraph::new();
    let a = g.add_node("a".to_string());

    let closed = vec![true];
    assert!(is_actionable(&g, a, &closed));
    assert!(!is_actionable(&g, 1, &closed));
    assert!(!is_actionable(&g, 999, &closed));
}

#[test]
fn test_store_accessors() {
    let mut g = DiGraph::new();
    assert_eq!(g.len(), 0);
    let a = g.add_node("a".to_string());
    let b = g.add_node("b".to_string());
    assert_eq!((a, b), (0, 1));
    assert_eq!(g.len(), 2);
    g.add_edge(a, b);
    g.add_edge(a, b);
    g.add_edge(b, b);

    assert_eq!(g.successors_slice(a), vec![b, b]);
    assert_eq!(g.predecessors_slice(b), vec![a, a, b]);
    assert_eq!(g.out_degree(a), 2);
    assert_eq!(g.in_degree(b), 3);
    assert_eq!(g.in_degree(a), 0);
    // Out-of-range queries degrade to empty results
    assert!(g.successors_slice(9).is_empty());
    assert!(g.predecessors_slice(9).is_empty());
    assert_eq!(g.in_degree(9), 0);
    assert_eq!(g.out_degree(9), 0);
}

#[test]
fn test_bfs_discovery_order() {
    // Breadth-first order: the source first, then its neighbours in
    // insertion order, then theirs.
    let mut g = DiGraph::new();
    for label in ["a", "b", "c", "d", "e"] {
        g.add_node(label.to_string());
    }
    g.add_edge(0, 3);
    g.add_edge(0, 1);
    g.add_edge(1, 4);
    g.add_edge(3, 2);

    assert_eq!(reachable_from(&g, 0), vec![0, 3, 1, 2, 4]);
}
