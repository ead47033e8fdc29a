use bv_graph::graph::DiGraph;
use bv_graph::reachability::{
    actionable_nodes, blockers, dependents, is_actionable, open_blocker_count, open_blockers,
    reachable_from, reachable_to,
};

#[test]
fn test_reachable_from_empty() {
    let graph = DiGraph::new();
    assert!(reachable_from(&graph, 0).is_empty());
}

#[test]
fn test_reachable_from_single() {
    let mut graph = DiGraph::new();
    let a = graph.add_node("a".to_string());
    let result = reachable_from(&graph, a);
    assert_eq!(result, vec![a]);
}

#[test]
fn test_reachable_from_chain() {
    // a -> b -> c -> d
    let mut graph = DiGraph::new();
    let a = graph.add_node("a".to_string());
    let b = graph.add_node("b".to_string());
    let c = graph.add_node("c".to_string());
    let d = graph.add_node("d".to_string());
    graph.add_edge(a, b);
    graph.add_edge(b, c);
    graph.add_edge(c, d);

    let from_a = reachable_from(&graph, a);
    assert_eq!(from_a.len(), 4);
    assert!(from_a.contains(&a));
    assert!(from_a.contains(&b));
    assert!(from_a.contains(&c));
    assert!(from_a.contains(&d));

    let from_c = reachable_from(&graph, c);
    assert_eq!(from_c.len(), 2);
    assert!(from_c.contains(&c));
    assert!(from_c.contains(&d));
}

#[test]
fn test_reachable_from_diamond() {
    //     a
    //    / \
    //   b   c
    //    \ /
    //     d
    let mut graph = DiGraph::new();
    let a = graph.add_node("a".to_string());
    let b = graph.add_node("b".to_string());
    let c = graph.add_node("c".to_string());
    let d = graph.add_node("d".to_string());
    graph.add_edge(a, b);
    graph.add_edge(a, c);
    graph.add_edge(b, d);
    graph.add_edge(c, d);

    let from_a = reachable_from(&graph, a);
    assert_eq!(from_a.len(), 4);

    let from_b = reachable_from(&graph, b);
    assert_eq!(from_b.len(), 2);
    assert!(from_b.contains(&b));
    assert!(from_b.contains(&d));
}

#[test]
fn test_reachable_to_chain() {
    // a -> b -> c -> d
    let mut graph = DiGraph::new();
    let a = graph.add_node("a".to_string());
    let b = graph.add_node("b".to_string());
    let c = graph.add_node("c".to_string());
    let d = graph.add_node("d".to_string());
    graph.add_edge(a, b);
    graph.add_edge(b, c);
    graph.add_edge(c, d);

    let to_d = reachable_to(&graph, d);
    assert_eq!(to_d.len(), 4);
    assert!(to_d.contains(&a));
    assert!(to_d.contains(&b));
    assert!(to_d.contains(&c));
    assert!(to_d.contains(&d));

    let to_b = reachable_to(&graph, b);
    assert_eq!(to_b.len(), 2);
    assert!(to_b.contains(&a));
    assert!(to_b.contains(&b));
}

#[test]
fn test_reachable_to_diamond() {
    //     a
    //    / \
    //   b   c
    //    \ /
    //     d
    let mut graph = DiGraph::new();
    let a = graph.add_node("a".to_string());
    let b = graph.add_node("b".to_string());
    let c = graph.add_node("c".to_string());
    let d = graph.add_node("d".to_string());
    graph.add_edge(a, b);
    graph.add_edge(a, c);
    graph.add_edge(b, d);
    graph.add_edge(c, d);

    let to_d = reachable_to(&graph, d);
    assert_eq!(to_d.len(), 4);

    let to_c = reachable_to(&graph, c);
    assert_eq!(to_c.len(), 2);
    assert!(to_c.contains(&a));
    assert!(to_c.contains(&c));
}

#[test]
fn test_reachable_invalid_node() {
    let mut graph = DiGraph::new();
    graph.add_node("a".to_string());
    assert!(reachable_from(&graph, 999).is_empty());
    assert!(reachable_to(&graph, 999).is_empty());
}

#[test]
fn test_blockers_and_dependents() {
    // a -> c, b -> c (c has two blockers)
    let mut graph = DiGraph::new();
    let a = graph.add_node("a".to_string());
    let b = graph.add_node("b".to_string());
    let c = graph.add_node("c".to_string());
    graph.add_edge(a, c);
    graph.add_edge(b, c);

    let c_blockers = blockers(&graph, c);
    assert_eq!(c_blockers.len(), 2);
    assert!(c_blockers.contains(&a));
    assert!(c_blockers.contains(&b));

    let a_dependents = dependents(&graph, a);
    assert_eq!(a_dependents, vec![c]);
}

#[test]
fn test_is_actionable() {
    // a -> b -> c
    let mut graph = DiGraph::new();
    let a = graph.add_node("a".to_string());
    let b = graph.add_node("b".to_string());
    let c = graph.add_node("c".to_string());
    graph.add_edge(a, b);
    graph.add_edge(b, c);

    // Nothing closed: only a is actionable (no blockers)
    let closed_none = vec![false, false, false];
    assert!(is_actionable(&graph, a, &closed_none));
    assert!(!is_actionable(&graph, b, &closed_none));
    assert!(!is_actionable(&graph, c, &closed_none));

    // a closed: b becomes actionable
    let closed_a = vec![true, false, false];
    assert!(is_actionable(&graph, b, &closed_a));
    assert!(!is_actionable(&graph, c, &closed_a));

    // a and b closed: c becomes actionable
    let closed_ab = vec![true, true, false];
    assert!(is_actionable(&graph, c, &closed_ab));
}

#[test]
fn test_actionable_nodes() {
    //     a
    //    / \
    //   b   c
    //    \ /
    //     d
    let mut graph = DiGraph::new();
    let a = graph.add_node("a".to_string());
    let b = graph.add_node("b".to_string());
    let c = graph.add_node("c".to_string());
    let d = graph.add_node("d".to_string());
    graph.add_edge(a, b);
    graph.add_edge(a, c);
    graph.add_edge(b, d);
    graph.add_edge(c, d);

    // Nothing closed: only a is actionable
    let closed_none = vec![false, false, false, false];
    let actionable = actionable_nodes(&graph, &closed_none);
    assert_eq!(actionable, vec![a]);

    // a closed: b and c become actionable
    let closed_a = vec![true, false, false, false];
    let actionable = actionable_nodes(&graph, &closed_a);
    assert_eq!(actionable.len(), 2);
    assert!(actionable.contains(&b));
    assert!(actionable.contains(&c));

    // a, b, c closed: d becomes actionable
    let closed_abc = vec![true, true, true, false];
    let actionable = actionable_nodes(&graph, &closed_abc);
    assert_eq!(actionable, vec![d]);
}

#[test]
fn test_open_blockers() {
    // a -> c, b -> c
    let mut graph = DiGraph::new();
    let a = graph.add_node("a".to_string());
    let b = graph.add_node("b".to_string());
    let c = graph.add_node("c".to_string());
    graph.add_edge(a, c);
    graph.add_edge(b, c);

    // Nothing closed: c has 2 open blockers
    let closed_none = vec![false, false, false];
    let open = open_blockers(&graph, c, &closed_none);
    assert_eq!(open.len(), 2);
    assert!(open.contains(&a));
    assert!(open.contains(&b));

    // a closed: c has 1 open blocker (b)
    let closed_a = vec![true, false, false];
    let open = open_blockers(&graph, c, &closed_a);
    assert_eq!(open, vec![b]);

    // Both closed: c has 0 open blockers
    let closed_ab = vec![true, true, false];
    let open = open_blockers(&graph, c, &closed_ab);
    assert!(open.is_empty());
}

#[test]
fn test_open_blocker_count() {
    // a -> c, b -> c
    let mut graph = DiGraph::new();
    let a = graph.add_node("a".to_string());
    let b = graph.add_node("b".to_string());
    let c = graph.add_node("c".to_string());
    graph.add_edge(a, c);
    graph.add_edge(b, c);

    let closed_none = vec![false, false, false];
    assert_eq!(open_blocker_count(&graph, c, &closed_none), 2);

    let closed_a = vec![true, false, false];
    assert_eq!(open_blocker_count(&graph, c, &closed_a), 1);

    let closed_ab = vec![true, true, false];
    assert_eq!(open_blocker_count(&graph, c, &closed_ab), 0);
}

#[test]
fn reachability_test_disconnected() {
    // a -> b, c (isolated)
    let mut graph = DiGraph::new();
    let a = graph.add_node("a".to_string());
    let b = graph.add_node("b".to_string());
    let c = graph.add_node("c".to_string());
    graph.add_edge(a, b);

    let from_a = reachable_from(&graph, a);
    assert_eq!(from_a.len(), 2);
    assert!(!from_a.contains(&c));

    let from_c = reachable_from(&graph, c);
    assert_eq!(from_c, vec![c]);
}

#[test]
fn test_cycle() {
    // a -> b -> c -> a
    let mut graph = DiGraph::new();
    let a = graph.add_node("a".to_string());
    let b = graph.add_node("b".to_string());
    let c = graph.add_node("c".to_string());
    graph.add_edge(a, b);
    graph.add_edge(b, c);
    graph.add_edge(c, a);

    // All nodes reachable from any node
    let from_a = reachable_from(&graph, a);
    assert_eq!(from_a.len(), 3);

    let to_a = reachable_to(&graph, a);
    assert_eq!(to_a.len(), 3);
}
