use bv_graph::graph::DiGraph;
use bv_graph::topo::{is_dag, topological_sort, topological_sort_result};

#[test]
fn test_empty_graph() {
    let g = DiGraph::new();
    let result = topological_sort(&g);
    assert_eq!(result, Some(vec![]));
}

#[test]
fn test_single_node() {
    let mut g = DiGraph::new();
    g.add_node("a".to_string());
    let result = topological_sort(&g);
    assert_eq!(result, Some(vec![0]));
}

#[test]
fn test_linear_chain() {
    // a -> b -> c
    let mut g = DiGraph::new();
    let a = g.add_node("a".to_string());
    let b = g.add_node("b".to_string());
    let c = g.add_node("c".to_string());
    g.add_edge(a, b);
    g.add_edge(b, c);

    let result = topological_sort(&g).unwrap();
    assert_eq!(result, vec![0, 1, 2]); // a, b, c
}

#[test]
fn test_diamond() {
    //     a
    //    / \
    //   b   c
    //    \ /
    //     d
    let mut g = DiGraph::new();
    let a = g.add_node("a".to_string());
    let b = g.add_node("b".to_string());
    let c = g.add_node("c".to_string());
    let d = g.add_node("d".to_string());
    g.add_edge(a, b);
    g.add_edge(a, c);
    g.add_edge(b, d);
    g.add_edge(c, d);

    let result = topological_sort(&g).unwrap();
    // Valid orders: [a, b, c, d] or [a, c, b, d]
    // With the smallest-index tie-break, it is [a, b, c, d]
    assert_eq!(result[0], a); // a first
    assert_eq!(result[3], d); // d last
    assert_eq!(result, vec![0, 1, 2, 3]);
}

#[test]
fn test_cycle_detection() {
    // a -> b -> c -> a
    let mut g = DiGraph::new();
    let a = g.add_node("a".to_string());
    let b = g.add_node("b".to_string());
    let c = g.add_node("c".to_string());
    g.add_edge(a, b);
    g.add_edge(b, c);
    g.add_edge(c, a);

    let result = topological_sort(&g);
    assert!(result.is_none());
}

#[test]
fn test_self_loop() {
    // a -> a
    let mut g = DiGraph::new();
    let a = g.add_node("a".to_string());
    g.add_edge(a, a);

    let result = topological_sort(&g);
    assert!(result.is_none());
}

#[test]
fn topo_test_disconnected() {
    // Two separate components: a->b, c->d
    let mut g = DiGraph::new();
    let a = g.add_node("a".to_string());
    let b = g.add_node("b".to_string());
    let c = g.add_node("c".to_string());
    let d = g.add_node("d".to_string());
    g.add_edge(a, b);
    g.add_edge(c, d);

    let result = topological_sort(&g).unwrap();
    assert_eq!(result.len(), 4);
    // a comes before b
    let a_pos = result.iter().position(|&x| x == a).unwrap();
    let b_pos = result.iter().position(|&x| x == b).unwrap();
    assert!(a_pos < b_pos);
    // c comes before d
    let c_pos = result.iter().position(|&x| x == c).unwrap();
    let d_pos = result.iter().position(|&x| x == d).unwrap();
    assert!(c_pos < d_pos);
}

#[test]
fn test_is_dag() {
    let mut dag = DiGraph::new();
    let a = dag.add_node("a".to_string());
    let b = dag.add_node("b".to_string());
    dag.add_edge(a, b);
    assert!(is_dag(&dag));

    let mut cyclic = DiGraph::new();
    let x = cyclic.add_node("x".to_string());
    let y = cyclic.add_node("y".to_string());
    cyclic.add_edge(x, y);
    cyclic.add_edge(y, x);
    assert!(!is_dag(&cyclic));
}

#[test]
fn test_deterministic() {
    // Run multiple times, should always get same result
    let mut g = DiGraph::new();
    for i in 0..10 {
        g.add_node(format!("node{}", i));
    }
    // Add some edges
    g.add_edge(0, 5);
    g.add_edge(1, 5);
    g.add_edge(2, 6);
    g.add_edge(3, 7);
    g.add_edge(5, 8);
    g.add_edge(6, 8);
    g.add_edge(7, 9);
    g.add_edge(8, 9);

    let result1 = topological_sort(&g).unwrap();
    let result2 = topological_sort(&g).unwrap();
    let result3 = topological_sort(&g).unwrap();

    assert_eq!(result1, result2);
    assert_eq!(result2, result3);
}

#[test]
fn test_tie_break_prefers_smallest_index() {
    // 0 and 2 are ready from the start; 1 only becomes ready once both of
    // its blockers are done. 0 must precede 2 in the output.
    let mut g = DiGraph::new();
    let a = g.add_node("a".to_string());
    let b = g.add_node("b".to_string());
    let c = g.add_node("c".to_string());
    g.add_edge(a, b);
    g.add_edge(c, b);

    let result = topological_sort(&g).unwrap();
    assert_eq!(result, vec![0, 2, 1]);
    let a_pos = result.iter().position(|&x| x == a).unwrap();
    let c_pos = result.iter().position(|&x| x == c).unwrap();
    assert!(a_pos < c_pos);
}

#[test]
fn test_topological_sort_result_dag() {
    let mut g = DiGraph::new();
    let a = g.add_node("a".to_string());
    let b = g.add_node("b".to_string());
    g.add_edge(a, b);

    let r = topological_sort_result(&g);
    assert!(r.is_dag);
    assert_eq!(r.order, vec![0, 1]);
}

#[test]
fn test_topological_sort_result_cycle() {
    let mut g = DiGraph::new();
    let a = g.add_node("a".to_string());
    let b = g.add_node("b".to_string());
    g.add_edge(a, b);
    g.add_edge(b, a);

    let r = topological_sort_result(&g);
    assert!(!r.is_dag);
    assert!(r.order.is_empty());
}

#[test]
fn test_duplicate_edges_still_sort() {
    // Duplicate edges are kept, not deduplicated, and do not change the
    // order of a DAG.
    let mut g = DiGraph::new();
    let a = g.add_node("a".to_string());
    let b = g.add_node("b".to_string());
    g.add_edge(a, b);
    g.add_edge(a, b);

    assert_eq!(g.in_degree(b), 2);
    assert_eq!(g.out_degree(a), 2);
    let result = topological_sort(&g).unwrap();
    assert_eq!(result, vec![0, 1]);
}
