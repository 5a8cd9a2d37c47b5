use retworkx::dag::PyDAG;
use retworkx::dag_isomorphism::is_isomorphic;
use retworkx::error::DagError;

#[test]
fn state_lists_nodes_and_incoming_edges() {
    let mut dag = PyDAG::new();
    let a = dag.add_node(10).unwrap();
    let b = dag.add_child(a, 11, 1).unwrap();
    let c = dag.add_child(a, 12, 2).unwrap();
    dag.add_edge(b, c, 3).unwrap();
    dag.add_edge(a, c, 4).unwrap();
    let (nodes, edges) = dag.get_state();
    assert_eq!(nodes, vec![(a, 10), (b, 11), (c, 12)]);
    assert_eq!(edges, vec![(a, b, 1), (a, c, 4), (b, c, 3), (a, c, 2)]);
}

#[test]
fn state_of_an_empty_graph() {
    let dag = PyDAG::new();
    assert_eq!(dag.get_state(), (vec![], vec![]));
}

#[test]
fn loading_counts_handles_from_zero() {
    let mut dag = PyDAG::new();
    dag.add_node(99).unwrap();
    let nodes = vec![(7, 70), (3, 30), (5, 50)];
    let edges = vec![(7, 3, 1), (3, 5, 2), (7, 5, 3)];
    assert_eq!(dag.set_state(nodes, edges), Ok(()));
    assert_eq!(dag.nodes(), vec![70, 30, 50]);
    assert_eq!(dag.get_state().0, vec![(0, 70), (1, 30), (2, 50)]);
    assert!(dag.has_edge(0, 1));
    assert!(dag.has_edge(1, 2));
    assert!(dag.has_edge(0, 2));
    assert!(!dag.has_edge(1, 0));
    assert_eq!(dag.get_edge_data(0, 2), Ok(3));
    assert_eq!(dag.edges(), vec![1, 2, 3]);
}

#[test]
fn loading_keeps_the_shape() {
    let mut dag = PyDAG::new();
    let a = dag.add_node(0).unwrap();
    let b = dag.add_child(a, 1, 0).unwrap();
    let c = dag.add_child(b, 2, 0).unwrap();
    let d = dag.add_child(a, 3, 0).unwrap();
    dag.add_edge(d, c, 0).unwrap();
    dag.remove_node(b).unwrap();
    let (nodes, edges) = dag.get_state();
    let mut copy = PyDAG::new();
    assert_eq!(copy.set_state(nodes, edges), Ok(()));
    assert!(is_isomorphic(&dag, &copy));
    assert_eq!(copy.nodes(), dag.nodes());
    assert_eq!(copy.len(), 3);
    assert_eq!(copy.edge_count(), 2);
}

#[test]
fn loading_a_cycle_is_refused() {
    let mut dag = PyDAG::new();
    dag.add_node(99).unwrap();
    let nodes = vec![(0, 0), (1, 1), (2, 2)];
    let edges = vec![(0, 1, 0), (1, 2, 0), (2, 0, 0)];
    assert_eq!(dag.set_state(nodes, edges), Err(DagError::CycleDetected));
    assert_eq!(dag.nodes(), vec![99]);
    assert_eq!(dag.set_state(vec![(4, 4)], vec![(4, 4, 0)]), Err(DagError::CycleDetected));
    assert_eq!(dag.nodes(), vec![99]);
}

#[test]
fn loading_an_edge_without_its_node_is_refused() {
    let mut dag = PyDAG::new();
    dag.add_node(99).unwrap();
    let nodes = vec![(0, 0), (1, 1)];
    assert_eq!(dag.set_state(nodes.clone(), vec![(0, 2, 0)]), Err(DagError::NodeNotFound));
    assert_eq!(dag.set_state(nodes, vec![(0, 1, 0), (3, 1, 0)]), Err(DagError::NodeNotFound));
    assert_eq!(dag.nodes(), vec![99]);
}

#[test]
fn a_repeated_key_names_its_last_node() {
    let mut dag = PyDAG::new();
    let nodes = vec![(1, 10), (1, 11), (2, 12)];
    assert_eq!(dag.set_state(nodes, vec![(1, 2, 5)]), Ok(()));
    assert_eq!(dag.nodes(), vec![10, 11, 12]);
    assert!(dag.has_edge(1, 2));
    assert!(!dag.has_edge(0, 2));
}
