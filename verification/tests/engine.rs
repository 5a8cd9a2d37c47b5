use retworkx::dag::{must_check_for_cycle, PyDAG};
use retworkx::error::DagError;

#[test]
fn it_works() {
    assert_eq!(2 + 2, 4);
}

#[test]
fn missing_node_has_no_data() {
    let dag = PyDAG::new();
    assert_eq!(dag.get_node_data(0), Err(DagError::NodeNotFound));
    assert_eq!(dag.len(), 0);
}

#[test]
fn handles_are_dense_and_reused() {
    let mut dag = PyDAG::new();
    assert_eq!(dag.add_node(10), Ok(0));
    assert_eq!(dag.add_node(11), Ok(1));
    assert_eq!(dag.add_node(12), Ok(2));
    assert_eq!(dag.remove_node(1), Ok(()));
    assert_eq!(dag.remove_node(0), Ok(()));
    assert_eq!(dag.get_node_data(1), Err(DagError::NodeNotFound));
    assert_eq!(dag.len(), 1);
    assert_eq!(dag.add_node(20), Ok(0));
    assert_eq!(dag.add_node(21), Ok(1));
    assert_eq!(dag.add_node(22), Ok(3));
    assert_eq!(dag.get_node_data(1), Ok(21));
    assert_eq!(dag.nodes(), vec![20, 21, 12, 22]);
}

#[test]
fn reverse_edge_is_refused() {
    let mut dag = PyDAG::new();
    let a = dag.add_node(1).unwrap();
    let b = dag.add_node(2).unwrap();
    assert_eq!(dag.add_edge(a, b, 7), Ok(0));
    assert_eq!(dag.add_edge(b, a, 8), Err(DagError::WouldCreateCycle));
    assert_eq!(dag.edge_count(), 1);
    assert!(dag.has_edge(a, b));
    assert!(!dag.has_edge(b, a));
}

#[test]
fn self_loop_is_refused() {
    let mut dag = PyDAG::new();
    let a = dag.add_node(1).unwrap();
    assert_eq!(dag.add_edge(a, a, 7), Err(DagError::WouldCreateCycle));
    assert_eq!(dag.edge_count(), 0);
}

#[test]
fn edge_to_missing_node_is_refused() {
    let mut dag = PyDAG::new();
    let a = dag.add_node(1).unwrap();
    assert_eq!(dag.add_edge(a, 5, 7), Err(DagError::NodeNotFound));
    assert_eq!(dag.add_edge(5, a, 7), Err(DagError::NodeNotFound));
    assert_eq!(dag.add_edge(usize::MAX, a, 7), Err(DagError::NodeNotFound));
}

#[test]
fn long_cycle_is_refused_after_search() {
    let mut dag = PyDAG::new();
    let a = dag.add_node(0).unwrap();
    let b = dag.add_node(1).unwrap();
    let c = dag.add_node(2).unwrap();
    let d = dag.add_node(3).unwrap();
    dag.add_edge(a, b, 0).unwrap();
    dag.add_edge(b, c, 0).unwrap();
    dag.add_edge(c, d, 0).unwrap();
    assert!(must_check_for_cycle(&dag, c, b));
    assert_eq!(dag.add_edge(c, b, 0), Err(DagError::WouldCreateCycle));
    assert_eq!(dag.add_edge(d, b, 0), Err(DagError::WouldCreateCycle));
    assert!(!must_check_for_cycle(&dag, b, d));
    let e = dag.add_child(d, 4, 0).unwrap();
    assert!(must_check_for_cycle(&dag, b, d));
    assert_eq!(dag.add_edge(b, d, 0), Ok(4));
    assert!(!must_check_for_cycle(&dag, a, d));
    assert!(!must_check_for_cycle(&dag, b, c));
    assert!(!must_check_for_cycle(&dag, b, e));
    assert_eq!(dag.add_edge(e, a, 0), Err(DagError::WouldCreateCycle));
}

#[test]
fn successors_and_predecessors_list_each_neighbour_once() {
    let mut dag = PyDAG::new();
    let a = dag.add_node(100).unwrap();
    let b = dag.add_child(a, 101, 1).unwrap();
    let c = dag.add_child(a, 102, 2).unwrap();
    dag.add_edge(a, b, 3).unwrap();
    let p = dag.add_parent(c, 103, 4).unwrap();
    assert_eq!(dag.successors(a), Ok(vec![101, 102]));
    assert_eq!(dag.predecessors(c), Ok(vec![103, 100]));
    assert_eq!(dag.predecessors(a), Ok(vec![]));
    assert_eq!(dag.successors(9), Err(DagError::NodeNotFound));
    assert_eq!(dag.predecessors(9), Err(DagError::NodeNotFound));
    assert_eq!(dag.out_degree(a), 3);
    assert_eq!(dag.in_degree(b), 2);
    assert_eq!(dag.in_degree(c), 2);
    assert_eq!(dag.in_degree(9), 0);
    assert_eq!(dag.out_degree(p), 1);
}

#[test]
fn edge_data_prefers_the_latest_parallel_edge() {
    let mut dag = PyDAG::new();
    let a = dag.add_node(0).unwrap();
    let b = dag.add_node(1).unwrap();
    dag.add_edge(a, b, 5).unwrap();
    dag.add_edge(a, b, 6).unwrap();
    assert_eq!(dag.get_edge_data(a, b), Ok(6));
    assert_eq!(dag.get_all_edge_data(a, b), Ok(vec![6, 5]));
    assert_eq!(dag.get_edge_data(b, a), Err(DagError::EdgeNotFound));
    assert_eq!(dag.get_all_edge_data(b, a), Err(DagError::EdgeNotFound));
    assert_eq!(dag.edges(), vec![5, 6]);
    assert_eq!(dag.remove_edge(a, b), Ok(()));
    assert_eq!(dag.get_edge_data(a, b), Ok(5));
    assert_eq!(dag.remove_edge(a, b), Ok(()));
    assert_eq!(dag.remove_edge(a, b), Err(DagError::EdgeNotFound));
    assert_eq!(dag.add_edge(a, b, 9), Ok(0));
    assert_eq!(dag.add_edge(a, b, 10), Ok(1));
}

#[test]
fn removing_a_node_removes_its_edges_only() {
    let mut dag = PyDAG::new();
    let a = dag.add_node(0).unwrap();
    let b = dag.add_child(a, 1, 10).unwrap();
    let c = dag.add_child(b, 2, 11).unwrap();
    dag.add_edge(a, c, 12).unwrap();
    assert_eq!(dag.remove_node(b), Ok(()));
    assert_eq!(dag.successors(a), Ok(vec![2]));
    assert_eq!(dag.predecessors(c), Ok(vec![0]));
    assert_eq!(dag.edges(), vec![12]);
    assert_eq!(dag.edge_count(), 1);
    assert_eq!(dag.remove_node(b), Ok(()));
    assert_eq!(dag.len(), 2);
    assert_eq!(dag.remove_edge_from_index(7), Ok(()));
    assert_eq!(dag.remove_edge_from_index(2), Ok(()));
    assert_eq!(dag.edge_count(), 0);
}

#[test]
fn attaching_to_a_missing_node_changes_nothing() {
    let mut dag = PyDAG::new();
    assert_eq!(dag.add_child(0, 1, 1), Err(DagError::NodeNotFound));
    assert_eq!(dag.add_parent(0, 1, 1), Err(DagError::NodeNotFound));
    assert_eq!(dag.len(), 0);
}

#[test]
fn adjacency_pairs_neighbours_with_edges() {
    let mut dag = PyDAG::new();
    let a = dag.add_node(0).unwrap();
    let b = dag.add_child(a, 1, 10).unwrap();
    let c = dag.add_child(a, 2, 11).unwrap();
    let p = dag.add_parent(a, 3, 12).unwrap();
    dag.add_edge(a, b, 13).unwrap();
    assert_eq!(dag.adj(a), Ok(vec![(b, 13), (c, 11), (p, 12)]));
    assert_eq!(dag.adj_direction(a, false), Ok(vec![(b, 13), (c, 11)]));
    assert_eq!(dag.adj_direction(a, true), Ok(vec![(p, 12)]));
    assert_eq!(dag.adj(b), Ok(vec![(a, 13)]));
    assert_eq!(dag.out_edges(a), Ok(vec![(a, b, 13), (a, c, 11), (a, b, 10)]));
    assert_eq!(dag.in_edges(b), Ok(vec![(a, b, 13), (a, b, 10)]));
    assert_eq!(dag.in_edges(9), Err(DagError::NodeNotFound));
    assert_eq!(dag.out_edges(9), Err(DagError::NodeNotFound));
    assert_eq!(dag.adj(9), Err(DagError::NodeNotFound));
    assert_eq!(dag.adj_direction(9, true), Err(DagError::NodeNotFound));
}

#[test]
fn error_messages() {
    assert_eq!(DagError::NodeNotFound.message(), "No node found for index");
    assert_eq!(DagError::EdgeNotFound.message(), "No edge found between nodes");
    assert_eq!(DagError::WouldCreateCycle.message(), "Adding an edge would cycle");
    assert_eq!(DagError::CycleDetected.message(), "Sort encountered a cycle");
    assert_eq!(DagError::CallbackFailure.message(), "A supplied function failed");
}

#[test]
fn edge_handles_return_in_the_order_of_their_removal() {
    let mut dag = PyDAG::new();
    let a = dag.add_node(0).unwrap();
    let b = dag.add_node(1).unwrap();
    let c = dag.add_node(2).unwrap();
    let d = dag.add_node(3).unwrap();
    let f = dag.add_node(4).unwrap();
    assert_eq!(dag.add_edge(a, b, 10), Ok(0));
    assert_eq!(dag.add_edge(a, c, 11), Ok(1));
    assert_eq!(dag.add_edge(d, a, 12), Ok(2));
    assert_eq!(dag.add_edge(f, a, 13), Ok(3));
    assert_eq!(dag.add_edge(d, b, 14), Ok(4));
    dag.remove_node(a).unwrap();
    assert_eq!(dag.edges(), vec![14]);
    assert_eq!(dag.add_edge(b, c, 20), Ok(2));
    assert_eq!(dag.add_edge(b, c, 21), Ok(3));
    assert_eq!(dag.add_edge(b, c, 22), Ok(0));
    assert_eq!(dag.add_edge(b, c, 23), Ok(1));
    assert_eq!(dag.add_edge(b, c, 24), Ok(5));
    assert_eq!(dag.add_node(5), Ok(a));
    assert_eq!(dag.add_node(6), Ok(5));
    assert_eq!(dag.get_all_edge_data(b, c), Ok(vec![24, 23, 22, 21, 20]));
    dag.remove_edge_from_index(3).unwrap();
    dag.remove_edge_from_index(5).unwrap();
    assert_eq!(dag.get_all_edge_data(b, c), Ok(vec![23, 22, 20]));
    assert_eq!(dag.add_edge(d, c, 30), Ok(5));
    assert_eq!(dag.add_edge(d, c, 31), Ok(3));
    assert_eq!(dag.in_edges(c), Ok(vec![(d, c, 31), (d, c, 30), (b, c, 23), (b, c, 22), (b, c, 20)]));
    assert_eq!(dag.out_edges(d), Ok(vec![(d, c, 31), (d, c, 30), (d, b, 14)]));
}

#[test]
fn handles_beyond_the_index_range_name_nothing() {
    let mut dag = PyDAG::new();
    let a = dag.add_node(0).unwrap();
    let far = u32::MAX as usize + 1 + a;
    assert!(!dag.has_edge(far, a));
    assert!(!dag.has_edge(a, far));
    assert_eq!(dag.get_node_data(far), Err(DagError::NodeNotFound));
    assert_eq!(dag.get_edge_data(far, a), Err(DagError::EdgeNotFound));
    assert_eq!(dag.get_all_edge_data(far, a), Err(DagError::EdgeNotFound));
    assert_eq!(dag.successors(far), Err(DagError::NodeNotFound));
    assert_eq!(dag.remove_node(far), Ok(()));
    assert_eq!(dag.remove_edge(far, a), Err(DagError::EdgeNotFound));
    assert_eq!(dag.remove_edge_from_index(far), Ok(()));
    assert_eq!(dag.add_child(far, 1, 1), Err(DagError::NodeNotFound));
    assert_eq!(dag.in_degree(far), 0);
    assert_eq!(dag.out_degree(far), 0);
    assert!(!must_check_for_cycle(&dag, far, a));
    assert_eq!(dag.len(), 1);
    assert_eq!(dag.get_node_data(a), Ok(0));
}

#[test]
fn an_edge_is_inserted_where_there_is_room() {
    let mut dag = PyDAG::new();
    let a = dag.add_node(0).unwrap();
    let b = dag.add_node(1).unwrap();
    assert_eq!(dag.try_add_edge(a, b, 5), Some(Ok(0)));
    assert!(dag.has_edge(a, b));
    assert_eq!(dag.try_add_edge(b, a, 6), Some(Err(DagError::WouldCreateCycle)));
    assert_eq!(dag.try_add_edge(a, 9, 6), Some(Err(DagError::NodeNotFound)));
    assert_eq!(dag.edge_count(), 1);
}

#[test]
fn edge_data_by_handle() {
    let mut dag = PyDAG::new();
    let a = dag.add_node(0).unwrap();
    let b = dag.add_node(1).unwrap();
    let e = dag.add_edge(a, b, 5).unwrap();
    let f = dag.add_edge(a, b, 6).unwrap();
    assert_eq!(dag.get_edge_data_by_index(e), Ok(5));
    assert_eq!(dag.get_edge_data_by_index(f), Ok(6));
    assert_eq!(dag.get_edge_data_by_index(7), Err(DagError::EdgeNotFound));
    assert_eq!(dag.get_edge_data_by_index(usize::MAX), Err(DagError::EdgeNotFound));
    dag.remove_edge_from_index(e).unwrap();
    assert_eq!(dag.get_edge_data_by_index(e), Err(DagError::EdgeNotFound));
    assert_eq!(dag.get_edge_data_by_index(f), Ok(6));
}
