use retworkx::dag::{must_check_for_cycle, PyDAG};
use retworkx::error::DagError;
use retworkx::lexical::lexicographical_topological_sort;
use retworkx::ordering::{
    dag_longest_path, dag_longest_path_length, longest_path, topological_sort,
};
use retworkx::reach::{
    ancestors, bfs_successors, descendants, is_directed_acyclic_graph,
    number_weakly_connected_components,
};

fn position(order: &[usize], node: usize) -> usize {
    order.iter().position(|n| *n == node).unwrap()
}

fn diamond() -> (PyDAG, [usize; 4]) {
    let mut dag = PyDAG::new();
    let a = dag.add_node(10).unwrap();
    let b = dag.add_child(a, 11, 0).unwrap();
    let c = dag.add_child(a, 12, 0).unwrap();
    let d = dag.add_child(b, 13, 0).unwrap();
    dag.add_edge(c, d, 0).unwrap();
    (dag, [a, b, c, d])
}

#[test]
fn topological_order_follows_every_edge() {
    let (dag, [a, b, c, d]) = diamond();
    let order = topological_sort(&dag).unwrap();
    assert_eq!(order.len(), 4);
    for (s, t) in [(a, b), (a, c), (b, d), (c, d)] {
        assert!(position(&order, s) < position(&order, t));
    }
}

#[test]
fn topological_order_of_the_rest_after_the_last_node_left() {
    let (mut dag, _) = diamond();
    let order = topological_sort(&dag).unwrap();
    let last = *order.last().unwrap();
    dag.remove_node(last).unwrap();
    let again = topological_sort(&dag).unwrap();
    assert_eq!(again.len(), 3);
    let mut sorted = again.clone();
    sorted.sort();
    let mut expected: Vec<usize> = order[..3].to_vec();
    expected.sort();
    assert_eq!(sorted, expected);
    for s in 0..4 {
        for t in 0..4 {
            if dag.has_edge(s, t) {
                assert!(position(&again, s) < position(&again, t));
            }
        }
    }
}

#[test]
fn topological_order_of_an_empty_graph() {
    let dag = PyDAG::new();
    assert_eq!(topological_sort(&dag), Ok(vec![]));
}

#[test]
fn keys_rank_nodes_without_edges() {
    let mut dag = PyDAG::new();
    let x = dag.add_node(0).unwrap();
    let y = dag.add_node(1).unwrap();
    let z = dag.add_node(2).unwrap();
    assert_eq!((x, y, z), (0, 1, 2));
    let names = ["c", "a", "b"];
    let order = lexicographical_topological_sort(&dag, |p: u64| Some(names[p as usize].to_string()));
    assert_eq!(order, Ok(vec![1, 2, 0]));
}

#[test]
fn equal_keys_rank_by_handle() {
    let mut dag = PyDAG::new();
    for p in [7, 8, 9] {
        dag.add_node(p).unwrap();
    }
    let order = lexicographical_topological_sort(&dag, |_p: u64| Some(String::from("k")));
    assert_eq!(order, Ok(vec![7, 8, 9]));
}

#[test]
fn keys_rank_only_the_nodes_that_can_come_next() {
    let mut dag = PyDAG::new();
    let a = dag.add_node(0).unwrap();
    let b = dag.add_child(a, 1, 0).unwrap();
    let c = dag.add_child(a, 2, 0).unwrap();
    let _d = dag.add_child(b, 3, 0).unwrap();
    let _e = dag.add_node(4).unwrap();
    dag.add_edge(c, b, 0).unwrap();
    let names = ["m", "a", "z", "b", "n"];
    let order = lexicographical_topological_sort(&dag, |p: u64| Some(names[p as usize].to_string()));
    assert_eq!(order, Ok(vec![0, 4, 2, 1, 3]));
}

#[test]
fn a_shorter_key_comes_before_its_extensions() {
    let mut dag = PyDAG::new();
    for p in [0, 1, 2, 3] {
        dag.add_node(p).unwrap();
    }
    let names = ["ab", "a", "", "aa"];
    let order = lexicographical_topological_sort(&dag, |p: u64| Some(names[p as usize].to_string()));
    assert_eq!(order, Ok(vec![2, 1, 3, 0]));
}

#[test]
fn a_failing_key_function_stops_the_sort() {
    let (dag, _) = diamond();
    let order = lexicographical_topological_sort(&dag, |p: u64| {
        if p == 13 {
            None
        } else {
            Some(p.to_string())
        }
    });
    assert_eq!(order, Err(DagError::CallbackFailure));
}

#[test]
fn keyed_order_of_an_empty_graph() {
    let dag = PyDAG::new();
    assert_eq!(lexicographical_topological_sort(&dag, |_p: u64| None), Ok(vec![]));
}

#[test]
fn critical_path_of_a_chain_with_a_side_edge() {
    let mut dag = PyDAG::new();
    let a = dag.add_node(0).unwrap();
    let b = dag.add_child(a, 1, 0).unwrap();
    let c = dag.add_child(b, 2, 0).unwrap();
    let _d = dag.add_child(a, 3, 0).unwrap();
    assert_eq!(longest_path(&dag), Ok(vec![a, b, c]));
    assert_eq!(dag_longest_path(&dag), Ok(vec![a, b, c]));
    assert_eq!(dag_longest_path_length(&dag), Ok(2));
}

#[test]
fn critical_path_of_small_graphs() {
    let mut dag = PyDAG::new();
    assert_eq!(longest_path(&dag), Ok(vec![]));
    assert_eq!(dag_longest_path_length(&dag), Ok(0));
    let a = dag.add_node(0).unwrap();
    assert_eq!(longest_path(&dag), Ok(vec![a]));
    assert_eq!(dag_longest_path_length(&dag), Ok(0));
}

#[test]
fn critical_path_with_reused_handles() {
    let mut dag = PyDAG::new();
    let a = dag.add_node(0).unwrap();
    let b = dag.add_node(1).unwrap();
    let c = dag.add_node(2).unwrap();
    dag.remove_node(a).unwrap();
    let d = dag.add_child(c, 3, 0).unwrap();
    assert_eq!(d, a);
    dag.add_edge(d, b, 0).unwrap();
    assert_eq!(longest_path(&dag), Ok(vec![c, d, b]));
    assert_eq!(dag_longest_path_length(&dag), Ok(2));
}

#[test]
fn ancestors_and_descendants_leave_the_node_out() {
    let (mut dag, [a, b, c, d]) = diamond();
    let e = dag.add_node(14).unwrap();
    assert_eq!(ancestors(&dag, d), Ok(vec![a, b, c]));
    assert_eq!(ancestors(&dag, a), Ok(vec![]));
    assert_eq!(descendants(&dag, a), Ok(vec![b, c, d]));
    assert_eq!(descendants(&dag, b), Ok(vec![d]));
    assert_eq!(descendants(&dag, e), Ok(vec![]));
    assert_eq!(ancestors(&dag, 9), Err(DagError::NodeNotFound));
    assert_eq!(descendants(&dag, 9), Err(DagError::NodeNotFound));
}

#[test]
fn breadth_first_successors_skip_nodes_without_children() {
    let mut dag = PyDAG::new();
    let a = dag.add_node(10).unwrap();
    let b = dag.add_child(a, 11, 0).unwrap();
    let _c = dag.add_child(a, 12, 0).unwrap();
    let d = dag.add_child(b, 13, 0).unwrap();
    dag.add_edge(a, d, 0).unwrap();
    dag.add_edge(b, d, 0).unwrap();
    assert_eq!(
        bfs_successors(&dag, a),
        Ok(vec![(10, vec![13, 12, 11]), (11, vec![13, 13])])
    );
    assert_eq!(bfs_successors(&dag, d), Ok(vec![]));
    assert_eq!(bfs_successors(&dag, 9), Err(DagError::NodeNotFound));
}

#[test]
fn components_count_live_nodes_only() {
    let mut dag = PyDAG::new();
    assert_eq!(number_weakly_connected_components(&dag), 0);
    let a = dag.add_node(0).unwrap();
    let b = dag.add_child(a, 1, 0).unwrap();
    let c = dag.add_node(2).unwrap();
    let _d = dag.add_parent(c, 3, 0).unwrap();
    let e = dag.add_node(4).unwrap();
    assert_eq!(number_weakly_connected_components(&dag), 3);
    dag.remove_node(e).unwrap();
    assert_eq!(number_weakly_connected_components(&dag), 2);
    dag.remove_node(a).unwrap();
    assert_eq!(number_weakly_connected_components(&dag), 2);
    dag.add_edge(b, c, 0).unwrap();
    assert_eq!(number_weakly_connected_components(&dag), 1);
}

#[test]
fn accepted_edges_never_close_a_cycle() {
    let mut dag = PyDAG::new();
    for p in 0..12 {
        dag.add_node(p).unwrap();
    }
    let mut seed: usize = 12345;
    let mut accepted = 0;
    let mut refused = 0;
    for _ in 0..400 {
        seed = seed.wrapping_mul(6364136223846793005).wrapping_add(1442695040888963407);
        let a = (seed >> 33) % 12;
        seed = seed.wrapping_mul(6364136223846793005).wrapping_add(1442695040888963407);
        let b = (seed >> 33) % 12;
        match dag.add_edge(a, b, 0) {
            Ok(_) => accepted += 1,
            Err(e) => {
                assert_eq!(e, DagError::WouldCreateCycle);
                refused += 1;
            }
        }
        assert!(is_directed_acyclic_graph(&dag));
        assert!(topological_sort(&dag).is_ok());
    }
    assert!(accepted > 0 && refused > 0);
}

#[test]
fn a_node_without_parents_takes_any_edge() {
    let (mut dag, [_a, b, _c, d]) = diamond();
    let fresh = dag.add_node(99).unwrap();
    assert!(!must_check_for_cycle(&dag, fresh, d));
    assert!(dag.add_edge(fresh, d, 1).is_ok());
    assert!(dag.has_edge(fresh, d));
    assert!(!must_check_for_cycle(&dag, fresh, b));
    assert!(dag.add_edge(fresh, b, 1).is_ok());
    assert_eq!(dag.add_edge(fresh, fresh, 1), Err(DagError::WouldCreateCycle));
}
