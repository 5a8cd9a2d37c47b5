use retworkx::dag::PyDAG;
use retworkx::dag_isomorphism::{
    is_isomorphic, is_isomorphic_matching, is_isomorphic_node_match, matched,
};
use retworkx::error::DagError;

fn graph(payloads: &[u64], edges: &[(usize, usize)]) -> PyDAG {
    let mut dag = PyDAG::new();
    for p in payloads {
        dag.add_node(*p).unwrap();
    }
    for (a, b) in edges {
        dag.add_edge(*a, *b, 0).unwrap();
    }
    dag
}

#[test]
fn a_graph_has_the_shape_of_its_relabelling() {
    let edges = [(0, 1), (0, 2), (1, 3), (2, 3), (3, 4), (1, 4)];
    let first = graph(&[0, 1, 2, 3, 4], &edges);
    let renamed = [3, 0, 4, 1, 2];
    let moved: Vec<(usize, usize)> = edges.iter().map(|(a, b)| (renamed[*a], renamed[*b])).collect();
    let second = graph(&[10, 11, 12, 13, 14], &moved);
    assert!(is_isomorphic(&first, &second));
    assert!(is_isomorphic(&second, &first));
    assert!(is_isomorphic(&first, &first));
}

#[test]
fn graphs_with_other_edge_counts_differ() {
    let first = graph(&[0, 1, 2], &[(0, 1), (1, 2)]);
    let second = graph(&[0, 1, 2], &[(0, 1), (1, 2), (0, 2)]);
    assert!(!is_isomorphic(&first, &second));
    let asked = std::cell::Cell::new(0);
    let answer = is_isomorphic_node_match(&first, &second, |_a: u64, _b: u64| {
        asked.set(asked.get() + 1);
        Some(true)
    });
    assert_eq!(answer, Ok(false));
    assert_eq!(asked.get(), 0);
}

#[test]
fn graphs_with_other_node_counts_differ() {
    let first = graph(&[0, 1, 2], &[(0, 1)]);
    let second = graph(&[0, 1], &[(0, 1)]);
    assert!(!is_isomorphic(&first, &second));
}

#[test]
fn a_reversed_edge_changes_the_shape() {
    let first = graph(&[0, 1, 2], &[(0, 1), (1, 2)]);
    let second = graph(&[0, 1, 2], &[(0, 1), (2, 1)]);
    assert!(!is_isomorphic(&first, &second));
    let third = graph(&[0, 1, 2], &[(0, 1), (0, 2), (1, 2)]);
    let fourth = graph(&[0, 1, 2], &[(0, 1), (0, 2), (2, 1)]);
    assert!(is_isomorphic(&third, &fourth));
}

#[test]
fn empty_graphs_have_the_same_shape() {
    assert!(is_isomorphic(&PyDAG::new(), &PyDAG::new()));
    assert!(is_isomorphic(&graph(&[1], &[]), &graph(&[2], &[])));
}

#[test]
fn separate_parts_are_paired_too() {
    let first = graph(&[0, 1, 2, 3, 4], &[(0, 1), (2, 3)]);
    let second = graph(&[0, 1, 2, 3, 4], &[(4, 0), (1, 3)]);
    assert!(is_isomorphic(&first, &second));
    let third = graph(&[0, 1, 2, 3, 4], &[(4, 0), (0, 3)]);
    assert!(!is_isomorphic(&first, &third));
}

#[test]
fn removed_nodes_do_not_count() {
    let mut first = graph(&[0, 1, 2, 3], &[(0, 1), (1, 2), (2, 3)]);
    first.remove_node(0).unwrap();
    let second = graph(&[0, 1, 2], &[(2, 1), (1, 0)]);
    assert!(is_isomorphic(&first, &second));
    first.remove_node(2).unwrap();
    assert!(!is_isomorphic(&first, &second));
}

#[test]
fn parallel_edges_count_as_edges() {
    let first = graph(&[0, 1], &[(0, 1), (0, 1)]);
    let second = graph(&[0, 1], &[(0, 1)]);
    assert!(!is_isomorphic(&first, &second));
    let third = graph(&[0, 1], &[(1, 0), (1, 0)]);
    assert!(is_isomorphic(&first, &third));
}

#[test]
fn the_matcher_narrows_the_pairings() {
    let first = graph(&[1, 2, 3], &[(0, 1), (0, 2)]);
    let second = graph(&[3, 1, 2], &[(1, 0), (1, 2)]);
    let same = |a: u64, b: u64| Some(a == b);
    assert_eq!(is_isomorphic_node_match(&first, &second, same), Ok(true));
    assert_eq!(is_isomorphic_matching(&first, &second, same), Ok(true));
    let third = graph(&[3, 2, 1], &[(1, 0), (1, 2)]);
    assert_eq!(is_isomorphic_node_match(&first, &third, same), Ok(false));
    assert!(is_isomorphic(&first, &third));
    assert_eq!(is_isomorphic_node_match(&first, &third, |_a: u64, _b: u64| Some(true)), Ok(true));
    assert_eq!(is_isomorphic_node_match(&first, &third, |_a: u64, _b: u64| Some(false)), Ok(false));
}

#[test]
fn a_failing_matcher_stops_the_search() {
    let first = graph(&[1, 2], &[(0, 1)]);
    let second = graph(&[1, 2], &[(0, 1)]);
    let answer = is_isomorphic_node_match(&first, &second, |a: u64, _b: u64| {
        if a == 2 {
            None
        } else {
            Some(true)
        }
    });
    assert_eq!(answer, Err(DagError::CallbackFailure));
}

#[test]
fn larger_grids_are_paired() {
    let n = 5;
    let mut edges = Vec::new();
    let mut turned = Vec::new();
    for r in 0..n {
        for c in 0..n {
            if c + 1 < n {
                edges.push((r * n + c, r * n + c + 1));
                turned.push((c * n + r, (c + 1) * n + r));
            }
            if r + 1 < n {
                edges.push((r * n + c, (r + 1) * n + c));
                turned.push((c * n + r, c * n + r + 1));
            }
        }
    }
    let payloads: Vec<u64> = (0..(n * n) as u64).collect();
    let first = graph(&payloads, &edges);
    let second = graph(&payloads, &turned);
    assert!(is_isomorphic(&first, &second));
    let mut broken = turned.clone();
    let last = broken.pop().unwrap();
    broken.push((0, last.1));
    let third = graph(&payloads, &broken);
    assert!(!is_isomorphic(&first, &third));
}

#[test]
fn the_answer_of_the_matcher_is_passed_on() {
    assert_eq!(matched(Some(true)), Ok(true));
    assert_eq!(matched(Some(false)), Ok(false));
    assert_eq!(matched(None), Err(DagError::CallbackFailure));
}

#[test]
fn the_matcher_is_not_asked_when_the_counts_differ() {
    let asked = std::cell::Cell::new(0);
    let failing = |_a: u64, _b: u64| {
        asked.set(asked.get() + 1);
        None
    };
    let first = graph(&[0, 1, 2], &[(0, 1)]);
    let more_nodes = graph(&[0, 1, 2, 3], &[(0, 1)]);
    let more_edges = graph(&[0, 1, 2], &[(0, 1), (1, 2)]);
    assert_eq!(is_isomorphic_node_match(&first, &more_nodes, failing), Ok(false));
    assert_eq!(is_isomorphic_node_match(&first, &more_edges, failing), Ok(false));
    assert_eq!(is_isomorphic_matching(&more_nodes, &first, failing), Ok(false));
    assert_eq!(asked.get(), 0);
}

#[test]
fn a_matcher_that_fails_at_once_ends_the_search() {
    let asked = std::cell::Cell::new(0);
    let failing = |_a: u64, _b: u64| {
        asked.set(asked.get() + 1);
        None
    };
    let first = graph(&[1, 2, 3], &[(0, 1), (1, 2)]);
    let second = graph(&[4, 5, 6], &[(2, 1), (1, 0)]);
    assert_eq!(is_isomorphic_node_match(&first, &second, failing), Err(DagError::CallbackFailure));
    assert_eq!(asked.get(), 1);
    assert_eq!(first.nodes(), vec![1, 2, 3]);
    assert_eq!(second.nodes(), vec![4, 5, 6]);
    assert_eq!(first.edge_count(), 2);
    assert_eq!(second.edge_count(), 2);
    assert!(is_isomorphic(&first, &second));
}

#[test]
fn a_matcher_that_fails_later_is_not_taken_for_a_refusal() {
    let asked = std::cell::Cell::new(0);
    let tiring = |_a: u64, _b: u64| {
        asked.set(asked.get() + 1);
        if asked.get() > 2 {
            None
        } else {
            Some(true)
        }
    };
    let first = graph(&[1, 2, 3, 4], &[(0, 1), (1, 2), (2, 3)]);
    let second = graph(&[5, 6, 7, 8], &[(3, 2), (2, 1), (1, 0)]);
    assert_eq!(is_isomorphic_node_match(&first, &second, tiring), Err(DagError::CallbackFailure));
    assert_eq!(asked.get(), 3);
}

#[test]
fn the_matcher_gets_a_payload_of_each_graph_in_order() {
    let calls = std::cell::RefCell::new(Vec::new());
    let recording = |a: u64, b: u64| {
        calls.borrow_mut().push((a, b));
        Some(a + 100 == b || a % 2 == b % 2)
    };
    let first = graph(&[1, 2, 3, 4], &[(0, 1), (0, 2), (1, 3), (2, 3)]);
    let second = graph(&[104, 103, 102, 101], &[(3, 2), (3, 1), (2, 0), (1, 0)]);
    assert_eq!(is_isomorphic_node_match(&first, &second, recording), Ok(true));
    assert!(!calls.borrow().is_empty());
    for (a, b) in calls.borrow().iter() {
        assert!(*a < 100 && *b > 100);
    }
}
