use ocm_graph::error::GraphError;
use ocm_graph::graph::Graph;

#[test]
fn new_graph_is_empty() {
    let g = Graph::new(3, 4);
    assert_eq!(g.number_of_fixed_nodes(), 3);
    assert_eq!(g.number_of_free_nodes(), 4);
    assert_eq!(g.number_of_nodes(), 7);
    assert_eq!(g.number_of_edges(), 0);
    assert_eq!(g.does_edge_exist(0, 3), Ok(false));
}

#[test]
fn add_edge_symmetry_and_idempotence() {
    let mut g = Graph::new(2, 2);
    assert_eq!(g.add_edge(0, 2), Ok(true));
    assert_eq!(g.does_edge_exist(0, 2), Ok(true));
    assert_eq!(g.does_edge_exist(2, 0), Ok(true));
    assert_eq!(g.number_of_edges(), 1);
    assert_eq!(g.add_edge(0, 2), Ok(false));
    assert_eq!(g.number_of_edges(), 1);
    assert_eq!(g.add_edge(2, 0), Ok(false));
    assert_eq!(g.number_of_edges(), 1);
}

#[test]
fn add_edge_and_query_bounds() {
    let mut g = Graph::new(2, 2);
    assert_eq!(g.add_edge(4, 0), Err(GraphError::IndexError));
    assert_eq!(g.add_edge(0, 4), Err(GraphError::IndexError));
    assert_eq!(g.number_of_edges(), 0);
    assert_eq!(g.does_edge_exist(4, 0), Err(GraphError::IndexError));
    assert_eq!(g.does_edge_exist(0, 4), Err(GraphError::IndexError));
}

#[test]
fn self_loop_is_not_counted() {
    let mut g = Graph::new(1, 1);
    assert_eq!(g.add_edge(1, 1), Ok(true));
    assert_eq!(g.number_of_edges(), 0);
    assert_eq!(g.does_edge_exist(1, 1), Ok(true));
    assert_eq!(g.add_edge(1, 1), Ok(false));
    assert_eq!(g.number_of_edges(), 0);
}

#[test]
fn default_crossings_of_complete_bipartite_pair() {
    let mut g = Graph::new(2, 2);
    g.add_edge(0, 2).unwrap();
    g.add_edge(0, 3).unwrap();
    g.add_edge(1, 2).unwrap();
    g.add_edge(1, 3).unwrap();
    assert_eq!(g.compute_number_of_crossings_with_default_ordering(), Ok(1));
}

#[test]
fn default_crossings_of_empty_graphs() {
    let g = Graph::new(4, 4);
    assert_eq!(g.compute_number_of_crossings_with_default_ordering(), Ok(0));
    let h = Graph::new(0, 3);
    assert_eq!(h.compute_number_of_crossings_with_default_ordering(), Ok(0));
    let e = Graph::new(0, 0);
    assert_eq!(e.compute_number_of_crossings_with_default_ordering(), Ok(0));
}

#[test]
fn ascending_ordering_agrees_with_default() {
    let mut g = Graph::new(3, 3);
    g.add_edge(0, 4).unwrap();
    g.add_edge(0, 5).unwrap();
    g.add_edge(1, 3).unwrap();
    g.add_edge(2, 4).unwrap();
    g.add_edge(2, 3).unwrap();
    let default_count = g.compute_number_of_crossings_with_default_ordering().unwrap();
    let ascending: Vec<usize> = vec![3, 4, 5];
    assert_eq!(
        g.compute_number_of_crossings_for_ordering(&ascending),
        Ok(default_count)
    );
}

#[test]
fn reordering_changes_the_count() {
    let mut g = Graph::new(2, 2);
    g.add_edge(0, 2).unwrap();
    g.add_edge(1, 3).unwrap();
    assert_eq!(g.compute_number_of_crossings_with_default_ordering(), Ok(0));
    let reversed: Vec<usize> = vec![3, 2];
    assert_eq!(g.compute_number_of_crossings_for_ordering(&reversed), Ok(1));
}

#[test]
fn ordering_validation_rejects_bad_sequences() {
    let mut g = Graph::new(2, 2);
    g.add_edge(0, 2).unwrap();
    let too_short: Vec<usize> = vec![2];
    assert_eq!(
        g.compute_number_of_crossings_for_ordering(&too_short),
        Err(GraphError::ValueError)
    );
    let too_long: Vec<usize> = vec![2, 3, 2];
    assert_eq!(
        g.compute_number_of_crossings_for_ordering(&too_long),
        Err(GraphError::ValueError)
    );
    let duplicated: Vec<usize> = vec![2, 2];
    assert_eq!(
        g.compute_number_of_crossings_for_ordering(&duplicated),
        Err(GraphError::ValueError)
    );
    let fixed_index: Vec<usize> = vec![1, 2];
    assert_eq!(
        g.compute_number_of_crossings_for_ordering(&fixed_index),
        Err(GraphError::ValueError)
    );
    let out_of_range: Vec<usize> = vec![2, 4];
    assert_eq!(
        g.compute_number_of_crossings_for_ordering(&out_of_range),
        Err(GraphError::ValueError)
    );
    let empty: Vec<usize> = vec![];
    assert_eq!(
        g.compute_number_of_crossings_for_ordering(&empty),
        Err(GraphError::ValueError)
    );
}
