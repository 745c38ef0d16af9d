use ocm_graph::error::GraphError;
use ocm_graph::graph_builder::{GraphBuilder, PLineInfo};

fn byte_lines(ls: &[&str]) -> Vec<Vec<u8>> {
    let mut out: Vec<Vec<u8>> = Vec::new();
    for l in ls {
        out.push(l.as_bytes().to_vec());
    }
    out
}

#[test]
fn no_crossing_builder_witness_has_zero_crossings() {
    for f in [1usize, 2, 5, 8] {
        let (g, witness) = GraphBuilder::build_graph_with_fixed_nodes_and_no_crossings(f);
        assert_eq!(g.number_of_fixed_nodes(), f);
        assert_eq!(g.number_of_free_nodes(), f);
        assert_eq!(g.compute_number_of_crossings_for_ordering(&witness), Ok(0));
        let mut sorted = witness.clone();
        sorted.sort();
        let ascending: Vec<usize> = (f..2 * f).collect();
        assert_eq!(sorted, ascending);
    }
}

#[test]
fn no_crossing_builder_edge_count() {
    for f in [1usize, 3, 6] {
        let (g, _) = GraphBuilder::build_graph_with_fixed_nodes_and_no_crossings(f);
        assert_eq!(g.number_of_edges(), 2 * f - 1);
    }
}

#[test]
fn no_crossing_builder_degenerate_empty() {
    let (g, witness) = GraphBuilder::build_graph_with_fixed_nodes_and_no_crossings(0);
    assert_eq!(g.number_of_nodes(), 0);
    assert_eq!(g.number_of_edges(), 0);
    assert!(witness.is_empty());
}

#[test]
fn random_graph_exact_edge_count() {
    let g = GraphBuilder::build_random_graph(3, 4, 12).unwrap();
    assert_eq!(g.number_of_edges(), 12);
    let h = GraphBuilder::build_random_graph(3, 4, 5).unwrap();
    assert_eq!(h.number_of_edges(), 5);
    let e = GraphBuilder::build_random_graph(0, 4, 0).unwrap();
    assert_eq!(e.number_of_edges(), 0);
}

#[test]
fn random_graph_infeasible_request_fails() {
    assert!(matches!(
        GraphBuilder::build_random_graph(3, 4, 13),
        Err(GraphError::ValueError)
    ));
    assert!(matches!(
        GraphBuilder::build_random_graph(0, 4, 1),
        Err(GraphError::ValueError)
    ));
    assert!(matches!(
        GraphBuilder::build_random_graph(4, 0, 1),
        Err(GraphError::ValueError)
    ));
}

#[test]
fn random_graph_edges_are_fixed_to_free() {
    let g = GraphBuilder::build_random_graph(4, 3, 7).unwrap();
    let mut found = 0usize;
    for i in 0..g.number_of_nodes() {
        for j in (i + 1)..g.number_of_nodes() {
            if g.does_edge_exist(i, j).unwrap() {
                assert!((i < 4) != (j < 4));
                found += 1;
            }
        }
    }
    assert_eq!(found, 7);
}

#[test]
fn file_round_trip_scenario() {
    let lines = byte_lines(&["p ocm 2 2 4", "1 1", "1 2", "2 1", "2 2"]);
    let g = GraphBuilder::build_graph_from_lines(&lines).unwrap();
    assert_eq!(g.number_of_fixed_nodes(), 2);
    assert_eq!(g.number_of_free_nodes(), 2);
    assert_eq!(g.number_of_edges(), 4);
    assert_eq!(g.does_edge_exist(0, 2), Ok(true));
    assert_eq!(g.does_edge_exist(0, 3), Ok(true));
    assert_eq!(g.does_edge_exist(1, 2), Ok(true));
    assert_eq!(g.does_edge_exist(1, 3), Ok(true));
    assert_eq!(g.compute_number_of_crossings_with_default_ordering(), Ok(1));
}

#[test]
fn file_declared_count_mismatch_fails() {
    let lines = byte_lines(&["p ocm 2 2 3", "1 1", "1 2", "2 1", "2 2"]);
    assert!(matches!(
        GraphBuilder::build_graph_from_lines(&lines),
        Err(GraphError::ParseError)
    ));
}

#[test]
fn file_duplicate_edge_lines_count_once() {
    let lines = byte_lines(&["p ocm 2 2 1", "1 1", "1 1"]);
    let g = GraphBuilder::build_graph_from_lines(&lines).unwrap();
    assert_eq!(g.number_of_edges(), 1);
}

#[test]
fn file_comments_and_blank_lines_are_skipped() {
    let lines = byte_lines(&[
        "c a comment before the header",
        "",
        "p ocm 2 2 2",
        "c between the edges",
        "1 1",
        "",
        "2 2",
    ]);
    let g = GraphBuilder::build_graph_from_lines(&lines).unwrap();
    assert_eq!(g.number_of_edges(), 2);
    assert_eq!(g.does_edge_exist(0, 2), Ok(true));
    assert_eq!(g.does_edge_exist(1, 3), Ok(true));
}

#[test]
fn file_missing_or_misplaced_header_fails() {
    let none = byte_lines(&["c only a comment", ""]);
    assert!(matches!(
        GraphBuilder::build_graph_from_lines(&none),
        Err(GraphError::ParseError)
    ));
    let empty: Vec<Vec<u8>> = Vec::new();
    assert!(matches!(
        GraphBuilder::build_graph_from_lines(&empty),
        Err(GraphError::ParseError)
    ));
    let junk_first = byte_lines(&["x 1 2", "p ocm 2 2 0"]);
    assert!(matches!(
        GraphBuilder::build_graph_from_lines(&junk_first),
        Err(GraphError::ParseError)
    ));
}

#[test]
fn file_malformed_edge_lines_fail() {
    for bad in ["1", "1 2 3", "a b", "1  2", " 1 2"] {
        let lines = byte_lines(&["p ocm 2 2 1", bad]);
        assert!(
            matches!(
                GraphBuilder::build_graph_from_lines(&lines),
                Err(GraphError::ParseError)
            ),
            "line {:?} should be rejected",
            bad
        );
    }
    let zero = byte_lines(&["p ocm 2 2 1", "0 1"]);
    assert!(matches!(
        GraphBuilder::build_graph_from_lines(&zero),
        Err(GraphError::ParseError)
    ));
}

#[test]
fn file_out_of_range_edge_fails_with_index_error() {
    let free_too_large = byte_lines(&["p ocm 2 2 1", "1 3"]);
    assert!(matches!(
        GraphBuilder::build_graph_from_lines(&free_too_large),
        Err(GraphError::IndexError)
    ));
    let fixed_too_large = byte_lines(&["p ocm 2 2 1", "5 1"]);
    assert!(matches!(
        GraphBuilder::build_graph_from_lines(&fixed_too_large),
        Err(GraphError::IndexError)
    ));
}

#[test]
fn parse_edge_line_cases() {
    assert_eq!(
        GraphBuilder::parse_edge_line(&b"1 2".to_vec()),
        Some((1, 2))
    );
    assert_eq!(
        GraphBuilder::parse_edge_line(&b"+1 +2".to_vec()),
        Some((1, 2))
    );
    assert_eq!(
        GraphBuilder::parse_edge_line(&b"007 1".to_vec()),
        Some((7, 1))
    );
    assert_eq!(GraphBuilder::parse_edge_line(&b"1".to_vec()), None);
    assert_eq!(GraphBuilder::parse_edge_line(&b"1 2 3".to_vec()), None);
    assert_eq!(GraphBuilder::parse_edge_line(&b"x y".to_vec()), None);
    assert_eq!(GraphBuilder::parse_edge_line(&b"1  2".to_vec()), None);
    assert_eq!(GraphBuilder::parse_edge_line(&b"".to_vec()), None);
    assert_eq!(
        GraphBuilder::parse_edge_line(&b"99999999999999999999999999 1".to_vec()),
        None
    );
}

#[test]
fn p_line_cases() {
    let info = PLineInfo::build(&b"p ocm 2 3 4".to_vec()).unwrap();
    assert_eq!(info.descriptor, b"ocm".to_vec());
    assert_eq!(info.number_of_fixed_nodes, 2);
    assert_eq!(info.number_of_free_nodes, 3);
    assert_eq!(info.number_of_edges, 4);
    assert!(PLineInfo::build(&b"q ocm 2 3 4".to_vec()).is_none());
    assert!(PLineInfo::build(&b"p ocm 2 3".to_vec()).is_none());
    assert!(PLineInfo::build(&b"p ocm 2 3 4 5".to_vec()).is_none());
    assert!(PLineInfo::build(&b"p ocm a 3 4".to_vec()).is_none());
    assert!(PLineInfo::build(&b"pocm x 2 3 4".to_vec()).is_none());
    assert!(PLineInfo::build(&b"".to_vec()).is_none());
}
