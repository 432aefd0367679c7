use graph_analytics::graph::Graph;

#[test]
fn test_parse_basic_edge_list() {
    let text = b"0 1\n1 2\n2 0\n";
    let g = Graph::from_edge_list(text).unwrap();
    assert_eq!(g.num_nodes, 3);
    assert_eq!(g.edges, vec![vec![1], vec![2], vec![0]]);
}

#[test]
fn test_parse_node_count_is_max_id_plus_one() {
    let text = b"0 7\n";
    let g = Graph::from_edge_list(text).unwrap();
    assert_eq!(g.num_nodes, 8);
    assert_eq!(g.edges[0], vec![7]);
    for u in 1..8 {
        assert!(g.edges[u].is_empty());
    }
}

#[test]
fn test_parse_comments_and_blank_lines() {
    let text = b"// a comment line\n\n0 1\n   \n// 2 3\n1 0\n";
    let g = Graph::from_edge_list(text).unwrap();
    assert_eq!(g.num_nodes, 2);
    assert_eq!(g.edges, vec![vec![1], vec![0]]);
}

#[test]
fn test_parse_extra_tokens_skipped() {
    // a line without exactly two tokens contributes nothing
    let text = b"0 1 9\n5\n0 2\n";
    let g = Graph::from_edge_list(text).unwrap();
    assert_eq!(g.num_nodes, 3);
    assert_eq!(g.edges[0], vec![2]);
}

#[test]
fn test_parse_bad_number_is_error() {
    assert!(Graph::from_edge_list(b"0 x\n").is_none());
    assert!(Graph::from_edge_list(b"-1 2\n").is_none());
    assert!(Graph::from_edge_list(b"0 99999999999999999999999999\n").is_none());
}

#[test]
fn test_parse_indented_comment_is_error() {
    // the comment marker counts only at the line's first byte; indented it
    // leaves two tokens that are not numbers
    assert!(Graph::from_edge_list(b" // note\n").is_none());
}

#[test]
fn test_parse_plus_sign_and_padding() {
    let g = Graph::from_edge_list(b"+0 007\n").unwrap();
    assert_eq!(g.num_nodes, 8);
    assert_eq!(g.edges[0], vec![7]);
}

#[test]
fn test_parse_empty_input_is_single_node() {
    let g = Graph::from_edge_list(b"").unwrap();
    assert_eq!(g.num_nodes, 1);
    assert_eq!(g.edges, vec![Vec::<usize>::new()]);
}

#[test]
fn test_parse_crlf_and_tabs() {
    let g = Graph::from_edge_list(b"0\t1\r\n1\t2\r\n").unwrap();
    assert_eq!(g.num_nodes, 3);
    assert_eq!(g.edges, vec![vec![1], vec![2], vec![]]);
}

#[test]
fn test_parse_missing_final_newline() {
    let g = Graph::from_edge_list(b"0 1\n1 2").unwrap();
    assert_eq!(g.num_nodes, 3);
    assert_eq!(g.edges, vec![vec![1], vec![2], vec![]]);
}

#[test]
fn test_parse_duplicate_edges_kept_in_order() {
    let g = Graph::from_edge_list(b"0 1\n0 1\n0 0\n").unwrap();
    assert_eq!(g.edges[0], vec![1, 1, 0]);
}

#[test]
fn test_parse_then_bfs() {
    // the loaded graph feeds the engines directly
    let text = b"// diamond with a tail\n0 1\n0 2\n1 3\n2 3\n3 4\n";
    let g = Graph::from_edge_list(text).unwrap();
    assert_eq!(g.num_nodes, 5);
    let dist = graph_analytics::bfs::bfs_sequential(&g, 0);
    assert_eq!(dist, vec![0, 1, 1, 2, 3]);
}
