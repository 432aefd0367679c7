use graph_analytics::stats::bfs_stats;
use graph_analytics::stats::count_components;
use graph_analytics::top_k::top_nodes;

#[test]
fn test_top_nodes() {
    // positive floating scores compare like their bit patterns
    let ranks: Vec<u64> = vec![0.1f64, 0.4, 0.2, 0.3].iter().map(|r| r.to_bits()).collect();
    let top = top_nodes(&ranks, 2);

    assert_eq!(top[0].0, 1); //0.4
    assert_eq!(top[1].0, 3); //0.3
}

#[test]
fn test_top_nodes_truncates_to_length() {
    let scores: Vec<u64> = vec![5, 9, 1];
    let top = top_nodes(&scores, 10);
    assert_eq!(top, vec![(1, 9), (0, 5), (2, 1)]);
}

#[test]
fn test_top_nodes_ties_prefer_smaller_id() {
    let scores: Vec<u64> = vec![7, 3, 7, 7];
    let top = top_nodes(&scores, 3);
    assert_eq!(top, vec![(0, 7), (2, 7), (3, 7)]);
}

#[test]
fn test_top_nodes_empty_cases() {
    assert_eq!(top_nodes(&vec![], 4), vec![]);
    assert_eq!(top_nodes(&vec![1, 2], 0), vec![]);
}

#[test]
fn test_bfs_stats_counts() {
    let dist: Vec<i32> = vec![0, 1, -1, 2, -1];
    let (reached, unreached, max_dist) = bfs_stats(&dist);
    assert_eq!(reached, 3);
    assert_eq!(unreached, 2);
    assert_eq!(max_dist, 2);
}

#[test]
fn test_bfs_stats_all_unreached() {
    let dist: Vec<i32> = vec![-1, -1];
    let (reached, unreached, max_dist) = bfs_stats(&dist);
    assert_eq!(reached, 0);
    assert_eq!(unreached, 2);
    assert_eq!(max_dist, 0);
}

#[test]
fn test_count_components_distinct_labels() {
    assert_eq!(count_components(&vec![0, 0, 2, 2, 0]), 2);
    assert_eq!(count_components(&vec![0, 1, 2]), 3);
    assert_eq!(count_components(&vec![]), 0);
}
