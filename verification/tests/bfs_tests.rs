use graph_analytics::bfs::bfs_parallel;
use graph_analytics::bfs::bfs_sequential;
use graph_analytics::graph::Graph;

#[test]
fn test_bfs_simple() {
    let graph = Graph {
        num_nodes: 4,
        edges: vec![
            vec![1, 3], // 0
            vec![2],    // 1
            vec![3],    // 2
            vec![],     // 3
        ],
    };

    let result = bfs_sequential(&graph, 0);

    assert_eq!(result[0], 0);
    assert_eq!(result[1], 1);
    assert_eq!(result[2], 2);
    assert_eq!(result[3], 1);
}

#[test]
fn test_bfs_disconnected() {
    let graph = Graph {
        num_nodes: 4,
        edges: vec![
            vec![1], // 0
            vec![],  // 1
            vec![3], // 2
            vec![],  // 3
        ],
    };

    let result = bfs_sequential(&graph, 0);

    assert_eq!(result[0], 0);
    assert_eq!(result[1], 1);
    assert_eq!(result[2], -1);
    assert_eq!(result[3], -1);
}

#[test]
fn test_bfs_cycle() {
    let graph = Graph {
        num_nodes: 3,
        edges: vec![vec![1], vec![2], vec![0]],
    };

    let result = bfs_sequential(&graph, 0);

    assert_eq!(result[0], 0);
    assert_eq!(result[1], 1);
    assert_eq!(result[2], 2);
}

#[test]
fn test_bfs_parallel_vs_sequential() {
    let graph = Graph {
        num_nodes: 5,
        edges: vec![
            vec![1, 2], // 0→1, 0→2
            vec![3],    // 1→3
            vec![3],    // 2→3
            vec![4],    // 3→4
            vec![],     // 4
        ],
    };

    let seq = bfs_sequential(&graph, 0);
    let par = bfs_parallel(&graph, 0, 4);

    for i in 0..graph.num_nodes {
        assert_eq!(seq[i], par[i], "Node {}: seq={}, par={}", i, seq[i], par[i]);
    }
}

#[test]
fn test_bfs_parallel_large() {
    let graph = Graph {
        num_nodes: 10,
        edges: vec![
            vec![1, 2, 3],
            vec![4],
            vec![5],
            vec![6],
            vec![7],
            vec![8],
            vec![9],
            vec![0],
            vec![0],
            vec![0],
        ],
    };

    let seq = bfs_sequential(&graph, 0);
    let par = bfs_parallel(&graph, 0, 8);

    assert_eq!(seq, par);
}

#[test]
fn test_bfs_parallel_disconnected() {
    let graph = Graph {
        num_nodes: 6,
        edges: vec![
            vec![1], // 0→1
            vec![2], // 1→2
            vec![],  // 2
            vec![4], // 3→4
            vec![5], // 4→5
            vec![],  // 5
        ],
    };

    let seq = bfs_sequential(&graph, 0);
    let par = bfs_parallel(&graph, 0, 4);

    assert_eq!(seq, par);

    assert_eq!(par[3], -1);
    assert_eq!(par[4], -1);
    assert_eq!(par[5], -1);
}

#[test]
fn test_bfs_scenario_diamond_chain() {
    // 0→1, 0→2, 1→3, 2→3, 3→4 from node 0 labels the levels 0,1,1,2,3
    let graph = Graph {
        num_nodes: 5,
        edges: vec![vec![1, 2], vec![3], vec![3], vec![4], vec![]],
    };

    let seq = bfs_sequential(&graph, 0);
    assert_eq!(seq, vec![0, 1, 1, 2, 3]);

    let par = bfs_parallel(&graph, 0, 4);
    assert_eq!(par, vec![0, 1, 1, 2, 3]);
}

#[test]
fn test_bfs_isolated_source() {
    // a source with no incident edges keeps distance zero, the rest stay -1
    let graph = Graph {
        num_nodes: 4,
        edges: vec![vec![1], vec![0], vec![], vec![1]],
    };

    let seq = bfs_sequential(&graph, 2);
    assert_eq!(seq, vec![-1, -1, 0, -1]);

    let par = bfs_parallel(&graph, 2, 3);
    assert_eq!(par, vec![-1, -1, 0, -1]);
}

#[test]
fn test_bfs_single_node() {
    let graph = Graph { num_nodes: 1, edges: vec![vec![]] };

    assert_eq!(bfs_sequential(&graph, 0), vec![0]);
    assert_eq!(bfs_parallel(&graph, 0, 2), vec![0]);
}

#[test]
fn test_bfs_self_loop_and_duplicate_edges() {
    let graph = Graph {
        num_nodes: 3,
        edges: vec![vec![0, 1, 1], vec![2, 2], vec![]],
    };

    let seq = bfs_sequential(&graph, 0);
    let par = bfs_parallel(&graph, 0, 2);
    assert_eq!(seq, vec![0, 1, 2]);
    assert_eq!(seq, par);
}
