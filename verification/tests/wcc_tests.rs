use graph_analytics::graph::Graph;
use graph_analytics::stats::count_components;
use graph_analytics::union_find::MinIdUnionFind;
use graph_analytics::union_find::UnionFind;
use graph_analytics::wcc::wcc_parallel;
use graph_analytics::wcc::wcc_sequential;

#[test]
fn test_union_find_basic() {
    let mut uf = UnionFind::new(5);

    assert_eq!(uf.find(0), 0);
    assert_eq!(uf.find(1), 1);
    assert_eq!(uf.find(2), 2);

    uf.union(0, 1);
    assert_eq!(uf.find(0), uf.find(1));

    uf.union(1, 2);
    assert_eq!(uf.find(0), uf.find(2));

    assert_ne!(uf.find(0), uf.find(3));
    assert_ne!(uf.find(0), uf.find(4));
}

#[test]
fn test_union_find_idempotent() {
    // re-running a union of two fresh singletons leaves the forest unchanged
    let mut uf = UnionFind::new(3);
    uf.union(0, 1);
    let parents_before = uf.parent.clone();
    let ranks_before = uf.rank.clone();
    uf.union(0, 1);
    assert_eq!(uf.parent, parents_before);
    assert_eq!(uf.rank, ranks_before);
}

#[test]
fn test_wcc_simple() {
    let graph = Graph {
        num_nodes: 5,
        edges: vec![
            vec![1], // 0→1
            vec![2], // 1→2
            vec![],  // 2
            vec![4], // 3→4
            vec![],  // 4
        ],
    };

    let result = wcc_sequential(&graph);

    assert_eq!(result[0], result[1]);
    assert_eq!(result[1], result[2]);

    assert_eq!(result[3], result[4]);

    assert_ne!(result[0], result[3]);
}

#[test]
fn test_wcc_all_connected() {
    let graph = Graph {
        num_nodes: 4,
        edges: vec![vec![1], vec![2], vec![3], vec![]],
    };

    let result = wcc_sequential(&graph);

    assert_eq!(result[0], result[1]);
    assert_eq!(result[1], result[2]);
    assert_eq!(result[2], result[3]);
}

#[test]
fn test_wcc_all_disconnected() {
    let graph = Graph {
        num_nodes: 4,
        edges: vec![vec![], vec![], vec![], vec![]],
    };

    let result = wcc_sequential(&graph);

    assert_ne!(result[0], result[1]);
    assert_ne!(result[1], result[2]);
    assert_ne!(result[2], result[3]);
}

#[test]
fn test_concurrent_union_find() {
    let mut uf = MinIdUnionFind::new(5);

    assert_eq!(uf.find(0), 0);
    assert_eq!(uf.find(1), 1);

    uf.union(0, 1);
    assert_eq!(uf.find(0), uf.find(1));

    uf.union(1, 2);
    assert_eq!(uf.find(0), uf.find(2));
}

#[test]
fn test_min_id_union_find_labels() {
    // linking by id leaves the smallest member as every class's root
    let mut uf = MinIdUnionFind::new(6);
    uf.union(5, 3);
    uf.union(3, 4);
    assert_eq!(uf.find(5), 3);
    assert_eq!(uf.find(4), 3);
    uf.union(4, 1);
    assert_eq!(uf.find(5), 1);
}

#[test]
fn test_wcc_parallel_vs_sequential() {
    //0→1→2, 3→4
    let graph = Graph {
        num_nodes: 5,
        edges: vec![vec![1], vec![2], vec![], vec![4], vec![]],
    };

    let seq_result = wcc_sequential(&graph);
    let par_result = wcc_parallel(&graph, 4);

    assert_eq!(
        seq_result[0] == seq_result[1],
        par_result[0] == par_result[1]
    );
    assert_eq!(
        seq_result[1] == seq_result[2],
        par_result[1] == par_result[2]
    );

    assert_eq!(
        seq_result[3] == seq_result[4],
        par_result[3] == par_result[4]
    );

    assert_ne!(par_result[0] == par_result[3], true);
}

#[test]
fn test_wcc_scenario_two_groups() {
    // edges {0→1, 1→2, 3→4} over 5 nodes group {0,1,2} apart from {3,4}
    let graph = Graph {
        num_nodes: 5,
        edges: vec![vec![1], vec![2], vec![], vec![4], vec![]],
    };

    for labels in [wcc_sequential(&graph), wcc_parallel(&graph, 3)] {
        assert_eq!(labels[0], labels[1]);
        assert_eq!(labels[1], labels[2]);
        assert_eq!(labels[3], labels[4]);
        assert_ne!(labels[0], labels[3]);
        assert_eq!(count_components(&labels), 2);
    }
}

#[test]
fn test_wcc_direction_ignored() {
    // weak connectivity joins endpoints whichever way the edge points
    let graph = Graph {
        num_nodes: 3,
        edges: vec![vec![], vec![0], vec![1]],
    };

    let labels = wcc_sequential(&graph);
    assert_eq!(labels[0], labels[1]);
    assert_eq!(labels[1], labels[2]);
    assert_eq!(count_components(&labels), 1);
}

#[test]
fn test_wcc_parallel_vs_sequential_random() {
    // a larger random instance, built in memory, has the same number of
    // components under both modes
    let pairs = graph_analytics::generator::generate_random(200, 300);
    let mut edges: Vec<Vec<usize>> = vec![Vec::new(); 200];
    for (src, dst) in pairs {
        edges[src].push(dst);
    }
    let graph = Graph { num_nodes: 200, edges };

    let seq = wcc_sequential(&graph);
    let par = wcc_parallel(&graph, 4);

    assert_eq!(count_components(&seq), count_components(&par));
    for x in 0..graph.num_nodes {
        for y in 0..graph.num_nodes {
            assert_eq!(seq[x] == seq[y], par[x] == par[y]);
        }
    }
}

#[test]
fn test_wcc_parallel_min_labels() {
    // the id tie-break leaves each component labeled by its smallest node
    let graph = Graph {
        num_nodes: 5,
        edges: vec![vec![1], vec![2], vec![], vec![4], vec![]],
    };

    let labels = wcc_parallel(&graph, 4);
    assert_eq!(labels, vec![0, 0, 0, 3, 3]);
}
