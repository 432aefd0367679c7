use graph_analytics::generator::generate_complete;
use graph_analytics::generator::generate_cycle;
use graph_analytics::generator::generate_disconnected;
use graph_analytics::generator::generate_line;
use graph_analytics::generator::generate_random;
use graph_analytics::generator::generate_star;

#[test]
fn test_generate_line_edges() {
    assert_eq!(generate_line(1), vec![]);
    assert_eq!(generate_line(4), vec![(0, 1), (1, 2), (2, 3)]);
}

#[test]
fn test_generate_star_edges() {
    assert_eq!(generate_star(0), vec![]);
    assert_eq!(generate_star(1), vec![]);
    assert_eq!(generate_star(4), vec![(0, 1), (0, 2), (0, 3)]);
}

#[test]
fn test_generate_cycle_edges() {
    assert_eq!(generate_cycle(1), vec![(0, 0)]);
    assert_eq!(generate_cycle(3), vec![(0, 1), (1, 2), (2, 0)]);
}

#[test]
fn test_generate_complete_edges() {
    assert_eq!(generate_complete(0), vec![]);
    assert_eq!(generate_complete(1), vec![]);
    assert_eq!(
        generate_complete(3),
        vec![(0, 1), (0, 2), (1, 0), (1, 2), (2, 0), (2, 1)]
    );
}

#[test]
fn test_generate_random_bounds() {
    let pairs = generate_random(5, 40);
    assert_eq!(pairs.len(), 40);
    for (src, dst) in pairs {
        assert!(src < 5);
        assert!(dst < 5);
    }
}

#[test]
fn test_generate_random_single_node() {
    // with one node the only possible draw is the self-loop
    let pairs = generate_random(1, 10);
    assert_eq!(pairs, vec![(0, 0); 10]);
}

#[test]
fn test_generate_disconnected_rejects_bad_counts() {
    assert!(generate_disconnected(10, 5, 0).is_none());
    assert!(generate_disconnected(10, 5, 11).is_none());
    assert!(generate_disconnected(10, 5, 10).is_some());
}

#[test]
fn test_generate_disconnected_stays_in_slices() {
    // 10 nodes in 2 components: slices 0..5 and 5..10, no edge crosses
    let pairs = generate_disconnected(10, 30, 2).unwrap();
    assert_eq!(pairs.len(), 30);
    for (src, dst) in pairs {
        assert_eq!(src < 5, dst < 5);
        assert!(src < 10 && dst < 10);
    }
}
