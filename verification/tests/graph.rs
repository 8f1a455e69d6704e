use spatialtis_core::bootstrap::to_position_graph;
use spatialtis_core::graph::{find_position, remove_rep_neighbors};

#[test]
fn normalize_keeps_one_direction() {
    // both directions of every edge are present; labels equal positions
    let neighbors = vec![vec![1, 2], vec![0, 2], vec![0, 1]];
    let labels = vec![0, 1, 2];
    let kept = remove_rep_neighbors(&neighbors, &labels, false);
    assert_eq!(kept, vec![vec![1, 2], vec![2], vec![]]);
}

#[test]
fn normalize_self_entries_follow_ignore_self() {
    let neighbors = vec![vec![0, 1], vec![1, 0]];
    let labels = vec![0, 1];
    let with_self = remove_rep_neighbors(&neighbors, &labels, false);
    assert_eq!(with_self, vec![vec![0, 1], vec![1]]);
    let without_self = remove_rep_neighbors(&neighbors, &labels, true);
    assert_eq!(without_self, vec![vec![1], vec![]]);
}

#[test]
fn normalize_is_idempotent() {
    // applying the normalizer twice yields the same adjacency as once
    let neighbors = vec![vec![3, 1, 0], vec![0, 2, 1], vec![1, 3], vec![2, 0, 3]];
    let labels = vec![0, 1, 2, 3];
    for ignore_self in [false, true] {
        let once = remove_rep_neighbors(&neighbors, &labels, ignore_self);
        let twice = remove_rep_neighbors(&once, &labels, ignore_self);
        assert_eq!(twice, once);
    }
}

#[test]
fn normalize_compares_labels_not_positions() {
    // the node at position 0 carries label 7: entries survive only when
    // their label exceeds 7
    let neighbors = vec![vec![3, 9], vec![7], vec![7, 3]];
    let labels = vec![7, 3, 9];
    let kept = remove_rep_neighbors(&neighbors, &labels, false);
    assert_eq!(kept, vec![vec![9], vec![7], vec![]]);
}

#[test]
fn find_position_returns_first_match() {
    let labels = vec![4, 2, 4, 8];
    assert_eq!(find_position(&labels, 4), Some(0));
    assert_eq!(find_position(&labels, 8), Some(3));
    assert_eq!(find_position(&labels, 5), None);
}

#[test]
fn position_graph_resolves_labels() {
    let graph = vec![vec![20], vec![30, 10], vec![]];
    let labels = vec![10, 20, 30];
    let pos = to_position_graph(&graph, &labels).unwrap();
    assert_eq!(pos, vec![vec![1], vec![2, 0], vec![]]);
}

#[test]
fn position_graph_rejects_unknown_labels() {
    let graph = vec![vec![99]];
    let labels = vec![10];
    assert!(to_position_graph(&graph, &labels).is_none());
}
