use spatialtis_core::interaction::{comb_count_neighbors, count_neighbors};

#[test]
fn count_neighbors_ordered_path_graph() {
    // positions 0-1-2-3 in a path, already normalized: 0->1, 1->2, 2->3
    let graph = vec![vec![1], vec![2], vec![3], vec![]];
    let codes = vec![0, 1, 0, 1]; // A B A B
    let (m, occ) = count_neighbors(&codes, &graph, 2, true);
    // cells row-major: (A,A) (A,B) (B,A) (B,B)
    assert_eq!(m, vec![0, 2, 1, 0]);
    assert_eq!(occ, vec![2, 2]);
}

#[test]
fn count_neighbors_unordered_folds_double() {
    let graph = vec![vec![1], vec![2], vec![3], vec![]];
    let codes = vec![0, 1, 0, 1];
    let (m, occ) = count_neighbors(&codes, &graph, 2, false);
    // every cross observation is added twice under the canonical key
    assert_eq!(m, vec![0, 6, 0, 0]);
    assert_eq!(occ, vec![2, 2]);
}

#[test]
fn count_neighbors_self_pairs_count_once() {
    // two A nodes adjacent, one B node adjacent to an A
    let graph = vec![vec![1, 2], vec![], vec![]];
    let codes = vec![0, 0, 1];
    let (m, _) = count_neighbors(&codes, &graph, 2, false);
    // (A,A): one entry, counted once; (A,B): one entry, counted twice
    assert_eq!(m, vec![1, 2, 0, 0]);
}

#[test]
fn count_neighbors_zero_edges_is_zero() {
    // a graph without edges accumulates nothing
    let graph = vec![vec![], vec![], vec![]];
    let codes = vec![0, 1, 2];
    let (m, occ) = count_neighbors(&codes, &graph, 3, false);
    assert!(m.iter().all(|&v| v == 0));
    assert_eq!(occ, vec![1, 1, 1]);
}

#[test]
fn comb_count_counts_positive_edges() {
    let graph = vec![vec![1], vec![2], vec![3], vec![]];
    let x = vec![true, false, true, false];
    let y = vec![false, true, false, true];
    // edges from x-positive nodes (0 and 2) to y-positive targets (1 and 3)
    assert_eq!(comb_count_neighbors(&x, &y, &graph), 2);
    // the statistic is directional
    assert_eq!(comb_count_neighbors(&y, &x, &graph), 1);
}

#[test]
fn comb_count_zero_edges_is_zero() {
    let graph = vec![vec![], vec![]];
    let x = vec![true, true];
    let y = vec![true, true];
    assert_eq!(comb_count_neighbors(&x, &y, &graph), 0);
}
