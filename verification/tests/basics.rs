use spatialtis_core::quad_stats::QuadStats;
use spatialtis_core::{neighbor_components, py_kwarg};

#[test]
fn py_kwarg_prefers_the_argument() {
    assert_eq!(py_kwarg(Some(3usize), 7), 3);
    assert_eq!(py_kwarg(None, 7), 7);
    assert_eq!(py_kwarg(Some("given"), "default"), "given");
}

#[test]
fn quad_stats_new_defaults() {
    let q = QuadStats::new();
    assert_eq!(q.nx, 10);
    assert_eq!(q.ny, 10);
    assert!(q.cells_grid_id.is_empty());
}

#[test]
fn neighbor_components_counts_types() {
    // neighbors name nodes by label; two types in first-seen order
    let neighbors = vec![vec![1, 2], vec![0, 2], vec![0, 1]];
    let labels = vec![0, 1, 2];
    let types: Vec<String> = vec!["A".to_string(), "B".to_string(), "A".to_string()];
    let (uni, counts) = neighbor_components(&neighbors, &labels, &types);
    assert_eq!(uni, vec!["A".to_string(), "B".to_string()]);
    // node 0 sees one B (label 1) and one A (label 2)
    assert_eq!(counts[0], vec![1, 1]);
    // node 1 sees two As
    assert_eq!(counts[1], vec![2, 0]);
    // node 2 sees one A and one B
    assert_eq!(counts[2], vec![1, 1]);
}

#[test]
fn neighbor_components_empty_neighborhoods() {
    let neighbors: Vec<Vec<usize>> = vec![vec![], vec![]];
    let labels = vec![10, 20];
    let types: Vec<String> = vec!["T".to_string(), "T".to_string()];
    let (uni, counts) = neighbor_components(&neighbors, &labels, &types);
    assert_eq!(uni, vec!["T".to_string()]);
    assert_eq!(counts, vec![vec![0], vec![0]]);
}
