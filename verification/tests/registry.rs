use spatialtis_core::registry::{build_category_pairs, build_index_pairs, distinct_categories};

fn strings(names: &[&str]) -> Vec<String> {
    names.iter().map(|s| s.to_string()).collect()
}

#[test]
fn distinct_keeps_first_seen_order() {
    let types = strings(&["b", "a", "b", "c", "a"]);
    let (ds, codes) = distinct_categories(&types);
    assert_eq!(ds, strings(&["b", "a", "c"]));
    assert_eq!(codes, vec![0, 1, 0, 2, 1]);
}

#[test]
fn distinct_of_empty_is_empty() {
    let types: Vec<String> = Vec::new();
    let (ds, codes) = distinct_categories(&types);
    assert!(ds.is_empty());
    assert!(codes.is_empty());
}

#[test]
fn unordered_pair_count_is_triangular() {
    // k categories give k * (k + 1) / 2 unordered pairs
    for k in 0..6usize {
        let pairs = build_index_pairs(k, false);
        assert_eq!(pairs.len(), k * (k + 1) / 2);
    }
}

#[test]
fn ordered_pair_count_is_square() {
    // k categories give k * k ordered pairs
    for k in 0..6usize {
        let pairs = build_index_pairs(k, true);
        assert_eq!(pairs.len(), k * k);
    }
}

#[test]
fn unordered_pairs_are_canonical() {
    let pairs = build_index_pairs(3, false);
    assert_eq!(pairs, vec![(0, 0), (0, 1), (0, 2), (1, 1), (1, 2), (2, 2)]);
}

#[test]
fn ordered_pairs_are_row_major() {
    let pairs = build_index_pairs(2, true);
    assert_eq!(pairs, vec![(0, 0), (0, 1), (1, 0), (1, 1)]);
}

#[test]
fn category_pairs_use_distinct_values() {
    let types = strings(&["A", "B", "A", "B"]);
    let pairs = build_category_pairs(&types, false);
    assert_eq!(pairs.len(), 3);
    assert_eq!(pairs[0], ("A".to_string(), "A".to_string()));
    assert_eq!(pairs[1], ("A".to_string(), "B".to_string()));
    assert_eq!(pairs[2], ("B".to_string(), "B".to_string()));
}

#[test]
fn category_pairs_ordered_includes_both_directions() {
    let types = strings(&["A", "B"]);
    let pairs = build_category_pairs(&types, true);
    assert_eq!(pairs.len(), 4);
    assert!(pairs.contains(&("A".to_string(), "B".to_string())));
    assert!(pairs.contains(&("B".to_string(), "A".to_string())));
    assert!(pairs.contains(&("A".to_string(), "A".to_string())));
    assert!(pairs.contains(&("B".to_string(), "B".to_string())));
}
