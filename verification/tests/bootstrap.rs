use spatialtis_core::bootstrap::{
    bootstrap_categorical, bootstrap_marker_pair, comb_bootstrap, parse_method, BootstrapConfig,
    Frac, InputError, Method,
};

fn strings(names: &[&str]) -> Vec<String> {
    names.iter().map(|s| s.to_string()).collect()
}

fn path_graph() -> (Vec<Vec<usize>>, Vec<usize>) {
    // 4 nodes in a path; neighbor entries are labels, labels equal positions
    let neighbors = vec![vec![1], vec![0, 2], vec![1, 3], vec![2]];
    let labels = vec![0, 1, 2, 3];
    (neighbors, labels)
}

#[test]
fn rejects_zero_times() {
    let (neighbors, labels) = path_graph();
    let types = strings(&["A", "B", "A", "B"]);
    let cfg = BootstrapConfig { times: 0, ..Default::default() };
    let r = bootstrap_categorical(&types, &neighbors, &labels, &cfg);
    assert_eq!(r.unwrap_err(), InputError::ZeroTimes);
}

#[test]
fn rejects_shape_mismatch() {
    let (neighbors, labels) = path_graph();
    let types = strings(&["A", "B", "A"]);
    let cfg = BootstrapConfig::default();
    let r = bootstrap_categorical(&types, &neighbors, &labels, &cfg);
    assert_eq!(r.unwrap_err(), InputError::ShapeMismatch);
}

#[test]
fn rejects_empty_categories() {
    let types: Vec<String> = vec![];
    let neighbors: Vec<Vec<usize>> = vec![];
    let labels: Vec<usize> = vec![];
    let cfg = BootstrapConfig::default();
    let r = bootstrap_categorical(&types, &neighbors, &labels, &cfg);
    assert_eq!(r.unwrap_err(), InputError::EmptyCategories);
}

#[test]
fn rejects_unknown_neighbor_label() {
    let neighbors = vec![vec![9]];
    let labels = vec![0];
    let types = strings(&["A"]);
    let cfg = BootstrapConfig::default();
    let r = bootstrap_categorical(&types, &neighbors, &labels, &cfg);
    assert_eq!(r.unwrap_err(), InputError::UnknownNeighborLabel);
}

#[test]
fn unknown_label_dropped_by_normalization_is_accepted() {
    // the entry 0 does not resolve, but label 0 < center label 5, so the
    // normalizer drops it before label resolution
    let neighbors = vec![vec![0]];
    let labels = vec![5];
    let types = strings(&["A"]);
    let cfg = BootstrapConfig { times: 10, ..Default::default() };
    let r = bootstrap_categorical(&types, &neighbors, &labels, &cfg).unwrap();
    assert_eq!(r.len(), 1);
    assert_eq!(r[0].indicator, 0);
}

#[test]
fn path_graph_unordered_pval_shape() {
    // 4 nodes, A B A B: exactly the pairs (A,A), (A,B), (B,B), each with
    // an indicator in {-1, 0, 1}
    let (neighbors, labels) = path_graph();
    let types = strings(&["A", "B", "A", "B"]);
    let cfg = BootstrapConfig { times: 200, ..Default::default() };
    let r = bootstrap_categorical(&types, &neighbors, &labels, &cfg).unwrap();
    assert_eq!(r.len(), 3);
    assert_eq!((r[0].a.as_str(), r[0].b.as_str()), ("A", "A"));
    assert_eq!((r[1].a.as_str(), r[1].b.as_str()), ("A", "B"));
    assert_eq!((r[2].a.as_str(), r[2].b.as_str()), ("B", "B"));
    for rec in &r {
        assert!(rec.indicator >= -1 && rec.indicator <= 1);
        let p = rec.p.unwrap();
        assert_eq!(p.den, 201);
        assert!(p.num <= 200);
        // the empirical method reports no null moments
        assert!(rec.null.is_none());
    }
    // observed statistics are exact: every edge of the path joins an A to
    // a B, each counted twice under the canonical unordered key
    assert_eq!(r[0].observed_num, 0);
    assert_eq!(r[1].observed_num, 6);
    assert_eq!(r[2].observed_num, 0);
    assert_eq!(r[0].observed_den, 2);
    assert_eq!(r[1].observed_den, 2);
    assert_eq!(r[2].observed_den, 2);
}

#[test]
fn path_graph_ordered_pval_shape() {
    let (neighbors, labels) = path_graph();
    let types = strings(&["A", "B", "A", "B"]);
    let cfg = BootstrapConfig { times: 50, order: true, ..Default::default() };
    let r = bootstrap_categorical(&types, &neighbors, &labels, &cfg).unwrap();
    assert_eq!(r.len(), 4);
    // row-major over first-seen indices: (A,A), (A,B), (B,A), (B,B)
    assert_eq!((r[1].a.as_str(), r[1].b.as_str()), ("A", "B"));
    assert_eq!((r[2].a.as_str(), r[2].b.as_str()), ("B", "A"));
    assert_eq!(r[1].observed_num, 2);
    assert_eq!(r[2].observed_num, 1);
}

#[test]
fn zero_edges_every_indicator_zero() {
    // with no edges every observed statistic is 0 and every indicator is
    // 0, by either method, whatever `times`
    let neighbors: Vec<Vec<usize>> = vec![vec![], vec![], vec![]];
    let labels = vec![0, 1, 2];
    let types = strings(&["A", "B", "A"]);
    for method in [Method::Pval, Method::Zscore] {
        for times in [1usize, 7, 40] {
            let cfg = BootstrapConfig { times, method, ..Default::default() };
            let r = bootstrap_categorical(&types, &neighbors, &labels, &cfg).unwrap();
            assert_eq!(r.len(), 3);
            for rec in &r {
                assert_eq!(rec.observed_num, 0);
                assert_eq!(rec.indicator, 0);
            }
            match method {
                // every sample equals the observed 0, so both tails are
                // full and the one-sided p-value is times / (times + 1)
                Method::Pval => {
                    for rec in &r {
                        assert_eq!(rec.p, Some(Frac { num: times, den: times + 1 }));
                    }
                },
                // a degenerate null falls back to p = 1
                Method::Zscore => {
                    for rec in &r {
                        assert_eq!(rec.p, Some(Frac { num: 1, den: 1 }));
                    }
                },
            }
        }
    }
}

#[test]
fn single_category_null_is_deterministic() {
    // with one category every permutation of the labeling is the same
    // labeling, so each null sample equals the observed statistic exactly
    let neighbors = vec![vec![1], vec![0, 2], vec![1]];
    let labels = vec![0, 1, 2];
    let types = strings(&["T", "T", "T"]);
    let cfg = BootstrapConfig { times: 9, ..Default::default() };
    let r = bootstrap_categorical(&types, &neighbors, &labels, &cfg).unwrap();
    assert_eq!(r.len(), 1);
    // two surviving entries (0 -> 1, 1 -> 2), both same-category
    assert_eq!(r[0].observed_num, 2);
    assert_eq!(r[0].observed_den, 3);
    assert_eq!(r[0].p, Some(Frac { num: 9, den: 10 }));
    assert_eq!(r[0].indicator, 0);
}

#[test]
fn zscore_method_runs_on_path_graph() {
    let (neighbors, labels) = path_graph();
    let types = strings(&["A", "B", "A", "B"]);
    let cfg = BootstrapConfig { times: 100, method: Method::Zscore, ..Default::default() };
    let r = bootstrap_categorical(&types, &neighbors, &labels, &cfg).unwrap();
    assert_eq!(r.len(), 3);
    for rec in &r {
        assert!(rec.indicator >= -1 && rec.indicator <= 1);
        match rec.p {
            Some(f) => assert_eq!((f.num, f.den), (1, 1)),
            None => {}
        }
        // the z-score method always reports the null's exact moments
        let m = rec.null.unwrap();
        assert_eq!(m.n, 100);
        assert!(m.sum <= 100 * 6);
    }
}

#[test]
fn marker_pair_rejects_zero_times() {
    let (neighbors, labels) = path_graph();
    let x = vec![true, false, true, false];
    let y = vec![false, true, false, true];
    let r = bootstrap_marker_pair(&x, &y, &neighbors, &labels, 0, 27055, 10000);
    assert_eq!(r.unwrap_err(), InputError::ZeroTimes);
}

#[test]
fn marker_pair_rejects_shape_mismatch() {
    let (neighbors, labels) = path_graph();
    let x = vec![true, false];
    let y = vec![false, true, false, true];
    let r = bootstrap_marker_pair(&x, &y, &neighbors, &labels, 10, 27055, 10000);
    assert_eq!(r.unwrap_err(), InputError::ShapeMismatch);
}

#[test]
fn marker_pair_runs_on_path_graph() {
    let (neighbors, labels) = path_graph();
    let x = vec![true, false, true, false];
    let y = vec![false, true, false, true];
    let out = bootstrap_marker_pair(&x, &y, &neighbors, &labels, 100, 27055, 10000).unwrap();
    // the observed statistic is exact: edges 0 -> 1 and 2 -> 3 lead from
    // an x-positive node to a y-positive node
    assert_eq!(out.observed, 2);
    assert_eq!(out.null.n, 100);
    assert!(out.indicator >= -1 && out.indicator <= 1);
    if out.degenerate {
        assert_eq!(out.indicator, 0);
    }
}

#[test]
fn marker_pair_zero_edges_degenerate() {
    let neighbors: Vec<Vec<usize>> = vec![vec![], vec![]];
    let labels = vec![0, 1];
    let x = vec![true, true];
    let y = vec![true, false];
    let out = bootstrap_marker_pair(&x, &y, &neighbors, &labels, 25, 27055, 10000).unwrap();
    assert!(out.degenerate);
    assert_eq!(out.indicator, 0);
    // with no edges the observed statistic and every null sample are 0
    assert_eq!(out.observed, 0);
    assert_eq!(out.null.n, 25);
    assert_eq!(out.null.sum, 0);
    assert_eq!(out.null.sum_sq, 0);
}

#[test]
fn comb_bootstrap_unordered_is_symmetric() {
    // with order unset the reverse record repeats the forward verdict, so
    // swapping two markers never changes the reported value
    let (neighbors, labels) = path_graph();
    let exp_matrix = vec![
        vec![true, false, true, false],
        vec![false, true, false, true],
        vec![true, true, false, false],
    ];
    let markers = strings(&["m1", "m2", "m3"]);
    let r = comb_bootstrap(&exp_matrix, &markers, &neighbors, &labels, 27055, 10000, false, 60)
        .unwrap();
    // 3 markers: 6 combinations with replacement, two records each
    assert_eq!(r.len(), 12);
    for pair in r.chunks(2) {
        assert_eq!(pair[0].a, pair[1].b);
        assert_eq!(pair[0].b, pair[1].a);
        assert_eq!(pair[0].observed, pair[1].observed);
        assert_eq!(pair[0].indicator, pair[1].indicator);
        assert_eq!(pair[0].degenerate, pair[1].degenerate);
        assert_eq!(pair[0].null, pair[1].null);
    }
    // the forward observed statistics are exact
    assert_eq!((r[2].a.as_str(), r[2].b.as_str()), ("m1", "m2"));
    assert_eq!(r[2].observed, 2);
}

#[test]
fn comb_bootstrap_ordered_scores_both_directions() {
    let (neighbors, labels) = path_graph();
    let exp_matrix = vec![vec![true, false, true, false], vec![false, true, false, true]];
    let markers = strings(&["m1", "m2"]);
    let r = comb_bootstrap(&exp_matrix, &markers, &neighbors, &labels, 27055, 10000, true, 60)
        .unwrap();
    assert_eq!(r.len(), 6);
    assert_eq!((r[2].a.as_str(), r[2].b.as_str()), ("m1", "m2"));
    assert_eq!((r[3].a.as_str(), r[3].b.as_str()), ("m2", "m1"));
    // the statistic is directional, and each orientation is exact
    assert_eq!(r[2].observed, 2);
    assert_eq!(r[3].observed, 1);
    for rec in &r {
        assert!(rec.indicator >= -1 && rec.indicator <= 1);
    }
}

#[test]
fn comb_bootstrap_rejects_ragged_matrix() {
    let (neighbors, labels) = path_graph();
    let exp_matrix = vec![vec![true, false, true, false], vec![false, true]];
    let markers = strings(&["m1", "m2"]);
    let r = comb_bootstrap(&exp_matrix, &markers, &neighbors, &labels, 27055, 10000, false, 10);
    assert_eq!(r.unwrap_err(), InputError::ShapeMismatch);
}

#[test]
fn parse_method_recognizes_both_names() {
    assert_eq!(parse_method(&"pval".to_string()).unwrap(), Method::Pval);
    assert_eq!(parse_method(&"zscore".to_string()).unwrap(), Method::Zscore);
    assert_eq!(
        parse_method(&"moran".to_string()).unwrap_err(),
        InputError::UnknownMethod
    );
}

#[test]
fn default_config_matches_documented_defaults() {
    let cfg = BootstrapConfig::default();
    assert_eq!(cfg.times, 1000);
    assert_eq!((cfg.alpha_num, cfg.alpha_den), (1, 20));
    assert_eq!(cfg.method, Method::Pval);
    assert!(!cfg.order);
    assert!(!cfg.ignore_self);
}
