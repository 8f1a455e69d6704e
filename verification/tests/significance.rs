use spatialtis_core::significance::{
    empirical_significance, empirical_tail_counts, zscore_significance,
};

#[test]
fn tail_counts_exact() {
    let samples = vec![1u64, 2, 3, 2, 5];
    let (ge, le) = empirical_tail_counts(2, &samples);
    assert_eq!(ge, 4); // 2, 3, 2, 5
    assert_eq!(le, 3); // 1, 2, 2
}

#[test]
fn tails_cover_every_sample() {
    // ge + le >= times and both tails lie within [0, times]:
    // the smoothed fractions sum to at least 1 / (times + 1)
    let cases: Vec<(u64, Vec<u64>)> = vec![
        (0, vec![]),
        (3, vec![1, 5, 3, 3]),
        (10, vec![0, 0, 0]),
        (0, vec![7, 8, 9]),
    ];
    for (obs, samples) in cases {
        let (ge, le) = empirical_tail_counts(obs, &samples);
        assert!(ge <= samples.len());
        assert!(le <= samples.len());
        assert!(ge + le >= samples.len());
    }
}

#[test]
fn empirical_upper_tail_significant() {
    // observed larger than every sample: ge = 0, lt = 1; p = 0/(4+1)
    let samples = vec![1u64, 2, 3, 1];
    let (p_num, indicator) = empirical_significance(9, &samples, 1, 20);
    assert_eq!(p_num, 0);
    assert_eq!(indicator, 1);
}

#[test]
fn empirical_lower_tail_significant() {
    let samples = vec![5u64, 6, 7, 8];
    let (p_num, indicator) = empirical_significance(1, &samples, 1, 20);
    assert_eq!(p_num, 0);
    assert_eq!(indicator, -1);
}

#[test]
fn empirical_insignificant_in_the_middle() {
    // observed equal to every sample: both tails full, p = 4/5
    let samples = vec![3u64, 3, 3, 3];
    let (p_num, indicator) = empirical_significance(3, &samples, 1, 20);
    assert_eq!(p_num, 4);
    assert_eq!(indicator, 0);
}

#[test]
fn empirical_tie_prefers_lower_tail() {
    // gt == lt: the direction comparison is strict, so dir stays lower
    let samples = vec![2u64, 4];
    let (p_num, indicator) = empirical_significance(3, &samples, 19, 20);
    assert_eq!(p_num, 1);
    // significant (1 * 20 < 19 * 3) but dir = lower -> -1
    assert_eq!(indicator, -1);
}

#[test]
fn zscore_degenerate_null_is_insignificant() {
    // every sample identical: std = 0, the indicator is 0 whatever the
    // observed value or the threshold
    let samples = vec![7u64, 7, 7, 7];
    for obs in [0u64, 7, 1000] {
        let out = zscore_significance(obs, &samples, 27055, 10000);
        assert!(out.degenerate);
        assert_eq!(out.indicator, 0);
        // the null moments are exact even on a degenerate null
        assert_eq!(out.null.n, 4);
        assert_eq!(out.null.sum, 28);
        assert_eq!(out.null.sum_sq, 196);
    }
}

#[test]
fn zscore_extreme_observed_signals() {
    // samples 0/2: mean 1, var 1; observed 3 gives z = 2 > 1.6449
    let samples = vec![0u64, 2];
    let out = zscore_significance(3, &samples, 27055, 10000);
    assert!(!out.degenerate);
    assert_eq!(out.indicator, 1);
    // the exact moments determine mean 1 and variance 1
    assert_eq!((out.null.n, out.null.sum, out.null.sum_sq), (2, 2, 4));
    // z^2 = 4 is not above a threshold of 9
    let weak = zscore_significance(3, &samples, 9, 1);
    assert_eq!(weak.indicator, 0);
}

#[test]
fn zscore_negative_direction_signals_avoidance() {
    let samples = vec![10u64, 12];
    // mean 11, var 1; observed 8 gives z = -3
    let out = zscore_significance(8, &samples, 27055, 10000);
    assert!(!out.degenerate);
    assert_eq!(out.indicator, -1);
}

#[test]
fn zscore_empty_null_is_degenerate() {
    let samples: Vec<u64> = vec![];
    let out = zscore_significance(5, &samples, 27055, 10000);
    assert!(out.degenerate);
    assert_eq!(out.indicator, 0);
    assert_eq!((out.null.n, out.null.sum, out.null.sum_sq), (0, 0, 0));
}
