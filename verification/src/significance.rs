//! Significance scoring.
//!
//! Both methods reduce one observed statistic and one null sample set to a
//! directional significance indicator in `{-1, 0, +1}` (association,
//! insignificance, avoidance).  The statistics compared here are the exact
//! integer numerators of the underlying values: within one pair, observed
//! and null statistics share one fixed positive denominator (the
//! prevalence of the pair's first category, which no permutation of the
//! labeling changes), so comparing numerators, their mean and their spread
//! compares the statistics themselves.
//!
//! * Empirical rank method: the Laplace-smoothed tail fractions are
//!   `gt = |{s >= observed}| / (times + 1)` and
//!   `lt = |{s <= observed}| / (times + 1)`; a sample equal to the observed
//!   value counts toward both tails.  The upper tail is called only on the
//!   strict comparison `gt < lt`; the one-sided p-value is the smaller
//!   fraction, and the indicator is its sign when `p < alpha`.
//! * Z-score method: with a degenerate null (every sample equal) the
//!   outcome is fixed at `p = 1`, indicator `0`.  Otherwise the indicator
//!   is `sign(z)` when `z^2` exceeds a caller-supplied squared critical
//!   value, where `z = (observed - mean) / std` over the null samples.
//!   Every quantity of `z^2 > c^2` is an exact rational in the sample
//!   integers, so the test is carried out cross-multiplied, without any
//!   rounding: `z^2 = diff^2 / varnum` with `diff = observed * n - sum`
//!   and `varnum = n * sumsq - sum^2`.

use vstd::prelude::*;

verus! {

/// How many null samples are at least the observed value.
pub open spec fn count_ge(samples: Seq<u64>, obs: u64) -> nat
    decreases samples.len(),
{
    if samples.len() == 0 {
        0nat
    } else {
        count_ge(samples.drop_last(), obs) + if samples.last() >= obs {
            1nat
        } else {
            0nat
        }
    }
}

/// How many null samples are at most the observed value.
pub open spec fn count_le(samples: Seq<u64>, obs: u64) -> nat
    decreases samples.len(),
{
    if samples.len() == 0 {
        0nat
    } else {
        count_le(samples.drop_last(), obs) + if samples.last() <= obs {
            1nat
        } else {
            0nat
        }
    }
}

/// Whether the observed value sits in the upper (rarer) tail: the strict
/// comparison `gt < lt` of the two smoothed tail fractions, which share
/// the denominator `times + 1`.
pub open spec fn emp_dir_upper(samples: Seq<u64>, obs: u64) -> bool {
    count_ge(samples, obs) < count_le(samples, obs)
}

/// Numerator of the one-sided empirical p-value: the smaller tail count.
/// The p-value itself is this count over `samples.len() + 1`.
pub open spec fn emp_p_count(samples: Seq<u64>, obs: u64) -> nat {
    if emp_dir_upper(samples, obs) {
        count_ge(samples, obs)
    } else {
        count_le(samples, obs)
    }
}

/// Whether the empirical p-value is below the threshold
/// `alpha_num / alpha_den`, compared exactly by cross-multiplication.
pub open spec fn emp_significant(samples: Seq<u64>, obs: u64, alpha_num: int, alpha_den: int) -> bool {
    emp_p_count(samples, obs) * alpha_den < alpha_num * (samples.len() + 1)
}

/// The empirical-rank significance indicator: `+1` (association) when the
/// observed value is an extreme upper-tail value, `-1` (avoidance) when an
/// extreme lower-tail value, `0` otherwise.
pub open spec fn emp_indicator(samples: Seq<u64>, obs: u64, alpha_num: int, alpha_den: int) -> int {
    if emp_significant(samples, obs, alpha_num, alpha_den) {
        if emp_dir_upper(samples, obs) {
            1
        } else {
            -1
        }
    } else {
        0
    }
}

/// Every sample counts toward at least one tail, and toward at most one
/// sample's worth of each: both tail fractions lie in `[0, 1)` and their
/// sum is at least `times / (times + 1)` — in particular at least
/// `1 / (times + 1)` as soon as one sample was drawn.
pub proof fn lemma_tails_cover(samples: Seq<u64>, obs: u64)
    ensures
        count_ge(samples, obs) <= samples.len(),
        count_le(samples, obs) <= samples.len(),
        count_ge(samples, obs) + count_le(samples, obs) >= samples.len(),
    decreases samples.len(),
{
    if samples.len() > 0 {
        lemma_tails_cover(samples.drop_last(), obs);
    }
}

/// A null distribution identical to the observed value counts fully toward
/// both tails.
pub proof fn lemma_counts_all_obs(samples: Seq<u64>, obs: u64)
    requires
        forall|i: int| 0 <= i < samples.len() ==> samples[i] == obs,
    ensures
        count_ge(samples, obs) == samples.len(),
        count_le(samples, obs) == samples.len(),
    decreases samples.len(),
{
    if samples.len() > 0 {
        assert(forall|i: int|
            0 <= i < samples.drop_last().len() ==> #[trigger] samples.drop_last()[i] == obs);
        lemma_counts_all_obs(samples.drop_last(), obs);
        assert(samples.last() == samples[samples.len() - 1]);
    }
}

/// Counts both tails of the null distribution around the observed value.
pub fn empirical_tail_counts(obs: u64, samples: &Vec<u64>) -> (r: (usize, usize))
    ensures
        r.0 == count_ge(samples@, obs),
        r.1 == count_le(samples@, obs),
        r.0 <= samples@.len(),
        r.1 <= samples@.len(),
        r.0 + r.1 >= samples@.len(),
{
    let n = samples.len();
    let mut ge: usize = 0;
    let mut le: usize = 0;
    let mut i: usize = 0;
    while i < n
        invariant
            n == samples@.len(),
            i <= n,
            ge == count_ge(samples@.take(i as int), obs),
            le == count_le(samples@.take(i as int), obs),
            ge <= i,
            le <= i,
        decreases n - i,
    {
        let v = samples[i];
        proof {
            assert(samples@.take(i + 1).drop_last() =~= samples@.take(i as int));
            assert(samples@.take(i + 1).last() == v);
        }
        if v >= obs {
            ge = ge + 1;
        }
        if v <= obs {
            le = le + 1;
        }
        i = i + 1;
    }
    proof {
        assert(samples@.take(n as int) =~= samples@);
        lemma_tails_cover(samples@, obs);
    }
    (ge, le)
}

/// Scores one pair by the empirical rank method.  Returns the numerator of
/// the one-sided p-value (its denominator is `samples.len() + 1`) and the
/// signed significance indicator against the threshold
/// `alpha_num / alpha_den`.
pub fn empirical_significance(obs: u64, samples: &Vec<u64>, alpha_num: usize, alpha_den: usize) -> (r:
    (usize, i8))
    requires
        1 <= alpha_den,
        samples@.len() < usize::MAX,
    ensures
        r.0 == emp_p_count(samples@, obs),
        r.1 as int == emp_indicator(samples@, obs, alpha_num as int, alpha_den as int),
        r.0 <= samples@.len(),
{
    let (ge, le) = empirical_tail_counts(obs, samples);
    let p_cnt: usize = if ge < le {
        ge
    } else {
        le
    };
    let times_plus: usize = samples.len() + 1;
    proof {
        vstd::arithmetic::mul::lemma_mul_upper_bound(
            p_cnt as int,
            0xFFFF_FFFF_FFFF_FFFF,
            alpha_den as int,
            0xFFFF_FFFF_FFFF_FFFF,
        );
        vstd::arithmetic::mul::lemma_mul_upper_bound(
            alpha_num as int,
            0xFFFF_FFFF_FFFF_FFFF,
            times_plus as int,
            0xFFFF_FFFF_FFFF_FFFF,
        );
        vstd::arithmetic::mul::lemma_mul_nonnegative(p_cnt as int, alpha_den as int);
        vstd::arithmetic::mul::lemma_mul_nonnegative(alpha_num as int, times_plus as int);
    }
    let sig: bool = (p_cnt as u128) * (alpha_den as u128) < (alpha_num as u128) * (times_plus
        as u128);
    let indicator: i8 = if sig {
        if ge < le {
            1
        } else {
            -1
        }
    } else {
        0
    };
    (p_cnt, indicator)
}

/// Whether the null distribution is degenerate: every sample equal (the
/// exact-arithmetic reading of a zero standard deviation).
pub open spec fn all_equal(s: Seq<u64>) -> bool {
    forall|i: int, j: int| 0 <= i < s.len() && 0 <= j < s.len() ==> s[i] == s[j]
}

/// Sum of the null samples.
pub open spec fn sum_of(s: Seq<u64>) -> int
    decreases s.len(),
{
    if s.len() == 0 {
        0
    } else {
        sum_of(s.drop_last()) + s.last()
    }
}

/// Sum of the squared null samples.
pub open spec fn sum_sq(s: Seq<u64>) -> int
    decreases s.len(),
{
    if s.len() == 0 {
        0
    } else {
        sum_sq(s.drop_last()) + s.last() * s.last()
    }
}

/// Numerator of `observed - mean` over the common denominator `n`: the
/// sign of the z-score.
pub open spec fn z_diff(obs: u64, s: Seq<u64>) -> int {
    obs * s.len() - sum_of(s)
}

/// Numerator of the population variance over the common denominator
/// `n^2`: `n * sumsq - sum^2`.
pub open spec fn var_num(s: Seq<u64>) -> int {
    s.len() * sum_sq(s) - sum_of(s) * sum_of(s)
}

/// The test `z^2 > c^2` with `c^2 = c2_num / c2_den`, cross-multiplied so
/// that every term is an exact integer: `z^2 = diff^2 / varnum`, and the
/// common scale of the samples cancels out of the quotient.
pub open spec fn z_significant(obs: u64, s: Seq<u64>, c2_num: int, c2_den: int) -> bool {
    z_diff(obs, s) * z_diff(obs, s) * c2_den > c2_num * var_num(s)
}

/// The z-score significance indicator: `0` on a degenerate null (the
/// fallback outcome, standing for `p = 1`), else `sign(z)` gated on
/// `z^2 > c^2`.
pub open spec fn z_indicator(obs: u64, s: Seq<u64>, c2_num: int, c2_den: int) -> int {
    if all_equal(s) {
        0
    } else if z_significant(obs, s, c2_num, c2_den) {
        if z_diff(obs, s) > 0 {
            1
        } else if z_diff(obs, s) < 0 {
            -1
        } else {
            0
        }
    } else {
        0
    }
}

/// With a degenerate null (every sample identical, so the null standard
/// deviation is zero) the z-score method reports indicator `0` — and the
/// fallback p-value `1` — whatever the observed value and the threshold.
pub proof fn lemma_degenerate_null_insignificant(obs: u64, s: Seq<u64>, c2_num: int, c2_den: int)
    requires
        all_equal(s),
    ensures
        z_indicator(obs, s, c2_num, c2_den) == 0,
{
}

/// The exact moments of one null sample set: its size, sum, and sum of
/// squares.  They determine the null mean and population variance (and so
/// the z-score) without any rounding: `mean = sum / n` and
/// `var = (n * sum_sq - sum^2) / n^2`.
#[derive(Clone, Copy, Debug, PartialEq, Eq, Structural)]
pub struct NullMoments {
    pub n: usize,
    pub sum: u64,
    pub sum_sq: u128,
}

/// Whether `m` holds exactly the moments of the sample set `s`.
pub open spec fn moments_ok(m: NullMoments, s: Seq<u64>) -> bool {
    &&& m.n == s.len()
    &&& m.sum == sum_of(s)
    &&& m.sum_sq == sum_sq(s)
}

/// The full outcome of one z-score comparison: whether the null was
/// degenerate (fallback `p = 1`), the signed significance indicator, and
/// the null's exact moments (from which a caller can recover the z-score
/// itself).
#[derive(Clone, Copy, Debug, PartialEq, Eq, Structural)]
pub struct ZScoreOutcome {
    pub degenerate: bool,
    pub indicator: i8,
    pub null: NullMoments,
}

/// Scores one pair by the z-score method against the squared critical
/// value `c2_num / c2_den`.
pub fn zscore_significance(obs: u64, samples: &Vec<u64>, c2_num: u64, c2_den: u64) -> (r:
    ZScoreOutcome)
    requires
        samples@.len() <= 0x100_0000,
        obs <= 0x200_0000,
        forall|i: int| 0 <= i < samples@.len() ==> (#[trigger] samples@[i]) <= 0x200_0000,
        1 <= c2_den <= 0x10_0000,
        c2_num <= 0x800_0000,
    ensures
        r.degenerate == all_equal(samples@),
        r.indicator as int == z_indicator(obs, samples@, c2_num as int, c2_den as int),
        moments_ok(r.null, samples@),
{
    let n = samples.len();
    if n == 0 {
        return ZScoreOutcome {
            degenerate: true,
            indicator: 0,
            null: NullMoments { n: 0, sum: 0, sum_sq: 0 },
        };
    }
    let first = samples[0];
    let mut sum: u64 = 0;
    let mut sumsq: u128 = 0;
    let mut eq_all: bool = true;
    let mut i: usize = 0;
    while i < n
        invariant
            n == samples@.len(),
            n <= 0x100_0000,
            forall|t: int| 0 <= t < samples@.len() ==> (#[trigger] samples@[t]) <= 0x200_0000,
            0 < n,
            first == samples@[0],
            i <= n,
            sum == sum_of(samples@.take(i as int)),
            sum <= (i as int) * 0x200_0000,
            sumsq == sum_sq(samples@.take(i as int)),
            sumsq <= (i as int) * 0x40000_0000_0000,
            eq_all <==> forall|t: int| 0 <= t < i ==> samples@[t] == first,
        decreases n - i,
    {
        let v = samples[i];
        proof {
            assert(samples@.take(i + 1).drop_last() =~= samples@.take(i as int));
            assert(samples@.take(i + 1).last() == v);
            assert(sum + v <= (i + 1) * 0x200_0000) by (nonlinear_arith)
                requires
                    sum <= (i as int) * 0x200_0000,
                    v <= 0x200_0000,
            ;
            assert((v as u128) * (v as u128) == (v as int) * (v as int) && (v as int) * (v as int)
                <= 0x40000_0000_0000) by (nonlinear_arith)
                requires
                    v <= 0x200_0000,
            ;
            assert(sumsq + (v as int) * (v as int) <= (i + 1) * 0x40000_0000_0000)
                by (nonlinear_arith)
                requires
                    sumsq <= (i as int) * 0x40000_0000_0000,
                    (v as int) * (v as int) <= 0x40000_0000_0000,
            ;
            assert((i + 1) * 0x200_0000 <= 0x100_0000 * 0x200_0000 && (i + 1) * 0x40000_0000_0000
                <= 0x100_0000 * 0x40000_0000_0000) by (nonlinear_arith)
                requires
                    i + 1 <= 0x100_0000,
            ;
        }
        sum = sum + v;
        sumsq = sumsq + (v as u128) * (v as u128);
        if v != first {
            eq_all = false;
        }
        i = i + 1;
    }
    proof {
        assert(samples@.take(n as int) =~= samples@);
        if eq_all {
            assert forall|a: int, b: int|
                0 <= a < samples@.len() && 0 <= b < samples@.len() implies samples@[a]
                == samples@[b] by {
                assert(samples@[a] == first && samples@[b] == first);
            }
        } else {
            let t = choose|t: int| 0 <= t < n && samples@[t] != first;
            assert(!all_equal(samples@)) by {
                assert(samples@[t] != samples@[0]);
            }
        }
    }
    if eq_all {
        return ZScoreOutcome {
            degenerate: true,
            indicator: 0,
            null: NullMoments { n, sum, sum_sq: sumsq },
        };
    }
    let ghost s = samples@;
    proof {
        assert(sum as int <= 0x2_0000_0000_0000 && sumsq as int <= 0x400_0000_0000_0000_0000)
            by (nonlinear_arith)
            requires
                sum as int <= (n as int) * 0x200_0000,
                sumsq as int <= (n as int) * 0x40000_0000_0000,
                n as int <= 0x100_0000,
        ;
        vstd::arithmetic::mul::lemma_mul_upper_bound(obs as int, 0x200_0000, n as int, 0x100_0000);
        vstd::arithmetic::mul::lemma_mul_nonnegative(obs as int, n as int);
        vstd::arithmetic::mul::lemma_mul_upper_bound(
            n as int,
            0x100_0000,
            sumsq as int,
            0x400_0000_0000_0000_0000,
        );
        vstd::arithmetic::mul::lemma_mul_nonnegative(n as int, sumsq as int);
        vstd::arithmetic::mul::lemma_mul_upper_bound(
            sum as int,
            0x2_0000_0000_0000,
            sum as int,
            0x2_0000_0000_0000,
        );
        vstd::arithmetic::mul::lemma_mul_nonnegative(sum as int, sum as int);
    }
    let diff: i128 = (obs as i128) * (n as i128) - (sum as i128);
    let varn: i128 = (n as i128) * (sumsq as i128) - (sum as i128) * (sum as i128);
    proof {
        assert(diff as int == (obs as int) * (n as int) - sum as int);
        assert(varn as int == (n as int) * (sumsq as int) - (sum as int) * (sum as int));
        assert(diff == z_diff(obs, s));
        assert(varn == var_num(s));
        assert(-0x2_0000_0000_0000 <= diff as int <= 0x2_0000_0000_0000);
        assert((n as int) * (sumsq as int) <= 0x4_0000_0000_0000_0000_0000_0000);
        assert((sum as int) * (sum as int) <= 0x4_0000_0000_0000_0000_0000_0000);
        assert(-0x4_0000_0000_0000_0000_0000_0000 <= varn as int
            <= 0x4_0000_0000_0000_0000_0000_0000);
        assert((diff as int) * (diff as int) * (c2_den as int) == z_diff(obs, s) * z_diff(obs, s)
            * (c2_den as int) && 0 <= (diff as int) * (diff as int)
            <= 0x10_0000_0000_0000_0000_0000_0000 && (diff as int) * (diff as int) * (c2_den
            as int) <= 0x100_0000_0000_0000_0000_0000_0000_0000) by (nonlinear_arith)
            requires
                diff as int == z_diff(obs, s),
                -0x2_0000_0000_0000 <= diff as int <= 0x2_0000_0000_0000,
                1 <= c2_den as int <= 0x10_0000,
        ;
        assert(-0x2000_0000_0000_0000_0000_0000_0000_0000 <= (c2_num as int) * (varn as int)
            <= 0x2000_0000_0000_0000_0000_0000_0000_0000) by (nonlinear_arith)
            requires
                0 <= c2_num as int <= 0x800_0000,
                -0x4_0000_0000_0000_0000_0000_0000 <= varn as int
                    <= 0x4_0000_0000_0000_0000_0000_0000,
        ;
    }
    let lhs: i128 = diff * diff * (c2_den as i128);
    let rhs: i128 = (c2_num as i128) * varn;
    let sig = lhs > rhs;
    let indicator: i8 = if sig {
        if diff > 0 {
            1
        } else if diff < 0 {
            -1
        } else {
            0
        }
    } else {
        0
    };
    ZScoreOutcome { degenerate: false, indicator, null: NullMoments { n, sum, sum_sq: sumsq } }
}

} // verus!
