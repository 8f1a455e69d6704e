//! Monte-Carlo permutation engine and its public entry points.
//!
//! A bootstrap call validates its inputs once, normalizes the neighbor
//! graph, resolves neighbor labels to node positions, computes the
//! observed statistic, then runs `times` independent trials: each trial
//! draws a random permutation of the labeling (categorical mode) or of the
//! second marker vector (marker mode), re-evaluates the statistic against
//! the same unmodified graph, and records the outcome.  The scorer reduces
//! each pair's observed value and null samples to a significance call.
//!
//! The draws themselves are the one unverified step: the trusted wrapper
//! [`shuffled`] states of the `rand` crate's shuffle exactly that the
//! result is a rearrangement of its input.  Every contract downstream
//! therefore holds for any outcome of the randomness: the null samples are
//! tied to the statistics of *some* permutations of the labeling, and the
//! reported indicators are exactly the scorer's verdict on those samples.
//!
//! Thresholds enter as exact fractions.  The empirical method takes the
//! significance level `alpha_num / alpha_den` itself; the z-score method
//! takes the squared critical value `z_crit_sq_num / z_crit_sq_den` of the
//! standard normal at the desired level (its computation from a level
//! involves the normal quantile function and stays outside the library),
//! so `p < alpha` is decided exactly as `z^2 > c^2`.

use vstd::prelude::*;

use crate::graph::{
    remove_rep_neighbors, spec_find, spec_keep_list, spec_normalize, find_position,
};
use crate::interaction::{
    cell, comb_count_neighbors, count_neighbors, lemma_pair_num_bound, spec_comb_count, spec_occ,
    spec_pair_num, spec_total_len, total_upto,
};
use crate::registry::{
    build_index_pairs, distinct_categories, lemma_distinct_len, lemma_pair_space_bounds,
    lemma_pair_space_len, pair_in_range, spec_distinct, spec_index_of, spec_pair_space,
    spec_unordered_pairs, spec_upto,
};
use crate::significance::{
    all_equal, emp_indicator, emp_p_count, empirical_significance, moments_ok, z_indicator,
    zscore_significance, NullMoments,
};

verus! {

/// How a (observed, null samples) comparison is reduced to a significance
/// call: by empirical tail ranks, or by a parametric z-score.
#[derive(Clone, Copy, Debug, PartialEq, Eq, Structural)]
pub enum Method {
    Pval,
    Zscore,
}

/// A structurally invalid input, rejected before any simulation starts.
#[derive(Clone, Copy, Debug, PartialEq, Eq, Structural)]
pub enum InputError {
    /// Parallel inputs disagree in length.
    ShapeMismatch,
    /// No nodes, hence no category to score.
    EmptyCategories,
    /// `times == 0`: no null distribution can be built.
    ZeroTimes,
    /// A surviving neighbor entry names a label that no node carries.
    UnknownNeighborLabel,
    /// A method name outside the recognized set.
    UnknownMethod,
}

/// An exact fraction, used for p-values.
#[derive(Clone, Copy, Debug, PartialEq, Eq, Structural)]
pub struct Frac {
    pub num: usize,
    pub den: usize,
}

/// The recognized options of a categorical bootstrap call.
#[derive(Clone, Copy, Debug)]
pub struct BootstrapConfig {
    /// Number of Monte-Carlo trials.
    pub times: usize,
    /// Significance level, as the exact fraction `alpha_num / alpha_den`
    /// (used by the empirical method).
    pub alpha_num: usize,
    pub alpha_den: usize,
    /// Squared critical value of the standard normal at the desired level,
    /// as the exact fraction `z_crit_sq_num / z_crit_sq_den` (used by the
    /// z-score method).
    pub z_crit_sq_num: u64,
    pub z_crit_sq_den: u64,
    /// The significance method.
    pub method: Method,
    /// Score ordered category pairs instead of canonical unordered ones.
    pub order: bool,
    /// Drop entries whose neighbor label equals the center's label.
    pub ignore_self: bool,
}

impl Default for BootstrapConfig {
    /// The default options: 1000 trials at level `1/20`, empirical method,
    /// unordered pairs, self entries kept.  The default squared critical
    /// value is the one-tailed standard-normal value at that level
    /// (`1.6449^2`, held as `27055 / 10000`).
    fn default() -> (c: Self)
        ensures
            c.times == 1000,
            c.alpha_num == 1,
            c.alpha_den == 20,
            c.z_crit_sq_num == 27055,
            c.z_crit_sq_den == 10000,
            c.method == Method::Pval,
            !c.order,
            !c.ignore_self,
    {
        BootstrapConfig {
            times: 1000,
            alpha_num: 1,
            alpha_den: 20,
            z_crit_sq_num: 27055,
            z_crit_sq_den: 10000,
            method: Method::Pval,
            order: false,
            ignore_self: false,
        }
    }
}

/// Resolves a method name: exactly `"pval"` and `"zscore"` are known.
pub fn parse_method(name: &String) -> (r: Result<Method, InputError>)
    ensures
        name@ == "pval"@ ==> r == Ok::<Method, InputError>(Method::Pval),
        name@ == "zscore"@ ==> r == Ok::<Method, InputError>(Method::Zscore),
        name@ != "pval"@ && name@ != "zscore"@ ==> r == Err::<Method, InputError>(
            InputError::UnknownMethod,
        ),
{
    proof {
        reveal_strlit("pval");
        reveal_strlit("zscore");
        assert("pval"@.len() == 4);
        assert("zscore"@.len() == 6);
    }
    let pval = String::from_str("pval");
    let zscore = String::from_str("zscore");
    if name.eq(&pval) {
        Ok(Method::Pval)
    } else if name.eq(&zscore) {
        Ok(Method::Zscore)
    } else {
        Err(InputError::UnknownMethod)
    }
}

/// Relies on the `rand` crate's `SliceRandom::shuffle` (a Fisher-Yates
/// shuffle by swaps, driven by the thread-local generator): the result is
/// an in-place rearrangement, so it holds exactly the elements of the
/// input.  Nothing more is assumed of the randomness; two calls on equal
/// input may differ.
#[verifier::external_body]
fn shuffled<T>(xs: Vec<T>) -> (r: Vec<T>)
    ensures
        r@.to_multiset() == xs@.to_multiset(),
        r@.len() == xs@.len(),
{
    let mut v = xs;
    let mut rng = rand::thread_rng();
    rand::seq::SliceRandom::shuffle(v.as_mut_slice(), &mut rng);
    v
}

/// Whether a label can be resolved to a node position.
pub open spec fn spec_resolvable(labels: Seq<usize>, e: usize) -> bool {
    spec_find(labels, e) is Some
}

/// The node position of a label (its first holder).
pub open spec fn spec_pos(labels: Seq<usize>, e: usize) -> int {
    match spec_find(labels, e) {
        Some(i) => i,
        None => 0,
    }
}

/// Whether every adjacency entry of the graph resolves to a position.
pub open spec fn spec_all_resolvable(g: Seq<Seq<usize>>, labels: Seq<usize>) -> bool {
    forall|i: int, j: int|
        0 <= i < g.len() && 0 <= j < g[i].len() ==> spec_resolvable(labels, #[trigger] g[i][j])
}

/// One neighbor list with labels replaced by node positions.
pub open spec fn spec_pos_row(row: Seq<usize>, labels: Seq<usize>) -> Seq<usize> {
    Seq::new(row.len(), |j: int| spec_pos(labels, row[j]) as usize)
}

/// The whole graph with labels replaced by node positions.
pub open spec fn spec_pos_graph(g: Seq<Seq<usize>>, labels: Seq<usize>) -> Seq<Seq<usize>> {
    Seq::new(g.len(), |i: int| spec_pos_row(g[i], labels))
}

/// The graph a bootstrap call actually evaluates: the input adjacency
/// normalized, with neighbor labels then resolved to node positions.
pub open spec fn spec_prepared(
    neighbors: Seq<Seq<usize>>,
    labels: Seq<usize>,
    ignore_self: bool,
) -> Seq<Seq<usize>> {
    spec_pos_graph(spec_normalize(neighbors, labels, ignore_self), labels)
}

/// Resolves every adjacency entry from a label to the position of the
/// node carrying it; `None` exactly when some entry resolves to no node.
pub fn to_position_graph(g: &Vec<Vec<usize>>, labels: &Vec<usize>) -> (r: Option<Vec<Vec<usize>>>)
    ensures
        r is Some <==> spec_all_resolvable(g.deep_view(), labels@),
        r matches Some(p) ==> {
            &&& p.deep_view() == spec_pos_graph(g.deep_view(), labels@)
            &&& p@.len() == g@.len()
            &&& forall|i: int, j: int|
                0 <= i < p@.len() && 0 <= j < p@[i]@.len() ==> (#[trigger] p@[i]@[j] as int)
                    < labels@.len()
        },
{
    let ghost gd = g.deep_view();
    let n = g.len();
    let mut out: Vec<Vec<usize>> = Vec::new();
    let mut i: usize = 0;
    while i < n
        invariant
            n == g@.len(),
            gd == g.deep_view(),
            i <= n,
            out@.len() == i,
            forall|t: int, j: int|
                0 <= t < i && 0 <= j < gd[t].len() ==> spec_resolvable(labels@, #[trigger] gd[t][j]),
            forall|t: int| 0 <= t < i ==> (#[trigger] out@[t]@) == spec_pos_row(gd[t], labels@),
            forall|t: int, j: int|
                0 <= t < i && 0 <= j < out@[t]@.len() ==> (#[trigger] out@[t]@[j] as int)
                    < labels@.len(),
        decreases n - i,
    {
        let row = &g[i];
        let m = row.len();
        proof {
            assert(gd[i as int] == row@);
        }
        let mut new_row: Vec<usize> = Vec::new();
        let mut j: usize = 0;
        while j < m
            invariant
                gd == g.deep_view(),
                m == row@.len(),
                gd[i as int] == row@,
                0 <= i < gd.len(),
                j <= m,
                new_row@.len() == j,
                forall|u: int|
                    0 <= u < j ==> spec_resolvable(labels@, #[trigger] row@[u]) && new_row@[u]
                        as int == spec_pos(labels@, row@[u]) && (new_row@[u] as int)
                        < labels@.len(),
            decreases m - j,
        {
            let e = row[j];
            proof {
                crate::graph::lemma_spec_find(labels@, e);
                assert(e == row@[j as int]);
            }
            match find_position(labels, e) {
                Some(p) => {
                    proof {
                        assert(spec_find(labels@, e) is Some);
                        assert(p as int == spec_pos(labels@, e));
                        assert((p as int) < labels@.len());
                    }
                    new_row.push(p);
                },
                None => {
                    proof {
                        assert(0 <= (i as int) < gd.len() && 0 <= (j as int) < gd[i
                            as int].len());
                        assert(!spec_resolvable(labels@, gd[i as int][j as int]));
                        assert(!spec_all_resolvable(gd, labels@)) by {
                            if spec_all_resolvable(gd, labels@) {
                                assert(spec_resolvable(labels@, gd[i as int][j as int]));
                            }
                        }
                    }
                    return None;
                },
            }
            j = j + 1;
        }
        proof {
            assert(new_row@ =~= spec_pos_row(gd[i as int], labels@));
        }
        out.push(new_row);
        i = i + 1;
    }
    proof {
        let pv = out.deep_view();
        let sv = spec_pos_graph(gd, labels@);
        assert(pv.len() == sv.len());
        assert forall|t: int| 0 <= t < pv.len() implies pv[t] =~= sv[t] by {
            assert(out@[t]@ == spec_pos_row(gd[t], labels@));
            assert(pv[t] =~= out@[t]@);
        }
        assert(pv =~~= sv);
    }
    Some(out)
}

/// Normalization only drops entries.
pub proof fn lemma_keep_list_len_le(s: Seq<usize>, l: usize, ignore_self: bool)
    ensures
        spec_keep_list(s, l, ignore_self).len() <= s.len(),
    decreases s.len(),
{
    if s.len() > 0 {
        lemma_keep_list_len_le(s.drop_last(), l, ignore_self);
    }
}

/// A normalized graph has no more entries than its input.
pub proof fn lemma_total_normalize_le(g: Seq<Seq<usize>>, labels: Seq<usize>, ignore_self: bool, m: int)
    requires
        0 <= m <= g.len(),
    ensures
        total_upto(spec_normalize(g, labels, ignore_self), m) <= total_upto(g, m),
    decreases m,
{
    if m > 0 {
        lemma_total_normalize_le(g, labels, ignore_self, m - 1);
        lemma_keep_list_len_le(g[m - 1], labels[m - 1], ignore_self);
        assert(spec_normalize(g, labels, ignore_self)[m - 1] == spec_keep_list(
            g[m - 1],
            labels[m - 1],
            ignore_self,
        ));
    }
}

/// Resolving labels to positions keeps every row's length.
pub proof fn lemma_total_pos_graph(g: Seq<Seq<usize>>, labels: Seq<usize>, m: int)
    requires
        0 <= m <= g.len(),
    ensures
        total_upto(spec_pos_graph(g, labels), m) == total_upto(g, m),
    decreases m,
{
    if m > 0 {
        lemma_total_pos_graph(g, labels, m - 1);
        assert(spec_pos_graph(g, labels)[m - 1] == spec_pos_row(g[m - 1], labels));
    }
}

/// The prepared graph has no more entries than the input adjacency.
pub proof fn lemma_prepared_total_le(neighbors: Seq<Seq<usize>>, labels: Seq<usize>, ignore_self: bool)
    ensures
        spec_total_len(spec_prepared(neighbors, labels, ignore_self)) <= spec_total_len(neighbors),
{
    let norm = spec_normalize(neighbors, labels, ignore_self);
    lemma_total_pos_graph(norm, labels, norm.len() as int);
    lemma_total_normalize_le(neighbors, labels, ignore_self, neighbors.len() as int);
}

/// Normalizes the adjacency and resolves its surviving entries from
/// labels to node positions; `None` exactly when a surviving entry names a
/// label that no node carries.
fn prepare_graph(neighbors: &Vec<Vec<usize>>, labels: &Vec<usize>, ignore_self: bool) -> (r: Option<
    Vec<Vec<usize>>,
>)
    requires
        neighbors@.len() == labels@.len(),
    ensures
        r is Some <==> spec_all_resolvable(
            spec_normalize(neighbors.deep_view(), labels@, ignore_self),
            labels@,
        ),
        r matches Some(p) ==> {
            &&& p.deep_view() == spec_prepared(neighbors.deep_view(), labels@, ignore_self)
            &&& p@.len() == labels@.len()
            &&& forall|i: int, j: int|
                0 <= i < p@.len() && 0 <= j < p@[i]@.len() ==> (#[trigger] p@[i]@[j] as int)
                    < labels@.len()
            &&& spec_total_len(p.deep_view()) <= spec_total_len(neighbors.deep_view())
        },
{
    let ghost nd = neighbors.deep_view();
    let normalized = remove_rep_neighbors(neighbors, labels, ignore_self);
    proof {
        let nv = normalized.deep_view();
        let sv = spec_normalize(nd, labels@, ignore_self);
        assert(nv.len() == sv.len());
        assert forall|i: int| 0 <= i < nv.len() implies nv[i] =~= sv[i] by {
            assert(nd[i] =~= neighbors@[i]@);
            assert(normalized@[i]@ == spec_keep_list(neighbors@[i]@, labels@[i], ignore_self));
            assert(nv[i] =~= normalized@[i]@);
        }
        assert(nv =~~= sv);
    }
    let r = to_position_graph(&normalized, labels);
    proof {
        if r is Some {
            lemma_prepared_total_le(nd, labels@, ignore_self);
        }
    }
    r
}

/// One categorical trial statistic is the statistic of some rearrangement
/// of the node codes against the fixed graph: `m` is a full `k * k`
/// accumulator computed from such a rearrangement.
pub open spec fn matrix_of(m: Seq<u64>, s: Seq<usize>, g: Seq<Seq<usize>>, k: nat, order: bool) -> bool {
    &&& m.len() == k * k
    &&& forall|a: int, b: int|
        0 <= a < k && 0 <= b < k ==> m[cell(a, b, k as int)] == #[trigger] spec_pair_num(
            s,
            g,
            a,
            b,
            order,
        )
}

/// One categorical trial: some permutation of the codes produced this
/// accumulator.
pub open spec fn trial_ok(m: Seq<u64>, codes: Seq<usize>, g: Seq<Seq<usize>>, k: nat, order: bool) -> bool {
    exists|s: Seq<usize>|
        s.to_multiset() == codes.to_multiset() && #[trigger] matrix_of(m, s, g, k, order)
}

/// The whole categorical null distribution: `times` trials, each from some
/// permutation of the codes.
pub open spec fn sims_ok(
    sims: Seq<Seq<u64>>,
    codes: Seq<usize>,
    g: Seq<Seq<usize>>,
    k: nat,
    order: bool,
    times: nat,
) -> bool {
    &&& sims.len() == times
    &&& forall|t: int| 0 <= t < sims.len() ==> trial_ok(#[trigger] sims[t], codes, g, k, order)
}

/// One pair's null samples: the accumulator column of that pair across all
/// trials.
pub open spec fn column(sims: Seq<Seq<u64>>, idx: int) -> Seq<u64> {
    Seq::new(sims.len(), |t: int| sims[t][idx])
}

/// One marker null sample: the marker statistic of some rearrangement of
/// the second marker vector against the fixed graph.
pub open spec fn marker_trial_ok(v: u64, x: Seq<bool>, y: Seq<bool>, g: Seq<Seq<usize>>) -> bool {
    exists|y2: Seq<bool>|
        y2.to_multiset() == y.to_multiset() && v == #[trigger] spec_comb_count(x, y2, g)
}

/// The whole marker null distribution.
pub open spec fn marker_sims_ok(
    sims: Seq<u64>,
    x: Seq<bool>,
    y: Seq<bool>,
    g: Seq<Seq<usize>>,
    times: nat,
) -> bool {
    &&& sims.len() == times
    &&& forall|t: int| 0 <= t < sims.len() ==> marker_trial_ok(#[trigger] sims[t], x, y, g)
}

/// An element-for-element copy.
fn copy_bools(v: &Vec<bool>) -> (r: Vec<bool>)
    ensures
        r@ == v@,
{
    let n = v.len();
    let mut out: Vec<bool> = Vec::new();
    let mut i: usize = 0;
    while i < n
        invariant
            n == v@.len(),
            i <= n,
            out@ == v@.take(i as int),
        decreases n - i,
    {
        proof {
            assert(v@.take(i + 1) =~= v@.take(i as int).push(v@[i as int]));
        }
        out.push(v[i]);
        i = i + 1;
    }
    proof {
        assert(v@.take(n as int) =~= v@);
    }
    out
}

/// An element-for-element copy.
fn copy_usizes(v: &Vec<usize>) -> (r: Vec<usize>)
    ensures
        r@ == v@,
{
    let n = v.len();
    let mut out: Vec<usize> = Vec::new();
    let mut i: usize = 0;
    while i < n
        invariant
            n == v@.len(),
            i <= n,
            out@ == v@.take(i as int),
        decreases n - i,
    {
        proof {
            assert(v@.take(i + 1) =~= v@.take(i as int).push(v@[i as int]));
        }
        out.push(v[i]);
        i = i + 1;
    }
    proof {
        assert(v@.take(n as int) =~= v@);
    }
    out
}

/// The outcome of one marker-pair test: the exact observed statistic (the
/// raw co-occurrence count of the ordered marker pair), whether the null
/// distribution was degenerate (the fallback `p = 1` case), the signed
/// significance indicator, and the null's exact moments (from which a
/// caller can recover the z-score without re-simulation).
#[derive(Clone, Copy, Debug, PartialEq, Eq, Structural)]
pub struct MarkerOutcome {
    pub observed: u64,
    pub degenerate: bool,
    pub indicator: i8,
    pub null: NullMoments,
}

/// What one marker outcome states.  The observed statistic is pinned to
/// its exact deterministic value; the verdict fields are the z-score
/// scorer's output on a null distribution whose every sample is the
/// statistic of some rearrangement of `y` against the fixed graph.
pub open spec fn marker_outcome_ok(
    out: MarkerOutcome,
    x: Seq<bool>,
    y: Seq<bool>,
    g: Seq<Seq<usize>>,
    times: nat,
    c2_num: int,
    c2_den: int,
) -> bool {
    &&& out.observed == spec_comb_count(x, y, g) as u64
    &&& exists|sims: Seq<u64>|
        {
            &&& #[trigger] marker_sims_ok(sims, x, y, g, times)
            &&& out.degenerate == all_equal(sims)
            &&& out.indicator as int == z_indicator(out.observed, sims, c2_num, c2_den)
            &&& moments_ok(out.null, sims)
        }
}

/// The marker-pair engine: computes the observed statistic of `(x, y)`,
/// builds the null distribution by shuffling `y` alone (`x` and the graph
/// stay fixed, isolating the hypothesis that the arrangement of `y` is
/// independent of `x`), and scores by the z-score method.
fn xy_comb(x: &Vec<bool>, y: &Vec<bool>, pos_graph: &Vec<Vec<usize>>, times: usize, c2_num: u64, c2_den: u64) -> (r: MarkerOutcome)
    requires
        x@.len() == pos_graph@.len(),
        y@.len() == x@.len(),
        forall|i: int, j: int|
            0 <= i < pos_graph@.len() && 0 <= j < pos_graph@[i]@.len() ==> (
            #[trigger] pos_graph@[i]@[j] as int) < y@.len(),
        spec_total_len(pos_graph.deep_view()) <= 0x100_0000,
        times <= 0x100_0000,
        1 <= c2_den <= 0x10_0000,
        c2_num <= 0x800_0000,
    ensures
        marker_outcome_ok(
            r,
            x@,
            y@,
            pos_graph.deep_view(),
            times as nat,
            c2_num as int,
            c2_den as int,
        ),
{
    let ghost gv = pos_graph.deep_view();
    let obs = comb_count_neighbors(x, y, pos_graph);
    let mut sims: Vec<u64> = Vec::new();
    let mut t: usize = 0;
    while t < times
        invariant
            x@.len() == pos_graph@.len(),
            y@.len() == x@.len(),
            gv == pos_graph.deep_view(),
            forall|i: int, j: int|
                0 <= i < pos_graph@.len() && 0 <= j < pos_graph@[i]@.len() ==> (
                #[trigger] pos_graph@[i]@[j] as int) < y@.len(),
            spec_total_len(gv) <= 0x100_0000,
            t <= times,
            sims@.len() == t,
            forall|u: int| 0 <= u < t ==> marker_trial_ok(#[trigger] sims@[u], x@, y@, gv),
            forall|u: int| 0 <= u < t ==> (#[trigger] sims@[u]) <= 0x100_0000,
        decreases times - t,
    {
        let y2 = shuffled(copy_bools(y));
        proof {
            assert(y2@.len() == y@.len());
        }
        let v = comb_count_neighbors(x, &y2, pos_graph);
        proof {
            assert(marker_trial_ok(v, x@, y@, gv)) by {
                assert(y2@.to_multiset() == y@.to_multiset() && v == spec_comb_count(x@, y2@, gv));
            }
        }
        sims.push(v);
        t = t + 1;
    }
    let score = zscore_significance(obs, &sims, c2_num, c2_den);
    proof {
        assert(marker_sims_ok(sims@, x@, y@, gv, times as nat));
        assert(obs == spec_comb_count(x@, y@, gv) as u64);
    }
    MarkerOutcome {
        observed: obs,
        degenerate: score.degenerate,
        indicator: score.indicator,
        null: score.null,
    }
}

/// The structural validation of a marker-pair call.
pub open spec fn spec_marker_input_error(
    x: Seq<bool>,
    y: Seq<bool>,
    neighbors: Seq<Seq<usize>>,
    labels: Seq<usize>,
    times: nat,
) -> Option<InputError> {
    if x.len() != labels.len() || y.len() != labels.len() || neighbors.len() != labels.len() {
        Some(InputError::ShapeMismatch)
    } else if times == 0 {
        Some(InputError::ZeroTimes)
    } else if !spec_all_resolvable(spec_normalize(neighbors, labels, true), labels) {
        Some(InputError::UnknownNeighborLabel)
    } else {
        None
    }
}

/// Permutation test for the spatial co-occurrence of one ordered marker
/// pair: `x` and `y` give each node's positivity for the two markers, the
/// adjacency names neighbors by label, and the significance call is made
/// by the one-tailed z-score method against the squared critical value
/// `z_crit_sq_num / z_crit_sq_den`.
///
/// The call is rejected before any simulation when the parallel inputs
/// disagree in length, when `times` is zero, or when a surviving neighbor
/// entry resolves to no node.
pub fn bootstrap_marker_pair(
    x: &Vec<bool>,
    y: &Vec<bool>,
    neighbors: &Vec<Vec<usize>>,
    labels: &Vec<usize>,
    times: usize,
    z_crit_sq_num: u64,
    z_crit_sq_den: u64,
) -> (r: Result<MarkerOutcome, InputError>)
    requires
        spec_total_len(neighbors.deep_view()) <= 0x100_0000,
        times <= 0x100_0000,
        1 <= z_crit_sq_den <= 0x10_0000,
        z_crit_sq_num <= 0x800_0000,
    ensures
        match spec_marker_input_error(x@, y@, neighbors.deep_view(), labels@, times as nat) {
            Some(e) => r == Err::<MarkerOutcome, InputError>(e),
            None => r matches Ok(out) && marker_outcome_ok(
                out,
                x@,
                y@,
                spec_prepared(neighbors.deep_view(), labels@, true),
                times as nat,
                z_crit_sq_num as int,
                z_crit_sq_den as int,
            ),
        },
{
    if x.len() != labels.len() || y.len() != labels.len() || neighbors.len() != labels.len() {
        return Err(InputError::ShapeMismatch);
    }
    if times == 0 {
        return Err(InputError::ZeroTimes);
    }
    let pos_graph = match prepare_graph(neighbors, labels, true) {
        Some(p) => p,
        None => {
            return Err(InputError::UnknownNeighborLabel);
        },
    };
    let out = xy_comb(x, y, &pos_graph, times, z_crit_sq_num, z_crit_sq_den);
    Ok(out)
}

/// The dense code of every node: the first-seen index of its category.
pub open spec fn spec_codes_u(tds: Seq<Seq<char>>) -> Seq<usize> {
    Seq::new(tds.len(), |i: int| spec_index_of(spec_distinct(tds), tds[i]) as usize)
}

/// The structural validation of a categorical call.
pub open spec fn spec_cat_input_error(
    types: Seq<Seq<char>>,
    neighbors: Seq<Seq<usize>>,
    labels: Seq<usize>,
    times: nat,
    ignore_self: bool,
) -> Option<InputError> {
    if types.len() != labels.len() || neighbors.len() != labels.len() {
        Some(InputError::ShapeMismatch)
    } else if times == 0 {
        Some(InputError::ZeroTimes)
    } else if types.len() == 0 {
        Some(InputError::EmptyCategories)
    } else if !spec_all_resolvable(spec_normalize(neighbors, labels, ignore_self), labels) {
        Some(InputError::UnknownNeighborLabel)
    } else {
        None
    }
}

/// One scored category pair: the category values, the observed statistic
/// as the exact fraction `observed_num / observed_den` (raw co-occurrence
/// count over the prevalence of the first category), the p-value where the
/// method defines one exactly (the empirical p-value always; `1` for a
/// degenerate z-score null; absent for a non-degenerate z-score null,
/// whose p-value is transcendental), and the signed significance
/// indicator.
#[derive(Debug, Clone)]
pub struct PairResult {
    pub a: String,
    pub b: String,
    pub observed_num: u64,
    pub observed_den: usize,
    pub p: Option<Frac>,
    /// The exact moments of the pair's null samples, reported by the
    /// z-score method (from them a caller can recover the z-score and its
    /// numeric p-value); absent under the empirical method, whose p-value
    /// is already exact in `p`.
    pub null: Option<NullMoments>,
    pub indicator: i8,
}

/// What one record of a categorical bootstrap result states: the right
/// category values, the exact observed statistic of the pair, and the
/// scorer's verdict on the pair's null-sample column.
pub open spec fn record_ok(
    rec: PairResult,
    d: Seq<Seq<char>>,
    codes: Seq<usize>,
    g: Seq<Seq<usize>>,
    pair: (usize, usize),
    sims: Seq<Seq<u64>>,
    cfg: BootstrapConfig,
) -> bool {
    let k = d.len() as int;
    let obs = spec_pair_num(codes, g, pair.0 as int, pair.1 as int, cfg.order);
    let col = column(sims, cell(pair.0 as int, pair.1 as int, k));
    &&& rec.a@ == d[pair.0 as int]
    &&& rec.b@ == d[pair.1 as int]
    &&& rec.observed_num == obs
    &&& rec.observed_den == spec_occ(codes, pair.0)
    &&& match cfg.method {
        Method::Pval => {
            &&& rec.indicator as int == emp_indicator(
                col,
                rec.observed_num,
                cfg.alpha_num as int,
                cfg.alpha_den as int,
            )
            &&& rec.p matches Some(f) && f.num == emp_p_count(col, rec.observed_num) && f.den
                == cfg.times + 1
            &&& rec.null is None
        },
        Method::Zscore => {
            &&& rec.indicator as int == z_indicator(
                rec.observed_num,
                col,
                cfg.z_crit_sq_num as int,
                cfg.z_crit_sq_den as int,
            )
            &&& rec.p == (if all_equal(col) {
                Some(Frac { num: 1, den: 1 })
            } else {
                None::<Frac>
            })
            &&& rec.null matches Some(mo) && moments_ok(mo, col)
        },
    }
}

/// What a whole categorical bootstrap result states: one record per pair
/// of the registry's pair space, each scored against the column of one
/// shared null distribution.
pub open spec fn cat_results_ok(
    res: Seq<PairResult>,
    tds: Seq<Seq<char>>,
    nd: Seq<Seq<usize>>,
    labels: Seq<usize>,
    cfg: BootstrapConfig,
) -> bool {
    let d = spec_distinct(tds);
    let codes = spec_codes_u(tds);
    let g = spec_prepared(nd, labels, cfg.ignore_self);
    let pairs = spec_pair_space(d.len() as int, cfg.order);
    &&& res.len() == pairs.len()
    &&& exists|sims: Seq<Seq<u64>>|
        {
            &&& #[trigger] sims_ok(sims, codes, g, d.len(), cfg.order, cfg.times as nat)
            &&& forall|t: int|
                0 <= t < res.len() ==> record_ok(#[trigger] res[t], d, codes, g, pairs[t], sims, cfg)
        }
}

/// A permutation of valid codes is made of valid codes.
proof fn lemma_perm_codes_bounded(s: Seq<usize>, codes: Seq<usize>, k: int)
    requires
        s.to_multiset() == codes.to_multiset(),
        forall|i: int| 0 <= i < codes.len() ==> (#[trigger] codes[i] as int) < k,
    ensures
        forall|i: int| 0 <= i < s.len() ==> (#[trigger] s[i] as int) < k,
{
    broadcast use vstd::seq_lib::group_to_multiset_ensures;

    assert forall|i: int| 0 <= i < s.len() implies (#[trigger] s[i] as int) < k by {
        assert(s.contains(s[i]));
        assert(s.to_multiset().count(s[i]) > 0);
        assert(codes.to_multiset().count(s[i]) > 0);
        assert(codes.contains(s[i]));
        let j = choose|j: int| 0 <= j < codes.len() && codes[j] == s[i];
        assert((codes[j] as int) < k);
    }
}

/// Permutation test for the spatial co-occurrence of categorical types:
/// one record per category pair of the registry, each holding the exact
/// observed statistic and the significance call of the configured method
/// against a shared null distribution of `cfg.times` label permutations.
///
/// The call is rejected before any simulation when the parallel inputs
/// disagree in length, when `cfg.times` is zero, when there is no node
/// (and so no category), or when a surviving neighbor entry resolves to no
/// node.
pub fn bootstrap_categorical(
    types: &Vec<String>,
    neighbors: &Vec<Vec<usize>>,
    labels: &Vec<usize>,
    cfg: &BootstrapConfig,
) -> (r: Result<Vec<PairResult>, InputError>)
    requires
        types@.len() * types@.len() <= usize::MAX,
        cfg.times < usize::MAX,
        1 <= cfg.alpha_den,
        spec_total_len(neighbors.deep_view()) <= 0x4000_0000_0000_0000,
        cfg.method is Zscore ==> spec_total_len(neighbors.deep_view()) <= 0x100_0000
            && cfg.times <= 0x100_0000 && 1 <= cfg.z_crit_sq_den <= 0x10_0000
            && cfg.z_crit_sq_num <= 0x800_0000,
    ensures
        match spec_cat_input_error(
            types.deep_view(),
            neighbors.deep_view(),
            labels@,
            cfg.times as nat,
            cfg.ignore_self,
        ) {
            Some(e) => r == Err::<Vec<PairResult>, InputError>(e),
            None => r matches Ok(res) && cat_results_ok(
                res@,
                types.deep_view(),
                neighbors.deep_view(),
                labels@,
                *cfg,
            ),
        },
{
    let ghost tds = types.deep_view();
    let ghost nd = neighbors.deep_view();
    if types.len() != labels.len() || neighbors.len() != labels.len() {
        return Err(InputError::ShapeMismatch);
    }
    if cfg.times == 0 {
        return Err(InputError::ZeroTimes);
    }
    if types.len() == 0 {
        return Err(InputError::EmptyCategories);
    }
    let (ds, codes) = distinct_categories(types);
    let k = ds.len();
    let ghost d = spec_distinct(tds);
    proof {
        lemma_distinct_len(tds);
        assert(k * k <= types@.len() * types@.len()) by (nonlinear_arith)
            requires
                0 <= k as int <= types@.len(),
        ;
        assert(codes@ =~= spec_codes_u(tds));
    }
    let pos_graph = match prepare_graph(neighbors, labels, cfg.ignore_self) {
        Some(p) => p,
        None => {
            return Err(InputError::UnknownNeighborLabel);
        },
    };
    let ghost gv = spec_prepared(nd, labels@, cfg.ignore_self);
    proof {
        assert(pos_graph.deep_view() == gv);
        assert(spec_total_len(gv) <= spec_total_len(nd));
    }
    let (obs_matrix, occ) = count_neighbors(&codes, &pos_graph, k, cfg.order);
    let times = cfg.times;
    let order = cfg.order;
    let mut sims: Vec<Vec<u64>> = Vec::new();
    let mut t: usize = 0;
    while t < times
        invariant
            codes@.len() == pos_graph@.len(),
            forall|i: int| 0 <= i < codes@.len() ==> (#[trigger] codes@[i] as int) < k as int,
            forall|i: int, j: int|
                0 <= i < pos_graph@.len() && 0 <= j < pos_graph@[i]@.len() ==> (
                #[trigger] pos_graph@[i]@[j] as int) < codes@.len(),
            k * k <= usize::MAX,
            gv == pos_graph.deep_view(),
            spec_total_len(gv) <= 0x4000_0000_0000_0000,
            t <= times,
            sims@.len() == t,
            forall|u: int| 0 <= u < t ==> (#[trigger] sims@[u]@).len() == k * k,
            forall|u: int|
                0 <= u < t ==> trial_ok(#[trigger] sims@[u]@, codes@, gv, k as nat, order),
        decreases times - t,
    {
        let sc = shuffled(copy_usizes(&codes));
        proof {
            lemma_perm_codes_bounded(sc@, codes@, k as int);
        }
        let (m, _) = count_neighbors(&sc, &pos_graph, k, order);
        proof {
            assert(matrix_of(m@, sc@, gv, k as nat, order));
            assert(trial_ok(m@, codes@, gv, k as nat, order));
        }
        sims.push(m);
        t = t + 1;
    }
    let ghost simsv = sims.deep_view();
    proof {
        assert(simsv.len() == times);
        assert forall|u: int| 0 <= u < simsv.len() implies simsv[u] =~= sims@[u]@ by {}
        assert(sims_ok(simsv, codes@, gv, k as nat, order, times as nat)) by {
            assert forall|u: int| 0 <= u < simsv.len() implies trial_ok(
                #[trigger] simsv[u],
                codes@,
                gv,
                k as nat,
                order,
            ) by {
                assert(simsv[u] == sims@[u]@);
            }
        }
    }
    proof {
        lemma_pair_space_bounds(k as int, k as int, order);
    }
    let pairs = build_index_pairs(k, order);
    proof {
        assert(pairs@ == spec_upto(k as int, k as int, order));
        assert forall|u: int| 0 <= u < pairs@.len() implies pair_in_range(
            #[trigger] pairs@[u],
            k as int,
            order,
        ) by {
            assert(pairs@[u] == spec_upto(k as int, k as int, order)[u]);
        }
    }
    let np = pairs.len();
    let mut results: Vec<PairResult> = Vec::new();
    let mut t2: usize = 0;
    while t2 < np
        invariant
            np == pairs@.len(),
            t2 <= np,
            k == ds@.len(),
            ds.deep_view() == d,
            d == spec_distinct(tds),
            codes@ == spec_codes_u(tds),
            codes@.len() == pos_graph@.len(),
            forall|i: int| 0 <= i < codes@.len() ==> (#[trigger] codes@[i] as int) < k as int,
            k * k <= usize::MAX,
            gv == pos_graph.deep_view(),
            spec_total_len(gv) <= 0x4000_0000_0000_0000,
            cfg.method is Zscore ==> spec_total_len(gv) <= 0x100_0000 && times <= 0x100_0000 && 1
                <= cfg.z_crit_sq_den <= 0x10_0000 && cfg.z_crit_sq_num <= 0x800_0000,
            1 <= cfg.alpha_den,
            times == cfg.times,
            times < usize::MAX,
            order == cfg.order,
            pairs@ == spec_pair_space(k as int, order),
            forall|u: int|
                0 <= u < pairs@.len() ==> pair_in_range(#[trigger] pairs@[u], k as int, order),
            simsv == sims.deep_view(),
            simsv.len() == times,
            forall|u: int| 0 <= u < times ==> (#[trigger] sims@[u]@).len() == k * k,
            forall|u: int| 0 <= u < simsv.len() ==> #[trigger] simsv[u] == sims@[u]@,
            sims@.len() == times,
            sims_ok(simsv, codes@, gv, k as nat, order, times as nat),
            obs_matrix@.len() == k * k,
            forall|a: int, b: int|
                0 <= a < k && 0 <= b < k ==> obs_matrix@[cell(a, b, k as int)]
                    == #[trigger] spec_pair_num(codes@, gv, a, b, order),
            occ@.len() == k,
            forall|a: int| 0 <= a < k ==> occ@[a] == spec_occ(codes@, #[trigger] (a as usize)),
            results@.len() == t2,
            forall|u: int|
                0 <= u < t2 ==> record_ok(
                    #[trigger] results@[u],
                    d,
                    codes@,
                    gv,
                    pairs@[u],
                    simsv,
                    *cfg,
                ),
        decreases np - t2,
    {
        let pair = pairs[t2];
        let pa = pair.0;
        let pb = pair.1;
        proof {
            crate::interaction::lemma_cell_range(pa as int, pb as int, k as int);
            assert(pa * k + pb == cell(pa as int, pb as int, k as int)) by (nonlinear_arith);
        }
        let idx = pa * k + pb;
        let obs_num = obs_matrix[idx];
        let den = occ[pa];
        let mut col: Vec<u64> = Vec::new();
        let mut u: usize = 0;
        while u < times
            invariant
                simsv == sims.deep_view(),
                simsv.len() == times,
                sims@.len() == times,
                forall|w: int| 0 <= w < times ==> (#[trigger] sims@[w]@).len() == k * k,
                forall|w: int| 0 <= w < simsv.len() ==> #[trigger] simsv[w] == sims@[w]@,
                0 <= idx < k * k,
                u <= times,
                col@.len() == u,
                forall|w: int| 0 <= w < u ==> #[trigger] col@[w] == simsv[w][idx as int],
            decreases times - u,
        {
            let row = &sims[u];
            col.push(row[idx]);
            u = u + 1;
        }
        proof {
            assert(col@ =~= column(simsv, idx as int));
            assert(obs_num == spec_pair_num(codes@, gv, pa as int, pb as int, order));
        }
        let (p, null, indicator): (Option<Frac>, Option<NullMoments>, i8) = match cfg.method {
            Method::Pval => {
                let (p_num, ind) = empirical_significance(obs_num, &col, cfg.alpha_num, cfg.alpha_den);
                (Some(Frac { num: p_num, den: times + 1 }), None, ind)
            },
            Method::Zscore => {
                proof {
                    lemma_pair_num_bound(codes@, gv, gv.len() as int, pa as int, pb as int, order);
                    assert(obs_num <= 0x200_0000);
                    assert forall|w: int| 0 <= w < col@.len() implies (#[trigger] col@[w])
                        <= 0x200_0000 by {
                        assert(trial_ok(simsv[w], codes@, gv, k as nat, order));
                        let s = choose|s: Seq<usize>|
                            s.to_multiset() == codes@.to_multiset() && #[trigger] matrix_of(
                                simsv[w],
                                s,
                                gv,
                                k as nat,
                                order,
                            );
                        assert(simsv[w][cell(pa as int, pb as int, k as int)] == spec_pair_num(
                            s,
                            gv,
                            pa as int,
                            pb as int,
                            order,
                        ));
                        lemma_pair_num_bound(s, gv, gv.len() as int, pa as int, pb as int, order);
                    }
                }
                let score = zscore_significance(obs_num, &col, cfg.z_crit_sq_num, cfg.z_crit_sq_den);
                (
                    if score.degenerate {
                        Some(Frac { num: 1, den: 1 })
                    } else {
                        None
                    },
                    Some(score.null),
                    score.indicator,
                )
            },
        };
        let rec = PairResult {
            a: ds[pa].clone(),
            b: ds[pb].clone(),
            observed_num: obs_num,
            observed_den: den,
            p,
            null,
            indicator,
        };
        proof {
            assert(d.len() == k as nat);
            assert(rec.a == ds@[pa as int]);
            assert(rec.a@ == ds.deep_view()[pa as int]);
            assert(rec.a@ == d[pa as int]);
            assert(rec.b == ds@[pb as int]);
            assert(rec.b@ == ds.deep_view()[pb as int]);
            assert(rec.b@ == d[pb as int]);
            assert(((pa as int) as usize) == pa);
            assert(occ@[pa as int] == spec_occ(codes@, (pa as int) as usize));
            assert(occ@[pa as int] == spec_occ(codes@, pa));
            assert(rec.observed_den == spec_occ(codes@, pa));
            assert(cell(pa as int, pb as int, d.len() as int) == idx as int);
            assert(col@ == column(simsv, cell(pa as int, pb as int, d.len() as int)));
            assert(record_ok(rec, d, codes@, gv, pairs@[t2 as int], simsv, *cfg));
        }
        results.push(rec);
        t2 = t2 + 1;
    }
    proof {
        lemma_pair_space_len(k as int, cfg.order);
        assert(cat_results_ok(results@, tds, nd, labels@, *cfg)) by {
            assert(sims_ok(simsv, spec_codes_u(tds), gv, d.len(), cfg.order, cfg.times as nat));
            assert forall|t3: int| 0 <= t3 < results@.len() implies record_ok(
                #[trigger] results@[t3],
                d,
                spec_codes_u(tds),
                gv,
                spec_pair_space(d.len() as int, cfg.order)[t3],
                simsv,
                *cfg,
            ) by {
                assert(record_ok(results@[t3], d, codes@, gv, pairs@[t3], simsv, *cfg));
            }
        }
    }
    Ok(results)
}

/// One scored marker pair: the two marker names, whether the null was
/// degenerate (the fallback `p = 1` case), and the signed significance
/// indicator.
#[derive(Debug, Clone)]
pub struct MarkerResult {
    pub a: String,
    pub b: String,
    pub observed: u64,
    pub degenerate: bool,
    pub indicator: i8,
    pub null: NullMoments,
}

/// What one marker record states: its observed field is the exact marker
/// statistic of `(x, y)`, and its verdict fields are the z-score scorer's
/// output on a null distribution drawn by rearranging `y`.
pub open spec fn marker_scored(
    rec: MarkerResult,
    x: Seq<bool>,
    y: Seq<bool>,
    g: Seq<Seq<usize>>,
    times: nat,
    c2_num: int,
    c2_den: int,
) -> bool {
    marker_outcome_ok(
        (MarkerOutcome {
            observed: rec.observed,
            degenerate: rec.degenerate,
            indicator: rec.indicator,
            null: rec.null,
        }),
        x,
        y,
        g,
        times,
        c2_num,
        c2_den,
    )
}

/// What one combination's two records state: the forward record scores
/// `(markers[c1], markers[c2])`; the reverse record scores the swapped
/// orientation independently when `order` is set, and otherwise repeats
/// the forward verdict under the swapped names.
pub open spec fn comb_pair_ok(
    pair: (usize, usize),
    rec0: MarkerResult,
    rec1: MarkerResult,
    xm: Seq<Seq<bool>>,
    markers: Seq<Seq<char>>,
    g: Seq<Seq<usize>>,
    times: nat,
    c2_num: int,
    c2_den: int,
    order: bool,
) -> bool {
    let c1 = pair.0 as int;
    let c2 = pair.1 as int;
    &&& rec0.a@ == markers[c1]
    &&& rec0.b@ == markers[c2]
    &&& marker_scored(rec0, xm[c1], xm[c2], g, times, c2_num, c2_den)
    &&& rec1.a@ == markers[c2]
    &&& rec1.b@ == markers[c1]
    &&& if order {
        marker_scored(rec1, xm[c2], xm[c1], g, times, c2_num, c2_den)
    } else {
        &&& rec1.observed == rec0.observed
        &&& rec1.degenerate == rec0.degenerate
        &&& rec1.indicator == rec0.indicator
        &&& rec1.null == rec0.null
    }
}

/// What a whole marker-combination result states: two records per
/// combination-with-replacement of the marker indices, in enumeration
/// order.  With `order` unset, the two records of a combination carry
/// identical verdicts (the statistic is computed once and reused), so
/// swapping the two markers never changes the reported value.
pub open spec fn comb_results_ok(
    res: Seq<MarkerResult>,
    xm: Seq<Seq<bool>>,
    markers: Seq<Seq<char>>,
    g: Seq<Seq<usize>>,
    times: nat,
    c2_num: int,
    c2_den: int,
    order: bool,
) -> bool {
    let pairs = spec_unordered_pairs(markers.len() as int);
    &&& res.len() == 2 * pairs.len()
    &&& forall|t: int|
        0 <= t < pairs.len() ==> comb_pair_ok(
            #[trigger] pairs[t],
            res[2 * t],
            res[2 * t + 1],
            xm,
            markers,
            g,
            times,
            c2_num,
            c2_den,
            order,
        )
}

/// The structural validation of a marker-combination call.
pub open spec fn spec_comb_input_error(
    xm: Seq<Seq<bool>>,
    markers: Seq<Seq<char>>,
    neighbors: Seq<Seq<usize>>,
    labels: Seq<usize>,
    times: nat,
) -> Option<InputError> {
    if markers.len() != xm.len() || neighbors.len() != labels.len() || !(forall|i: int|
        0 <= i < xm.len() ==> (#[trigger] xm[i]).len() == labels.len()) {
        Some(InputError::ShapeMismatch)
    } else if times == 0 {
        Some(InputError::ZeroTimes)
    } else if !spec_all_resolvable(spec_normalize(neighbors, labels, true), labels) {
        Some(InputError::UnknownNeighborLabel)
    } else {
        None
    }
}

/// Permutation test for the spatial co-occurrence of every marker pair:
/// for each combination-with-replacement of two markers, the marker-pair
/// engine scores the forward orientation, and the reverse orientation
/// either independently (`order` set, the statistic being directional) or
/// by reusing the forward verdict (`order` unset).
///
/// `exp_matrix` holds one boolean positivity row per marker, each as long
/// as `labels`.  The call is rejected before any simulation when the
/// shapes disagree, when `times` is zero, or when a surviving neighbor
/// entry resolves to no node.
pub fn comb_bootstrap(
    exp_matrix: &Vec<Vec<bool>>,
    markers: &Vec<String>,
    neighbors: &Vec<Vec<usize>>,
    labels: &Vec<usize>,
    z_crit_sq_num: u64,
    z_crit_sq_den: u64,
    order: bool,
    times: usize,
) -> (r: Result<Vec<MarkerResult>, InputError>)
    requires
        markers@.len() * markers@.len() <= usize::MAX,
        spec_total_len(neighbors.deep_view()) <= 0x100_0000,
        times <= 0x100_0000,
        1 <= z_crit_sq_den <= 0x10_0000,
        z_crit_sq_num <= 0x800_0000,
    ensures
        match spec_comb_input_error(
            exp_matrix.deep_view(),
            markers.deep_view(),
            neighbors.deep_view(),
            labels@,
            times as nat,
        ) {
            Some(e) => r == Err::<Vec<MarkerResult>, InputError>(e),
            None => r matches Ok(res) && comb_results_ok(
                res@,
                exp_matrix.deep_view(),
                markers.deep_view(),
                spec_prepared(neighbors.deep_view(), labels@, true),
                times as nat,
                z_crit_sq_num as int,
                z_crit_sq_den as int,
                order,
            ),
        },
{
    let ghost xm = exp_matrix.deep_view();
    let ghost mks = markers.deep_view();
    let ghost nd = neighbors.deep_view();
    let mk = markers.len();
    if mk != exp_matrix.len() || neighbors.len() != labels.len() {
        return Err(InputError::ShapeMismatch);
    }
    let mut i: usize = 0;
    let mut shape_ok: bool = true;
    while i < mk
        invariant
            mk == exp_matrix@.len(),
            xm == exp_matrix.deep_view(),
            i <= mk,
            shape_ok <==> forall|t: int| 0 <= t < i ==> (#[trigger] xm[t]).len() == labels@.len(),
            !shape_ok ==> i == mk,
        decreases mk - i,
    {
        proof {
            assert(xm[i as int] =~= exp_matrix@[i as int]@);
        }
        if exp_matrix[i].len() != labels.len() {
            shape_ok = false;
            i = mk;
        } else {
            i = i + 1;
        }
    }
    if !shape_ok {
        return Err(InputError::ShapeMismatch);
    }
    if times == 0 {
        return Err(InputError::ZeroTimes);
    }
    let pos_graph = match prepare_graph(neighbors, labels, true) {
        Some(p) => p,
        None => {
            return Err(InputError::UnknownNeighborLabel);
        },
    };
    let ghost gv = spec_prepared(nd, labels@, true);
    proof {
        lemma_pair_space_bounds(mk as int, mk as int, false);
    }
    let pairs = build_index_pairs(mk, false);
    proof {
        assert(pairs@ == spec_upto(mk as int, mk as int, false));
        assert forall|u: int| 0 <= u < pairs@.len() implies pair_in_range(
            #[trigger] pairs@[u],
            mk as int,
            false,
        ) by {
            assert(pairs@[u] == spec_upto(mk as int, mk as int, false)[u]);
        }
    }
    let np = pairs.len();
    let mut results: Vec<MarkerResult> = Vec::new();
    let mut t: usize = 0;
    while t < np
        invariant
            np == pairs@.len(),
            t <= np,
            mk == markers@.len(),
            mk == exp_matrix@.len(),
            xm == exp_matrix.deep_view(),
            mks == markers.deep_view(),
            gv == pos_graph.deep_view(),
            spec_total_len(gv) <= 0x100_0000,
            times <= 0x100_0000,
            0 < times,
            1 <= z_crit_sq_den <= 0x10_0000,
            z_crit_sq_num <= 0x800_0000,
            pos_graph@.len() == labels@.len(),
            forall|a: int, b: int|
                0 <= a < pos_graph@.len() && 0 <= b < pos_graph@[a]@.len() ==> (
                #[trigger] pos_graph@[a]@[b] as int) < labels@.len(),
            forall|u: int| 0 <= u < mk ==> (#[trigger] xm[u]).len() == labels@.len(),
            pairs@ == spec_unordered_pairs(mk as int),
            forall|u: int|
                0 <= u < pairs@.len() ==> pair_in_range(#[trigger] pairs@[u], mk as int, false),
            results@.len() == 2 * t,
            forall|u: int|
                0 <= u < t ==> comb_pair_ok(
                    #[trigger] pairs@[u],
                    results@[2 * u],
                    results@[2 * u + 1],
                    xm,
                    mks,
                    gv,
                    times as nat,
                    z_crit_sq_num as int,
                    z_crit_sq_den as int,
                    order,
                ),
        decreases np - t,
    {
        let pair = pairs[t];
        let c1 = pair.0;
        let c2 = pair.1;
        let x = &exp_matrix[c1];
        let y = &exp_matrix[c2];
        proof {
            assert(xm[c1 as int] =~= exp_matrix@[c1 as int]@);
            assert(xm[c2 as int] =~= exp_matrix@[c2 as int]@);
        }
        let out = xy_comb(x, y, &pos_graph, times, z_crit_sq_num, z_crit_sq_den);
        let rec0 = MarkerResult {
            a: markers[c1].clone(),
            b: markers[c2].clone(),
            observed: out.observed,
            degenerate: out.degenerate,
            indicator: out.indicator,
            null: out.null,
        };
        let rec1 = if order {
            let out2 = xy_comb(y, x, &pos_graph, times, z_crit_sq_num, z_crit_sq_den);
            MarkerResult {
                a: markers[c2].clone(),
                b: markers[c1].clone(),
                observed: out2.observed,
                degenerate: out2.degenerate,
                indicator: out2.indicator,
                null: out2.null,
            }
        } else {
            MarkerResult {
                a: markers[c2].clone(),
                b: markers[c1].clone(),
                observed: out.observed,
                degenerate: out.degenerate,
                indicator: out.indicator,
                null: out.null,
            }
        };
        proof {
            assert(rec0.a@ == mks[c1 as int]);
            assert(rec0.b@ == mks[c2 as int]);
            assert(rec1.a@ == mks[c2 as int]);
            assert(rec1.b@ == mks[c1 as int]);
            assert(comb_pair_ok(
                pairs@[t as int],
                rec0,
                rec1,
                xm,
                mks,
                gv,
                times as nat,
                z_crit_sq_num as int,
                z_crit_sq_den as int,
                order,
            ));
        }
        results.push(rec0);
        results.push(rec1);
        t = t + 1;
    }
    proof {
        assert(comb_results_ok(
            results@,
            xm,
            mks,
            gv,
            times as nat,
            z_crit_sq_num as int,
            z_crit_sq_den as int,
            order,
        ));
    }
    Ok(results)
}

/// If the neighbor graph has no edges, every categorical observed
/// statistic is zero and every significance indicator is zero, whichever
/// method scores it — the empirical method provided the level does not
/// exceed `times / (times + 1)`, the z-score method unconditionally
/// (every null sample is zero, a degenerate null).
pub proof fn lemma_zero_edges_categorical(
    codes: Seq<usize>,
    g: Seq<Seq<usize>>,
    k: nat,
    order: bool,
    sims: Seq<Seq<u64>>,
    times: nat,
    a: int,
    b: int,
    alpha_num: int,
    alpha_den: int,
    c2_num: int,
    c2_den: int,
)
    requires
        forall|i: int| 0 <= i < g.len() ==> (#[trigger] g[i]).len() == 0,
        sims_ok(sims, codes, g, k, order, times),
        0 <= a < k as int,
        0 <= b < k as int,
        1 <= times,
        alpha_num * (times + 1) <= alpha_den * times,
    ensures
        spec_pair_num(codes, g, a, b, order) == 0,
        emp_indicator(
            column(sims, cell(a, b, k as int)),
            spec_pair_num(codes, g, a, b, order) as u64,
            alpha_num,
            alpha_den,
        ) == 0,
        z_indicator(
            spec_pair_num(codes, g, a, b, order) as u64,
            column(sims, cell(a, b, k as int)),
            c2_num,
            c2_den,
        ) == 0,
{
    crate::interaction::lemma_pair_num_zero_edges(codes, g, g.len() as int, a, b, order);
    let col = column(sims, cell(a, b, k as int));
    crate::interaction::lemma_cell_range(a, b, k as int);
    assert forall|t: int| 0 <= t < col.len() implies #[trigger] col[t] == 0u64 by {
        assert(trial_ok(sims[t], codes, g, k, order));
        let s = choose|s: Seq<usize>|
            s.to_multiset() == codes.to_multiset() && #[trigger] matrix_of(sims[t], s, g, k, order);
        assert(sims[t][cell(a, b, k as int)] == spec_pair_num(s, g, a, b, order));
        crate::interaction::lemma_pair_num_zero_edges(s, g, g.len() as int, a, b, order);
    }
    crate::significance::lemma_counts_all_obs(col, 0u64);
    assert(col.len() == times);
    assert(crate::significance::emp_p_count(col, 0u64) == times);
    assert(times * alpha_den == alpha_den * times) by (nonlinear_arith);
    assert(!crate::significance::emp_significant(col, 0u64, alpha_num, alpha_den));
    assert(all_equal(col));
}

/// The marker flavor of the same fact: with no edges the observed marker
/// statistic is zero and every null sample is zero, so the z-score
/// indicator is zero whatever the threshold.
pub proof fn lemma_zero_edges_marker(
    x: Seq<bool>,
    y: Seq<bool>,
    g: Seq<Seq<usize>>,
    sims: Seq<u64>,
    times: nat,
    c2_num: int,
    c2_den: int,
)
    requires
        forall|i: int| 0 <= i < g.len() ==> (#[trigger] g[i]).len() == 0,
        marker_sims_ok(sims, x, y, g, times),
    ensures
        spec_comb_count(x, y, g) == 0,
        all_equal(sims),
        z_indicator(spec_comb_count(x, y, g) as u64, sims, c2_num, c2_den) == 0,
{
    crate::interaction::lemma_comb_count_zero_edges(x, y, g, g.len() as int);
    assert forall|t: int| 0 <= t < sims.len() implies #[trigger] sims[t] == 0u64 by {
        assert(marker_trial_ok(sims[t], x, y, g));
        let y2 = choose|y2: Seq<bool>|
            y2.to_multiset() == y.to_multiset() && sims[t] == #[trigger] spec_comb_count(x, y2, g);
        crate::interaction::lemma_comb_count_zero_edges(x, y2, g, g.len() as int);
    }
}

} // verus!
