//! Observed-statistic evaluation.
//!
//! Two statistic families over a normalized, position-indexed neighbor
//! graph:
//!
//! * the categorical neighbor-composition statistic: for every node, its
//!   surviving neighbor entries are tallied by category pair into a dense
//!   `k * k` accumulator; the statistic of a pair `(a, b)` is the
//!   accumulated count divided by the prevalence of `a` (that division is
//!   kept exact, as a numerator here and a denominator from
//!   [`spec_occ`]);
//! * the marker co-occurrence statistic: the number of surviving adjacency
//!   entries leading from an `x`-positive node to a `y`-positive node.
//!
//! In unordered mode a cross-category observation is added twice under the
//! single canonical key (lower category index first) instead of being split
//! across the two mirrored keys.

use vstd::prelude::*;

verus! {

/// Flat row-major index of the accumulator cell of the pair `(a, b)`.
pub open spec fn cell(a: int, b: int, k: int) -> int {
    a * k + b
}

/// Distinct pairs occupy distinct accumulator cells.
pub proof fn lemma_cell_inj(a: int, b: int, c: int, d: int, k: int)
    requires
        0 <= a < k,
        0 <= b < k,
        0 <= c < k,
        0 <= d < k,
        cell(a, b, k) == cell(c, d, k),
    ensures
        a == c && b == d,
{
    assert(a == c && b == d) by (nonlinear_arith)
        requires
            0 <= a < k,
            0 <= b < k,
            0 <= c < k,
            0 <= d < k,
            a * k + b == c * k + d,
    ;
}

/// Every cell index stays inside the `k * k` accumulator.
pub proof fn lemma_cell_range(a: int, b: int, k: int)
    requires
        0 <= a < k,
        0 <= b < k,
    ensures
        0 <= cell(a, b, k) < k * k,
{
    assert(0 <= a * k + b < k * k) by (nonlinear_arith)
        requires
            0 <= a < k,
            0 <= b < k,
    ;
}

/// Contribution of one surviving adjacency entry to the accumulator of the
/// pair `(a, b)`: the center node carries category code `x`, the neighbor
/// carries `y`.  Ordered mode scores the directed observation `(x, y)`;
/// unordered mode folds a cross-category observation twice into its
/// canonical key and a same-category observation once into the self key.
pub open spec fn entry_contrib(x: int, y: int, a: int, b: int, order: bool) -> nat {
    if order {
        if x == a && y == b {
            1nat
        } else {
            0nat
        }
    } else if x == y {
        if x == a && y == b {
            1nat
        } else {
            0nat
        }
    } else {
        let lo = if x < y {
            x
        } else {
            y
        };
        let hi = if x < y {
            y
        } else {
            x
        };
        if lo == a && hi == b {
            2nat
        } else {
            0nat
        }
    }
}

/// Contribution of the first `m` entries of one node's neighbor list; the
/// center node carries code `x`, entries are node positions.
pub open spec fn row_contrib(
    codes: Seq<usize>,
    x: int,
    neigh: Seq<usize>,
    m: int,
    a: int,
    b: int,
    order: bool,
) -> nat
    decreases m,
{
    if m <= 0 {
        0nat
    } else {
        row_contrib(codes, x, neigh, m - 1, a, b, order) + entry_contrib(
            x,
            codes[neigh[m - 1] as int] as int,
            a,
            b,
            order,
        )
    }
}

/// Accumulated count of the pair `(a, b)` over the first `m` nodes.
pub open spec fn pair_num_upto(
    codes: Seq<usize>,
    g: Seq<Seq<usize>>,
    m: int,
    a: int,
    b: int,
    order: bool,
) -> nat
    decreases m,
{
    if m <= 0 {
        0nat
    } else {
        pair_num_upto(codes, g, m - 1, a, b, order) + row_contrib(
            codes,
            codes[m - 1] as int,
            g[m - 1],
            g[m - 1].len() as int,
            a,
            b,
            order,
        )
    }
}

/// The raw neighbor-composition count of the pair `(a, b)`: the numerator
/// of the categorical statistic.  The statistic itself is this count
/// divided by the prevalence [`spec_occ`]`(codes, a)`.
pub open spec fn spec_pair_num(
    codes: Seq<usize>,
    g: Seq<Seq<usize>>,
    a: int,
    b: int,
    order: bool,
) -> nat {
    pair_num_upto(codes, g, g.len() as int, a, b, order)
}

/// Prevalence of category code `a`: how many nodes carry it.
pub open spec fn spec_occ(codes: Seq<usize>, a: usize) -> nat {
    codes.to_multiset().count(a)
}

/// Prevalences only depend on the multiset of codes, so a permutation of
/// the labeling never changes any statistic's denominator.
pub proof fn lemma_occ_permutation_invariant(s: Seq<usize>, codes: Seq<usize>)
    requires
        s.to_multiset() == codes.to_multiset(),
    ensures
        forall|a: usize| #[trigger] spec_occ(s, a) == spec_occ(codes, a),
{
}

/// Total number of adjacency entries in the first `m` rows.
pub open spec fn total_upto(g: Seq<Seq<usize>>, m: int) -> nat
    decreases m,
{
    if m <= 0 {
        0nat
    } else {
        total_upto(g, m - 1) + g[m - 1].len()
    }
}

/// Total number of adjacency entries of the graph.
pub open spec fn spec_total_len(g: Seq<Seq<usize>>) -> nat {
    total_upto(g, g.len() as int)
}

/// One row contributes at most twice its processed entries to any cell.
pub proof fn lemma_row_contrib_bound(
    codes: Seq<usize>,
    x: int,
    neigh: Seq<usize>,
    m: int,
    a: int,
    b: int,
    order: bool,
)
    requires
        0 <= m,
    ensures
        row_contrib(codes, x, neigh, m, a, b, order) <= 2 * m,
    decreases m,
{
    if m > 0 {
        lemma_row_contrib_bound(codes, x, neigh, m - 1, a, b, order);
    }
}

/// Any accumulator cell is bounded by twice the entries seen so far.
pub proof fn lemma_pair_num_bound(
    codes: Seq<usize>,
    g: Seq<Seq<usize>>,
    m: int,
    a: int,
    b: int,
    order: bool,
)
    requires
        0 <= m,
    ensures
        pair_num_upto(codes, g, m, a, b, order) <= 2 * total_upto(g, m),
    decreases m,
{
    if m > 0 {
        lemma_pair_num_bound(codes, g, m - 1, a, b, order);
        lemma_row_contrib_bound(
            codes,
            codes[m - 1] as int,
            g[m - 1],
            g[m - 1].len() as int,
            a,
            b,
            order,
        );
    }
}

/// Entries seen so far never exceed the graph's total.
pub proof fn lemma_total_upto_mono(g: Seq<Seq<usize>>, m: int)
    requires
        0 <= m <= g.len(),
    ensures
        total_upto(g, m) <= spec_total_len(g),
    decreases g.len() - m,
{
    if m < g.len() {
        lemma_total_upto_mono(g, m + 1);
    }
}

/// An entry between two nodes that both miss category `a` contributes
/// nothing to any pair keyed first by `a`.
proof fn lemma_entry_contrib_absent(x: int, y: int, a: int, b: int, order: bool)
    requires
        x != a,
        y != a,
    ensures
        entry_contrib(x, y, a, b, order) == 0,
{
}

/// One row of a labeling without category `a` contributes nothing to any
/// pair keyed first by `a`.
proof fn lemma_row_contrib_absent(
    codes: Seq<usize>,
    x: int,
    neigh: Seq<usize>,
    m: int,
    a: int,
    b: int,
    order: bool,
)
    requires
        forall|i: int| 0 <= i < codes.len() ==> (#[trigger] codes[i] as int) != a,
        x != a,
        0 <= m <= neigh.len(),
        forall|j: int| 0 <= j < neigh.len() ==> (#[trigger] neigh[j] as int) < codes.len(),
    ensures
        row_contrib(codes, x, neigh, m, a, b, order) == 0,
    decreases m,
{
    if m > 0 {
        lemma_row_contrib_absent(codes, x, neigh, m - 1, a, b, order);
        lemma_entry_contrib_absent(x, codes[neigh[m - 1] as int] as int, a, b, order);
    }
}

/// The division-by-zero guard of the categorical statistic is exact: a
/// category with zero prevalence also has a zero raw count for every pair
/// it keys first, so taking the average `0 / 0` as `0` loses nothing.
pub proof fn lemma_absent_category_zero(
    codes: Seq<usize>,
    g: Seq<Seq<usize>>,
    m: int,
    a: usize,
    b: int,
    order: bool,
)
    requires
        spec_occ(codes, a) == 0,
        codes.len() == g.len(),
        0 <= m <= g.len(),
        forall|i: int, j: int|
            0 <= i < g.len() && 0 <= j < g[i].len() ==> (#[trigger] g[i][j] as int) < codes.len(),
    ensures
        pair_num_upto(codes, g, m, a as int, b, order) == 0,
    decreases m,
{
    broadcast use vstd::seq_lib::group_to_multiset_ensures;

    assert forall|i: int| 0 <= i < codes.len() implies (#[trigger] codes[i] as int) != a as int by {
        if codes[i] == a {
            assert(codes.contains(a));
            assert(codes.to_multiset().count(a) > 0);
        }
    }
    if m > 0 {
        lemma_absent_category_zero(codes, g, m - 1, a, b, order);
        assert forall|j: int| 0 <= j < g[m - 1].len() implies (#[trigger] g[m - 1][j] as int)
            < codes.len() by {}
        lemma_row_contrib_absent(
            codes,
            codes[m - 1] as int,
            g[m - 1],
            g[m - 1].len() as int,
            a as int,
            b,
            order,
        );
    }
}

/// A graph without edges accumulates nothing: every observed categorical
/// count is zero.
pub proof fn lemma_pair_num_zero_edges(
    codes: Seq<usize>,
    g: Seq<Seq<usize>>,
    m: int,
    a: int,
    b: int,
    order: bool,
)
    requires
        forall|i: int| 0 <= i < g.len() ==> (#[trigger] g[i]).len() == 0,
        0 <= m <= g.len(),
    ensures
        pair_num_upto(codes, g, m, a, b, order) == 0,
    decreases m,
{
    if m > 0 {
        lemma_pair_num_zero_edges(codes, g, m - 1, a, b, order);
    }
}

/// Computes the dense categorical accumulator and the prevalences.
///
/// `codes` assigns one category index (below `k`) to every node; `graph` is
/// the normalized adjacency with neighbor entries given as node positions.
/// Returns the row-major `k * k` matrix of raw pair counts together with
/// the per-category prevalences: the observed statistic of a pair `(a, b)`
/// is `counts[a * k + b] / occ[a]`, held exactly as that fraction.
pub fn count_neighbors(codes: &Vec<usize>, graph: &Vec<Vec<usize>>, k: usize, order: bool) -> (r: (
    Vec<u64>,
    Vec<usize>,
))
    requires
        codes@.len() == graph@.len(),
        forall|i: int| 0 <= i < codes@.len() ==> (#[trigger] codes@[i] as int) < k as int,
        forall|i: int, j: int|
            0 <= i < graph@.len() && 0 <= j < graph@[i]@.len() ==> (#[trigger] graph@[i]@[j] as int)
                < codes@.len(),
        k * k <= usize::MAX,
        spec_total_len(graph.deep_view()) <= 0x4000_0000_0000_0000,
    ensures
        r.0@.len() == k * k,
        forall|a: int, b: int|
            0 <= a < k && 0 <= b < k ==> r.0@[cell(a, b, k as int)] == #[trigger] spec_pair_num(
                codes@,
                graph.deep_view(),
                a,
                b,
                order,
            ),
        r.1@.len() == k,
        forall|a: int|
            0 <= a < k ==> r.1@[a] == spec_occ(codes@, #[trigger] (a as usize)),
{
    broadcast use vstd::seq_lib::group_to_multiset_ensures;

    let ghost gv = graph.deep_view();
    let n = codes.len();
    let size = k * k;
    let mut counts: Vec<u64> = Vec::new();
    let mut z: usize = 0;
    while z < size
        invariant
            z <= size,
            counts@.len() == z,
            forall|c: int| 0 <= c < z ==> counts@[c] == 0,
        decreases size - z,
    {
        counts.push(0);
        z = z + 1;
    }
    proof {
        let kk = k as int;
        assert forall|a: int, b: int| 0 <= a < kk && 0 <= b < kk implies counts@[cell(a, b, kk)]
            == #[trigger] pair_num_upto(codes@, gv, 0, a, b, order) by {
            lemma_cell_range(a, b, kk);
        }
    }
    let mut i: usize = 0;
    while i < n
        invariant
            n == codes@.len(),
            codes@.len() == graph@.len(),
            gv == graph.deep_view(),
            forall|t: int| 0 <= t < codes@.len() ==> (#[trigger] codes@[t] as int) < k as int,
            forall|t: int, j: int|
                0 <= t < graph@.len() && 0 <= j < graph@[t]@.len() ==> (#[trigger] graph@[t]@[j]
                    as int) < codes@.len(),
            k * k <= usize::MAX,
            spec_total_len(gv) <= 0x4000_0000_0000_0000,
            i <= n,
            counts@.len() == k * k,
            forall|a: int, b: int|
                0 <= a < k && 0 <= b < k ==> counts@[cell(a, b, k as int)]
                    == #[trigger] pair_num_upto(codes@, gv, i as int, a, b, order),
        decreases n - i,
    {
        let x = codes[i];
        let row = &graph[i];
        let m = row.len();
        proof {
            assert(gv[i as int] == graph@[i as int]@);
        }
        let mut j: usize = 0;
        while j < m
            invariant
                n == codes@.len(),
                codes@.len() == graph@.len(),
                gv == graph.deep_view(),
                forall|t: int| 0 <= t < codes@.len() ==> (#[trigger] codes@[t] as int) < k as int,
                k * k <= usize::MAX,
                spec_total_len(gv) <= 0x4000_0000_0000_0000,
                i < n,
                x == codes@[i as int],
                row@ == graph@[i as int]@,
                gv[i as int] == row@,
                forall|u: int| 0 <= u < row@.len() ==> (#[trigger] row@[u] as int) < codes@.len(),
                m == row@.len(),
                j <= m,
                counts@.len() == k * k,
                forall|a: int, b: int|
                    0 <= a < k && 0 <= b < k ==> counts@[cell(a, b, k as int)]
                        == #[trigger] pair_num_upto(codes@, gv, i as int, a, b, order)
                        + row_contrib(codes@, x as int, row@, j as int, a, b, order),
            decreases m - j,
        {
            let e = row[j];
            let y = codes[e];
            let (a0, b0, inc): (usize, usize, u64) = if order {
                (x, y, 1)
            } else if x == y {
                (x, y, 1)
            } else if x < y {
                (x, y, 2)
            } else {
                (y, x, 2)
            };
            proof {
                lemma_cell_range(a0 as int, b0 as int, k as int);
                assert(a0 * k + b0 == cell(a0 as int, b0 as int, k as int)) by (nonlinear_arith);
                lemma_pair_num_bound(codes@, gv, i as int, a0 as int, b0 as int, order);
                lemma_row_contrib_bound(
                    codes@,
                    x as int,
                    row@,
                    j as int,
                    a0 as int,
                    b0 as int,
                    order,
                );
                lemma_total_upto_mono(gv, i + 1);
                assert(total_upto(gv, i + 1) == total_upto(gv, i as int) + row@.len());
                lemma_pair_num_bound_all(codes@, gv, i as int, k as int, order);
            }
            let idx = a0 * k + b0;
            proof {
                assert(counts@[idx as int] == pair_num_upto(codes@, gv, i as int, a0 as int, b0
                    as int, order) + row_contrib(codes@, x as int, row@, j as int, a0 as int, b0
                    as int, order));
            }
            let old_val = counts[idx];
            let ghost prev = counts@;
            counts.set(idx, old_val + inc);
            proof {
                let kk = k as int;
                assert forall|a: int, b: int| 0 <= a < kk && 0 <= b < kk implies counts@[cell(
                    a,
                    b,
                    kk,
                )] == #[trigger] pair_num_upto(codes@, gv, i as int, a, b, order) + row_contrib(
                    codes@,
                    x as int,
                    row@,
                    j + 1,
                    a,
                    b,
                    order,
                ) by {
                    assert(row_contrib(codes@, x as int, row@, j + 1, a, b, order) == row_contrib(
                        codes@,
                        x as int,
                        row@,
                        j as int,
                        a,
                        b,
                        order,
                    ) + entry_contrib(x as int, codes@[row@[j as int] as int] as int, a, b, order));
                    assert(codes@[row@[j as int] as int] == y);
                    if a == a0 as int && b == b0 as int {
                        assert(entry_contrib(x as int, y as int, a, b, order) == inc);
                    } else {
                        lemma_cell_range(a, b, kk);
                        if cell(a, b, kk) == cell(a0 as int, b0 as int, kk) {
                            lemma_cell_inj(a, b, a0 as int, b0 as int, kk);
                        }
                        assert(counts@[cell(a, b, kk)] == prev[cell(a, b, kk)]);
                        assert(entry_contrib(x as int, y as int, a, b, order) == 0);
                    }
                }
            }
            j = j + 1;
        }
        proof {
            let kk = k as int;
            assert forall|a: int, b: int| 0 <= a < kk && 0 <= b < kk implies counts@[cell(
                a,
                b,
                kk,
            )] == #[trigger] pair_num_upto(codes@, gv, i + 1, a, b, order) by {
                assert(pair_num_upto(codes@, gv, i + 1, a, b, order) == pair_num_upto(
                    codes@,
                    gv,
                    i as int,
                    a,
                    b,
                    order,
                ) + row_contrib(
                    codes@,
                    codes@[i as int] as int,
                    gv[i as int],
                    gv[i as int].len() as int,
                    a,
                    b,
                    order,
                ));
            }
        }
        i = i + 1;
    }
    let mut occ: Vec<usize> = Vec::new();
    let mut z2: usize = 0;
    while z2 < k
        invariant
            z2 <= k,
            occ@.len() == z2,
            forall|c: int| 0 <= c < z2 ==> occ@[c] == 0,
        decreases k - z2,
    {
        occ.push(0);
        z2 = z2 + 1;
    }
    let mut i2: usize = 0;
    while i2 < n
        invariant
            n == codes@.len(),
            forall|t: int| 0 <= t < codes@.len() ==> (#[trigger] codes@[t] as int) < k as int,
            i2 <= n,
            occ@.len() == k,
            forall|a: int| 0 <= a < k ==> (#[trigger] occ@[a]) <= i2,
            forall|a: int|
                0 <= a < k ==> occ@[a] == codes@.take(i2 as int).to_multiset().count(
                    #[trigger] (a as usize),
                ),
        decreases n - i2,
    {
        broadcast use vstd::seq_lib::group_to_multiset_ensures;

        let c = codes[i2];
        let ghost before = codes@.take(i2 as int).to_multiset();
        proof {
            assert(codes@.take(i2 + 1).drop_last() =~= codes@.take(i2 as int));
            assert(codes@.take(i2 + 1) =~= codes@.take(i2 as int).push(c));
            assert(codes@.take(i2 as int).push(c).to_multiset() =~= before.insert(c));
            assert(codes@.take(i2 + 1).to_multiset() == before.insert(c));
        }
        let oldv = occ[c];
        occ.set(c, oldv + 1);
        proof {
            let after = codes@.take(i2 + 1).to_multiset();
            assert forall|a: int| 0 <= a < k implies occ@[a] == codes@.take(
                i2 + 1,
            ).to_multiset().count(#[trigger] (a as usize)) by {
                if a == c as int {
                    vstd::multiset::lemma_insert_increases_count_by_1(before, c);
                } else {
                    vstd::multiset::lemma_insert_other_elements_unchanged(before, c, a as usize);
                }
            }
        }
        i2 = i2 + 1;
    }
    proof {
        assert(codes@.take(n as int) =~= codes@);
    }
    (counts, occ)
}

/// Number of `y`-positive targets among the first `m` entries of one
/// node's neighbor list.
pub open spec fn comb_row(y: Seq<bool>, neigh: Seq<usize>, m: int) -> nat
    decreases m,
{
    if m <= 0 {
        0nat
    } else {
        comb_row(y, neigh, m - 1) + if y[neigh[m - 1] as int] {
            1nat
        } else {
            0nat
        }
    }
}

/// Marker co-occurrence count over the first `m` nodes: adjacency entries
/// leading from an `x`-positive node to a `y`-positive node.
pub open spec fn comb_upto(x: Seq<bool>, y: Seq<bool>, g: Seq<Seq<usize>>, m: int) -> nat
    decreases m,
{
    if m <= 0 {
        0nat
    } else {
        comb_upto(x, y, g, m - 1) + if x[m - 1] {
            comb_row(y, g[m - 1], g[m - 1].len() as int)
        } else {
            0nat
        }
    }
}

/// The marker co-occurrence statistic of the ordered marker pair `(x, y)`.
pub open spec fn spec_comb_count(x: Seq<bool>, y: Seq<bool>, g: Seq<Seq<usize>>) -> nat {
    comb_upto(x, y, g, g.len() as int)
}

/// One row contributes at most its processed entries.
pub proof fn lemma_comb_row_bound(y: Seq<bool>, neigh: Seq<usize>, m: int)
    requires
        0 <= m,
    ensures
        comb_row(y, neigh, m) <= m,
    decreases m,
{
    if m > 0 {
        lemma_comb_row_bound(y, neigh, m - 1);
    }
}

/// The marker count is bounded by the entries seen so far.
pub proof fn lemma_comb_upto_bound(x: Seq<bool>, y: Seq<bool>, g: Seq<Seq<usize>>, m: int)
    requires
        0 <= m,
    ensures
        comb_upto(x, y, g, m) <= total_upto(g, m),
    decreases m,
{
    if m > 0 {
        lemma_comb_upto_bound(x, y, g, m - 1);
        lemma_comb_row_bound(y, g[m - 1], g[m - 1].len() as int);
    }
}

/// A graph without edges has marker co-occurrence zero, whatever the
/// marker vectors.
pub proof fn lemma_comb_count_zero_edges(x: Seq<bool>, y: Seq<bool>, g: Seq<Seq<usize>>, m: int)
    requires
        forall|i: int| 0 <= i < g.len() ==> (#[trigger] g[i]).len() == 0,
        0 <= m <= g.len(),
    ensures
        comb_upto(x, y, g, m) == 0,
    decreases m,
{
    if m > 0 {
        lemma_comb_count_zero_edges(x, y, g, m - 1);
    }
}

/// Computes the marker co-occurrence statistic: over all nodes where `x`
/// is positive, the number of surviving adjacency entries whose target is
/// `y`-positive.  `graph` is the normalized adjacency with entries given
/// as node positions.
pub fn comb_count_neighbors(x: &Vec<bool>, y: &Vec<bool>, graph: &Vec<Vec<usize>>) -> (c: u64)
    requires
        x@.len() == graph@.len(),
        forall|i: int, j: int|
            0 <= i < graph@.len() && 0 <= j < graph@[i]@.len() ==> (#[trigger] graph@[i]@[j] as int)
                < y@.len(),
        spec_total_len(graph.deep_view()) <= 0x4000_0000_0000_0000,
    ensures
        c == spec_comb_count(x@, y@, graph.deep_view()),
        c <= spec_total_len(graph.deep_view()),
{
    let ghost gv = graph.deep_view();
    let n = graph.len();
    let mut c: u64 = 0;
    let mut i: usize = 0;
    while i < n
        invariant
            n == graph@.len(),
            x@.len() == graph@.len(),
            gv == graph.deep_view(),
            forall|t: int, j: int|
                0 <= t < graph@.len() && 0 <= j < graph@[t]@.len() ==> (#[trigger] graph@[t]@[j]
                    as int) < y@.len(),
            spec_total_len(gv) <= 0x4000_0000_0000_0000,
            i <= n,
            c == comb_upto(x@, y@, gv, i as int),
            c <= total_upto(gv, i as int),
        decreases n - i,
    {
        proof {
            assert(gv[i as int] == graph@[i as int]@);
            lemma_total_upto_mono(gv, i + 1);
        }
        if x[i] {
            let row = &graph[i];
            let m = row.len();
            let mut j: usize = 0;
            while j < m
                invariant
                    n == graph@.len(),
                    gv == graph.deep_view(),
                    i < n,
                    x@[i as int],
                    row@ == graph@[i as int]@,
                    gv[i as int] == row@,
                    forall|u: int| 0 <= u < row@.len() ==> (#[trigger] row@[u] as int) < y@.len(),
                    m == row@.len(),
                    j <= m,
                    spec_total_len(gv) <= 0x4000_0000_0000_0000,
                    total_upto(gv, i + 1) <= spec_total_len(gv),
                    total_upto(gv, i + 1) == total_upto(gv, i as int) + m,
                    c == comb_upto(x@, y@, gv, i as int) + comb_row(y@, row@, j as int),
                    c <= total_upto(gv, i as int) + j,
                decreases m - j,
            {
                let e = row[j];
                if y[e] {
                    c = c + 1;
                }
                j = j + 1;
            }
        }
        proof {
            assert(comb_upto(x@, y@, gv, i + 1) == comb_upto(x@, y@, gv, i as int) + if x@[i
                as int] {
                comb_row(y@, gv[i as int], gv[i as int].len() as int)
            } else {
                0nat
            });
        }
        i = i + 1;
    }
    c
}

/// Helper bound used while filling the accumulator: every cell of the
/// partial accumulator fits comfortably below the integer limit.
proof fn lemma_pair_num_bound_all(codes: Seq<usize>, g: Seq<Seq<usize>>, m: int, k: int, order: bool)
    requires
        0 <= m,
    ensures
        forall|a: int, b: int| #[trigger]
            pair_num_upto(codes, g, m, a, b, order) <= 2 * total_upto(g, m),
{
    assert forall|a: int, b: int| #[trigger]
        pair_num_upto(codes, g, m, a, b, order) <= 2 * total_upto(g, m) by {
        lemma_pair_num_bound(codes, g, m, a, b, order);
    }
}

} // verus!
