//! Monte-Carlo permutation tests for spatial co-occurrence between labeled
//! points (cells in tissue images).
//!
//! The library works on a fixed spatial neighbor graph together with a
//! labeling of its nodes: either one categorical type per node, or boolean
//! marker states.  It normalizes the adjacency into a canonical edge set,
//! enumerates the category pairs to score, computes an observed co-occurrence
//! statistic per pair, builds a null distribution by repeatedly permuting the
//! labels while the graph stays fixed, and reduces each (observed, null)
//! comparison to a directional significance call.
//!
//! All statistics are held as exact integers or integer fractions, so every
//! step from the adjacency to the significance indicator is verified.  The
//! only unverified steps are the draws of random permutations, which are
//! stated as trusted wrappers around the `rand` crate.

use vstd::prelude::*;

pub mod bootstrap;
pub mod graph;
pub mod interaction;
pub mod quad_stats;
pub mod registry;
pub mod significance;

use crate::bootstrap::{spec_all_resolvable, spec_codes_u, spec_pos};
use crate::graph::find_position;
use crate::registry::{distinct_categories, spec_distinct};

verus! {

/// Returns the explicit argument where one was given, and the fallback
/// default otherwise.
pub fn py_kwarg<T>(arg: Option<T>, default_value: T) -> (r: T)
    ensures
        r == match arg {
            Some(data) => data,
            None => default_value,
        },
{
    match arg {
        Some(data) => data,
        None => default_value,
    }
}

/// How many of the first `m` neighbor entries of one node (given by
/// label) carry the category whose first-seen index is `t`.
pub open spec fn spec_neigh_type_count(
    codes: Seq<usize>,
    labels: Seq<usize>,
    row: Seq<usize>,
    m: int,
    t: int,
) -> nat
    decreases m,
{
    if m <= 0 {
        0nat
    } else {
        spec_neigh_type_count(codes, labels, row, m - 1, t) + if codes[spec_pos(
            labels,
            row[m - 1],
        )] == t {
            1nat
        } else {
            0nat
        }
    }
}

/// For every node, the composition of its neighborhood by category: one
/// count per distinct category value (in first-seen order), counting the
/// node's neighbor entries whose node carries that category.  Neighbor
/// entries name neighbors by label; every entry must resolve to a node.
pub fn neighbor_components(neighbors: &Vec<Vec<usize>>, labels: &Vec<usize>, types: &Vec<String>) -> (r: (
    Vec<String>,
    Vec<Vec<usize>>,
))
    requires
        labels@.len() == types@.len(),
        neighbors@.len() == labels@.len(),
        spec_all_resolvable(neighbors.deep_view(), labels@),
    ensures
        r.0.deep_view() == spec_distinct(types.deep_view()),
        r.1@.len() == neighbors@.len(),
        forall|i: int|
            0 <= i < r.1@.len() ==> (#[trigger] r.1@[i]@).len() == spec_distinct(
                types.deep_view(),
            ).len(),
        forall|i: int, t: int|
            0 <= i < r.1@.len() && 0 <= t < r.1@[i]@.len() ==> #[trigger] r.1@[i]@[t]
                == spec_neigh_type_count(
                spec_codes_u(types.deep_view()),
                labels@,
                neighbors@[i]@,
                neighbors@[i]@.len() as int,
                t,
            ),
{
    let ghost tds = types.deep_view();
    let ghost nd = neighbors.deep_view();
    let (ds, codes) = distinct_categories(types);
    let k = ds.len();
    proof {
        assert(codes@ =~= spec_codes_u(tds));
    }
    let n = neighbors.len();
    let mut result: Vec<Vec<usize>> = Vec::new();
    let mut i: usize = 0;
    while i < n
        invariant
            n == neighbors@.len(),
            nd == neighbors.deep_view(),
            neighbors@.len() == labels@.len(),
            labels@.len() == types@.len(),
            spec_all_resolvable(nd, labels@),
            k == ds@.len(),
            codes@ == spec_codes_u(tds),
            codes@.len() == types@.len(),
            forall|u: int| 0 <= u < codes@.len() ==> (#[trigger] codes@[u] as int) < k as int,
            i <= n,
            result@.len() == i,
            forall|u: int| 0 <= u < i ==> (#[trigger] result@[u]@).len() == k,
            forall|u: int, t: int|
                0 <= u < i && 0 <= t < k ==> #[trigger] result@[u]@[t] == spec_neigh_type_count(
                    codes@,
                    labels@,
                    neighbors@[u]@,
                    neighbors@[u]@.len() as int,
                    t,
                ),
        decreases n - i,
    {
        let row = &neighbors[i];
        let m = row.len();
        proof {
            assert(nd[i as int] =~= row@);
        }
        let mut counts: Vec<usize> = Vec::new();
        let mut z: usize = 0;
        while z < k
            invariant
                z <= k,
                counts@.len() == z,
                forall|c: int| 0 <= c < z ==> counts@[c] == 0,
            decreases k - z,
        {
            counts.push(0);
            z = z + 1;
        }
        let mut j: usize = 0;
        while j < m
            invariant
                m == row@.len(),
                nd == neighbors.deep_view(),
                nd[i as int] == row@,
                0 <= i < nd.len(),
                spec_all_resolvable(nd, labels@),
                codes@.len() == labels@.len(),
                forall|u: int| 0 <= u < codes@.len() ==> (#[trigger] codes@[u] as int) < k as int,
                j <= m,
                counts@.len() == k,
                forall|t: int| 0 <= t < k ==> (#[trigger] counts@[t]) <= j,
                forall|t: int|
                    0 <= t < k ==> #[trigger] counts@[t] == spec_neigh_type_count(
                        codes@,
                        labels@,
                        row@,
                        j as int,
                        t,
                    ),
            decreases m - j,
        {
            let e = row[j];
            proof {
                assert(nd[i as int][j as int] == e);
                assert(crate::bootstrap::spec_resolvable(labels@, nd[i as int][j as int]));
                crate::graph::lemma_spec_find(labels@, e);
            }
            let p = match find_position(labels, e) {
                Some(p) => p,
                None => {
                    proof {
                        assert(false);
                    }
                    vstd::pervasive::unreached()
                },
            };
            let c = codes[p];
            let oldv = counts[c];
            counts.set(c, oldv + 1);
            proof {
                assert(p as int == spec_pos(labels@, e));
                assert forall|t: int| 0 <= t < k implies #[trigger] counts@[t]
                    == spec_neigh_type_count(codes@, labels@, row@, j + 1, t) by {
                    assert(spec_neigh_type_count(codes@, labels@, row@, j + 1, t)
                        == spec_neigh_type_count(codes@, labels@, row@, j as int, t)
                        + if codes@[spec_pos(labels@, row@[j as int])] == t {
                        1nat
                    } else {
                        0nat
                    });
                }
            }
            j = j + 1;
        }
        result.push(counts);
        i = i + 1;
    }
    (ds, result)
}

} // verus!
