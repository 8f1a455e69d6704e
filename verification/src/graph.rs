//! Neighbor-graph normalization.
//!
//! A spatial adjacency relation frequently arrives with both directions of
//! every undirected edge materialized (`i -> j` and `j -> i`), plus possible
//! self entries (`i -> i`).  Counting both directions double-counts every
//! edge of a symmetric co-occurrence statistic.  The normalizer keeps, for a
//! node whose label is `l`, only the entries `e` with `e > l` (one canonical
//! direction per edge, by label ordering); entries with `e == l` (a node
//! listed as its own neighbor) are kept unless `ignore_self` is set.
//!
//! Neighbor lists name neighbors by their *label* (an external stable
//! identifier), not by their position in the node sequence.  The lookup
//! from a label back to a position is also done here.

use vstd::prelude::*;

verus! {

/// Whether one directed adjacency entry survives normalization: the center
/// node carries label `l`, the entry names its neighbor by label `e`.
pub open spec fn keep_edge(l: usize, e: usize, ignore_self: bool) -> bool {
    e > l || (e == l && !ignore_self)
}

/// One node's neighbor list after normalization: the subsequence of entries
/// that satisfy [`keep_edge`], in their original order.
pub open spec fn spec_keep_list(s: Seq<usize>, l: usize, ignore_self: bool) -> Seq<usize>
    decreases s.len(),
{
    if s.len() == 0 {
        Seq::empty()
    } else {
        let rest = spec_keep_list(s.drop_last(), l, ignore_self);
        if keep_edge(l, s.last(), ignore_self) {
            rest.push(s.last())
        } else {
            rest
        }
    }
}

/// The whole adjacency after normalization, node by node.
pub open spec fn spec_normalize(g: Seq<Seq<usize>>, labels: Seq<usize>, ignore_self: bool) -> Seq<
    Seq<usize>,
> {
    Seq::new(g.len(), |i: int| spec_keep_list(g[i], labels[i], ignore_self))
}

/// Every entry of a normalized list satisfies the keep rule.
pub proof fn lemma_keep_list_all_kept(s: Seq<usize>, l: usize, ignore_self: bool)
    ensures
        forall|i: int|
            0 <= i < spec_keep_list(s, l, ignore_self).len() ==> keep_edge(
                l,
                #[trigger] spec_keep_list(s, l, ignore_self)[i],
                ignore_self,
            ),
    decreases s.len(),
{
    if s.len() > 0 {
        let rest = spec_keep_list(s.drop_last(), l, ignore_self);
        let whole = spec_keep_list(s, l, ignore_self);
        lemma_keep_list_all_kept(s.drop_last(), l, ignore_self);
        assert forall|i: int| 0 <= i < whole.len() implies keep_edge(
            l,
            #[trigger] whole[i],
            ignore_self,
        ) by {
            if keep_edge(l, s.last(), ignore_self) {
                assert(whole == rest.push(s.last()));
                if i < rest.len() {
                    assert(whole[i] == rest[i]);
                } else {
                    assert(whole[i] == s.last());
                }
            } else {
                assert(whole == rest);
            }
        }
    }
}

/// A list whose entries all satisfy the keep rule is left unchanged.
pub proof fn lemma_keep_list_of_kept(s: Seq<usize>, l: usize, ignore_self: bool)
    requires
        forall|i: int| 0 <= i < s.len() ==> keep_edge(l, #[trigger] s[i], ignore_self),
    ensures
        spec_keep_list(s, l, ignore_self) == s,
    decreases s.len(),
{
    if s.len() == 0 {
        assert(spec_keep_list(s, l, ignore_self) =~= s);
    } else {
        assert(forall|i: int|
            0 <= i < s.drop_last().len() ==> keep_edge(l, #[trigger] s.drop_last()[i], ignore_self));
        lemma_keep_list_of_kept(s.drop_last(), l, ignore_self);
        assert(spec_keep_list(s, l, ignore_self) =~= s);
    }
}

/// Normalizing one list twice gives the same list as normalizing it once.
pub proof fn lemma_keep_list_idempotent(s: Seq<usize>, l: usize, ignore_self: bool)
    ensures
        spec_keep_list(spec_keep_list(s, l, ignore_self), l, ignore_self) == spec_keep_list(
            s,
            l,
            ignore_self,
        ),
{
    lemma_keep_list_all_kept(s, l, ignore_self);
    lemma_keep_list_of_kept(spec_keep_list(s, l, ignore_self), l, ignore_self);
}

/// Normalization is idempotent: applying it twice yields the same adjacency
/// as applying it once.
pub proof fn lemma_normalize_idempotent(g: Seq<Seq<usize>>, labels: Seq<usize>, ignore_self: bool)
    ensures
        spec_normalize(spec_normalize(g, labels, ignore_self), labels, ignore_self)
            == spec_normalize(g, labels, ignore_self),
{
    let once = spec_normalize(g, labels, ignore_self);
    let twice = spec_normalize(once, labels, ignore_self);
    assert forall|i: int| 0 <= i < g.len() implies #[trigger] twice[i] == once[i] by {
        lemma_keep_list_idempotent(g[i], labels[i], ignore_self);
    }
    assert(twice =~= once);
}

/// Deduplicates a redundant adjacency list: for the node at position `i`
/// (label `labels[i]`), keeps only the neighbor entries `e` with
/// `e > labels[i]`, and the self entries `e == labels[i]` unless
/// `ignore_self` is set.  The output has one (possibly shorter) list per
/// input list.
pub fn remove_rep_neighbors(
    rep_neighbors: &Vec<Vec<usize>>,
    labels: &Vec<usize>,
    ignore_self: bool,
) -> (r: Vec<Vec<usize>>)
    requires
        rep_neighbors@.len() == labels@.len(),
    ensures
        r@.len() == rep_neighbors@.len(),
        forall|i: int|
            0 <= i < r@.len() ==> #[trigger] r@[i]@ == spec_keep_list(
                rep_neighbors@[i]@,
                labels@[i],
                ignore_self,
            ),
{
    let n = rep_neighbors.len();
    let mut out: Vec<Vec<usize>> = Vec::new();
    let mut i: usize = 0;
    while i < n
        invariant
            n == rep_neighbors@.len(),
            rep_neighbors@.len() == labels@.len(),
            i <= n,
            out@.len() == i,
            forall|t: int|
                0 <= t < i ==> #[trigger] out@[t]@ == spec_keep_list(
                    rep_neighbors@[t]@,
                    labels@[t],
                    ignore_self,
                ),
        decreases n - i,
    {
        let row = &rep_neighbors[i];
        let l = labels[i];
        let m = row.len();
        let mut kept: Vec<usize> = Vec::new();
        let mut j: usize = 0;
        while j < m
            invariant
                m == row@.len(),
                j <= m,
                kept@ == spec_keep_list(row@.take(j as int), l, ignore_self),
            decreases m - j,
        {
            let e = row[j];
            proof {
                assert(row@.take(j + 1).drop_last() =~= row@.take(j as int));
                assert(row@.take(j + 1).last() == e);
            }
            if e > l || (e == l && !ignore_self) {
                kept.push(e);
            }
            j = j + 1;
        }
        proof {
            assert(row@.take(m as int) =~= row@);
        }
        out.push(kept);
        i = i + 1;
    }
    out
}

/// The position of the first node carrying label `e`, if any node does.
pub open spec fn spec_find(labels: Seq<usize>, e: usize) -> Option<int>
    decreases labels.len(),
{
    if labels.len() == 0 {
        None
    } else if labels[0] == e {
        Some(0)
    } else {
        match spec_find(labels.drop_first(), e) {
            Some(i) => Some(i + 1),
            None => None,
        }
    }
}

/// `spec_find` returns the first position holding the label, and `None`
/// exactly when no position holds it.
pub proof fn lemma_spec_find(labels: Seq<usize>, e: usize)
    ensures
        match spec_find(labels, e) {
            Some(i) => 0 <= i < labels.len() && labels[i] == e && forall|t: int|
                0 <= t < i ==> labels[t] != e,
            None => forall|t: int| 0 <= t < labels.len() ==> labels[t] != e,
        },
    decreases labels.len(),
{
    if labels.len() > 0 && labels[0] != e {
        let rest = labels.drop_first();
        lemma_spec_find(rest, e);
        assert(forall|t: int| 1 <= t < labels.len() ==> labels[t] == #[trigger] rest[t - 1]);
        match spec_find(rest, e) {
            Some(i) => {
                assert forall|t: int| 0 <= t < i + 1 implies labels[t] != e by {
                    if t >= 1 {
                        assert(labels[t] == rest[t - 1]);
                    }
                }
            },
            None => {
                assert forall|t: int| 0 <= t < labels.len() implies labels[t] != e by {
                    if t >= 1 {
                        assert(labels[t] == rest[t - 1]);
                    }
                }
            },
        }
    }
}

/// Looks up the position of the first node whose label is `e`.
pub fn find_position(labels: &Vec<usize>, e: usize) -> (r: Option<usize>)
    ensures
        match r {
            Some(p) => spec_find(labels@, e) == Some(p as int),
            None => spec_find(labels@, e) is None,
        },
{
    proof {
        lemma_spec_find(labels@, e);
    }
    let n = labels.len();
    let mut i: usize = 0;
    while i < n
        invariant
            n == labels@.len(),
            i <= n,
            forall|t: int| 0 <= t < i ==> labels@[t] != e,
            match spec_find(labels@, e) {
                Some(p) => 0 <= p < labels@.len() && labels@[p] == e && forall|t: int|
                    0 <= t < p ==> labels@[t] != e,
                None => forall|t: int| 0 <= t < labels@.len() ==> labels@[t] != e,
            },
        decreases n - i,
    {
        if labels[i] == e {
            return Some(i);
        }
        i = i + 1;
    }
    None
}

} // verus!
