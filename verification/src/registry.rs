//! Category registry.
//!
//! The registry turns the caller's category values (one string per node)
//! into a dense integer coding, and enumerates the combinatorial space of
//! category pairs that a test will score: all ordered pairs when `order` is
//! set, else all canonical unordered pairs (lower first-seen index first).
//! Self pairs are included exactly once either way.
//!
//! The pair list is exactly the key space of the observed-statistic map and
//! of every null-distribution map built later: an unordered space over `k`
//! distinct categories holds `k*(k+1)/2` pairs, an ordered one `k*k`.

use vstd::prelude::*;

verus! {

/// The distinct values of `s` in first-seen order.
pub open spec fn spec_distinct(s: Seq<Seq<char>>) -> Seq<Seq<char>>
    decreases s.len(),
{
    if s.len() == 0 {
        Seq::empty()
    } else {
        let rest = spec_distinct(s.drop_last());
        if rest.contains(s.last()) {
            rest
        } else {
            rest.push(s.last())
        }
    }
}

/// The distinct list holds no value twice.
pub proof fn lemma_distinct_no_dup(s: Seq<Seq<char>>)
    ensures
        forall|a: int, b: int|
            0 <= a < b < spec_distinct(s).len() ==> #[trigger] spec_distinct(s)[a]
                != #[trigger] spec_distinct(s)[b],
    decreases s.len(),
{
    if s.len() > 0 {
        let rest = spec_distinct(s.drop_last());
        let whole = spec_distinct(s);
        lemma_distinct_no_dup(s.drop_last());
        if !rest.contains(s.last()) {
            assert forall|a: int, b: int| 0 <= a < b < whole.len() implies #[trigger] whole[a]
                != #[trigger] whole[b] by {
                if b < rest.len() {
                    assert(whole[a] == rest[a] && whole[b] == rest[b]);
                } else {
                    assert(whole[b] == s.last());
                    assert(whole[a] == rest[a]);
                    assert(!rest.contains(s.last()));
                }
            }
        }
    }
}

/// The distinct list holds exactly the values of `s`.
pub proof fn lemma_distinct_contains(s: Seq<Seq<char>>)
    ensures
        forall|v: Seq<char>| #[trigger] spec_distinct(s).contains(v) <==> s.contains(v),
    decreases s.len(),
{
    if s.len() == 0 {
    } else {
        let rest = spec_distinct(s.drop_last());
        let whole = spec_distinct(s);
        lemma_distinct_contains(s.drop_last());
        assert forall|v: Seq<char>| #[trigger] whole.contains(v) implies s.contains(v) by {
            if rest.contains(v) {
                assert(s.drop_last().contains(v));
                let i = choose|i: int| 0 <= i < s.drop_last().len() && s.drop_last()[i] == v;
                assert(s[i] == v);
            } else {
                assert(v == s.last());
                assert(s[s.len() - 1] == v);
            }
        }
        assert forall|v: Seq<char>| s.contains(v) implies #[trigger] whole.contains(v) by {
            let i = choose|i: int| 0 <= i < s.len() && s[i] == v;
            if i < s.len() - 1 {
                assert(s.drop_last()[i] == v);
                assert(s.drop_last().contains(v));
                assert(rest.contains(v));
                let t = choose|t: int| 0 <= t < rest.len() && rest[t] == v;
                assert(whole[t] == v);
            } else {
                assert(v == s.last());
                if rest.contains(v) {
                    let t = choose|t: int| 0 <= t < rest.len() && rest[t] == v;
                    assert(whole[t] == v);
                } else {
                    assert(whole[whole.len() - 1] == v);
                }
            }
        }
    }
}

/// There are never more distinct values than values.
pub proof fn lemma_distinct_len(s: Seq<Seq<char>>)
    ensures
        spec_distinct(s).len() <= s.len(),
    decreases s.len(),
{
    if s.len() > 0 {
        lemma_distinct_len(s.drop_last());
    }
}

/// The position of the first occurrence of `v` in `d`.
pub open spec fn spec_index_of(d: Seq<Seq<char>>, v: Seq<char>) -> int
    decreases d.len(),
{
    if d.len() == 0 {
        0
    } else if d[0] == v {
        0
    } else {
        1 + spec_index_of(d.drop_first(), v)
    }
}

/// Where `d` contains `v`, `spec_index_of` points at its first occurrence.
pub proof fn lemma_spec_index_of(d: Seq<Seq<char>>, v: Seq<char>)
    requires
        d.contains(v),
    ensures
        0 <= spec_index_of(d, v) < d.len(),
        d[spec_index_of(d, v)] == v,
        forall|t: int| 0 <= t < spec_index_of(d, v) ==> d[t] != v,
    decreases d.len(),
{
    if d.len() > 0 && d[0] != v {
        let rest = d.drop_first();
        let i = choose|i: int| 0 <= i < d.len() && d[i] == v;
        assert(rest[i - 1] == v);
        assert(rest.contains(v));
        lemma_spec_index_of(rest, v);
        let p = spec_index_of(rest, v);
        assert(d[p + 1] == rest[p]);
        assert forall|t: int| 0 <= t < p + 1 implies d[t] != v by {
            if t >= 1 {
                assert(d[t] == rest[t - 1]);
            }
        }
    }
}

/// The dense code of each node: the first-seen index of its category.
pub open spec fn spec_codes(tds: Seq<Seq<char>>) -> Seq<int> {
    Seq::new(tds.len(), |i: int| spec_index_of(spec_distinct(tds), tds[i]))
}

/// Extracts the distinct categories of `types` in first-seen order, together
/// with one dense code per node: `codes[i]` is the index of `types[i]` in
/// the distinct list.
pub fn distinct_categories(types: &Vec<String>) -> (r: (Vec<String>, Vec<usize>))
    ensures
        r.0.deep_view() == spec_distinct(types.deep_view()),
        r.1@.len() == types@.len(),
        forall|i: int|
            0 <= i < types@.len() ==> (#[trigger] r.1@[i] as int) < r.0@.len()
                && r.0.deep_view()[r.1@[i] as int] == types.deep_view()[i],
        forall|i: int|
            0 <= i < types@.len() ==> #[trigger] r.1@[i] as int == spec_index_of(
                spec_distinct(types.deep_view()),
                types.deep_view()[i],
            ),
{
    let tds = Ghost(types.deep_view());
    let n = types.len();
    let mut ds: Vec<String> = Vec::new();
    let mut codes: Vec<usize> = Vec::new();
    let mut i: usize = 0;
    while i < n
        invariant
            n == types@.len(),
            tds@ == types.deep_view(),
            i <= n,
            ds.deep_view() == spec_distinct(tds@.take(i as int)),
            codes@.len() == i,
            forall|t: int|
                0 <= t < i ==> (#[trigger] codes@[t] as int) < ds@.len() && ds.deep_view()[codes@[t]
                    as int] == tds@[t],
        decreases n - i,
    {
        proof {
            assert(tds@.take(i + 1).drop_last() =~= tds@.take(i as int));
            assert(tds@.take(i + 1).last() == tds@[i as int]);
        }
        let v = &types[i];
        let k = ds.len();
        let mut j: usize = 0;
        let mut found: bool = false;
        let mut code: usize = 0;
        while j < k
            invariant
                k == ds@.len(),
                j <= k,
                tds@ == types.deep_view(),
                0 <= (i as int) < tds@.len(),
                v@ == tds@[i as int],
                !found ==> forall|t: int| 0 <= t < j ==> ds.deep_view()[t] != v@,
                found ==> (code as int) < ds@.len() && ds.deep_view()[code as int] == v@,
                found ==> j == k,
            decreases k - j,
        {
            if ds[j].eq(v) {
                found = true;
                code = j;
                j = k;
            } else {
                j = j + 1;
            }
        }
        if found {
            proof {
                assert(ds.deep_view().contains(tds@[i as int]));
                assert(spec_distinct(tds@.take(i + 1)) == ds.deep_view());
            }
            codes.push(code);
        } else {
            proof {
                if ds.deep_view().contains(tds@[i as int]) {
                    let t = choose|t: int|
                        0 <= t < ds.deep_view().len() && ds.deep_view()[t] == tds@[i as int];
                    assert(false);
                }
                assert(spec_distinct(tds@.take(i + 1)) == ds.deep_view().push(tds@[i as int]));
            }
            let code_new = ds.len();
            ds.push(v.clone());
            proof {
                assert(ds.deep_view() =~= spec_distinct(tds@.take(i + 1)));
            }
            codes.push(code_new);
        }
        i = i + 1;
    }
    proof {
        assert(tds@.take(n as int) =~= tds@);
        lemma_distinct_no_dup(tds@);
        assert forall|t: int| 0 <= t < n implies #[trigger] codes@[t] as int == spec_index_of(
            spec_distinct(tds@),
            tds@[t],
        ) by {
            let d = spec_distinct(tds@);
            assert(d.contains(tds@[t])) by {
                assert(d[codes@[t] as int] == tds@[t]);
            }
            lemma_spec_index_of(d, tds@[t]);
            let p = spec_index_of(d, tds@[t]);
            if p < codes@[t] as int {
                assert(d[p] != d[codes@[t] as int]);
            }
            if p > codes@[t] as int {
                assert(d[codes@[t] as int] != tds@[t]);
            }
        }
    }
    (ds, codes)
}

/// Row `i` of the ordered pair space: `(i, 0), (i, 1), ..., (i, k - 1)`.
pub open spec fn spec_ordered_row(i: int, k: int) -> Seq<(usize, usize)> {
    Seq::new(k as nat, |d: int| (i as usize, d as usize))
}

/// The first `m` rows of the ordered pair space.
pub open spec fn spec_ordered_upto(m: int, k: int) -> Seq<(usize, usize)>
    decreases m,
{
    if m <= 0 {
        Seq::empty()
    } else {
        spec_ordered_upto(m - 1, k) + spec_ordered_row(m - 1, k)
    }
}

/// All ordered pairs over `0 .. k`, row-major.
pub open spec fn spec_ordered_pairs(k: int) -> Seq<(usize, usize)> {
    spec_ordered_upto(k, k)
}

/// Row `i` of the unordered pair space: `(i, i), (i, i + 1), ..., (i, k - 1)`.
pub open spec fn spec_unordered_row(i: int, k: int) -> Seq<(usize, usize)> {
    Seq::new((k - i) as nat, |d: int| (i as usize, (i + d) as usize))
}

/// The first `m` rows of the unordered pair space.
pub open spec fn spec_unordered_upto(m: int, k: int) -> Seq<(usize, usize)>
    decreases m,
{
    if m <= 0 {
        Seq::empty()
    } else {
        spec_unordered_upto(m - 1, k) + spec_unordered_row(m - 1, k)
    }
}

/// All canonical unordered pairs over `0 .. k`: exactly the pairs `(a, b)`
/// with `a <= b < k`, lower index first, self pairs included once.
pub open spec fn spec_unordered_pairs(k: int) -> Seq<(usize, usize)> {
    spec_unordered_upto(k, k)
}

/// The pair space that a test scores.
pub open spec fn spec_pair_space(k: int, order: bool) -> Seq<(usize, usize)> {
    if order {
        spec_ordered_pairs(k)
    } else {
        spec_unordered_pairs(k)
    }
}

/// Size of the ordered pair space: `k` distinct categories give `k * k`
/// ordered pairs, self pairs included once.
pub proof fn lemma_ordered_upto_len(m: int, k: int)
    requires
        0 <= m,
        0 <= k,
    ensures
        spec_ordered_upto(m, k).len() == m * k,
    decreases m,
{
    if m > 0 {
        lemma_ordered_upto_len(m - 1, k);
        assert(spec_ordered_row(m - 1, k).len() == k);
        assert(spec_ordered_upto(m, k).len() == spec_ordered_upto(m - 1, k).len() + k);
        assert((m - 1) * k + k == m * k) by (nonlinear_arith);
    } else {
        assert(spec_ordered_upto(m, k).len() == 0);
        assert(m * k == 0) by (nonlinear_arith)
            requires
                m == 0,
        ;
    }
}

/// Size of the unordered pair space: `k` distinct categories give
/// `k * (k + 1) / 2` canonical pairs, self pairs included once.
pub proof fn lemma_unordered_upto_len(m: int, k: int)
    requires
        0 <= m <= k,
    ensures
        2 * spec_unordered_upto(m, k).len() == m * (2 * k + 1 - m),
    decreases m,
{
    if m > 0 {
        lemma_unordered_upto_len(m - 1, k);
        assert(spec_unordered_row(m - 1, k).len() == k - (m - 1));
        assert(spec_unordered_upto(m, k).len() == spec_unordered_upto(m - 1, k).len() + (k - (m
            - 1)));
        assert((m - 1) * (2 * k + 1 - (m - 1)) + 2 * (k - (m - 1)) == m * (2 * k + 1 - m))
            by (nonlinear_arith);
    } else {
        assert(spec_unordered_upto(m, k).len() == 0);
        assert(m * (2 * k + 1 - m) == 0) by (nonlinear_arith)
            requires
                m == 0,
        ;
    }
}

/// The pair count of the registry, both modes: `k * k` ordered pairs, and
/// `k * (k + 1) / 2` unordered pairs.
pub proof fn lemma_pair_space_len(k: int, order: bool)
    requires
        0 <= k,
    ensures
        order ==> spec_pair_space(k, order).len() == k * k,
        !order ==> 2 * spec_pair_space(k, order).len() == k * (k + 1),
        !order ==> spec_pair_space(k, order).len() == k * (k + 1) / 2,
    decreases k,
{
    if order {
        lemma_ordered_upto_len(k, k);
    } else {
        lemma_unordered_upto_len(k, k);
        let l = spec_unordered_pairs(k).len() as int;
        assert(2 * l == k * (k + 1));
        assert(l == k * (k + 1) / 2) by (nonlinear_arith)
            requires
                2 * l == k * (k + 1),
        ;
    }
}

/// Whether one pair names indices below `k`, canonically ordered unless the
/// space is ordered.
pub open spec fn pair_in_range(p: (usize, usize), k: int, order: bool) -> bool {
    (p.0 as int) < k && (p.1 as int) < k && (order || p.0 <= p.1)
}

/// The first `m` rows of either pair space.
pub open spec fn spec_upto(m: int, k: int, order: bool) -> Seq<(usize, usize)> {
    if order {
        spec_ordered_upto(m, k)
    } else {
        spec_unordered_upto(m, k)
    }
}

/// Every pair of the space names indices below `k`; unordered pairs are
/// canonical (first component at most the second).
pub proof fn lemma_pair_space_bounds(m: int, k: int, order: bool)
    requires
        0 <= m <= k,
        k <= usize::MAX,
    ensures
        forall|t: int|
            0 <= t < spec_upto(m, k, order).len() ==> pair_in_range(
                #[trigger] spec_upto(m, k, order)[t],
                k,
                order,
            ),
    decreases m,
{
    if m > 0 {
        lemma_pair_space_bounds(m - 1, k, order);
        let whole = spec_upto(m, k, order);
        let rest = spec_upto(m - 1, k, order);
        assert forall|t: int| 0 <= t < whole.len() implies pair_in_range(
            #[trigger] whole[t],
            k,
            order,
        ) by {
            if t < rest.len() {
                assert(whole[t] == rest[t]);
            }
        }
    }
}

/// Enumerates the pair space over the category indices `0 .. k`: all `k * k`
/// ordered pairs when `order` is set, else the `k * (k + 1) / 2` canonical
/// unordered pairs, in both cases self pairs included exactly once.
pub fn build_index_pairs(k: usize, order: bool) -> (r: Vec<(usize, usize)>)
    requires
        k * k <= usize::MAX,
    ensures
        r@ == spec_pair_space(k as int, order),
        order ==> r@.len() == k * k,
        !order ==> 2 * r@.len() == k * (k + 1) && r@.len() == k * (k + 1) / 2,
{
    let mut out: Vec<(usize, usize)> = Vec::new();
    let mut i: usize = 0;
    while i < k
        invariant
            i <= k,
            out@ == spec_upto(i as int, k as int, order),
        decreases k - i,
    {
        let mut j: usize = if order {
            0
        } else {
            i
        };
        let ghost row = if order {
            spec_ordered_row(i as int, k as int)
        } else {
            spec_unordered_row(i as int, k as int)
        };
        let ghost start = j as int;
        while j < k
            invariant
                i < k,
                start == if order {
                    0int
                } else {
                    i as int
                },
                start <= j <= k,
                row == if order {
                    spec_ordered_row(i as int, k as int)
                } else {
                    spec_unordered_row(i as int, k as int)
                },
                out@ == spec_upto(i as int, k as int, order) + row.take(j - start),
            decreases k - j,
        {
            proof {
                assert(row[j - start] == (i, j));
                assert(row.take(j + 1 - start) =~= row.take(j - start).push((i, j)));
            }
            out.push((i, j));
            j = j + 1;
        }
        proof {
            assert(row.take(k - start) =~= row);
            assert(spec_upto(i + 1, k as int, order) == spec_upto(i as int, k as int, order)
                + row);
        }
        i = i + 1;
    }
    proof {
        lemma_pair_space_len(k as int, order);
    }
    out
}

/// Builds the category-pair space of a test from the raw per-node category
/// values: the distinct categories are extracted in first-seen order, and
/// every scored pair is returned as a pair of category values.
pub fn build_category_pairs(categories: &Vec<String>, order: bool) -> (r: Vec<(String, String)>)
    requires
        categories@.len() * categories@.len() <= usize::MAX,
    ensures
        ({
            let d = spec_distinct(categories.deep_view());
            let ps = spec_pair_space(d.len() as int, order);
            &&& r@.len() == ps.len()
            &&& forall|t: int|
                0 <= t < r@.len() ==> (#[trigger] r@[t]).0@ == d[ps[t].0 as int] && r@[t].1@
                    == d[ps[t].1 as int]
            &&& (order ==> r@.len() == d.len() * d.len())
            &&& (!order ==> 2 * r@.len() == d.len() * (d.len() + 1))
        }),
{
    let ghost d = spec_distinct(categories.deep_view());
    let (ds, _codes) = distinct_categories(categories);
    let k = ds.len();
    proof {
        lemma_distinct_len(categories.deep_view());
        assert(k * k <= categories@.len() * categories@.len()) by (nonlinear_arith)
            requires
                0 <= k as int <= categories@.len(),
        ;
        lemma_pair_space_bounds(k as int, k as int, order);
    }
    let pairs = build_index_pairs(k, order);
    proof {
        assert(pairs@ == spec_upto(k as int, k as int, order));
        assert forall|u: int| 0 <= u < pairs@.len() implies pair_in_range(
            #[trigger] pairs@[u],
            k as int,
            order,
        ) by {
            assert(pairs@[u] == spec_upto(k as int, k as int, order)[u]);
        }
    }
    let ghost ps = spec_pair_space(d.len() as int, order);
    let m = pairs.len();
    let mut out: Vec<(String, String)> = Vec::new();
    let mut t: usize = 0;
    while t < m
        invariant
            m == pairs@.len(),
            t <= m,
            k == ds@.len(),
            ds.deep_view() == d,
            pairs@ == spec_pair_space(k as int, order),
            ps == spec_pair_space(d.len() as int, order),
            forall|u: int|
                0 <= u < pairs@.len() ==> pair_in_range(#[trigger] pairs@[u], k as int, order),
            out@.len() == t,
            forall|u: int|
                0 <= u < t ==> (#[trigger] out@[u]).0@ == d[ps[u].0 as int] && out@[u].1@
                    == d[ps[u].1 as int],
        decreases m - t,
    {
        let pair = pairs[t];
        let a = ds[pair.0].clone();
        let b = ds[pair.1].clone();
        out.push((a, b));
        t = t + 1;
    }
    proof {
        lemma_pair_space_len(k as int, order);
    }
    out
}

} // verus!
