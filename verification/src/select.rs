use vstd::prelude::*;
use crate::record::{Record, RecordView, wf, views_of};
use crate::distance::{sq_dist, sq_dist_of, lemma_sq_dist_bound, MAX_SQ_TERM};

verus! {

/// Why a neighbour selection failed.
#[derive(Debug, Clone, Copy, PartialEq, Eq, Structural)]
pub enum SelectionError {
    /// The pool holds fewer than the requested number of candidates.
    InsufficientCandidates,
    /// Some candidate's dimensionality differs from the query's.
    DimensionMismatch,
}

/// Position of the smallest distance in a sequence of
/// (distance, pool index) pairs; on ties, the earliest position wins.
pub open spec fn argmin(s: Seq<(u128, usize)>) -> int
    recommends
        s.len() > 0,
    decreases s.len(),
{
    if s.len() <= 1 {
        0
    } else {
        let r = 1 + argmin(s.drop_first());
        if s[0].0 <= s[r].0 {
            0
        } else {
            r
        }
    }
}

/// `argmin` is in range, no pair has a smaller distance, and every
/// earlier pair has a strictly greater one (first-encountered wins).
pub proof fn lemma_argmin_props(s: Seq<(u128, usize)>)
    requires
        s.len() > 0,
    ensures
        0 <= argmin(s) < s.len(),
        forall|j: int| 0 <= j < s.len() ==> s[argmin(s)].0 <= #[trigger] s[j].0,
        forall|j: int| 0 <= j < argmin(s) ==> #[trigger] s[j].0 > s[argmin(s)].0,
    decreases s.len(),
{
    if s.len() <= 1 {
    } else {
        let rest = s.drop_first();
        lemma_argmin_props(rest);
        let m = argmin(s);
        let r = 1 + argmin(rest);
        assert forall|j: int| 0 <= j < s.len() implies s[m].0 <= #[trigger] s[j].0 by {
            if j >= 1 {
                assert(s[j] == rest[j - 1]);
                assert(rest[argmin(rest)].0 <= rest[j - 1].0);
            }
        }
        assert forall|j: int| 0 <= j < m implies #[trigger] s[j].0 > s[m].0 by {
            if j >= 1 {
                assert(s[j] == rest[j - 1]);
                assert(rest[j - 1].0 > rest[argmin(rest)].0);
            }
        }
    }
}

/// The pairs chosen by repeatedly extracting the remaining minimum,
/// until `k` pairs are collected or the pool is exhausted. This is the
/// whole selection policy: nearest first, and on equal distances the
/// candidate encountered first in pool order.
pub open spec fn select_pairs(s: Seq<(u128, usize)>, k: nat) -> Seq<(u128, usize)>
    decreases k,
{
    if k == 0 || s.len() == 0 {
        Seq::empty()
    } else {
        let m = argmin(s);
        seq![s[m]] + select_pairs(s.remove(m), (k - 1) as nat)
    }
}

/// The selection returns `k` pairs whenever the pool has at least `k`,
/// and the whole pool otherwise.
pub proof fn lemma_select_pairs_len(s: Seq<(u128, usize)>, k: nat)
    ensures
        select_pairs(s, k).len() == if k <= s.len() {
            k as int
        } else {
            s.len() as int
        },
    decreases k,
{
    if k == 0 || s.len() == 0 {
    } else {
        lemma_argmin_props(s);
        lemma_select_pairs_len(s.remove(argmin(s)), (k - 1) as nat);
    }
}

/// Every selected pair occurs in the pool it was selected from.
pub proof fn lemma_select_pairs_contained(s: Seq<(u128, usize)>, k: nat)
    ensures
        forall|i: int|
            0 <= i < select_pairs(s, k).len() ==> s.contains(#[trigger] select_pairs(s, k)[i]),
    decreases k,
{
    if k == 0 || s.len() == 0 {
    } else {
        let m = argmin(s);
        lemma_argmin_props(s);
        let rest = s.remove(m);
        lemma_select_pairs_contained(rest, (k - 1) as nat);
        s.remove_ensures(m);
        assert forall|i: int| 0 <= i < select_pairs(s, k).len() implies s.contains(
            #[trigger] select_pairs(s, k)[i],
        ) by {
            if i == 0 {
                assert(select_pairs(s, k)[0] == s[m]);
            } else {
                let p = select_pairs(rest, (k - 1) as nat)[i - 1];
                assert(select_pairs(s, k)[i] == p);
                assert(rest.contains(p));
                let j = choose|j: int| 0 <= j < rest.len() && rest[j] == p;
                if j < m {
                    assert(s[j] == p);
                } else {
                    assert(s[j + 1] == p);
                }
            }
        }
    }
}

/// The selected pairs come out in non-decreasing distance order.
pub proof fn lemma_select_pairs_sorted(s: Seq<(u128, usize)>, k: nat)
    ensures
        forall|i: int, j: int|
            0 <= i <= j < select_pairs(s, k).len() ==> #[trigger] select_pairs(s, k)[i].0
                <= #[trigger] select_pairs(s, k)[j].0,
    decreases k,
{
    if k == 0 || s.len() == 0 {
    } else {
        let m = argmin(s);
        lemma_argmin_props(s);
        let rest = s.remove(m);
        lemma_select_pairs_sorted(rest, (k - 1) as nat);
        lemma_select_pairs_contained(rest, (k - 1) as nat);
        s.remove_ensures(m);
        let out = select_pairs(s, k);
        assert forall|i: int, j: int| 0 <= i <= j < out.len() implies #[trigger] out[i].0
            <= #[trigger] out[j].0 by {
            if i == 0 && j > 0 {
                let p = select_pairs(rest, (k - 1) as nat)[j - 1];
                assert(rest.contains(p));
                let t = choose|t: int| 0 <= t < rest.len() && rest[t] == p;
                if t < m {
                    assert(s[t] == p);
                } else {
                    assert(s[t + 1] == p);
                }
                assert(s[m].0 <= p.0);
            } else if i > 0 {
                assert(out[i] == select_pairs(rest, (k - 1) as nat)[i - 1]);
                assert(out[j] == select_pairs(rest, (k - 1) as nat)[j - 1]);
            }
        }
    }
}

/// The (distance, index) pair of every pool candidate, in pool order.
pub open spec fn dist_pairs(q: Seq<int>, pool: Seq<RecordView>) -> Seq<(u128, usize)> {
    Seq::new(pool.len(), |i: int| (sq_dist(q, pool[i].features) as u128, i as usize))
}

/// Every candidate has the query's dimensionality.
pub open spec fn dims_match(q: RecordView, pool: Seq<RecordView>) -> bool {
    forall|i: int| 0 <= i < pool.len() ==> (#[trigger] pool[i]).features.len() == q.features.len()
}

/// The records the selection picks for a query, nearest first.
pub open spec fn selected_views(q: RecordView, pool: Seq<RecordView>, k: nat) -> Seq<RecordView> {
    select_pairs(dist_pairs(q.features, pool), k).map_values(|p: (u128, usize)| pool[p.1 as int])
}

/// The `k` records of `pool` nearest to `query`, nearest first.
///
/// Distances are squared Euclidean distances over the feature vectors;
/// when several candidates are equally near, the one encountered first
/// in pool order is taken first. The pool itself is left untouched; the
/// result holds copies.
///
/// Fails with `DimensionMismatch` when any candidate's dimensionality
/// differs from the query's, and otherwise with
/// `InsufficientCandidates` when the pool holds fewer than `k`
/// candidates; with `k <= pool.len()` and matching dimensions it always
/// succeeds.
pub fn select_k_nearest(query: &Record, pool: &Vec<Record>, k: usize) -> (r: Result<
    Vec<Record>,
    SelectionError,
>)
    requires
        wf(query@),
        forall|i: int| 0 <= i < pool@.len() ==> wf((#[trigger] pool@[i])@),
    ensures
        !dims_match(query@, views_of(pool@)) ==> r == Err::<Vec<Record>, SelectionError>(
            SelectionError::DimensionMismatch,
        ),
        dims_match(query@, views_of(pool@)) && pool@.len() < k ==> r == Err::<
            Vec<Record>,
            SelectionError,
        >(SelectionError::InsufficientCandidates),
        dims_match(query@, views_of(pool@)) && k <= pool@.len() ==> (r matches Ok(res)
            && views_of(res@) == selected_views(query@, views_of(pool@), k as nat)),
{
    let ghost pv = views_of(pool@);
    let n = pool.len();
    let qlen = query.features.len();
    let mut i: usize = 0;
    while i < n
        invariant
            i <= n,
            n == pool@.len(),
            pv == views_of(pool@),
            qlen == query@.features.len(),
            forall|j: int| 0 <= j < i ==> (#[trigger] pv[j]).features.len() == qlen,
        decreases n - i,
    {
        proof {
            assert(pv[i as int] == pool@[i as int]@);
        }
        if pool[i].features.len() != qlen {
            assert(!dims_match(query@, pv));
            return Err(SelectionError::DimensionMismatch);
        }
        i += 1;
    }
    assert(dims_match(query@, pv));
    if n < k {
        return Err(SelectionError::InsufficientCandidates);
    }

    let mut working: Vec<(u128, usize)> = Vec::new();
    let mut i: usize = 0;
    while i < n
        invariant
            i <= n,
            n == pool@.len(),
            pv == views_of(pool@),
            wf(query@),
            forall|j: int| 0 <= j < pool@.len() ==> wf((#[trigger] pool@[j])@),
            dims_match(query@, pv),
            working@.len() == i as int,
            forall|j: int| 0 <= j < i ==> #[trigger] working@[j] == dist_pairs(
                query@.features,
                pv,
            )[j],
        decreases n - i,
    {
        proof {
            assert(pv[i as int] == pool@[i as int]@);
        }
        let d = sq_dist_of(&query.features, &pool[i].features);
        proof {
            lemma_sq_dist_bound(query@.features, pv[i as int].features);
        }
        working.push((d, i));
        i += 1;
    }
    let ghost orig = dist_pairs(query@.features, pv);
    proof {
        assert(working@ =~= orig);
        lemma_select_pairs_len(orig, k as nat);
    }
    let ghost sel = select_pairs(orig, k as nat);

    let mut res: Vec<Record> = Vec::new();
    while res.len() < k
        invariant
            res@.len() <= k,
            k <= n,
            n == pool@.len(),
            pv == views_of(pool@),
            working@.len() == n - res@.len(),
            sel == select_pairs(orig, k as nat),
            sel.len() == k as int,
            sel =~= sel.take(res@.len() as int) + select_pairs(
                working@,
                (k - res@.len()) as nat,
            ),
            forall|t: int| 0 <= t < working@.len() ==> (#[trigger] working@[t]).1 < n,
            forall|m: int| 0 <= m < res@.len() ==> (#[trigger] res@[m])@ == pv[sel[m].1 as int],
        decreases k - res@.len(),
    {
        let ghost l = res@.len() as int;
        let ghost w0 = working@;
        let wlen = working.len();
        let mut best: usize = 0;
        let mut j: usize = 1;
        while j < wlen
            invariant
                wlen == working@.len(),
                1 <= wlen,
                (best as int) < j <= wlen,
                forall|t: int| 0 <= t < j ==> working@[best as int].0 <= #[trigger] working@[t].0,
                forall|t: int| 0 <= t < best ==> #[trigger] working@[t].0 > working@[best
                    as int].0,
            decreases wlen - j,
        {
            if working[j].0 < working[best].0 {
                best = j;
            }
            j += 1;
        }
        proof {
            lemma_argmin_props(w0);
            assert(best as int == argmin(w0));
        }
        let chosen = working[best].1;
        res.push(pool[chosen].clone());
        working.remove(best);
        proof {
            let m = argmin(w0);
            w0.remove_ensures(m);
            assert(select_pairs(w0, (k - l) as nat) == seq![w0[m]] + select_pairs(
                w0.remove(m),
                (k - l - 1) as nat,
            ));
            assert(sel[l] == w0[m]);
            assert(sel.take(l + 1) =~= sel.take(l).push(w0[m]));
            assert(sel =~= sel.take(l + 1) + select_pairs(working@, (k - l - 1) as nat));
            assert(res@[l]@ == pv[sel[l].1 as int]);
        }
    }
    proof {
        assert(sel =~= sel.take(k as int));
        assert(views_of(res@) =~= sel.map_values(|p: (u128, usize)| pv[p.1 as int]));
        assert(views_of(res@) == selected_views(query@, pv, k as nat));
    }
    Ok(res)
}

} // verus!

verus! {

/// The selection law: for a query and pool of matching dimensionality,
/// the selection yields exactly `k` records when the pool has at least
/// `k` (and the whole pool otherwise), and their distances to the query
/// come out in non-decreasing order.
pub proof fn lemma_selection_sorted(q: RecordView, pool: Seq<RecordView>, k: nat)
    requires
        wf(q),
        forall|i: int| 0 <= i < pool.len() ==> wf(#[trigger] pool[i]),
        dims_match(q, pool),
        pool.len() <= usize::MAX,
        q.features.len() <= usize::MAX,
    ensures
        selected_views(q, pool, k).len() == if k <= pool.len() {
            k as int
        } else {
            pool.len() as int
        },
        forall|i: int, j: int|
            0 <= i <= j < selected_views(q, pool, k).len() ==> sq_dist(
                q.features,
                (#[trigger] selected_views(q, pool, k)[i]).features,
            ) <= sq_dist(q.features, (#[trigger] selected_views(q, pool, k)[j]).features),
{
    let pairs = dist_pairs(q.features, pool);
    lemma_select_pairs_len(pairs, k);
    lemma_select_pairs_sorted(pairs, k);
    lemma_select_pairs_contained(pairs, k);
    let spairs = select_pairs(pairs, k);
    let sel = selected_views(q, pool, k);
    assert forall|i: int| 0 <= i < sel.len() implies (#[trigger] spairs[i]).0 == sq_dist(
        q.features,
        sel[i].features,
    ) by {
        assert(pairs.contains(spairs[i]));
        let t = choose|t: int| 0 <= t < pairs.len() && pairs[t] == spairs[i];
        assert(pairs[t] == (sq_dist(q.features, pool[t].features) as u128, t as usize));
        assert(spairs[i].1 as int == t);
        assert(sel[i] == pool[t]);
        lemma_sq_dist_bound(q.features, pool[t].features);
        assert(q.features.len() * (MAX_SQ_TERM as int) < 0x100000000000000000000000000000000)
            by (nonlinear_arith)
            requires
                q.features.len() <= 0xffffffffffffffff,
        ;
        assert(sq_dist(q.features, pool[t].features) as u128 == sq_dist(
            q.features,
            pool[t].features,
        ));
    }
}

} // verus!

verus! {

/// The completeness law of the selection: counted as multisets, the
/// selected pairs are drawn from the pool, and every pair the selection
/// leaves behind is at least as far as every pair it picked — the
/// selection truly returns the `k` smallest distances.
pub proof fn lemma_select_pairs_nearest(s: Seq<(u128, usize)>, k: nat)
    requires
        k <= s.len(),
    ensures
        forall|p: (u128, usize)| #[trigger] select_pairs(s, k).to_multiset().count(p)
            <= s.to_multiset().count(p),
        forall|p: (u128, usize), i: int|
            #![trigger s.to_multiset().count(p), select_pairs(s, k)[i]]
            (s.to_multiset().count(p) > select_pairs(s, k).to_multiset().count(p) && 0 <= i
                < select_pairs(s, k).len()) ==> select_pairs(s, k)[i].0 <= p.0,
    decreases k,
{
    broadcast use vstd::seq_lib::group_to_multiset_ensures;
    broadcast use vstd::multiset::group_multiset_axioms;
    broadcast use vstd::multiset::group_multiset_properties;

    let out = select_pairs(s, k);
    if k == 0 {
        assert(out =~= Seq::<(u128, usize)>::empty());
        assert forall|p: (u128, usize)| #[trigger] out.to_multiset().count(p)
            <= s.to_multiset().count(p) by {
            if out.to_multiset().count(p) > 0 {
                assert(out.contains(p));
            }
        }
    } else {
        let m = argmin(s);
        lemma_argmin_props(s);
        let srest = s.remove(m);
        let out1 = select_pairs(srest, (k - 1) as nat);
        lemma_select_pairs_nearest(srest, (k - 1) as nat);
        s.remove_ensures(m);
        assert(out == seq![s[m]] + out1);
        vstd::seq_lib::lemma_multiset_commutative(seq![s[m]], out1);
        assert(seq![s[m]] =~= Seq::<(u128, usize)>::empty().push(s[m]));
        assert(seq![s[m]].to_multiset() =~= vstd::multiset::Multiset::<(u128, usize)>::empty().insert(s[m]));
        assert(srest.to_multiset() =~= s.to_multiset().remove(s[m]));
        assert(s.contains(s[m]));
        assert(s.to_multiset().count(s[m]) >= 1);
        assert forall|p: (u128, usize)| #[trigger] out.to_multiset().count(p)
            <= s.to_multiset().count(p) by {
            if p == s[m] {
                assert(out.to_multiset().count(p) == 1 + out1.to_multiset().count(p));
                assert(srest.to_multiset().count(p) == s.to_multiset().count(p) - 1);
            } else {
                assert(out.to_multiset().count(p) == out1.to_multiset().count(p));
                assert(srest.to_multiset().count(p) == s.to_multiset().count(p));
            }
        }
        assert forall|p: (u128, usize), i: int|
            #![trigger s.to_multiset().count(p), out[i]]
            (s.to_multiset().count(p) > out.to_multiset().count(p) && 0 <= i
                < out.len()) implies out[i].0 <= p.0 by {
            assert(srest.to_multiset().count(p) > out1.to_multiset().count(p));
            assert(srest.to_multiset().count(p) > 0);
            assert(srest.contains(p));
            let j = choose|j: int| 0 <= j < srest.len() && srest[j] == p;
            if i == 0 {
                assert(out[0] == s[m]);
                if j < m {
                    assert(s[j] == p);
                } else {
                    assert(s[j + 1] == p);
                }
                assert(s[m].0 <= p.0);
            } else {
                assert(out[i] == out1[i - 1]);
                assert(out1[i - 1].0 <= p.0);
            }
        }
    }
}

} // verus!
