//! Order-statistic selection: partition-based reordering of a sample vector
//! so that a chosen rank holds the value it would have after a full sort.

use vstd::pervasive::VecAdditionalExecFns;
use vstd::prelude::*;
use vstd::relations::{sorted_by, total_ordering};
use vstd::seq_lib::group_to_multiset_ensures;
use vstd::seq_lib::lemma_multiset_commutative;
use vstd::seq_lib::lemma_sorted_unique;

verus! {

/// The ordering the selection works under: non-decreasing sample values.
pub open spec fn sample_le() -> spec_fn(u16, u16) -> bool {
    |a: u16, b: u16| a <= b
}

/// The value at rank `k` of the fully sorted sequence: the k-th order
/// statistic of `s`.
pub open spec fn kth_order_statistic(s: Seq<u16>, k: int) -> u16 {
    s.sort_by(sample_le())[k]
}

/// `s` is partitioned at `k`: everything before rank `k` is no greater than
/// the value there, everything after is no smaller.
pub open spec fn partitioned_at(s: Seq<u16>, k: int) -> bool {
    &&& forall|i: int| 0 <= i < k ==> s[i] <= s[k]
    &&& forall|i: int| k < i < s.len() ==> s[i] >= s[k]
}

/// Every value of `b` occurs somewhere in `a` when the two sequences hold the
/// same multiset of values.
pub proof fn lemma_same_multiset_values(a: Seq<u16>, b: Seq<u16>)
    requires
        a.to_multiset() == b.to_multiset(),
    ensures
        forall|i: int| 0 <= i < b.len() ==> a.contains(#[trigger] b[i]),
{
    broadcast use group_to_multiset_ensures;

    assert forall|i: int| 0 <= i < b.len() implies a.contains(#[trigger] b[i]) by {
        assert(b.contains(b[i]));
        assert(b.to_multiset().count(b[i]) > 0);
        assert(a.to_multiset().count(b[i]) > 0);
    }
}

/// A sequence partitioned at `k` has the k-th order statistic at rank `k`:
/// selection correctness. Sorting any reordering of `s` puts the value
/// `s[k]` at rank `k`.
pub proof fn lemma_partitioned_rank(s: Seq<u16>, orig: Seq<u16>, k: int)
    requires
        0 <= k < s.len(),
        partitioned_at(s, k),
        s.to_multiset() == orig.to_multiset(),
    ensures
        s[k] == kth_order_statistic(orig, k),
{
    broadcast use group_to_multiset_ensures;

    let leq = sample_le();
    let pre = s.subrange(0, k);
    let post = s.subrange(k + 1, s.len() as int);
    let mids = seq![s[k]];
    let u = pre.sort_by(leq) + mids + post.sort_by(leq);
    pre.lemma_sort_by_ensures(leq);
    post.lemma_sort_by_ensures(leq);
    lemma_same_multiset_values(pre, pre.sort_by(leq));
    lemma_same_multiset_values(post, post.sort_by(leq));
    assert(pre.sort_by(leq).len() == k) by {
        assert(pre.sort_by(leq).to_multiset() =~= pre.to_multiset());
        assert(pre.sort_by(leq).len() == pre.sort_by(leq).to_multiset().len());
        assert(pre.len() == pre.to_multiset().len());
    }
    assert(post.sort_by(leq).len() == s.len() - k - 1) by {
        assert(post.sort_by(leq).to_multiset() =~= post.to_multiset());
        assert(post.sort_by(leq).len() == post.sort_by(leq).to_multiset().len());
        assert(post.len() == post.to_multiset().len());
    }

    // Everything in the sorted prefix is at most s[k]; everything in the
    // sorted suffix is at least s[k]; hence the concatenation is sorted.
    assert forall|i: int, j: int| 0 <= i < j < u.len() implies leq(u[i], u[j]) by {
        assert(forall|i: int| 0 <= i < k ==> u[i] == pre.sort_by(leq)[i]);
        assert(u[k] == s[k]);
        assert(forall|i: int| k < i < u.len() ==> u[i] == post.sort_by(leq)[i - k - 1]);
        if i < k {
            assert(pre.contains(pre.sort_by(leq)[i]));
            let ii = choose|ii: int| 0 <= ii < pre.len() && pre[ii] == pre.sort_by(leq)[i];
            assert(pre[ii] <= s[k]);
            if j < k {
                assert(sorted_by(pre.sort_by(leq), leq));
            } else if j == k {
                assert(u[j] == s[k]);
            } else {
                assert(post.contains(post.sort_by(leq)[j - k - 1]));
                let jj = choose|jj: int|
                    0 <= jj < post.len() && post[jj] == post.sort_by(leq)[j - k - 1];
                assert(post[jj] >= s[k]);
            }
        } else if i == k {
            assert(post.contains(post.sort_by(leq)[j - k - 1]));
            let jj = choose|jj: int|
                0 <= jj < post.len() && post[jj] == post.sort_by(leq)[j - k - 1];
            assert(post[jj] >= s[k]);
        } else {
            assert(sorted_by(post.sort_by(leq), leq));
        }
    }
    assert(sorted_by(u, leq));

    // The concatenation holds the same values as s, hence as orig.
    broadcast use vstd::multiset::group_multiset_axioms;

    assert(s =~= pre + mids + post);
    assert((pre + mids + post).to_multiset() == pre.to_multiset().add(mids.to_multiset()).add(
        post.to_multiset(),
    )) by {
        lemma_multiset_commutative(pre + mids, post);
        lemma_multiset_commutative(pre, mids);
    }
    assert(u.to_multiset() == pre.sort_by(leq).to_multiset().add(mids.to_multiset()).add(
        post.sort_by(leq).to_multiset(),
    )) by {
        lemma_multiset_commutative(pre.sort_by(leq) + mids, post.sort_by(leq));
        lemma_multiset_commutative(pre.sort_by(leq), mids);
    }
    assert(u.to_multiset() =~= orig.to_multiset());

    orig.lemma_sort_by_ensures(leq);
    lemma_sorted_unique(u, orig.sort_by(leq), leq);
    assert(u =~= orig.sort_by(leq));
    assert(u[k] == s[k]);
}

/// Exchanging two positions does not change the multiset of values held.
pub proof fn lemma_swap_multiset(s: Seq<u16>, i: int, j: int)
    requires
        0 <= i < s.len(),
        0 <= j < s.len(),
    ensures
        s.update(i, s[j]).update(j, s[i]).to_multiset() == s.to_multiset(),
{
    broadcast use group_to_multiset_ensures;
    broadcast use vstd::multiset::group_multiset_axioms;

    if i == j {
        assert(s.update(i, s[j]).update(j, s[i]) =~= s);
    } else {
        let s1 = s.update(i, s[j]);
        let s2 = s1.update(j, s[i]);
        assert(s.contains(s[i]));
        assert(s.to_multiset().count(s[i]) > 0);
        assert(s1[j] == s[j]);
        assert(s1.to_multiset() == s.to_multiset().insert(s[j]).remove(s[i]));
        assert(s2.to_multiset() == s1.to_multiset().insert(s[i]).remove(s[j]));
        assert(s2.to_multiset() =~= s.to_multiset());
    }
}

/// Exchanging two positions inside a window does not change the multiset of
/// values the window holds.
pub proof fn lemma_swap_multiset_in_range(s: Seq<u16>, lo: int, hi: int, i: int, j: int)
    requires
        0 <= lo <= i < hi <= s.len(),
        lo <= j < hi,
    ensures
        s.update(i, s[j]).update(j, s[i]).subrange(lo, hi).to_multiset() == s.subrange(
            lo,
            hi,
        ).to_multiset(),
{
    let t = s.update(i, s[j]).update(j, s[i]);
    let sub = s.subrange(lo, hi);
    assert(t.subrange(lo, hi) =~= sub.update(i - lo, sub[j - lo]).update(j - lo, sub[i - lo]));
    lemma_swap_multiset(sub, i - lo, j - lo);
}

/// Exchanges the values at positions `i` and `j`.
fn swap_samples(v: &mut Vec<u16>, i: usize, j: usize)
    requires
        i < old(v).len(),
        j < old(v).len(),
    ensures
        final(v)@ == old(v)@.update(i as int, old(v)@[j as int]).update(
            j as int,
            old(v)@[i as int],
        ),
        final(v)@.to_multiset() == old(v)@.to_multiset(),
{
    let a = v[i];
    let b = v[j];
    v.set(i, b);
    v.set(j, a);
    proof {
        lemma_swap_multiset(old(v)@, i as int, j as int);
    }
}

/// Partitions the window `[lo, hi)` around a pivot drawn from it. Positions
/// outside the window are untouched; the window keeps its values; the pivot
/// lands at the returned rank with no greater values before it and no smaller
/// values after it, within the window.
fn partition(v: &mut Vec<u16>, lo: usize, hi: usize) -> (p: usize)
    requires
        lo < hi <= old(v).len(),
    ensures
        lo <= p < hi,
        final(v)@.len() == old(v)@.len(),
        forall|t: int| 0 <= t < lo ==> final(v)@[t] == old(v)@[t],
        forall|t: int| hi <= t < final(v)@.len() ==> final(v)@[t] == old(v)@[t],
        final(v)@.to_multiset() == old(v)@.to_multiset(),
        final(v)@.subrange(lo as int, hi as int).to_multiset() == old(v)@.subrange(
            lo as int,
            hi as int,
        ).to_multiset(),
        forall|t: int| lo <= t < p ==> final(v)@[t] <= final(v)@[p as int],
        forall|t: int| p < t < hi ==> final(v)@[t] >= final(v)@[p as int],
{
    let pivot = v[hi - 1];
    let mut store: usize = lo;
    let mut scan: usize = lo;
    while scan < hi - 1
        invariant
            lo <= store <= scan <= hi - 1,
            hi <= v.len(),
            v@.len() == old(v)@.len(),
            v@[hi - 1] == pivot,
            forall|t: int| 0 <= t < lo ==> v@[t] == old(v)@[t],
            forall|t: int| hi <= t < v@.len() ==> v@[t] == old(v)@[t],
            v@.to_multiset() == old(v)@.to_multiset(),
            v@.subrange(lo as int, hi as int).to_multiset() == old(v)@.subrange(
                lo as int,
                hi as int,
            ).to_multiset(),
            forall|t: int| lo <= t < store ==> v@[t] <= pivot,
            forall|t: int| store <= t < scan ==> v@[t] > pivot,
        decreases hi - 1 - scan,
    {
        let ghost prev = v@;
        if v[scan] <= pivot {
            swap_samples(v, store, scan);
            proof {
                lemma_swap_multiset_in_range(prev, lo as int, hi as int, store as int, scan as int);
            }
            store = store + 1;
        }
        scan = scan + 1;
    }
    let ghost prev = v@;
    swap_samples(v, store, hi - 1);
    proof {
        lemma_swap_multiset_in_range(prev, lo as int, hi as int, store as int, hi - 1);
    }
    store
}

/// Reorders the vector so that rank `idx` holds the value a full sort would
/// put there; everything before it is no greater, everything after no
/// smaller. The order of the remaining elements is unspecified, but the
/// vector keeps exactly the values it held.
pub fn select_nth(v: &mut Vec<u16>, idx: usize)
    requires
        idx < old(v).len(),
    ensures
        final(v)@.len() == old(v)@.len(),
        final(v)@.to_multiset() == old(v)@.to_multiset(),
        partitioned_at(final(v)@, idx as int),
        final(v)@[idx as int] == kth_order_statistic(old(v)@, idx as int),
{
    let mut lo: usize = 0;
    let mut hi: usize = v.len();
    loop
        invariant
            lo <= idx < hi <= v.len(),
            v@.len() == old(v)@.len(),
            v@.to_multiset() == old(v)@.to_multiset(),
            forall|a: int, b: int|
                0 <= a < lo && lo <= b < v@.len() ==> #[trigger] v@[a] <= #[trigger] v@[b],
            forall|a: int, b: int|
                0 <= a < hi && hi <= b < v@.len() ==> #[trigger] v@[a] <= #[trigger] v@[b],
        decreases hi - lo,
    {
        let ghost prev = v@;
        let p = partition(v, lo, hi);
        proof {
            lemma_same_multiset_values(
                prev.subrange(lo as int, hi as int),
                v@.subrange(lo as int, hi as int),
            );
            // The window was permuted, so the prefix and suffix orderings
            // carry over to the new arrangement.
            assert forall|a: int, b: int|
                0 <= a < lo && lo <= b < v@.len() implies #[trigger] v@[a] <= #[trigger] v@[b] by {
                if b < hi {
                    let sub = v@.subrange(lo as int, hi as int);
                    assert(sub[b - lo] == v@[b]);
                    assert(prev.subrange(lo as int, hi as int).contains(sub[b - lo]));
                    let u = choose|u: int|
                        0 <= u < prev.subrange(lo as int, hi as int).len() && prev.subrange(
                            lo as int,
                            hi as int,
                        )[u] == sub[b - lo];
                    assert(prev[u + lo] == v@[b]);
                    assert(v@[a] == prev[a]);
                } else {
                    assert(v@[a] == prev[a] && v@[b] == prev[b]);
                }
            }
            assert forall|a: int, b: int|
                0 <= a < hi && hi <= b < v@.len() implies #[trigger] v@[a] <= #[trigger] v@[b] by {
                if lo <= a {
                    let sub = v@.subrange(lo as int, hi as int);
                    assert(sub[a - lo] == v@[a]);
                    assert(prev.subrange(lo as int, hi as int).contains(sub[a - lo]));
                    let u = choose|u: int|
                        0 <= u < prev.subrange(lo as int, hi as int).len() && prev.subrange(
                            lo as int,
                            hi as int,
                        )[u] == sub[a - lo];
                    assert(prev[u + lo] == v@[a]);
                    assert(v@[b] == prev[b]);
                } else {
                    assert(v@[a] == prev[a] && v@[b] == prev[b]);
                }
            }
        }
        if p == idx {
            proof {
                assert forall|t: int| 0 <= t < idx implies v@[t] <= v@[idx as int] by {}
                assert forall|t: int| idx < t < v@.len() implies v@[t] >= v@[idx as int] by {}
                lemma_partitioned_rank(v@, old(v)@, idx as int);
            }
            return ;
        } else if p < idx {
            proof {
                assert forall|a: int, b: int|
                    0 <= a < p + 1 && p + 1 <= b < v@.len() implies #[trigger] v@[a]
                    <= #[trigger] v@[b] by {
                    if a < lo {
                    } else if b < hi {
                        assert(v@[a] <= v@[p as int]);
                        assert(v@[b] >= v@[p as int]);
                    } else {
                        assert(v@[a] <= v@[b]);
                    }
                }
            }
            lo = p + 1;
        } else {
            proof {
                assert forall|a: int, b: int|
                    0 <= a < p && p <= b < v@.len() implies #[trigger] v@[a]
                    <= #[trigger] v@[b] by {
                    if b >= hi {
                    } else if a >= lo {
                        assert(v@[a] <= v@[p as int]);
                        assert(v@[b] >= v@[p as int]);
                    } else {
                        assert(v@[a] <= v@[b]);
                    }
                }
            }
            hi = p;
        }
    }
}

} // verus!
