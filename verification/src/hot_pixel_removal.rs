//! Percentile-based intensity clipping: finds low/high cutoff sample values
//! by rank selection over the flat sample pool and clamps every sample into
//! that range, in place.

use vstd::prelude::*;
use vstd::relations::sorted_by;
use vstd::seq_lib::group_to_multiset_ensures;
use vstd::seq_lib::lemma_sorted_unique;

use crate::image_handler::{copy_vec_u16, seq8_to16, widen_samples, Image, ImageError, Pixels};
use crate::selection::{kth_order_statistic, sample_le, select_nth};

verus! {

/// A requested percentile clamped into `[0, 100]`.
pub open spec fn clamped_percentile(p: u8) -> int {
    if p > 100 {
        100
    } else {
        p as int
    }
}

/// The rank a percentile selects in a pool of `total` samples:
/// `floor(p/100 * total)`, clamped to the last rank.
pub open spec fn rank_index(p: int, total: int) -> int {
    let i = p * total / 100;
    if i >= total {
        total - 1
    } else {
        i
    }
}

/// The cutoff sample a percentile selects: the order statistic at the rank
/// the percentile names, or 0 when there are no samples.
pub open spec fn cutoff_sample(s: Seq<u16>, p: u8) -> u16 {
    if s.len() == 0 {
        0
    } else {
        kth_order_statistic(s, rank_index(clamped_percentile(p), s.len() as int))
    }
}

/// The low cutoff actually applied: the requested percentile's cutoff, or the
/// depth's minimum representable value when no low percentile was given.
pub open spec fn effective_low(s: Seq<u16>, low: Option<u8>) -> u16 {
    match low {
        Some(p) => cutoff_sample(s, p),
        None => 0,
    }
}

/// The high cutoff actually applied: the requested percentile's cutoff, or
/// the depth's maximum representable value when no high percentile was given.
pub open spec fn effective_high(s: Seq<u16>, high: Option<u8>, max_value: u16) -> u16 {
    match high {
        Some(p) => cutoff_sample(s, p),
        None => max_value,
    }
}

/// One sample clamped into `[lo, hi]`: a sample below `lo` is raised to it,
/// else one above `hi` is lowered to it.
pub open spec fn clamp_sample(v: u16, lo: u16, hi: u16) -> u16 {
    if v < lo {
        lo
    } else if v > hi {
        hi
    } else {
        v
    }
}

/// The whole 16-bit sample pool clipped against the cutoffs its own
/// percentiles select.
pub open spec fn clip_seq(s: Seq<u16>, low: Option<u8>, high: Option<u8>, max_value: u16) -> Seq<
    u16,
> {
    let lo = effective_low(s, low);
    let hi = effective_high(s, high, max_value);
    s.map_values(|v: u16| clamp_sample(v, lo, hi))
}

/// The whole 8-bit sample pool clipped; cutoffs are ranks of the same pool
/// read at 16-bit width.
pub open spec fn clip_seq8(s: Seq<u8>, low: Option<u8>, high: Option<u8>) -> Seq<u8> {
    let lo = effective_low(seq8_to16(s), low);
    let hi = effective_high(seq8_to16(s), high, 255);
    s.map_values(
        |v: u8|
            if (v as u16) < lo {
                lo as u8
            } else if (v as u16) > hi {
                hi as u8
            } else {
                v
            },
    )
}

/// The percentile arguments are rejected: a percentile above 100, or a low
/// bound above the high bound.
pub open spec fn invalid_percentiles(low: Option<u8>, high: Option<u8>) -> bool {
    ||| (low matches Some(lp) && lp > 100)
    ||| (high matches Some(hp) && hp > 100)
    ||| (low matches Some(lp) && high matches Some(hp) && lp > hp)
}

/// An order statistic is one of the sequence's own values.
pub proof fn lemma_kth_is_element(s: Seq<u16>, k: int)
    requires
        0 <= k < s.len(),
    ensures
        s.contains(kth_order_statistic(s, k)),
{
    broadcast use group_to_multiset_ensures;

    let leq = sample_le();
    s.lemma_sort_by_ensures(leq);
    let t = s.sort_by(leq);
    assert(t.len() == s.len()) by {
        assert(t.to_multiset() =~= s.to_multiset());
        assert(t.len() == t.to_multiset().len());
        assert(s.len() == s.to_multiset().len());
    }
    assert(t.contains(t[k]));
    assert(t.to_multiset().count(t[k]) > 0);
    assert(s.to_multiset().count(t[k]) > 0);
}

/// Order statistics do not decrease with rank.
pub proof fn lemma_kth_monotone(s: Seq<u16>, k1: int, k2: int)
    requires
        0 <= k1 <= k2 < s.len(),
    ensures
        kth_order_statistic(s, k1) <= kth_order_statistic(s, k2),
{
    broadcast use group_to_multiset_ensures;

    let leq = sample_le();
    s.lemma_sort_by_ensures(leq);
    let t = s.sort_by(leq);
    assert(t.len() == s.len()) by {
        assert(t.to_multiset() =~= s.to_multiset());
        assert(t.len() == t.to_multiset().len());
        assert(s.len() == s.to_multiset().len());
    }
    if k1 < k2 {
        assert(leq(t[k1], t[k2]));
    }
}

/// Sequences holding the same values map to sequences holding the same
/// values.
pub proof fn lemma_map_values_multiset(a: Seq<u16>, b: Seq<u16>, f: spec_fn(u16) -> u16)
    requires
        a.to_multiset() == b.to_multiset(),
    ensures
        a.map_values(f).to_multiset() == b.map_values(f).to_multiset(),
    decreases a.len(),
{
    broadcast use group_to_multiset_ensures;
    broadcast use vstd::multiset::group_multiset_axioms;

    assert(a.len() == b.len()) by {
        assert(a.len() == a.to_multiset().len());
        assert(b.len() == b.to_multiset().len());
    }
    if a.len() == 0 {
        assert(a.map_values(f) =~= Seq::<u16>::empty());
        assert(b.map_values(f) =~= Seq::<u16>::empty());
        assert(a.map_values(f) == b.map_values(f));
    } else {
        let x = a.last();
        assert(a.contains(x));
        assert(a.to_multiset().count(x) > 0);
        assert(b.contains(x));
        let j = choose|j: int| 0 <= j < b.len() && b[j] == x;
        let a0 = a.drop_last();
        let b0 = b.remove(j);
        assert(a =~= a0.push(x));
        assert(a.to_multiset() == a0.to_multiset().insert(x));
        assert(a0.to_multiset() =~= a.to_multiset().remove(x));
        assert(b0.to_multiset() =~= b.to_multiset().remove(x));
        lemma_map_values_multiset(a0, b0, f);
        assert(a.map_values(f) =~= a0.map_values(f).push(f(x)));
        assert(a.map_values(f).to_multiset() == a0.map_values(f).to_multiset().insert(f(x)));
        assert(b0.map_values(f) =~= b.map_values(f).remove(j));
        assert(b.map_values(f)[j] == f(x));
        assert(b.map_values(f).remove(j).to_multiset() =~= b.map_values(f).to_multiset().remove(
            f(x),
        ));
        assert(b.map_values(f).contains(f(x)));
        assert(b.map_values(f).to_multiset().count(f(x)) > 0);
        assert(a.map_values(f).to_multiset() =~= b.map_values(f).to_multiset());
    }
}

/// A monotone sample map commutes with sorting.
pub proof fn lemma_sort_map_monotone(s: Seq<u16>, f: spec_fn(u16) -> u16)
    requires
        forall|a: u16, b: u16| a <= b ==> #[trigger] f(a) <= #[trigger] f(b),
    ensures
        s.map_values(f).sort_by(sample_le()) == s.sort_by(sample_le()).map_values(f),
{
    broadcast use group_to_multiset_ensures;

    let leq = sample_le();
    s.lemma_sort_by_ensures(leq);
    let t = s.sort_by(leq);
    assert(t.len() == s.len()) by {
        assert(t.to_multiset() =~= s.to_multiset());
        assert(t.len() == t.to_multiset().len());
        assert(s.len() == s.to_multiset().len());
    }
    let m = s.map_values(f);
    m.lemma_sort_by_ensures(leq);
    assert(m.sort_by(leq).len() == m.len()) by {
        assert(m.sort_by(leq).to_multiset() =~= m.to_multiset());
        assert(m.sort_by(leq).len() == m.sort_by(leq).to_multiset().len());
        assert(m.len() == m.to_multiset().len());
    }
    assert(sorted_by(t.map_values(f), leq)) by {
        assert forall|i: int, j: int| 0 <= i < j < t.map_values(f).len() implies leq(
            t.map_values(f)[i],
            t.map_values(f)[j],
        ) by {
            assert(leq(t[i], t[j]));
            assert(f(t[i]) <= f(t[j]));
        }
    }
    lemma_map_values_multiset(s, t, f);
    lemma_sorted_unique(m.sort_by(leq), t.map_values(f), leq);
}

/// A monotone sample map commutes with taking an order statistic.
pub proof fn lemma_kth_map_monotone(s: Seq<u16>, f: spec_fn(u16) -> u16, k: int)
    requires
        forall|a: u16, b: u16| a <= b ==> #[trigger] f(a) <= #[trigger] f(b),
        0 <= k < s.len(),
    ensures
        kth_order_statistic(s.map_values(f), k) == f(kth_order_statistic(s, k)),
{
    broadcast use group_to_multiset_ensures;

    let leq = sample_le();
    lemma_sort_map_monotone(s, f);
    s.lemma_sort_by_ensures(leq);
    let t = s.sort_by(leq);
    assert(t.len() == s.len()) by {
        assert(t.to_multiset() =~= s.to_multiset());
        assert(t.len() == t.to_multiset().len());
        assert(s.len() == s.to_multiset().len());
    }
    assert(s.map_values(f).sort_by(leq)[k] == t.map_values(f)[k]);
}

/// Clipping clamps every sample into `[effective_low, effective_high]`, and
/// samples already inside that range are unchanged.
pub proof fn lemma_clip_bounds(s: Seq<u16>, low: Option<u8>, high: Option<u8>, max_value: u16)
    requires
        !invalid_percentiles(low, high),
        s.len() > 0,
        forall|i: int| 0 <= i < s.len() ==> s[i] <= max_value,
    ensures
        effective_low(s, low) <= effective_high(s, high, max_value),
        clip_seq(s, low, high, max_value).len() == s.len(),
        forall|i: int|
            0 <= i < s.len() ==> effective_low(s, low) <= #[trigger] clip_seq(
                s,
                low,
                high,
                max_value,
            )[i] <= effective_high(s, high, max_value),
        forall|i: int|
            0 <= i < s.len() && effective_low(s, low) <= s[i] <= effective_high(
                s,
                high,
                max_value,
            ) ==> #[trigger] clip_seq(s, low, high, max_value)[i] == s[i],
{
    let lo = effective_low(s, low);
    let hi = effective_high(s, high, max_value);
    assert(lo <= hi) by {
        lemma_effective_ordered(s, low, high, max_value);
    }
}

/// The two effective cutoffs are ordered: the low one never exceeds the high
/// one, for accepted percentile arguments over a bounded non-empty pool.
pub proof fn lemma_effective_ordered(s: Seq<u16>, low: Option<u8>, high: Option<u8>, max_value: u16)
    requires
        !invalid_percentiles(low, high),
        s.len() > 0,
        forall|i: int| 0 <= i < s.len() ==> s[i] <= max_value,
    ensures
        effective_low(s, low) <= effective_high(s, high, max_value),
        effective_low(s, low) <= max_value,
        effective_high(s, high, max_value) <= max_value,
{
    let total = s.len() as int;
    if let Some(lp) = low {
        let kl = rank_index(clamped_percentile(lp), total);
        assert(0 <= kl < total) by {
            lemma_rank_index_in_range(clamped_percentile(lp), total);
        }
        lemma_kth_is_element(s, kl);
        let w = choose|w: int| 0 <= w < s.len() && s[w] == kth_order_statistic(s, kl);
        assert(effective_low(s, low) <= max_value);
        if let Some(hp) = high {
            let kh = rank_index(clamped_percentile(hp), total);
            assert(0 <= kh < total) by {
                lemma_rank_index_in_range(clamped_percentile(hp), total);
            }
            assert(kl <= kh) by {
                lemma_rank_index_monotone(clamped_percentile(lp), clamped_percentile(hp), total);
            }
            lemma_kth_monotone(s, kl, kh);
        }
    }
    if let Some(hp) = high {
        let kh = rank_index(clamped_percentile(hp), total);
        assert(0 <= kh < total) by {
            lemma_rank_index_in_range(clamped_percentile(hp), total);
        }
        lemma_kth_is_element(s, kh);
        let w = choose|w: int| 0 <= w < s.len() && s[w] == kth_order_statistic(s, kh);
        assert(effective_high(s, high, max_value) <= max_value);
    }
}

/// The rank a percentile selects is a valid rank.
pub proof fn lemma_rank_index_in_range(p: int, total: int)
    requires
        0 <= p,
        total >= 1,
    ensures
        0 <= rank_index(p, total) < total,
{
    assert(p * total >= 0) by (nonlinear_arith)
        requires
            p >= 0,
            total >= 0,
    ;
    assert(p * total / 100 >= 0) by (nonlinear_arith)
        requires
            p * total >= 0,
    ;
}

/// Ranks grow with the percentile.
pub proof fn lemma_rank_index_monotone(p1: int, p2: int, total: int)
    requires
        0 <= p1 <= p2,
        total >= 1,
    ensures
        rank_index(p1, total) <= rank_index(p2, total),
{
    assert(p1 * total <= p2 * total) by (nonlinear_arith)
        requires
            p1 <= p2,
            total >= 0,
    ;
    assert(p1 * total / 100 <= p2 * total / 100) by (nonlinear_arith)
        requires
            p1 * total <= p2 * total,
            p1 * total >= 0,
    ;
    assert(p1 * total >= 0) by (nonlinear_arith)
        requires
            p1 >= 0,
            total >= 0,
    ;
}

/// Clipping is idempotent: a second pass with the same percentile bounds
/// finds the cutoffs the first pass produced and changes nothing.
pub proof fn lemma_clip_idempotent(s: Seq<u16>, low: Option<u8>, high: Option<u8>, max_value: u16)
    requires
        !invalid_percentiles(low, high),
        s.len() > 0,
        forall|i: int| 0 <= i < s.len() ==> s[i] <= max_value,
    ensures
        clip_seq(clip_seq(s, low, high, max_value), low, high, max_value) == clip_seq(
            s,
            low,
            high,
            max_value,
        ),
{
    let lo = effective_low(s, low);
    let hi = effective_high(s, high, max_value);
    lemma_effective_ordered(s, low, high, max_value);
    let f = |v: u16| clamp_sample(v, lo, hi);
    let c = clip_seq(s, low, high, max_value);
    assert(c =~= s.map_values(f));
    assert(c.len() == s.len());
    assert(forall|a: u16, b: u16| a <= b ==> #[trigger] f(a) <= #[trigger] f(b));

    let total = s.len() as int;
    if let Some(lp) = low {
        let kl = rank_index(clamped_percentile(lp), total);
        lemma_rank_index_in_range(clamped_percentile(lp), total);
        lemma_kth_map_monotone(s, f, kl);
        assert(kth_order_statistic(c, kl) == f(lo));
        assert(f(lo) == lo);
    }
    assert(effective_low(c, low) == lo);
    if let Some(hp) = high {
        let kh = rank_index(clamped_percentile(hp), total);
        lemma_rank_index_in_range(clamped_percentile(hp), total);
        lemma_kth_map_monotone(s, f, kh);
        assert(kth_order_statistic(c, kh) == f(hi));
        assert(f(hi) == hi);
    }
    assert(effective_high(c, high, max_value) == hi);
    assert(clip_seq(c, low, high, max_value) =~= c);
}

/// The 8-bit clip clamps every sample into `[effective_low, effective_high]`
/// of the pool read at 16-bit width, and samples already inside that range
/// are unchanged.
pub proof fn lemma_clip8_bounds(s: Seq<u8>, low: Option<u8>, high: Option<u8>)
    requires
        !invalid_percentiles(low, high),
        s.len() > 0,
    ensures
        clip_seq8(s, low, high).len() == s.len(),
        forall|i: int|
            0 <= i < s.len() ==> effective_low(seq8_to16(s), low) <= (#[trigger] clip_seq8(
                s,
                low,
                high,
            )[i] as u16) <= effective_high(seq8_to16(s), high, 255),
        forall|i: int|
            0 <= i < s.len() && effective_low(seq8_to16(s), low) <= (s[i] as u16)
                <= effective_high(seq8_to16(s), high, 255) ==> #[trigger] clip_seq8(
                s,
                low,
                high,
            )[i] == s[i],
{
    let w = seq8_to16(s);
    assert(forall|i: int| 0 <= i < w.len() ==> w[i] <= 255);
    lemma_clip_bounds(w, low, high, 255);
    lemma_clip_seq8_widen(s, low, high);
    assert forall|i: int| 0 <= i < s.len() implies effective_low(w, low) <= (#[trigger] clip_seq8(
        s,
        low,
        high,
    )[i] as u16) <= effective_high(w, high, 255) by {
        assert(seq8_to16(clip_seq8(s, low, high))[i] == clip_seq(w, low, high, 255)[i]);
    }
    assert forall|i: int|
        0 <= i < s.len() && effective_low(w, low) <= (s[i] as u16) <= effective_high(
            w,
            high,
            255,
        ) implies #[trigger] clip_seq8(s, low, high)[i] == s[i] by {
        assert(seq8_to16(clip_seq8(s, low, high))[i] == clip_seq(w, low, high, 255)[i]);
        assert(clip_seq(w, low, high, 255)[i] == w[i]);
    }
}

/// Reading the clipped 8-bit pool at 16-bit width gives exactly the 16-bit
/// clip of the pool read at 16-bit width: the two depth paths agree.
pub proof fn lemma_clip_seq8_widen(s: Seq<u8>, low: Option<u8>, high: Option<u8>)
    ensures
        seq8_to16(clip_seq8(s, low, high)) == clip_seq(seq8_to16(s), low, high, 255),
{
    let w = seq8_to16(s);
    let lo = effective_low(w, low);
    let hi = effective_high(w, high, 255);
    assert(forall|i: int| 0 <= i < w.len() ==> w[i] <= 255);
    if s.len() > 0 {
        let total = s.len() as int;
        if let Some(lp) = low {
            let kl = rank_index(clamped_percentile(lp), total);
            lemma_rank_index_in_range(clamped_percentile(lp), total);
            lemma_kth_is_element(w, kl);
            let j = choose|j: int| 0 <= j < w.len() && w[j] == kth_order_statistic(w, kl);
            assert(lo <= 255);
        }
        if let Some(hp) = high {
            let kh = rank_index(clamped_percentile(hp), total);
            lemma_rank_index_in_range(clamped_percentile(hp), total);
            lemma_kth_is_element(w, kh);
            let j = choose|j: int| 0 <= j < w.len() && w[j] == kth_order_statistic(w, kh);
            assert(hi <= 255);
        }
    }
    assert(lo <= 255 && hi <= 255);
    assert(seq8_to16(clip_seq8(s, low, high)) =~= clip_seq(seq8_to16(s), low, high, 255));
}

/// Idempotence at 8-bit depth, through the 16-bit reading of the pool.
pub proof fn lemma_clip8_idempotent(s: Seq<u8>, low: Option<u8>, high: Option<u8>)
    requires
        !invalid_percentiles(low, high),
        s.len() > 0,
    ensures
        clip_seq8(clip_seq8(s, low, high), low, high) == clip_seq8(s, low, high),
{
    let w = seq8_to16(s);
    let c8 = clip_seq8(s, low, high);
    lemma_clip_seq8_widen(s, low, high);
    lemma_clip_seq8_widen(c8, low, high);
    assert(forall|i: int| 0 <= i < w.len() ==> w[i] <= 255);
    lemma_clip_idempotent(w, low, high, 255);
    assert(seq8_to16(clip_seq8(c8, low, high)) == seq8_to16(c8)) by {
        assert(seq8_to16(c8) == clip_seq(w, low, high, 255));
        assert(seq8_to16(clip_seq8(c8, low, high)) == clip_seq(seq8_to16(c8), low, high, 255));
        assert(clip_seq(clip_seq(w, low, high, 255), low, high, 255) == clip_seq(w, low, high, 255));
    }
    assert(clip_seq8(c8, low, high) =~= c8) by {
        assert(seq8_to16(clip_seq8(c8, low, high)).len() == clip_seq8(c8, low, high).len());
        assert(seq8_to16(c8).len() == c8.len());
        assert forall|i: int| 0 <= i < c8.len() implies clip_seq8(c8, low, high)[i] == c8[i] by {
            assert(seq8_to16(clip_seq8(c8, low, high))[i] == seq8_to16(c8)[i]);
        }
    }
}

/// Computes the rank a percentile selects, exactly as `rank_index` states.
fn rank_index_exec(p: u8, total: usize) -> (idx: usize)
    requires
        p <= 100,
        total >= 1,
    ensures
        idx == rank_index(p as int, total as int),
        idx < total,
{
    let p128: u128 = p as u128;
    let t128: u128 = total as u128;
    proof {
        assert(p128 * t128 <= 100 * t128 && 100 * t128 <= 100 * 0xFFFF_FFFF_FFFF_FFFFu128)
            by (nonlinear_arith)
            requires
                p128 <= 100,
                0 <= t128 <= 0xFFFF_FFFF_FFFF_FFFFu128,
        ;
    }
    let num: u128 = p128 * t128;
    let q: u128 = num / 100;
    proof {
        assert(num == p as int * total as int);
        assert(q <= t128) by (nonlinear_arith)
            requires
                q == num / 100,
                num == p128 * t128,
                p128 <= 100,
                t128 >= 0,
        ;
    }
    let mut idx: usize = q as usize;
    if idx >= total {
        idx = total - 1;
    }
    idx
}

/// The cutoff sample value a percentile selects from a 16-bit pool. `None`
/// selects no cutoff; an empty pool yields the cutoff 0.
pub fn percentile_cutoff_u16(flat_pixels: &Vec<u16>, pct: Option<u8>) -> (r: Option<u16>)
    ensures
        match pct {
            None => r is None,
            Some(p) => r matches Some(c) && c == cutoff_sample(flat_pixels@, p),
        },
{
    match pct {
        None => None,
        Some(p) => {
            let p = if p > 100 {
                100
            } else {
                p
            };
            let total = flat_pixels.len();
            if total == 0 {
                return Some(0);
            }
            let idx = rank_index_exec(p, total);
            let mut work = copy_vec_u16(flat_pixels);
            select_nth(&mut work, idx);
            Some(work[idx])
        },
    }
}

/// The cutoff sample value a percentile selects from an 8-bit pool, computed
/// over the pool reread at 16-bit width.
pub fn percentile_cutoff_u8(flat_pixels: &Vec<u8>, pct: Option<u8>) -> (r: Option<u8>)
    ensures
        match pct {
            None => r is None,
            Some(p) => r matches Some(c) && c as u16 == cutoff_sample(seq8_to16(flat_pixels@), p),
        },
{
    match pct {
        None => None,
        Some(p) => {
            let wide = widen_samples(flat_pixels);
            let c16 = match percentile_cutoff_u16(&wide, Some(p)) {
                Some(c) => c,
                None => 0,
            };
            proof {
                if flat_pixels@.len() > 0 {
                    let s = seq8_to16(flat_pixels@);
                    lemma_kth_is_element(
                        s,
                        rank_index(clamped_percentile(p), s.len() as int),
                    );
                    let w = choose|w: int| 0 <= w < s.len() && s[w] == c16;
                    assert(s[w] == flat_pixels@[w] as u16);
                }
                assert(c16 <= 255);
            }
            Some(c16 as u8)
        },
    }
}

/// Clamps every sample into the range the two percentiles select from the
/// buffer's own flat sample pool. Invalid percentile arguments and empty
/// buffers are rejected before anything is touched.
pub fn clip_pixels_with_percentiles(
    img: &mut Image,
    low_percentile: Option<u8>,
    high_percentile: Option<u8>,
) -> (r: Result<(), ImageError>)
    ensures
        r == Err::<(), ImageError>(ImageError::InvalidArgument) <==> invalid_percentiles(
            low_percentile,
            high_percentile,
        ),
        r == Err::<(), ImageError>(ImageError::EmptyBuffer) <==> !invalid_percentiles(
            low_percentile,
            high_percentile,
        ) && old(img).pixels.spec_len() == 0,
        r is Err ==> final(img).same_image(old(img)),
        r is Ok <==> !invalid_percentiles(low_percentile, high_percentile) && old(
            img,
        ).pixels.spec_len() > 0,
        r is Ok ==> final(img).same_shape(old(img)),
        r is Ok ==> match (final(img).pixels, old(img).pixels) {
            (Pixels::U8(d), Pixels::U8(od)) => d@ == clip_seq8(
                od@,
                low_percentile,
                high_percentile,
            ),
            (Pixels::U16(d), Pixels::U16(od)) => d@ == clip_seq(
                od@,
                low_percentile,
                high_percentile,
                65535,
            ),
            _ => false,
        },
{
    if let Some(lp) = low_percentile {
        if lp > 100 {
            return Err(ImageError::InvalidArgument);
        }
    }
    if let Some(hp) = high_percentile {
        if hp > 100 {
            return Err(ImageError::InvalidArgument);
        }
    }
    if let (Some(lp), Some(hp)) = (low_percentile, high_percentile) {
        if lp > hp {
            return Err(ImageError::InvalidArgument);
        }
    }
    match &img.pixels {
        Pixels::U8(data) => {
            if data.len() == 0 {
                return Err(ImageError::EmptyBuffer);
            }
            let low_cutoff = percentile_cutoff_u8(data, low_percentile);
            let high_cutoff = percentile_cutoff_u8(data, high_percentile);
            let low_val: u8 = match low_cutoff {
                Some(c) => c,
                None => 0,
            };
            let high_val: u8 = match high_cutoff {
                Some(c) => c,
                None => 255,
            };
            let ghost od = data@;
            let ghost lo = effective_low(seq8_to16(od), low_percentile);
            let ghost hi = effective_high(seq8_to16(od), high_percentile, 255);
            proof {
                assert(low_val as u16 == lo);
                assert(high_val as u16 == hi);
            }
            let mut out: Vec<u8> = Vec::new();
            let mut i: usize = 0;
            while i < data.len()
                invariant
                    i <= data.len(),
                    data@ == od,
                    low_val as u16 == lo,
                    high_val as u16 == hi,
                    out@.len() == i,
                    forall|j: int|
                        0 <= j < i ==> out@[j] == (if (od[j] as u16) < lo {
                            lo as u8
                        } else if (od[j] as u16) > hi {
                            hi as u8
                        } else {
                            od[j]
                        }),
                decreases data.len() - i,
            {
                let v = data[i];
                let nv = if v < low_val {
                    low_val
                } else if v > high_val {
                    high_val
                } else {
                    v
                };
                out.push(nv);
                i = i + 1;
            }
            proof {
                assert(out@ =~= clip_seq8(od, low_percentile, high_percentile));
            }
            img.pixels = Pixels::U8(out);
            Ok(())
        },
        Pixels::U16(data) => {
            if data.len() == 0 {
                return Err(ImageError::EmptyBuffer);
            }
            let low_cutoff = percentile_cutoff_u16(data, low_percentile);
            let high_cutoff = percentile_cutoff_u16(data, high_percentile);
            let low_val: u16 = match low_cutoff {
                Some(c) => c,
                None => 0,
            };
            let high_val: u16 = match high_cutoff {
                Some(c) => c,
                None => 65535,
            };
            let ghost od = data@;
            proof {
                assert(low_val == effective_low(od, low_percentile));
                assert(high_val == effective_high(od, high_percentile, 65535));
            }
            let mut out: Vec<u16> = Vec::new();
            let mut i: usize = 0;
            while i < data.len()
                invariant
                    i <= data.len(),
                    data@ == od,
                    low_val == effective_low(od, low_percentile),
                    high_val == effective_high(od, high_percentile, 65535),
                    out@.len() == i,
                    forall|j: int| 0 <= j < i ==> out@[j] == clamp_sample(od[j], low_val, high_val),
                decreases data.len() - i,
            {
                let v = data[i];
                let nv = if v < low_val {
                    low_val
                } else if v > high_val {
                    high_val
                } else {
                    v
                };
                out.push(nv);
                i = i + 1;
            }
            proof {
                assert(out@ =~= clip_seq(od, low_percentile, high_percentile, 65535));
            }
            img.pixels = Pixels::U16(out);
            Ok(())
        },
    }
}

} // verus!
