//! The 26 contiguous intensity bins, their pixel populations, and the
//! ranking of the bins by population.

use vstd::prelude::*;
use vstd::arithmetic::div_mod::{lemma_div_is_ordered, lemma_hoist_over_denominator};
use crate::gray::count_val;

verus! {

/// First intensity of bin `j` when [0,255] is split into 26 near-equal parts.
pub open spec fn bin_start(j: int) -> int {
    j * 256 / 26
}

/// Last intensity of bin `j`. The bins are contiguous: bin `j` ends right
/// before bin `j + 1` begins.
pub open spec fn bin_end(j: int) -> int {
    bin_start(j + 1) - 1
}

/// Whether intensity `v` falls inside bin `j`.
pub open spec fn in_bin(v: int, j: int) -> bool {
    bin_start(j) <= v <= bin_end(j)
}

/// Bin starts never decrease.
pub proof fn lemma_bin_start_mono(a: int, b: int)
    requires
        a <= b,
    ensures
        bin_start(a) <= bin_start(b),
{
    lemma_div_is_ordered(a * 256, b * 256, 26);
}

/// Each bin holds at least one intensity: the next bin starts strictly later.
pub proof fn lemma_bin_step(j: int)
    ensures
        bin_start(j) + 1 <= bin_start(j + 1),
{
    lemma_hoist_over_denominator(j * 256, 1, 26);
    lemma_div_is_ordered(j * 256 + 1 * 26, (j + 1) * 256, 26);
}

/// The 26 bins partition [0,255]: every intensity lies in exactly one bin.
pub proof fn lemma_bins_partition(v: int)
    requires
        0 <= v < 256,
    ensures
        exists|j: int| 0 <= j < 26 && in_bin(v, j),
        forall|j1: int, j2: int|
            0 <= j1 < 26 && 0 <= j2 < 26 && in_bin(v, j1) && in_bin(v, j2) ==> j1 == j2,
{
    let j = lemma_bin_of(v);
    assert forall|j1: int, j2: int|
        0 <= j1 < 26 && 0 <= j2 < 26 && in_bin(v, j1) && in_bin(v, j2) implies j1 == j2 by {
        lemma_bin_unique(v, j1, j2);
    }
}

/// Picks out the bin that holds intensity `v`.
pub proof fn lemma_bin_of(v: int) -> (j: int)
    requires
        0 <= v < 256,
    ensures
        0 <= j < 26,
        in_bin(v, j),
{
    lemma_bin_of_rec(v, 0)
}

proof fn lemma_bin_of_rec(v: int, j: int) -> (k: int)
    requires
        0 <= j < 26,
        bin_start(j) <= v < 256,
    ensures
        j <= k < 26,
        in_bin(v, k),
    decreases 26 - j,
{
    if v <= bin_end(j) {
        j
    } else {
        assert(bin_start(26) == 256);
        assert(j < 25) by {
            if j == 25 {
                assert(bin_end(25) == 255);
            }
        }
        lemma_bin_of_rec(v, j + 1)
    }
}

/// Two distinct bins never share an intensity.
pub proof fn lemma_bin_unique(v: int, j1: int, j2: int)
    requires
        in_bin(v, j1),
        in_bin(v, j2),
    ensures
        j1 == j2,
{
    if j1 < j2 {
        lemma_bin_start_mono(j1 + 1, j2);
    }
    if j2 < j1 {
        lemma_bin_start_mono(j2 + 1, j1);
    }
}

/// Computes the 26 bins as (first, last) intensity pairs.
pub fn compute_bins() -> (bins: Vec<(u8, u8)>)
    ensures
        bins@.len() == 26,
        forall|j: int|
            0 <= j < 26 ==> bins@[j].0 == bin_start(j) && bins@[j].1 == bin_end(j),
{
    let mut bins: Vec<(u8, u8)> = Vec::new();
    let mut i: usize = 0;
    while i < 26
        invariant
            i <= 26,
            bins@.len() == i,
            forall|j: int|
                0 <= j < i ==> bins@[j].0 == bin_start(j) && bins@[j].1 == bin_end(j),
        decreases 26 - i,
    {
        proof {
            lemma_bin_step(i as int);
            lemma_bin_start_mono(i as int + 1, 26);
            assert(bin_start(26) == 256);
            lemma_bin_start_mono(0, i as int);
            assert(bin_start(0) == 0);
        }
        let start: usize = i * 256 / 26;
        let end: usize = (i + 1) * 256 / 26 - 1;
        bins.push((start as u8, end as u8));
        i += 1;
    }
    bins
}

/// Sum of the histogram buckets for intensities in [lo, hi).
pub open spec fn hist_sum(hist: Seq<u32>, lo: int, hi: int) -> int
    decreases hi - lo,
{
    if lo >= hi {
        0
    } else {
        hist[lo] + hist_sum(hist, lo + 1, hi)
    }
}

/// Total pixel population of bin `j` of the histogram `hist`.
pub open spec fn bin_count(hist: Seq<u32>, j: int) -> int {
    hist_sum(hist, bin_start(j), bin_end(j) + 1)
}

/// A sum of 32-bit buckets is non-negative and bounded by the range width.
pub proof fn lemma_hist_sum_bounds(hist: Seq<u32>, lo: int, hi: int)
    requires
        0 <= lo <= hi,
        hi <= hist.len(),
    ensures
        0 <= hist_sum(hist, lo, hi),
        hist_sum(hist, lo, hi) <= (hi - lo) * 0xffff_ffff,
    decreases hi - lo,
{
    if lo < hi {
        lemma_hist_sum_bounds(hist, lo + 1, hi);
        assert((hi - lo) * 0xffff_ffff == 0xffff_ffff + (hi - (lo + 1)) * 0xffff_ffff)
            by (nonlinear_arith);
    }
}

/// Splitting a summation range at `mid` splits the sum.
pub proof fn lemma_hist_sum_concat(hist: Seq<u32>, lo: int, mid: int, hi: int)
    requires
        lo <= mid <= hi,
    ensures
        hist_sum(hist, lo, hi) == hist_sum(hist, lo, mid) + hist_sum(hist, mid, hi),
    decreases mid - lo,
{
    if lo < mid {
        lemma_hist_sum_concat(hist, lo + 1, mid, hi);
    }
}

/// Sums the histogram buckets of one bin.
pub fn sum_bin(hist: &Vec<u32>, start: u8, end: u8) -> (total: u64)
    requires
        hist@.len() == 256,
        start <= end,
    ensures
        total == hist_sum(hist@, start as int, end as int + 1),
{
    proof {
        lemma_hist_sum_bounds(hist@, start as int, end as int + 1);
    }
    let mut total: u64 = 0;
    let mut v: usize = start as usize;
    while v <= end as usize
        invariant
            hist@.len() == 256,
            start <= end < 256,
            start as int <= v <= end as int + 1,
            total == hist_sum(hist@, start as int, v as int),
            hist_sum(hist@, start as int, end as int + 1) <= 256 * 0xffff_ffff,
        decreases end as int + 1 - v,
    {
        proof {
            lemma_hist_sum_concat(hist@, start as int, v as int, end as int + 1);
            lemma_hist_sum_concat(hist@, v as int, v as int + 1, end as int + 1);
            lemma_hist_sum_concat(hist@, start as int, v as int, v as int + 1);
            lemma_hist_sum_bounds(hist@, v as int, end as int + 1);
            lemma_hist_sum_bounds(hist@, v as int + 1, end as int + 1);
            lemma_hist_sum_bounds(hist@, start as int, v as int);
        }
        total = total + hist[v] as u64;
        v += 1;
    }
    total
}

/// Sum of the populations of the first `k` bins.
pub open spec fn bins_total(hist: Seq<u32>, k: int) -> int
    decreases k,
{
    if k <= 0 {
        0
    } else {
        bins_total(hist, k - 1) + bin_count(hist, k - 1)
    }
}

proof fn lemma_hist_sum_matches(hist: Seq<u32>, s: Seq<u8>, lo: int, hi: int)
    requires
        hist.len() == 256,
        forall|v: u8| hist[v as int] == count_val(s, v),
        0 <= lo <= hi <= 256,
    ensures
        hist_sum(hist, lo, hi) == crate::gray::count_sum(s, lo, hi),
    decreases hi - lo,
{
    if lo < hi {
        assert(hist[(lo as u8) as int] == count_val(s, lo as u8));
        lemma_hist_sum_matches(hist, s, lo + 1, hi);
    }
}

proof fn lemma_bins_total_prefix(hist: Seq<u32>, k: int)
    requires
        0 <= k <= 26,
    ensures
        bins_total(hist, k) == hist_sum(hist, 0, bin_start(k)),
    decreases k,
{
    if k == 0 {
        assert(bin_start(0) == 0);
    } else {
        lemma_bins_total_prefix(hist, k - 1);
        lemma_bin_start_mono(0, k - 1);
        lemma_bin_step(k - 1);
        assert(bin_start(0) == 0);
        lemma_hist_sum_concat(hist, 0, bin_start(k - 1), bin_start(k));
    }
}

/// The populations of the 26 bins of an image's histogram add up to the
/// image's area: every pixel lands in exactly one bin.
pub proof fn lemma_bin_populations_sum_to_area(hist: Seq<u32>, img: crate::gray::GrayscaleImage)
    requires
        img.wf(),
        hist.len() == 256,
        forall|v: u8| hist[v as int] == count_val(img.pixels@, v),
    ensures
        bins_total(hist, 26) == img.width * img.height,
{
    lemma_bins_total_prefix(hist, 26);
    assert(bin_start(26) == 256);
    lemma_hist_sum_matches(hist, img.pixels@, 0, 256);
    crate::gray::lemma_count_sum_total(img.pixels@);
}

/// `a` precedes `b` in the ranking: strictly more pixels, or the same number
/// of pixels and a lower bin index (the tie-break keeps the order stable).
pub open spec fn rank_before(a: (usize, u64), b: (usize, u64)) -> bool {
    a.1 > b.1 || (a.1 == b.1 && a.0 < b.0)
}

fn rank_before_exec(a: (usize, u64), b: (usize, u64)) -> (r: bool)
    ensures
        r == rank_before(a, b),
{
    a.1 > b.1 || (a.1 == b.1 && a.0 < b.0)
}

/// Some entry of `s` carries bin index `j`.
pub open spec fn seq_has_bin(s: Seq<(usize, u64)>, j: usize) -> bool {
    exists|p: int| 0 <= p < s.len() && (#[trigger] s[p]).0 == j
}

/// `rk` lists each of the 26 bins once, as (bin index, pixel population),
/// ordered by descending population with ties broken by bin index.
pub open spec fn valid_ranking(rk: Seq<(usize, u64)>, hist: Seq<u32>) -> bool {
    &&& rk.len() == 26
    &&& forall|p: int|
        0 <= p < 26 ==> (#[trigger] rk[p]).0 < 26 && rk[p].1 == bin_count(hist, rk[p].0 as int)
    &&& forall|j: usize| j < 26 ==> #[trigger] seq_has_bin(rk, j)
    &&& forall|p: int, q: int| 0 <= p < q < 26 ==> rank_before(rk[p], rk[q])
}

/// Ranks the 26 bins of `hist` by descending pixel population,
/// ties broken by ascending bin index.
pub fn rank_bins(hist: &Vec<u32>) -> (rk: Vec<(usize, u64)>)
    requires
        hist@.len() == 256,
    ensures
        valid_ranking(rk@, hist@),
{
    let bins = compute_bins();
    let mut rest: Vec<(usize, u64)> = Vec::new();
    let mut j: usize = 0;
    while j < 26
        invariant
            bins@.len() == 26,
            forall|t: int|
                0 <= t < 26 ==> bins@[t].0 == bin_start(t) && bins@[t].1 == bin_end(t),
            hist@.len() == 256,
            j <= 26,
            rest@.len() == j,
            forall|t: int|
                0 <= t < j ==> (#[trigger] rest@[t]).0 == t && rest@[t].1 == bin_count(
                    hist@,
                    t,
                ),
        decreases 26 - j,
    {
        proof {
            lemma_bin_step(j as int);
            lemma_bin_start_mono(j as int + 1, 26);
            lemma_bin_start_mono(0, j as int);
            assert(bin_start(0) == 0);
            assert(bin_start(26) == 256);
        }
        let (start, end) = bins[j];
        let total = sum_bin(hist, start, end);
        rest.push((j, total));
        j += 1;
    }
    let mut out: Vec<(usize, u64)> = Vec::new();
    proof {
        assert forall|j2: usize| j2 < 26 implies seq_has_bin(rest@, j2) by {
            assert(rest@[j2 as int].0 == j2);
        }
    }
    while rest.len() > 0
        invariant
            hist@.len() == 256,
            out@.len() + rest@.len() == 26,
            forall|p: int|
                0 <= p < out@.len() ==> (#[trigger] out@[p]).0 < 26 && out@[p].1 == bin_count(
                    hist@,
                    out@[p].0 as int,
                ),
            forall|k: int|
                0 <= k < rest@.len() ==> (#[trigger] rest@[k]).0 < 26 && rest@[k].1 == bin_count(
                    hist@,
                    rest@[k].0 as int,
                ),
            forall|k1: int, k2: int|
                0 <= k1 < k2 < rest@.len() ==> (#[trigger] rest@[k1]).0 != (#[trigger] rest@[k2]).0,
            forall|p: int, k: int|
                0 <= p < out@.len() && 0 <= k < rest@.len() ==> (#[trigger] out@[p]).0 != (
                #[trigger] rest@[k]).0,
            forall|j2: usize|
                j2 < 26 ==> #[trigger] seq_has_bin(out@, j2) || seq_has_bin(rest@, j2),
            forall|p: int, q: int| 0 <= p < q < out@.len() ==> rank_before(out@[p], out@[q]),
            forall|p: int, k: int|
                0 <= p < out@.len() && 0 <= k < rest@.len() ==> rank_before(out@[p], rest@[k]),
        decreases rest@.len(),
    {
        let ghost rest0 = rest@;
        let mut best: usize = 0;
        let mut k: usize = 1;
        while k < rest.len()
            invariant
                rest@ == rest0,
                rest@.len() > 0,
                best < k,
                k <= rest@.len(),
                forall|k1: int, k2: int|
                    0 <= k1 < k2 < rest@.len() ==> (#[trigger] rest@[k1]).0 != (
                    #[trigger] rest@[k2]).0,
                forall|t: int|
                    0 <= t < k && t != best ==> rank_before(rest@[best as int], rest@[t]),
            decreases rest@.len() - k,
        {
            if rank_before_exec(rest[k], rest[best]) {
                best = k;
            }
            k += 1;
        }
        let chosen = rest.remove(best);
        proof {
            assert forall|k2: int| 0 <= k2 < rest@.len() implies rank_before(
                chosen,
                rest@[k2],
            ) by {
                if k2 < best {
                    assert(rest@[k2] == rest0[k2]);
                } else {
                    assert(rest@[k2] == rest0[k2 + 1]);
                }
            }
            assert forall|j2: usize| j2 < 26 && seq_has_bin(rest0, j2) implies (chosen.0 == j2
                || seq_has_bin(rest@, j2)) by {
                let t = choose|t: int| 0 <= t < rest0.len() && (#[trigger] rest0[t]).0 == j2;
                if t < best {
                    assert(rest@[t] == rest0[t]);
                    assert(seq_has_bin(rest@, j2));
                } else if t > best {
                    assert(rest@[t - 1] == rest0[t]);
                    assert(seq_has_bin(rest@, j2));
                }
            }
            assert forall|k1: int, k2: int|
                0 <= k1 < k2 < rest@.len() implies (#[trigger] rest@[k1]).0 != (
            #[trigger] rest@[k2]).0 by {
                let m1: int = if k1 < best {
                    k1
                } else {
                    k1 + 1
                };
                let m2: int = if k2 < best {
                    k2
                } else {
                    k2 + 1
                };
                assert(rest@[k1] == rest0[m1]);
                assert(rest@[k2] == rest0[m2]);
            }
            assert forall|k2: int| 0 <= k2 < rest@.len() implies (#[trigger] rest@[k2]).0
                != chosen.0 by {
                if k2 < best {
                    assert(rest@[k2] == rest0[k2]);
                } else {
                    assert(rest@[k2] == rest0[k2 + 1]);
                }
            }
        }
        let ghost out0 = out@;
        out.push(chosen);
        proof {
            assert forall|j2: usize| j2 < 26 implies seq_has_bin(out@, j2) || seq_has_bin(
                rest@,
                j2,
            ) by {
                if seq_has_bin(out0, j2) {
                    let p = choose|p: int| 0 <= p < out0.len() && (#[trigger] out0[p]).0 == j2;
                    assert(out@[p] == out0[p]);
                    assert(seq_has_bin(out@, j2));
                } else if chosen.0 == j2 {
                    assert(out@[out0.len() as int].0 == j2);
                    assert(seq_has_bin(out@, j2));
                }
            }
        }
    }
    out
}

} // verus!
