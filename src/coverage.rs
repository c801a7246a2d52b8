//! Aligned-base coverage of reference intervals, by the same sweep as the
//! projection engine.

use vstd::prelude::*;
use crate::blocks::{al_r_hi, al_r_lo, lemma_block_bounds};
use crate::chain::{lemma_advance_monotone, Chain};
use crate::error::ChainError;
use crate::interval::{with_key, all_usable, check_usable, key_le, sort_intervals, sorted_by_start, usable, Interval};
use crate::project::rec_start;

verus! {

pub open spec fn max_of(a: int, b: int) -> int {
    if a >= b {
        a
    } else {
        b
    }
}

pub open spec fn min_of(a: int, b: int) -> int {
    if a <= b {
        a
    } else {
        b
    }
}

/// The length of the intersection of `[s, e)` and `[lo, hi)`.
pub open spec fn overlap(s: int, e: int, lo: int, hi: int) -> int {
    if min_of(e, hi) > max_of(s, lo) {
        min_of(e, hi) - max_of(s, lo)
    } else {
        0
    }
}

/// Bases of `[s, e)` that the aligned runs of the first `k` records cover.
pub open spec fn coverage_upto(c: Chain, s: int, e: int, k: int) -> int
    decreases k,
{
    if k <= 0 {
        0
    } else {
        coverage_upto(c, s, e, k - 1) + overlap(s, e, al_r_lo(c, k - 1), al_r_hi(c, k - 1))
    }
}

/// Bases of the reference interval `[s, e)` that lie in aligned runs of `c`.
pub open spec fn coverage(c: Chain, s: int, e: int) -> int {
    coverage_upto(c, s, e, c.alignment@.len() as int)
}

/// Relies on cubiculum::merge::merge::intersection: `min(e1, e2) - max(s1,
/// s2)` where that is not negative, and none otherwise.
#[verifier::external_body]
fn intersection_len(s1: u64, e1: u64, s2: u64, e2: u64) -> (r: Option<u64>)
    ensures
        r == (if min_of(e1 as int, e2 as int) >= max_of(s1 as int, s2 as int) {
            Some((min_of(e1 as int, e2 as int) - max_of(s1 as int, s2 as int)) as u64)
        } else {
            None::<u64>
        }),
{
    cubiculum::merge::merge::intersection(s1, e1, s2, e2)
}

/// Coverage never exceeds the part of the interval below record `k`.
proof fn lemma_coverage_bound(c: Chain, s: int, e: int, k: int)
    requires
        c.wf(),
        0 <= k <= c.alignment@.len(),
        s <= e,
    ensures
        0 <= coverage_upto(c, s, e, k) <= max_of(0, min_of(e, rec_start(c, k)) - s),
    decreases k,
{
    if k > 0 {
        lemma_coverage_bound(c, s, e, k - 1);
        lemma_block_bounds(c, k - 1);
    }
}

/// Records from `k` on add nothing to an interval that ends by record `k`'s
/// start.
proof fn lemma_coverage_idle(c: Chain, s: int, e: int, k: int)
    requires
        c.wf(),
        0 <= k <= c.alignment@.len(),
        e <= rec_start(c, k),
    ensures
        coverage(c, s, e) == coverage_upto(c, s, e, k),
    decreases c.alignment@.len() - k,
{
    if k < c.alignment@.len() {
        lemma_block_bounds(c, k);
        lemma_advance_monotone(c.alignment@, k, k + 1);
        lemma_coverage_idle(c, s, e, k + 1);
    }
}

/// Coverage adds up over a split of the interval: the bases that aligned
/// runs cover in `[a, m)` and in `[m, b)` are those they cover in `[a, b)`.
pub proof fn lemma_coverage_additive(c: Chain, a: int, m: int, b: int)
    requires
        a <= m <= b,
    ensures
        coverage(c, a, m) + coverage(c, m, b) == coverage(c, a, b),
{
    lemma_coverage_additive_upto(c, a, m, b, c.alignment@.len() as int);
}

proof fn lemma_coverage_additive_upto(c: Chain, a: int, m: int, b: int, k: int)
    requires
        a <= m <= b,
    ensures
        coverage_upto(c, a, m, k) + coverage_upto(c, m, b, k) == coverage_upto(c, a, b, k),
    decreases k,
{
    if k > 0 {
        lemma_coverage_additive_upto(c, a, m, b, k - 1);
    }
}

fn clone_name(n: &Option<String>) -> (r: Option<String>)
    ensures
        r == *n,
{
    match n {
        Some(s) => Some(s.clone()),
        None => None,
    }
}

impl Chain {
    /// Counts, for each interval of the batch, the reference bases that lie
    /// in aligned runs of the chain. The batch is first sorted in place by
    /// start, then end; the result holds, in that order, each interval's name
    /// and count.
    pub fn alignment_cov(&self, intervals: &mut Vec<Interval>) -> (r: Result<
        Vec<(Option<String>, u64)>,
        ChainError,
    >)
        requires
            self.wf(),
        ensures
            old(intervals)@.len() == 0 ==> r == Err::<Vec<(Option<String>, u64)>, ChainError>(
                ChainError::EmptyInput,
            ) && final(intervals)@ == old(intervals)@,
            old(intervals)@.len() > 0 && !all_usable(old(intervals)@) ==> r == Err::<
                Vec<(Option<String>, u64)>,
                ChainError,
            >(ChainError::InputMissingField) && final(intervals)@ == old(intervals)@,
            old(intervals)@.len() > 0 && all_usable(old(intervals)@) ==> {
                &&& final(intervals)@.to_multiset() == old(intervals)@.to_multiset()
                &&& sorted_by_start(final(intervals)@)
                &&& forall|a: u64, b: u64| #[trigger] with_key(final(intervals)@, a, b)
                    == with_key(old(intervals)@, a, b)
                &&& all_usable(final(intervals)@)
                &&& r matches Ok(out) && out@.len() == final(intervals)@.len() && forall|j: int|
                    0 <= j < out@.len() ==> (#[trigger] out@[j]).0 == final(intervals)@[j].name
                        && out@[j].1 == coverage(
                        *self,
                        final(intervals)@[j].start->0 as int,
                        final(intervals)@[j].end->0 as int,
                    )
            },
    {
        if intervals.len() == 0 {
            return Err(ChainError::EmptyInput);
        }
        if !check_usable(intervals) {
            return Err(ChainError::InputMissingField);
        }
        sort_intervals(intervals);
        let iv: &Vec<Interval> = intervals;
        let ghost c = *self;
        let ni = iv.len();
        let n = self.alignment.len();
        let mut out: Vec<(Option<String>, u64)> = Vec::new();
        let mut max_end: u64 = 0;
        let mut i: usize = 0;
        while i < ni
            invariant
                ni == iv@.len(),
                i <= ni,
                all_usable(iv@),
                out@.len() == i,
                forall|j: int| 0 <= j < i ==> (#[trigger] iv@[j]).end->0 <= max_end,
                forall|j: int|
                    0 <= j < i ==> (#[trigger] out@[j]).0 == iv@[j].name && out@[j].1 == 0,
            decreases ni - i,
        {
            let it = &iv[i];
            assert(usable(iv@[i as int]));
            let e = it.end.unwrap();
            if e > max_end {
                max_end = e;
            }
            out.push((clone_name(&it.name), 0));
            i = i + 1;
        }
        let mut r_cur: u64 = self.refs.start;
        let mut curr: usize = 0;
        let mut k: usize = 0;
        let mut done = false;
        while k < n && !done
            invariant
                c == *self,
                self.wf(),
                n == self.alignment@.len(),
                ni == iv@.len(),
                all_usable(iv@),
                sorted_by_start(iv@),
                k <= n,
                k < n ==> r_cur == al_r_lo(c, k as int),
                curr <= ni,
                forall|j: int| 0 <= j < curr ==> (#[trigger] iv@[j]).end->0 < rec_start(c, k as int),
                forall|j: int| 0 <= j < ni ==> (#[trigger] iv@[j]).end->0 <= max_end,
                out@.len() == ni,
                forall|j: int|
                    0 <= j < ni ==> (#[trigger] out@[j]).0 == iv@[j].name && out@[j].1
                        == coverage_upto(c, iv@[j].start->0 as int, iv@[j].end->0 as int, k as int),
                done ==> forall|j: int|
                    0 <= j < ni ==> coverage(
                        c,
                        (#[trigger] iv@[j]).start->0 as int,
                        iv@[j].end->0 as int,
                    ) == coverage_upto(c, iv@[j].start->0 as int, iv@[j].end->0 as int, k as int),
            decreases n - k + (if done { 0int } else { 1int }),
        {
            proof {
                lemma_block_bounds(c, k as int);
            }
            if r_cur > max_end {
                proof {
                    assert forall|j: int| 0 <= j < ni implies coverage(
                        c,
                        (#[trigger] iv@[j]).start->0 as int,
                        iv@[j].end->0 as int,
                    ) == coverage_upto(c, iv@[j].start->0 as int, iv@[j].end->0 as int, k as int) by {
                        lemma_coverage_idle(c, iv@[j].start->0 as int, iv@[j].end->0 as int, k as int);
                    }
                }
                done = true;
            } else {
                let rec = self.alignment[k];
                let a_hi: u64 = r_cur + rec.size as u64;
                let g_hi: u64 = a_hi + rec.dt as u64;
                let ghost k1 = k + 1;
                let mut i: usize = curr;
                let mut stop = false;
                while i < ni && !stop
                    invariant
                        c == *self,
                        self.wf(),
                        k < n,
                        n == self.alignment@.len(),
                        ni == iv@.len(),
                        all_usable(iv@),
                        sorted_by_start(iv@),
                        r_cur == al_r_lo(c, k as int),
                        a_hi == al_r_hi(c, k as int),
                        g_hi == rec_start(c, k + 1),
                        a_hi <= g_hi,
                        curr <= i <= ni,
                        out@.len() == ni,
                        forall|j: int| 0 <= j < curr ==> (#[trigger] iv@[j]).end->0 < rec_start(c, k as int),
                        forall|j: int|
                            curr <= j < i ==> (#[trigger] out@[j]).0 == iv@[j].name && out@[j].1
                                == coverage_upto(
                                c,
                                iv@[j].start->0 as int,
                                iv@[j].end->0 as int,
                                k + 1,
                            ),
                        forall|j: int|
                            (0 <= j < curr || i <= j < ni) ==> (#[trigger] out@[j]).0 == iv@[j].name
                                && out@[j].1 == coverage_upto(
                                c,
                                iv@[j].start->0 as int,
                                iv@[j].end->0 as int,
                                k as int,
                            ),
                        stop ==> forall|j: int| i <= j < ni ==> (#[trigger] iv@[j]).start->0 >= g_hi,
                    decreases ni - i + (if stop { 0int } else { 1int }),
                {
                    assert(usable(iv@[i as int]));
                    let s = iv[i].start.unwrap();
                    let e = iv[i].end.unwrap();
                    if s >= g_hi {
                        proof {
                            assert forall|j: int| i <= j < ni implies (#[trigger] iv@[j]).start->0
                                >= g_hi by {
                                if j > i {
                                    assert(key_le(iv@[i as int], iv@[j]));
                                }
                            }
                        }
                        stop = true;
                    } else {
                        proof {
                            lemma_coverage_bound(c, s as int, e as int, k + 1);
                            lemma_block_bounds(c, k as int);
                        }
                        let d: u64 = match intersection_len(s, e, r_cur, a_hi) {
                            Some(x) => x,
                            None => 0,
                        };
                        let ghost before = out@;
                        let cur = out[i].1;
                        out[i].1 = cur + d;
                        assert forall|j: int| 0 <= j < ni && j != i implies out@[j] == before[j] by {}
                        i = i + 1;
                    }
                }
                proof {
                    assert forall|j: int| 0 <= j < ni implies (#[trigger] out@[j]).0 == iv@[j].name
                        && out@[j].1 == coverage_upto(
                        c,
                        iv@[j].start->0 as int,
                        iv@[j].end->0 as int,
                        k + 1,
                    ) by {
                        assert(usable(iv@[j]));
                        if j < curr || j >= i {
                            lemma_block_bounds(c, k as int);
                        }
                    }
                }
                let ghost curr0 = curr;
                while curr < ni && iv[curr].end.unwrap() < g_hi
                    invariant
                        curr0 <= curr <= ni,
                        ni == iv@.len(),
                        all_usable(iv@),
                        g_hi == rec_start(c, k + 1),
                        rec_start(c, k as int) <= rec_start(c, k + 1),
                        forall|j: int| 0 <= j < curr0 ==> (#[trigger] iv@[j]).end->0 < rec_start(c, k as int),
                        forall|j: int| 0 <= j < curr ==> (#[trigger] iv@[j]).end->0 < rec_start(c, k + 1),
                    decreases ni - curr,
                {
                    assert(usable(iv@[curr as int]));
                    curr = curr + 1;
                }
                r_cur = g_hi;
                proof {
                    if k + 1 < n {
                        lemma_block_bounds(c, k + 1);
                    }
                }
                k = k + 1;
                if curr >= ni {
                    proof {
                        assert forall|j: int| 0 <= j < ni implies coverage(
                            c,
                            (#[trigger] iv@[j]).start->0 as int,
                            iv@[j].end->0 as int,
                        ) == coverage_upto(c, iv@[j].start->0 as int, iv@[j].end->0 as int, k as int) by {
                            lemma_coverage_idle(c, iv@[j].start->0 as int, iv@[j].end->0 as int, k as int);
                        }
                    }
                    done = true;
                }
            }
        }
        Ok(out)
    }
}

} // verus!
