//! The projection engine: a sweep over a chain's blocks and a sorted batch
//! of reference intervals, mapping interval endpoints to query coordinates
//! and counting aligned bases.

use vstd::prelude::*;
use crate::blocks::{
    al_q_hi, al_q_lo, al_r_hi, al_r_lo, codirected, gap_q_hi, gap_q_lo, gap_r_hi,
    lemma_block_bounds, q_cap,
};
use crate::chain::{lemma_advance_monotone, query_advance, ref_advance, Chain};
use crate::error::ChainError;
use crate::interval::{with_key, all_usable, check_usable, sort_intervals, sorted_by_start, usable, Interval};

verus! {

/// Where a reference position lies relative to a chain: before its span, in
/// the aligned run or the gap of a record, or at or past its end.
pub enum Loc {
    Before,
    Aligned(int),
    Gap(int),
    After,
}

/// Scans the records from `k` on for the block that holds `x`.
pub open spec fn locate_from(c: Chain, x: int, k: int) -> Loc
    decreases c.alignment@.len() - k,
{
    if k < 0 || k >= c.alignment@.len() {
        Loc::After
    } else if x < al_r_hi(c, k) {
        Loc::Aligned(k)
    } else if x < gap_r_hi(c, k) {
        Loc::Gap(k)
    } else {
        locate_from(c, x, k + 1)
    }
}

/// The block of chain `c` that holds reference position `x`.
pub open spec fn locate(c: Chain, x: int) -> Loc {
    if x < c.refs.start {
        Loc::Before
    } else {
        locate_from(c, x, 0)
    }
}

pub open spec fn sat_sub(a: int, b: int) -> int {
    if a >= b {
        a - b
    } else {
        0
    }
}

pub open spec fn min_int(a: int, b: int) -> int {
    if a <= b {
        a
    } else {
        b
    }
}

/// An endpoint at distance `off` from the aligned part is cropped to the
/// block edge when the distance exceeds both thresholds; otherwise it is
/// extrapolated.
pub open spec fn crops(off: int, abs: int, rel: int) -> bool {
    off > abs && off > rel
}

/// The relative threshold of an interval of length `len`: `len * num / den`,
/// rounded down.
pub open spec fn rel_limit(len: int, num: int, den: int) -> int {
    len * num / den
}

/// The query coordinate that the start `s` of the interval `[s, e)` projects
/// to, on the forward strand of the query.
pub open spec fn start_point(c: Chain, s: int, e: int, abs: int, rel: int) -> Option<int> {
    let cod = codirected(c);
    let cap = q_cap(c);
    match locate(c, s) {
        Loc::Before => if e >= c.refs.start {
            let off = c.refs.start - s;
            Some(
                if cod {
                    if crops(off, abs, rel) {
                        al_q_lo(c, 0)
                    } else {
                        sat_sub(al_q_lo(c, 0), off)
                    }
                } else {
                    if crops(off, abs, rel) {
                        al_q_hi(c, 0)
                    } else {
                        min_int(al_q_hi(c, 0) + off, cap)
                    }
                },
            )
        } else {
            None
        },
        Loc::Aligned(k) => {
            let off = s - al_r_lo(c, k);
            Some(
                if cod {
                    al_q_lo(c, k) + off
                } else {
                    al_q_hi(c, k) - off
                },
            )
        },
        Loc::Gap(k) => {
            let off = gap_r_hi(c, k) - s;
            Some(
                if cod {
                    if crops(off, abs, rel) {
                        gap_q_lo(c, k)
                    } else {
                        sat_sub(gap_q_hi(c, k), off)
                    }
                } else {
                    if crops(off, abs, rel) {
                        gap_q_hi(c, k)
                    } else {
                        min_int(gap_q_lo(c, k) + off, cap)
                    }
                },
            )
        },
        Loc::After => None,
    }
}

/// The query coordinate that the end `e` of the interval `[s, e)` projects
/// to, on the forward strand of the query.
pub open spec fn end_point(c: Chain, s: int, e: int, abs: int, rel: int) -> Option<int> {
    let cod = codirected(c);
    let cap = q_cap(c);
    let last = c.alignment@.len() - 1;
    match locate(c, e) {
        Loc::Before => None,
        Loc::Aligned(k) => {
            let off = al_r_hi(c, k) - e;
            Some(
                if cod {
                    al_q_hi(c, k) - off
                } else {
                    al_q_lo(c, k) + off
                },
            )
        },
        Loc::Gap(k) => {
            let off = e - al_r_hi(c, k);
            Some(
                if cod {
                    if crops(off, abs, rel) {
                        gap_q_hi(c, k)
                    } else {
                        min_int(gap_q_lo(c, k) + off, cap)
                    }
                } else {
                    if crops(off, abs, rel) {
                        gap_q_lo(c, k)
                    } else {
                        sat_sub(gap_q_hi(c, k), off)
                    }
                },
            )
        },
        Loc::After => if s < c.refs.end {
            let off = e - c.refs.end;
            Some(
                if cod {
                    if crops(off, abs, rel) {
                        al_q_hi(c, last)
                    } else {
                        min_int(al_q_hi(c, last) + off, cap)
                    }
                } else {
                    if crops(off, abs, rel) {
                        al_q_lo(c, last)
                    } else {
                        sat_sub(al_q_lo(c, last), off)
                    }
                },
            )
        } else {
            None
        },
    }
}

/// The sweep has settled a position in block `l` once it has passed record
/// `k - 1`.
pub open spec fn settled(l: Loc, k: int, n: int) -> bool {
    match l {
        Loc::Before => k > 0,
        Loc::Aligned(j) => j < k,
        Loc::Gap(j) => j < k,
        Loc::After => k >= n,
    }
}

/// Both ends of `[s, e)` lie in the same gap.
pub open spec fn in_one_gap(c: Chain, s: int, e: int) -> bool {
    locate(c, s) is Gap && locate(c, e) == locate(c, s)
}

/// The projected `(start, end)` of `[s, e)` once the sweep has passed the
/// first `k` records: endpoints not yet settled are unset; the start of the
/// interval gives the projected start on a codirected chain and the projected
/// end otherwise. With `ignore`, an interval with both ends in one gap gets
/// neither.
pub open spec fn projected_upto(
    c: Chain,
    s: int,
    e: int,
    abs: int,
    rel: int,
    ignore: bool,
    k: int,
) -> (Option<int>, Option<int>) {
    let n = c.alignment@.len() as int;
    if ignore && in_one_gap(c, s, e) && settled(locate(c, s), k, n) {
        (None, None)
    } else {
        let ps = if settled(locate(c, s), k, n) {
            start_point(c, s, e, abs, rel)
        } else {
            None
        };
        let pe = if settled(locate(c, e), k, n) {
            end_point(c, s, e, abs, rel)
        } else {
            None
        };
        if codirected(c) {
            (ps, pe)
        } else {
            (pe, ps)
        }
    }
}

/// The projected `(start, end)` of the reference interval `[s, e)` through
/// chain `c`.
pub open spec fn projected(c: Chain, s: int, e: int, abs: int, rel: int, ignore: bool) -> (
    Option<int>,
    Option<int>,
) {
    projected_upto(c, s, e, abs, rel, ignore, c.alignment@.len() as int)
}

/// The start of record `k`, and past the last record the end of the
/// reference span.
pub open spec fn rec_start(c: Chain, k: int) -> int {
    c.refs.start + ref_advance(c.alignment@, k)
}

proof fn lemma_rec_start(c: Chain, k: int)
    requires
        c.wf(),
        0 <= k < c.alignment@.len(),
    ensures
        rec_start(c, k) == al_r_lo(c, k),
        rec_start(c, k + 1) == gap_r_hi(c, k),
        rec_start(c, c.alignment@.len() as int) == c.refs.end,
{
}

/// Records up to `k` lie below position `x` at or after record `k`'s start.
proof fn lemma_locate_skip(c: Chain, x: int, j: int, k: int)
    requires
        c.wf(),
        0 <= j <= k <= c.alignment@.len(),
        x >= rec_start(c, k),
    ensures
        locate_from(c, x, j) == locate_from(c, x, k),
    decreases k - j,
{
    if j < k {
        lemma_block_bounds(c, j);
        lemma_advance_monotone(c.alignment@, j + 1, k);
        lemma_locate_skip(c, x, j + 1, k);
    }
}

/// A position below record `k`'s start, and at or after record `j`'s, lies in
/// a record before `k`.
proof fn lemma_locate_below(c: Chain, x: int, j: int, k: int)
    requires
        c.wf(),
        0 <= j <= k <= c.alignment@.len(),
        rec_start(c, j) <= x < rec_start(c, k),
    ensures
        match locate_from(c, x, j) {
            Loc::Aligned(i) => j <= i < k,
            Loc::Gap(i) => j <= i < k,
            _ => false,
        },
    decreases k - j,
{
    if j == k {
    } else {
        lemma_block_bounds(c, j);
        if x >= gap_r_hi(c, j) {
            lemma_locate_below(c, x, j + 1, k);
        }
    }
}

/// Where a position lies, told by comparing it with record `k`'s blocks.
pub proof fn lemma_locate_at(c: Chain, x: int, k: int)
    requires
        c.wf(),
        0 <= k < c.alignment@.len(),
    ensures
        al_r_lo(c, k) <= x < al_r_hi(c, k) ==> locate(c, x) == Loc::Aligned(k),
        al_r_hi(c, k) <= x < gap_r_hi(c, k) ==> locate(c, x) == Loc::Gap(k),
        x < al_r_lo(c, k) ==> match locate(c, x) {
            Loc::Before => true,
            Loc::Aligned(i) => i < k,
            Loc::Gap(i) => i < k,
            Loc::After => false,
        },
        x >= gap_r_hi(c, k) ==> match locate(c, x) {
            Loc::Before => false,
            Loc::Aligned(i) => k < i < c.alignment@.len(),
            Loc::Gap(i) => k < i < c.alignment@.len(),
            Loc::After => true,
        },
{
    lemma_block_bounds(c, k);
    let n = c.alignment@.len() as int;
    lemma_advance_monotone(c.alignment@, 0, k);
    if x >= al_r_lo(c, k) {
        lemma_locate_skip(c, x, 0, k);
        if x >= gap_r_hi(c, k) {
            lemma_locate_skip(c, x, 0, k + 1);
            lemma_locate_after(c, x, k + 1);
        }
    } else if x >= c.refs.start {
        lemma_locate_below(c, x, 0, k);
    }
}

pub proof fn lemma_locate_after(c: Chain, x: int, j: int)
    requires
        0 <= j,
    ensures
        match locate_from(c, x, j) {
            Loc::Before => false,
            Loc::Aligned(i) => j <= i < c.alignment@.len(),
            Loc::Gap(i) => j <= i < c.alignment@.len(),
            Loc::After => true,
        },
    decreases c.alignment@.len() - j,
{
    if j < c.alignment@.len() {
        if x >= gap_r_hi(c, j) {
            lemma_locate_after(c, x, j + 1);
        }
    }
}

/// The start hits record `k`: it lies in its aligned run or its gap, or it
/// lies before the chain, whose first record settles it.
pub open spec fn start_hits(c: Chain, s: int, e: int, k: int) -> bool {
    locate(c, s) == Loc::Aligned(k) || locate(c, s) == Loc::Gap(k) || (k == 0 && locate(c, s)
        is Before && e >= c.refs.start)
}

/// The end hits record `k`: it lies in its aligned run or its gap, or it lies
/// past the chain, whose last record settles it.
pub open spec fn end_hits(c: Chain, s: int, e: int, k: int) -> bool {
    locate(c, e) == Loc::Aligned(k) || locate(c, e) == Loc::Gap(k) || (k
        == c.alignment@.len() - 1 && locate(c, e) is After && s < c.refs.end)
}

/// What passing record `k` changes in a projection.
proof fn lemma_step(c: Chain, s: int, e: int, abs: int, rel: int, ignore: bool, k: int)
    requires
        c.wf(),
        0 <= k < c.alignment@.len(),
        s <= e,
    ensures
        ({
            let p0 = projected_upto(c, s, e, abs, rel, ignore, k);
            let p1 = projected_upto(c, s, e, abs, rel, ignore, k + 1);
            let sp = if start_hits(c, s, e, k) {
                start_point(c, s, e, abs, rel)
            } else if codirected(c) {
                p0.0
            } else {
                p0.1
            };
            let ep = if end_hits(c, s, e, k) {
                end_point(c, s, e, abs, rel)
            } else if codirected(c) {
                p0.1
            } else {
                p0.0
            };
            if ignore && locate(c, s) == Loc::Gap(k) && locate(c, e) == Loc::Gap(k) {
                p1 == (None::<int>, None::<int>) && p0 == (None::<int>, None::<int>)
            } else if codirected(c) {
                p1 == (sp, ep)
            } else {
                p1 == (ep, sp)
            }
        }),
{
    let n = c.alignment@.len() as int;
    lemma_block_bounds(c, 0);
    lemma_block_bounds(c, n - 1);
    lemma_locate_at(c, s, n - 1);
    lemma_locate_at(c, e, n - 1);
    lemma_rec_start(c, n - 1);
}

/// An interval that lies before record `k`, or wholly at or past its end,
/// is not changed by passing record `k`.
proof fn lemma_step_idle(c: Chain, s: int, e: int, abs: int, rel: int, ignore: bool, k: int)
    requires
        c.wf(),
        0 <= k < c.alignment@.len(),
        s <= e,
        e < rec_start(c, k) || s >= rec_start(c, k + 1),
    ensures
        projected_upto(c, s, e, abs, rel, ignore, k + 1) == projected_upto(
            c,
            s,
            e,
            abs,
            rel,
            ignore,
            k,
        ),
{
    lemma_step(c, s, e, abs, rel, ignore, k);
    lemma_rec_start(c, k);
    lemma_locate_at(c, s, k);
    lemma_locate_at(c, e, k);
}

/// An interval that ends before record `k` is settled for good.
proof fn lemma_idle_to_end(c: Chain, s: int, e: int, abs: int, rel: int, ignore: bool, k: int)
    requires
        c.wf(),
        0 <= k <= c.alignment@.len(),
        s <= e,
        e < rec_start(c, k),
    ensures
        projected(c, s, e, abs, rel, ignore) == projected_upto(c, s, e, abs, rel, ignore, k),
    decreases c.alignment@.len() - k,
{
    if k < c.alignment@.len() {
        lemma_step_idle(c, s, e, abs, rel, ignore, k);
        lemma_advance_monotone(c.alignment@, k, k + 1);
        lemma_idle_to_end(c, s, e, abs, rel, ignore, k + 1);
    }
}

/// A fraction `num / den` that scales an interval's length into its relative
/// threshold.
#[derive(Debug, Clone, Copy)]
pub struct RelThreshold {
    pub num: u64,
    pub den: u64,
}

/// The geometry of record `k`, as the sweep holds it.
pub struct RecordGeometry {
    pub r_lo: u64,
    pub a_hi: u64,
    pub g_hi: u64,
    pub aq_lo: u64,
    pub aq_hi: u64,
    pub gq_lo: u64,
    pub gq_hi: u64,
}

pub open spec fn geometry_of(c: Chain, k: int, g: RecordGeometry) -> bool {
    &&& g.r_lo == al_r_lo(c, k)
    &&& g.a_hi == al_r_hi(c, k)
    &&& g.g_hi == gap_r_hi(c, k)
    &&& g.aq_lo == al_q_lo(c, k)
    &&& g.aq_hi == al_q_hi(c, k)
    &&& g.gq_lo == gap_q_lo(c, k)
    &&& g.gq_hi == gap_q_hi(c, k)
}

/// `min(a + off, cap)` for `a <= cap`, without overflow.
fn add_capped(a: u64, off: u64, cap: u64) -> (r: u64)
    requires
        a <= cap,
    ensures
        r == min_int(a + off, cap as int),
{
    if off > cap - a {
        cap
    } else {
        a + off
    }
}

fn sub_floor(a: u64, off: u64) -> (r: u64)
    ensures
        r == sat_sub(a as int, off as int),
{
    if a >= off {
        a - off
    } else {
        0
    }
}

/// Projects the start `s` of `[s, e)` through record `k`, where it hits it.
fn start_at(
    c: &Chain,
    k: usize,
    g: &RecordGeometry,
    cap: u64,
    s: u64,
    e: u64,
    abs: u64,
    rel: u128,
) -> (r: Option<u64>)
    requires
        c.wf(),
        k < c.alignment@.len(),
        geometry_of(*c, k as int, *g),
        cap == q_cap(*c),
        s <= e,
    ensures
        r is Some <==> start_hits(*c, s as int, e as int, k as int),
        r matches Some(v) ==> start_point(*c, s as int, e as int, abs as int, rel as int) == Some(
            v as int,
        ),
{
    proof {
        lemma_block_bounds(*c, k as int);
        lemma_locate_at(*c, s as int, k as int);
        lemma_block_bounds(*c, 0);
    }
    let cod = c.query.strand == '+';
    if k == 0 && s < g.r_lo {
        if e >= g.r_lo {
            let off = g.r_lo - s;
            let crop = off > abs && off as u128 > rel;
            let v = if cod {
                if crop {
                    g.aq_lo
                } else {
                    sub_floor(g.aq_lo, off)
                }
            } else {
                if crop {
                    g.aq_hi
                } else {
                    add_capped(g.aq_hi, off, cap)
                }
            };
            Some(v)
        } else {
            None
        }
    } else if g.r_lo <= s && s < g.a_hi {
        let off = s - g.r_lo;
        Some(
            if cod {
                g.aq_lo + off
            } else {
                g.aq_hi - off
            },
        )
    } else if g.a_hi <= s && s < g.g_hi {
        let off = g.g_hi - s;
        let crop = off > abs && off as u128 > rel;
        let v = if cod {
            if crop {
                g.gq_lo
            } else {
                sub_floor(g.gq_hi, off)
            }
        } else {
            if crop {
                g.gq_hi
            } else {
                add_capped(g.gq_lo, off, cap)
            }
        };
        Some(v)
    } else {
        None
    }
}

/// Projects the end `e` of `[s, e)` through record `k`, where it hits it.
fn end_at(
    c: &Chain,
    k: usize,
    g: &RecordGeometry,
    cap: u64,
    s: u64,
    e: u64,
    abs: u64,
    rel: u128,
) -> (r: Option<u64>)
    requires
        c.wf(),
        k < c.alignment@.len(),
        geometry_of(*c, k as int, *g),
        cap == q_cap(*c),
        s <= e,
    ensures
        r is Some <==> end_hits(*c, s as int, e as int, k as int),
        r matches Some(v) ==> end_point(*c, s as int, e as int, abs as int, rel as int) == Some(
            v as int,
        ),
{
    proof {
        lemma_block_bounds(*c, k as int);
        lemma_locate_at(*c, e as int, k as int);
        lemma_locate_at(*c, s as int, k as int);
        lemma_rec_start(*c, k as int);
    }
    let cod = c.query.strand == '+';
    let n = c.alignment.len();
    if g.r_lo <= e && e < g.a_hi {
        let off = g.a_hi - e;
        Some(
            if cod {
                g.aq_hi - off
            } else {
                g.aq_lo + off
            },
        )
    } else if g.a_hi <= e && e < g.g_hi {
        let off = e - g.a_hi;
        let crop = off > abs && off as u128 > rel;
        let v = if cod {
            if crop {
                g.gq_hi
            } else {
                add_capped(g.gq_lo, off, cap)
            }
        } else {
            if crop {
                g.gq_lo
            } else {
                sub_floor(g.gq_hi, off)
            }
        };
        Some(v)
    } else if k == n - 1 && e >= g.g_hi && s < g.g_hi {
        let off = e - g.g_hi;
        let crop = off > abs && off as u128 > rel;
        let v = if cod {
            if crop {
                g.aq_hi
            } else {
                add_capped(g.aq_hi, off, cap)
            }
        } else {
            if crop {
                g.aq_lo
            } else {
                sub_floor(g.aq_lo, off)
            }
        };
        Some(v)
    } else {
        None
    }
}

pub open spec fn opt_int(o: Option<u64>) -> Option<int> {
    match o {
        Some(v) => Some(v as int),
        None => None,
    }
}

/// The relative threshold of an input interval.
pub open spec fn interval_rel(i: Interval, t: RelThreshold) -> int {
    rel_limit(i.end->0 - i.start->0, t.num as int, t.den as int)
}

/// `out` is what the sweep holds for `input` after the first `k` records.
pub open spec fn projects_upto(
    c: Chain,
    input: Interval,
    out: Interval,
    abs: u64,
    t: RelThreshold,
    ignore: bool,
    k: int,
) -> bool {
    &&& out.name == input.name
    &&& out.chrom == Some(c.query.chr)
    &&& (opt_int(out.start), opt_int(out.end)) == projected_upto(
        c,
        input.start->0 as int,
        input.end->0 as int,
        abs as int,
        interval_rel(input, t),
        ignore,
        k,
    )
}

/// `out` is the projection of `input` through `c`: the same name, the query's
/// label, and the projected coordinates.
pub open spec fn projects(
    c: Chain,
    input: Interval,
    out: Interval,
    abs: u64,
    t: RelThreshold,
    ignore: bool,
) -> bool {
    projects_upto(c, input, out, abs, t, ignore, c.alignment@.len() as int)
}

fn relative_limit(s: u64, e: u64, t: RelThreshold) -> (r: u128)
    requires
        s <= e,
        t.den > 0,
    ensures
        r as int == rel_limit(e - s, t.num as int, t.den as int),
{
    let len: u128 = (e - s) as u128;
    let num: u128 = t.num as u128;
    proof {
        assert(len * num <= u128::MAX) by (nonlinear_arith)
            requires
                len <= u64::MAX,
                num <= u64::MAX,
        ;
    }
    (len * num) / (t.den as u128)
}

fn clone_name(n: &Option<String>) -> (r: Option<String>)
    ensures
        r == *n,
{
    match n {
        Some(s) => Some(s.clone()),
        None => None,
    }
}

impl Chain {
    /// Projects a batch of reference intervals through the chain onto the
    /// query's forward strand. The batch is first sorted in place by start,
    /// then end; the result holds, in that order, one projection per
    /// interval. Endpoints in aligned runs map exactly; endpoints in gaps or
    /// outside the chain are cropped to the nearest block edge when their
    /// distance exceeds both `abs_threshold` and the interval's relative
    /// threshold, and extrapolated otherwise, never past the query span.
    /// With `ignore_undefined`, an interval with both ends in one gap gets no
    /// coordinates.
    pub fn map_through(
        &self,
        intervals: &mut Vec<Interval>,
        abs_threshold: u64,
        rel_threshold: RelThreshold,
        ignore_undefined: bool,
    ) -> (r: Result<Vec<Interval>, ChainError>)
        requires
            self.wf(),
            rel_threshold.den > 0,
        ensures
            old(intervals)@.len() == 0 ==> r == Err::<Vec<Interval>, ChainError>(
                ChainError::EmptyInput,
            ) && final(intervals)@ == old(intervals)@,
            old(intervals)@.len() > 0 && !all_usable(old(intervals)@) ==> r == Err::<
                Vec<Interval>,
                ChainError,
            >(ChainError::InputMissingField) && final(intervals)@ == old(intervals)@,
            old(intervals)@.len() > 0 && all_usable(old(intervals)@) ==> {
                &&& final(intervals)@.to_multiset() == old(intervals)@.to_multiset()
                &&& sorted_by_start(final(intervals)@)
                &&& forall|a: u64, b: u64| #[trigger] with_key(final(intervals)@, a, b)
                    == with_key(old(intervals)@, a, b)
                &&& all_usable(final(intervals)@)
                &&& r matches Ok(out) && out@.len() == final(intervals)@.len() && forall|j: int|
                    0 <= j < out@.len() ==> projects(
                        *self,
                        #[trigger] final(intervals)@[j],
                        out@[j],
                        abs_threshold,
                        rel_threshold,
                        ignore_undefined,
                    )
            },
    {
        if intervals.len() == 0 {
            return Err(ChainError::EmptyInput);
        }
        if !check_usable(intervals) {
            return Err(ChainError::InputMissingField);
        }
        sort_intervals(intervals);
        let iv: &Vec<Interval> = intervals;
        let ghost c = *self;
        let ni = iv.len();
        let n = self.alignment.len();
        let mut out: Vec<Interval> = Vec::new();
        let mut max_end: u64 = 0;
        let mut i: usize = 0;
        while i < ni
            invariant
                ni == iv@.len(),
                i <= ni,
                all_usable(iv@),
                c == *self,
                self.wf(),
                n == self.alignment@.len(),
                out@.len() == i,
                forall|j: int| 0 <= j < i ==> (#[trigger] iv@[j]).end->0 <= max_end,
                forall|j: int|
                    0 <= j < i ==> projects_upto(
                        c,
                        #[trigger] iv@[j],
                        out@[j],
                        abs_threshold,
                        rel_threshold,
                        ignore_undefined,
                        0,
                    ),
            decreases ni - i,
        {
            let it = &iv[i];
            assert(usable(iv@[i as int]));
            let e = it.end.unwrap();
            proof {
                lemma_locate_after(c, it.start->0 as int, 0);
                lemma_locate_after(c, e as int, 0);
            }
            if e > max_end {
                max_end = e;
            }
            out.push(
                Interval {
                    name: clone_name(&it.name),
                    chrom: Some(self.query.chr.clone()),
                    start: None,
                    end: None,
                },
            );
            proof {
                assert(projects_upto(
                    c,
                    iv@[i as int],
                    out@[i as int],
                    abs_threshold,
                    rel_threshold,
                    ignore_undefined,
                    0,
                ));
            }
            i = i + 1;
        }
        let cod = self.query.strand == '+';
        let cap: u64 = if cod {
            self.query.end
        } else {
            self.query.size - self.query.start
        };
        let mut r_cur: u64 = self.refs.start;
        let mut q_cur: u64 = if cod {
            self.query.start
        } else {
            self.query.size - self.query.start
        };
        let mut curr: usize = 0;
        let mut k: usize = 0;
        let mut done = false;
        while k < n && !done
            invariant
                c == *self,
                self.wf(),
                rel_threshold.den > 0,
                n == self.alignment@.len(),
                ni == iv@.len(),
                ni > 0,
                all_usable(iv@),
                sorted_by_start(iv@),
                k <= n,
                cod == codirected(c),
                cap == q_cap(c),
                k < n ==> r_cur == al_r_lo(c, k as int),
                k < n ==> (cod ==> q_cur == al_q_lo(c, k as int)) && (!cod ==> q_cur
                    == al_q_hi(c, k as int)),
                curr <= ni,
                forall|j: int| 0 <= j < curr ==> (#[trigger] iv@[j]).end->0 < rec_start(c, k as int),
                forall|j: int| 0 <= j < ni ==> (#[trigger] iv@[j]).end->0 <= max_end,
                out@.len() == ni,
                forall|j: int|
                    0 <= j < ni ==> projects_upto(
                        c,
                        #[trigger] iv@[j],
                        out@[j],
                        abs_threshold,
                        rel_threshold,
                        ignore_undefined,
                        k as int,
                    ),
                done ==> forall|j: int|
                    0 <= j < ni ==> projected_upto(
                        c,
                        (#[trigger] iv@[j]).start->0 as int,
                        iv@[j].end->0 as int,
                        abs_threshold as int,
                        interval_rel(iv@[j], rel_threshold),
                        ignore_undefined,
                        k as int,
                    ) == projected(
                        c,
                        iv@[j].start->0 as int,
                        iv@[j].end->0 as int,
                        abs_threshold as int,
                        interval_rel(iv@[j], rel_threshold),
                        ignore_undefined,
                    ),
            decreases n - k + (if done { 0int } else { 1int }),
        {
            proof {
                lemma_block_bounds(c, k as int);
                lemma_rec_start(c, k as int);
            }
            if r_cur > max_end {
                proof {
                    assert forall|j: int| 0 <= j < ni implies projected_upto(
                        c,
                        (#[trigger] iv@[j]).start->0 as int,
                        iv@[j].end->0 as int,
                        abs_threshold as int,
                        interval_rel(iv@[j], rel_threshold),
                        ignore_undefined,
                        k as int,
                    ) == projected(
                        c,
                        iv@[j].start->0 as int,
                        iv@[j].end->0 as int,
                        abs_threshold as int,
                        interval_rel(iv@[j], rel_threshold),
                        ignore_undefined,
                    ) by {
                        assert(usable(iv@[j]));
                        lemma_idle_to_end(
                            c,
                            iv@[j].start->0 as int,
                            iv@[j].end->0 as int,
                            abs_threshold as int,
                            interval_rel(iv@[j], rel_threshold),
                            ignore_undefined,
                            k as int,
                        );
                    }
                }
                done = true;
            } else {
                let rec = self.alignment[k];
                let a_hi: u64 = r_cur + rec.size as u64;
                let g_hi: u64 = a_hi + rec.dt as u64;
                let (aq_lo, aq_hi) = if cod {
                    (q_cur, q_cur + rec.size as u64)
                } else {
                    (q_cur - rec.size as u64, q_cur)
                };
                let (gq_lo, gq_hi) = if cod {
                    (aq_hi, aq_hi + rec.dq as u64)
                } else {
                    (aq_lo - rec.dq as u64, aq_lo)
                };
                let g = RecordGeometry { r_lo: r_cur, a_hi, g_hi, aq_lo, aq_hi, gq_lo, gq_hi };
                assert(geometry_of(c, k as int, g));
                proof {
                    assert forall|j: int| 0 <= j < curr implies projects_upto(
                        c,
                        #[trigger] iv@[j],
                        out@[j],
                        abs_threshold,
                        rel_threshold,
                        ignore_undefined,
                        k + 1,
                    ) by {
                        assert(usable(iv@[j]));
                        assert(projects_upto(
                            c,
                            iv@[j],
                            out@[j],
                            abs_threshold,
                            rel_threshold,
                            ignore_undefined,
                            k as int,
                        ));
                        lemma_step_idle(
                            c,
                            iv@[j].start->0 as int,
                            iv@[j].end->0 as int,
                            abs_threshold as int,
                            interval_rel(iv@[j], rel_threshold),
                            ignore_undefined,
                            k as int,
                        );
                    }
                }
                let mut i: usize = curr;
                let mut stop = false;
                while i < ni && !stop
                    invariant
                        c == *self,
                        self.wf(),
                        rel_threshold.den > 0,
                        n == self.alignment@.len(),
                        k < n,
                        ni == iv@.len(),
                        all_usable(iv@),
                        sorted_by_start(iv@),
                        cod == codirected(c),
                        cap == q_cap(c),
                        geometry_of(c, k as int, g),
                        g.g_hi == rec_start(c, k + 1),
                        curr <= i <= ni,
                        out@.len() == ni,
                        forall|j: int|
                            0 <= j < i ==> projects_upto(
                                c,
                                #[trigger] iv@[j],
                                out@[j],
                                abs_threshold,
                                rel_threshold,
                                ignore_undefined,
                                k + 1,
                            ),
                        forall|j: int|
                            i <= j < ni ==> projects_upto(
                                c,
                                #[trigger] iv@[j],
                                out@[j],
                                abs_threshold,
                                rel_threshold,
                                ignore_undefined,
                                k as int,
                            ),
                        stop ==> forall|j: int|
                            i <= j < ni ==> projects_upto(
                                c,
                                #[trigger] iv@[j],
                                out@[j],
                                abs_threshold,
                                rel_threshold,
                                ignore_undefined,
                                k + 1,
                            ),
                    decreases ni - i + (if stop { 0int } else { 1int }),
                {
                    assert(usable(iv@[i as int]));
                    let s = iv[i].start.unwrap();
                    let e = iv[i].end.unwrap();
                    if s >= g.g_hi {
                        proof {
                            assert forall|j: int| i <= j < ni implies projects_upto(
                                c,
                                #[trigger] iv@[j],
                                out@[j],
                                abs_threshold,
                                rel_threshold,
                                ignore_undefined,
                                k + 1,
                            ) by {
                                assert(usable(iv@[j]));
                                if j > i {
                                    assert(crate::interval::key_le(iv@[i as int], iv@[j]));
                                }
                                lemma_step_idle(
                                    c,
                                    iv@[j].start->0 as int,
                                    iv@[j].end->0 as int,
                                    abs_threshold as int,
                                    interval_rel(iv@[j], rel_threshold),
                                    ignore_undefined,
                                    k as int,
                                );
                            }
                        }
                        stop = true;
                    } else {
                        let rel = relative_limit(s, e, rel_threshold);
                        let ps = start_at(self, k, &g, cap, s, e, abs_threshold, rel);
                        let pe = end_at(self, k, &g, cap, s, e, abs_threshold, rel);
                        let both_gap = ignore_undefined && g.a_hi <= s && s < g.g_hi && g.a_hi
                            <= e && e < g.g_hi;
                        proof {
                            lemma_step(
                                c,
                                s as int,
                                e as int,
                                abs_threshold as int,
                                rel as int,
                                ignore_undefined,
                                k as int,
                            );
                            lemma_locate_at(c, s as int, k as int);
                            lemma_locate_at(c, e as int, k as int);
                        }
                        let ghost before = out@;
                        if !both_gap {
                            match ps {
                                Some(v) => {
                                    if cod {
                                        out[i].start = Some(v);
                                    } else {
                                        out[i].end = Some(v);
                                    }
                                },
                                None => {},
                            }
                            match pe {
                                Some(v) => {
                                    if cod {
                                        out[i].end = Some(v);
                                    } else {
                                        out[i].start = Some(v);
                                    }
                                },
                                None => {},
                            }
                        }
                        assert forall|j: int| 0 <= j < ni && j != i implies out@[j] == before[j] by {}
                        i = i + 1;
                    }
                }
                let ghost curr0 = curr;
                while curr < ni && iv[curr].end.unwrap() < g.g_hi
                    invariant
                        curr0 <= curr <= ni,
                        ni == iv@.len(),
                        all_usable(iv@),
                        g.g_hi == rec_start(c, k + 1),
                        rec_start(c, k as int) <= rec_start(c, k + 1),
                        forall|j: int| 0 <= j < curr0 ==> (#[trigger] iv@[j]).end->0 < rec_start(c, k as int),
                        forall|j: int| 0 <= j < curr ==> (#[trigger] iv@[j]).end->0 < rec_start(c, k + 1),
                    decreases ni - curr,
                {
                    assert(usable(iv@[curr as int]));
                    curr = curr + 1;
                }
                r_cur = g_hi;
                q_cur = if cod {
                    gq_hi
                } else {
                    gq_lo
                };
                proof {
                    if k + 1 < n {
                        lemma_block_bounds(c, k + 1);
                        assert(query_advance(c.alignment@, k + 1) == query_advance(
                            c.alignment@,
                            k as int,
                        ) + rec.size + rec.dq);
                    }
                }
                k = k + 1;
                if curr >= ni {
                    proof {
                        assert forall|j: int| 0 <= j < ni implies projected_upto(
                            c,
                            (#[trigger] iv@[j]).start->0 as int,
                            iv@[j].end->0 as int,
                            abs_threshold as int,
                            interval_rel(iv@[j], rel_threshold),
                            ignore_undefined,
                            k as int,
                        ) == projected(
                            c,
                            iv@[j].start->0 as int,
                            iv@[j].end->0 as int,
                            abs_threshold as int,
                            interval_rel(iv@[j], rel_threshold),
                            ignore_undefined,
                        ) by {
                            assert(usable(iv@[j]));
                            lemma_idle_to_end(
                                c,
                                iv@[j].start->0 as int,
                                iv@[j].end->0 as int,
                                abs_threshold as int,
                                interval_rel(iv@[j], rel_threshold),
                                ignore_undefined,
                                k as int,
                            );
                        }
                    }
                    done = true;
                }
            }
        }
        proof {
            assert forall|j: int| 0 <= j < ni implies projects(
                c,
                #[trigger] iv@[j],
                out@[j],
                abs_threshold,
                rel_threshold,
                ignore_undefined,
            ) by {
                assert(projects_upto(
                    c,
                    iv@[j],
                    out@[j],
                    abs_threshold,
                    rel_threshold,
                    ignore_undefined,
                    k as int,
                ));
            }
        }
        Ok(out)
    }
}

/// The span of a chain on one side, on the forward strand.
pub open spec fn side_span(c: Chain, to_ref: bool) -> (int, int) {
    if to_ref {
        (c.refs.start as int, c.refs.end as int)
    } else if codirected(c) {
        (c.query.start as int, c.query.end as int)
    } else {
        (c.query.size - c.query.end, c.query.size - c.query.start)
    }
}

/// The scan stops at the first interval that starts at or past `hi`.
pub open spec fn stops_at(i: Interval, hi: int) -> bool {
    i.start matches Some(s) && s >= hi
}

/// An interval that the scan keeps: both ends set, ending after `lo`.
pub open spec fn overlaps_from(i: Interval, lo: int) -> bool {
    i.start is Some && (i.end matches Some(e) && e > lo)
}

/// What the scan keeps of the first `k` intervals.
pub open spec fn kept_upto(v: Seq<Interval>, lo: int, k: int) -> Seq<Interval>
    decreases k,
{
    if k <= 0 {
        Seq::empty()
    } else if overlaps_from(v[k - 1], lo) {
        kept_upto(v, lo, k - 1).push(v[k - 1])
    } else {
        kept_upto(v, lo, k - 1)
    }
}

fn copy_interval(i: &Interval) -> (r: Interval)
    ensures
        r == *i,
{
    Interval {
        name: clone_name(&i.name),
        chrom: clone_name(&i.chrom),
        start: i.start,
        end: i.end,
    }
}

impl Chain {
    /// The intervals, taken in order until the first that starts at or past
    /// the chain's end on the chosen side, that end after the chain's start
    /// there: those that may overlap the chain when the input is sorted by
    /// start.
    pub fn intersect_to_vector(&self, intervals: &Vec<Interval>, to_ref: bool) -> (r: Vec<Interval>)
        requires
            self.query@.wf(),
        ensures
            exists|k: int|
                0 <= k <= intervals@.len() && (forall|j: int|
                    0 <= j < k ==> !stops_at(#[trigger] intervals@[j], side_span(*self, to_ref).1))
                    && (k < intervals@.len() ==> stops_at(intervals@[k], side_span(*self, to_ref).1))
                    && r@ == kept_upto(intervals@, side_span(*self, to_ref).0, k),
    {
        let (lo, hi) = if to_ref {
            (self.refs.start, self.refs.end)
        } else if self.query.strand == '+' {
            (self.query.start, self.query.end)
        } else {
            (self.query.size - self.query.end, self.query.size - self.query.start)
        };
        let mut out: Vec<Interval> = Vec::new();
        let mut i: usize = 0;
        while i < intervals.len()
            invariant
                i <= intervals@.len(),
                lo == side_span(*self, to_ref).0,
                hi == side_span(*self, to_ref).1,
                forall|j: int| 0 <= j < i ==> !stops_at(#[trigger] intervals@[j], hi as int),
                out@ == kept_upto(intervals@, lo as int, i as int),
            decreases intervals@.len() - i,
        {
            let it = &intervals[i];
            match it.start {
                Some(s) => {
                    if s >= hi {
                        return out;
                    }
                },
                None => {},
            }
            match (it.start, it.end) {
                (Some(_), Some(e)) => {
                    if e > lo {
                        out.push(copy_interval(it));
                    }
                },
                _ => {},
            }
            i = i + 1;
        }
        out
    }
}

/// The coding part of an annotation record: its column count and its
/// thick (coding) span.
#[derive(Debug, Clone, Copy)]
pub struct CdsSpan {
    pub format: u8,
    pub thick_start: Option<u64>,
    pub thick_end: Option<u64>,
}

/// Only records of at least eight columns carry a coding span.
pub open spec fn has_cds(i: CdsSpan) -> bool {
    i.format >= 8
}

pub open spec fn cds_stops_at(i: CdsSpan, hi: int) -> bool {
    has_cds(i) && (i.thick_start matches Some(s) && s >= hi)
}

pub open spec fn cds_overlaps_from(i: CdsSpan, lo: int) -> bool {
    has_cds(i) && i.thick_start is Some && (i.thick_end matches Some(e) && e > lo)
}

/// The positions that the scan keeps among the first `k` records.
pub open spec fn cds_kept_upto(v: Seq<CdsSpan>, lo: int, k: int) -> Seq<usize>
    decreases k,
{
    if k <= 0 {
        Seq::empty()
    } else if cds_overlaps_from(v[k - 1], lo) {
        cds_kept_upto(v, lo, k - 1).push((k - 1) as usize)
    } else {
        cds_kept_upto(v, lo, k - 1)
    }
}

impl Chain {
    /// The positions of the records, taken in order until the first coding
    /// span that starts at or past the chain's end on the chosen side, whose
    /// coding span ends after the chain's start there; records without a
    /// coding span are passed over.
    pub fn intersect_to_cds_vector(&self, intervals: &Vec<CdsSpan>, to_ref: bool) -> (r: Vec<usize>)
        requires
            self.query@.wf(),
        ensures
            exists|k: int|
                0 <= k <= intervals@.len() && (forall|j: int|
                    0 <= j < k ==> !cds_stops_at(#[trigger] intervals@[j], side_span(*self, to_ref).1))
                    && (k < intervals@.len() ==> cds_stops_at(intervals@[k], side_span(*self, to_ref).1))
                    && r@ == cds_kept_upto(intervals@, side_span(*self, to_ref).0, k),
    {
        let (lo, hi) = if to_ref {
            (self.refs.start, self.refs.end)
        } else if self.query.strand == '+' {
            (self.query.start, self.query.end)
        } else {
            (self.query.size - self.query.end, self.query.size - self.query.start)
        };
        let mut out: Vec<usize> = Vec::new();
        let mut i: usize = 0;
        while i < intervals.len()
            invariant
                i <= intervals@.len(),
                lo == side_span(*self, to_ref).0,
                hi == side_span(*self, to_ref).1,
                forall|j: int| 0 <= j < i ==> !cds_stops_at(#[trigger] intervals@[j], hi as int),
                out@ == cds_kept_upto(intervals@, lo as int, i as int),
            decreases intervals@.len() - i,
        {
            let it = intervals[i];
            if it.format >= 8 {
                match it.thick_start {
                    Some(s) => {
                        if s >= hi {
                            return out;
                        }
                        match it.thick_end {
                            Some(e) => {
                                if e > lo {
                                    out.push(i);
                                }
                            },
                            None => {},
                        }
                    },
                    None => {},
                }
            }
            i = i + 1;
        }
        out
    }
}

} // verus!
