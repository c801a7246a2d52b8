//! Intervals to project, and the order in which the sweep visits them.

use vstd::prelude::*;
use vstd::seq_lib::{group_to_multiset_ensures, to_multiset_insert, to_multiset_remove};
use vstd::multiset::group_multiset_axioms;

verus! {

/// A named interval. Inputs carry a name and both coordinates; a projection
/// gives back the same name, the query's sequence label and whichever
/// coordinates could be determined.
#[derive(Debug, Clone)]
pub struct Interval {
    pub name: Option<String>,
    pub chrom: Option<String>,
    pub start: Option<u64>,
    pub end: Option<u64>,
}

impl Interval {
    /// An interval with nothing set.
    pub fn new() -> (r: Self)
        ensures
            r.name is None && r.chrom is None && r.start is None && r.end is None,
    {
        Interval { name: None, chrom: None, start: None, end: None }
    }

    /// `end - start`, where both are set and `start <= end`.
    pub fn length(&self) -> (r: Option<u64>)
        ensures
            r == (if self.start is Some && self.end is Some && self.start->0 <= self.end->0 {
                Some((self.end->0 - self.start->0) as u64)
            } else {
                None::<u64>
            }),
    {
        match (self.start, self.end) {
            (Some(a), Some(b)) => if a <= b {
                Some(b - a)
            } else {
                None
            },
            _ => None,
        }
    }
}

/// An interval that the projection engine can take: named, with both
/// coordinates, and a defined length.
pub open spec fn usable(i: Interval) -> bool {
    &&& i.name is Some
    &&& i.start is Some
    &&& i.end is Some
    &&& i.start->0 <= i.end->0
}

pub open spec fn all_usable(v: Seq<Interval>) -> bool {
    forall|i: int| 0 <= i < v.len() ==> usable(#[trigger] v[i])
}

/// `a` comes no later than `b`: by start, then by end.
pub open spec fn key_le(a: Interval, b: Interval) -> bool {
    a.start->0 < b.start->0 || (a.start->0 == b.start->0 && a.end->0 <= b.end->0)
}

/// Sorted by start, then by end.
pub open spec fn sorted_by_start(v: Seq<Interval>) -> bool {
    forall|i: int, j: int| 0 <= i < j < v.len() ==> key_le(#[trigger] v[i], #[trigger] v[j])
}

/// The intervals of `v` whose start and end are `a` and `b`, in order.
pub open spec fn with_key(v: Seq<Interval>, a: u64, b: u64) -> Seq<Interval> {
    v.filter(key_pred(a, b))
}

/// An interval starts at `a` and ends at `b`.
pub open spec fn key_pred(a: u64, b: u64) -> spec_fn(Interval) -> bool {
    |x: Interval| x.start->0 == a && x.end->0 == b
}

proof fn lemma_filter_single(x: Interval, a: u64, b: u64)
    ensures
        with_key(seq![x], a, b) == (if x.start->0 == a && x.end->0 == b {
            seq![x]
        } else {
            Seq::<Interval>::empty()
        }),
{
    let pred = key_pred(a, b);
    Seq::<Interval>::empty().lemma_filter_push(x, pred);
    assert(Seq::<Interval>::empty().push(x) =~= seq![x]);
    Seq::<Interval>::empty().lemma_filter_len(pred);
}

/// Inserting `x` before a run of intervals that all come after it keeps
/// the order of the intervals of every key.
proof fn lemma_insert_keeps_keys(p: Seq<Interval>, x: Interval, j: int, a: u64, b: u64)
    requires
        0 <= j <= p.len(),
        forall|q: int| j <= q < p.len() ==> !key_le(#[trigger] p[q], x),
    ensures
        with_key(p.take(j) + seq![x] + p.subrange(j, p.len() as int), a, b) == with_key(
            p.push(x),
            a,
            b,
        ),
{
    let pred = key_pred(a, b);
    let l = p.take(j);
    let r = p.subrange(j, p.len() as int);
    assert(p =~= l + r);
    assert(p.push(x) =~= l + (r + seq![x]));
    Seq::filter_distributes_over_add(l + seq![x], r, pred);
    Seq::filter_distributes_over_add(l, seq![x], pred);
    Seq::filter_distributes_over_add(l, r + seq![x], pred);
    Seq::filter_distributes_over_add(r, seq![x], pred);
    lemma_filter_single(x, a, b);
    if pred(x) {
        assert forall|q: int| 0 <= q < r.len() implies !pred(r[q]) by {
            assert(r[q] == p[j + q]);
        }
        r.lemma_all_neg_filter_empty(pred);
        assert(r.filter(pred) =~= Seq::<Interval>::empty());
    }
    assert(with_key(l + seq![x] + r, a, b) =~= with_key(l + (r + seq![x]), a, b));
}

/// Checks that every interval is usable.
pub fn check_usable(v: &Vec<Interval>) -> (r: bool)
    ensures
        r == all_usable(v@),
{
    let mut i: usize = 0;
    while i < v.len()
        invariant
            i <= v@.len(),
            forall|j: int| 0 <= j < i ==> usable(#[trigger] v@[j]),
        decreases v@.len() - i,
    {
        let it = &v[i];
        let ok = it.name.is_some() && match (it.start, it.end) {
            (Some(a), Some(b)) => a <= b,
            _ => false,
        };
        if !ok {
            assert(!usable(v@[i as int]));
            return false;
        }
        i = i + 1;
    }
    true
}

/// Sorts the intervals by start, then by end, keeping the order of those
/// that tie (insertion sort).
pub fn sort_intervals(v: &mut Vec<Interval>)
    requires
        all_usable(old(v)@),
    ensures
        final(v)@.to_multiset() == old(v)@.to_multiset(),
        final(v)@.len() == old(v)@.len(),
        all_usable(final(v)@),
        sorted_by_start(final(v)@),
        forall|a: u64, b: u64| #[trigger] with_key(final(v)@, a, b) == with_key(old(v)@, a, b),
{
    broadcast use {group_multiset_axioms, group_to_multiset_ensures};

    let n = v.len();
    if n == 0 {
        return ;
    }
    let mut i: usize = 1;
    while i < n
        invariant
            n == v@.len(),
            n == old(v)@.len(),
            1 <= i <= n,
            v@.to_multiset() == old(v)@.to_multiset(),
            all_usable(v@),
            forall|a: int, b: int| 0 <= a < b < i ==> key_le(#[trigger] v@[a], #[trigger] v@[b]),
            v@.skip(i as int) == old(v)@.skip(i as int),
            forall|a: u64, b: u64| #[trigger] with_key(v@.take(i as int), a, b) == with_key(
                old(v)@.take(i as int),
                a,
                b,
            ),
        decreases n - i,
    {
        let ghost before = v@;
        assert(forall|a: u64, b: u64| #[trigger] with_key(before.take(i as int), a, b) == with_key(
            old(v)@.take(i as int),
            a,
            b,
        ));
        let x = v.remove(i);
        proof {
            to_multiset_remove(before, i as int);
        }
        let xs = x.start.unwrap();
        let xe = x.end.unwrap();
        let mut j: usize = i;
        let mut found = false;
        while j > 0 && !found
            invariant
                found ==> j > 0 && key_le(v@[j - 1], x),
                v@ == before.remove(i as int),
                before.len() == n,
                v@.len() == n - 1,
                0 <= j <= i,
                i < n,
                xs == x.start->0,
                xe == x.end->0,
                usable(x),
                all_usable(v@),
                forall|k: int| j <= k < i ==> !key_le(#[trigger] v@[k], x),
            decreases j + (if found { 0int } else { 1int }),
        {
            assert(usable(v@[j - 1]));
            let p = &v[j - 1];
            let ps = p.start.unwrap();
            let pe = p.end.unwrap();
            if ps < xs || (ps == xs && pe <= xe) {
                found = true;
            } else {
                j = j - 1;
            }
        }
        let ghost mid = v@;
        v.insert(j, x);
        proof {
            let pre = before.take(i as int);
            assert(before.skip(i as int)[0] == old(v)@.skip(i as int)[0]);
            assert(x == old(v)@[i as int]);
            assert(v@.take(i + 1) =~= pre.take(j as int) + seq![x] + pre.subrange(
                j as int,
                pre.len() as int,
            ));
            assert(v@.skip(i + 1) =~= old(v)@.skip(i + 1)) by {
                assert forall|q: int| 0 <= q < v@.skip(i + 1).len() implies #[trigger] v@.skip(
                    i + 1,
                )[q] == old(v)@.skip(i + 1)[q] by {
                    assert(v@[i + 1 + q] == mid[i + q]);
                    assert(mid[i + q] == before[i + 1 + q]);
                    assert(before.skip(i as int)[q + 1] == old(v)@.skip(i as int)[q + 1]);
                }
            }
            assert(old(v)@.take(i + 1) =~= old(v)@.take(i as int).push(x));
            assert forall|q: int| j <= q < pre.len() implies !key_le(#[trigger] pre[q], x) by {
                assert(pre[q] == mid[q]);
            }
            assert forall|a: u64, b: u64| #[trigger] with_key(v@.take(i + 1), a, b) == with_key(
                old(v)@.take(i + 1),
                a,
                b,
            ) by {
                let pred = key_pred(a, b);
                lemma_insert_keeps_keys(pre, x, j as int, a, b);
                pre.lemma_filter_push(x, pred);
                old(v)@.take(i as int).lemma_filter_push(x, pred);
                assert(with_key(before.take(i as int), a, b) == with_key(
                    old(v)@.take(i as int),
                    a,
                    b,
                ));
                assert(with_key(v@.take(i + 1), a, b) == with_key(pre.push(x), a, b));
            }
            to_multiset_insert(mid, j as int, x);
            assert(before.contains(before[i as int]));
            vstd::seq_lib::to_multiset_contains(before, before[i as int]);
            assert(before.to_multiset().count(before[i as int]) > 0);
            assert(before.to_multiset().remove(before[i as int]).insert(before[i as int])
                =~= before.to_multiset());
            assert forall|a: int, b: int| 0 <= a < b < i + 1 implies key_le(
                #[trigger] v@[a],
                #[trigger] v@[b],
            ) by {
                if b < j {
                    assert(v@[a] == before[a] && v@[b] == before[b]);
                } else if b == j {
                    assert(v@[b] == x);
                    assert(v@[a] == before[a]);
                    if j > 0 {
                        assert(key_le(mid[j - 1], x));
                        assert(mid[j - 1] == before[j - 1]);
                        if a < j - 1 {
                            assert(key_le(before[a], before[j - 1]));
                        }
                    }
                } else if a == j {
                    assert(v@[a] == x);
                    assert(v@[b] == mid[b - 1]);
                    assert(!key_le(mid[b - 1], x));
                } else if a < j {
                    assert(v@[a] == before[a]);
                    assert(v@[b] == mid[b - 1]);
                    assert(mid[b - 1] == before[b - 1]);
                    assert(key_le(before[a], before[b - 1]));
                } else {
                    assert(v@[a] == mid[a - 1]);
                    assert(v@[b] == mid[b - 1]);
                    assert(mid[a - 1] == before[a - 1] && mid[b - 1] == before[b - 1]);
                    assert(key_le(before[a - 1], before[b - 1]));
                }
            }
            assert forall|k: int| 0 <= k < v@.len() implies usable(#[trigger] v@[k]) by {
                if k < j {
                    assert(v@[k] == mid[k]);
                } else if k > j {
                    assert(v@[k] == mid[k - 1]);
                }
            }
        }
        i = i + 1;
    }
    assert(v@.take(n as int) =~= v@);
    assert(old(v)@.take(n as int) =~= old(v)@);
}

} // verus!
