//! A collection of chains keyed by id, with filters.

use vstd::prelude::*;
use std::collections::HashMap;
use vstd::std_specs::iter::IteratorSpec;
use crate::chain::{copy_chain, Chain, ChainView};

verus! {

broadcast use vstd::std_specs::hash::group_hash_axioms;

/// Chains keyed by their id.
#[derive(Debug, Clone)]
pub struct ChainMap {
    pub map: HashMap<u32, Chain>,
}

impl View for ChainMap {
    type V = Map<u32, ChainView>;

    open spec fn view(&self) -> Map<u32, ChainView> {
        self.map@.map_values(|c: Chain| c@)
    }
}

/// `r` keeps exactly the entries of `m` whose chain satisfies `keep`.
pub open spec fn filtered(
    m: Map<u32, ChainView>,
    r: Map<u32, ChainView>,
    keep: spec_fn(u32, ChainView) -> bool,
) -> bool {
    &&& forall|k: u32| #[trigger] r.contains_key(k) <==> m.contains_key(k) && keep(k, m[k])
    &&& forall|k: u32| #[trigger] r.contains_key(k) ==> r[k] == m[k]
}

impl ChainMap {
    /// An empty collection.
    pub fn new() -> (r: Self)
        ensures
            r@ == Map::<u32, ChainView>::empty(),
    {
        let r = ChainMap { map: HashMap::new() };
        assert(r@ =~= Map::<u32, ChainView>::empty());
        r
    }

    /// The chain with id `key`, where there is one.
    pub fn get(&self, key: &u32) -> (r: Option<&Chain>)
        ensures
            match r {
                Some(c) => self@.contains_key(*key) && c@ == self@[*key],
                None => !self@.contains_key(*key),
            },
    {
        self.map.get(key)
    }

    /// The chain with id `key`, to change in place, where there is one.
    pub fn get_mut(&mut self, key: &u32) -> (r: Option<&mut Chain>)
        ensures
            old(self)@.contains_key(*key) == r is Some,
            r is None ==> final(self)@ == old(self)@,
            r matches Some(c) ==> (*c)@ == old(self)@[*key] && final(self)@ == old(self)@.insert(
                *key,
                (*final(c))@,
            ),
    {
        hash_map_get_mut(&mut self.map, key)
    }

    /// Adds `value` under `key`, replacing what was there.
    pub fn insert(&mut self, key: u32, value: Chain) -> (r: &mut ChainMap)
        ensures
            (*r)@ == old(self)@.insert(key, value@),
            *final(self) == *final(r),
    {
        let ghost v = value@;
        self.map.insert(key, value);
        assert(self@ =~= old(self)@.insert(key, v));
        self
    }

    /// Drops the chain with id `key`, where there is one.
    pub fn remove(&mut self, key: &u32) -> (r: &mut ChainMap)
        ensures
            (*r)@ == old(self)@.remove(*key),
            *final(self) == *final(r),
    {
        self.map.remove(key);
        assert(self@ =~= old(self)@.remove(*key));
        self
    }

    /// The number of chains.
    pub fn len(&self) -> (r: usize)
        ensures
            r == self@.dom().len(),
    {
        assert(self.map@.dom() =~= self@.dom());
        self.map.len()
    }

    /// The ids of all chains, each once.
    pub fn keys(&self) -> (r: Vec<u32>)
        ensures
            r@.no_duplicates(),
            forall|k: u32| r@.contains(k) <==> self@.contains_key(k),
    {
        let mut out: Vec<u32> = Vec::new();
        let ghost ks = vstd::std_specs::hash::spec_keys_iter(&self.map).remaining();
        proof {
            vstd::std_specs::hash::axiom_spec_keys_iter(&self.map);
        }
        for k in it: self.map.keys()
            invariant
                it.seq() == ks,
                out@ == it.seq().take(it.index() as int).map_values(|x: &u32| *x),
        {
            let ghost before = out@;
            out.push(*k);
            assert(out@ =~= it.seq().take(it.index() as int + 1).map_values(|x: &u32| *x));
        }
        proof {
            assert(out@ =~= ks.map_values(|x: &u32| *x));
            assert(ks.unref() =~= out@);
            assert forall|k: u32| out@.contains(k) <==> self@.contains_key(k) by {
                assert(ks.unref().to_set().contains(k) <==> self.map@.dom().contains(k));
            }
        }
        out
    }

    /// Every entry, each once, as id and chain.
    pub fn iter(&self) -> (r: Vec<(u32, &Chain)>)
        ensures
            r@.map_values(|p: (u32, &Chain)| p.0).no_duplicates(),
            forall|i: int|
                0 <= i < r@.len() ==> self@.contains_key((#[trigger] r@[i]).0) && r@[i].1@
                    == self@[r@[i].0],
            forall|k: u32|
                self@.contains_key(k) ==> exists|i: int| 0 <= i < r@.len() && (#[trigger] r@[i]).0 == k,
    {
        let ids = self.keys();
        let mut out: Vec<(u32, &Chain)> = Vec::new();
        let mut i: usize = 0;
        while i < ids.len()
            invariant
                i <= ids@.len(),
                ids@.no_duplicates(),
                forall|k: u32| ids@.contains(k) <==> self@.contains_key(k),
                out@.map_values(|p: (u32, &Chain)| p.0) == ids@.take(i as int),
                forall|j: int|
                    0 <= j < out@.len() ==> self@.contains_key((#[trigger] out@[j]).0) && out@[j].1@
                        == self@[out@[j].0],
            decreases ids@.len() - i,
        {
            let k = ids[i];
            assert(ids@.contains(k));
            match self.get(&k) {
                Some(c) => {
                    let ghost before = out@;
                    out.push((k, c));
                    assert(out@.map_values(|p: (u32, &Chain)| p.0) =~= before.map_values(
                        |p: (u32, &Chain)| p.0,
                    ).push(k));
                    assert(ids@.take(i + 1) =~= ids@.take(i as int).push(k));
                },
                None => {},
            }
            i = i + 1;
        }
        proof {
            assert(ids@.take(i as int) =~= ids@);
            assert forall|k: u32| self@.contains_key(k) implies exists|j: int|
                0 <= j < out@.len() && (#[trigger] out@[j]).0 == k by {
                assert(ids@.contains(k));
                let j = choose|j: int| 0 <= j < ids@.len() && ids@[j] == k;
                assert(out@.map_values(|p: (u32, &Chain)| p.0)[j] == k);
            }
        }
        out
    }

    /// Every chain, each once.
    pub fn values(&self) -> (r: Vec<&Chain>)
        ensures
            r@.len() == self@.dom().len(),
            forall|i: int| 0 <= i < r@.len() ==> self@.values().contains((#[trigger] r@[i])@),
            forall|k: u32|
                #[trigger] self@.contains_key(k) ==> exists|i: int|
                    0 <= i < r@.len() && r@[i]@ == self@[k],
    {
        let entries = self.iter();
        let mut out: Vec<&Chain> = Vec::new();
        let mut i: usize = 0;
        while i < entries.len()
            invariant
                i <= entries@.len(),
                out@.len() == i,
                forall|j: int|
                    0 <= j < entries@.len() ==> self@.contains_key((#[trigger] entries@[j]).0)
                        && entries@[j].1@ == self@[entries@[j].0],
                forall|j: int| 0 <= j < i ==> self@.values().contains((#[trigger] out@[j])@),
                forall|j: int| 0 <= j < i ==> (#[trigger] out@[j]) == entries@[j].1,
            decreases entries@.len() - i,
        {
            let (k, c) = entries[i];
            assert(self@.contains_key(entries@[i as int].0));
            out.push(c);
            i = i + 1;
        }
        proof {
            assert(self.map@.dom().finite());
            assert(self@.dom() =~= self.map@.dom());
            lemma_entries_cover(self@, entries@);
            assert forall|k: u32| #[trigger] self@.contains_key(k) implies exists|i: int|
                0 <= i < out@.len() && out@[i]@ == self@[k] by {
                let j = choose|j: int| 0 <= j < entries@.len() && (#[trigger] entries@[j]).0 == k;
                assert(out@[j] == entries@[j].1);
            }
        }
        out
    }

    /// Keeps the chains for which `fc` holds.
    pub fn filter<F: Fn(&Chain) -> bool>(&self, fc: F) -> (r: Self)
        requires
            forall|c: &Chain| #[trigger] fc.requires((c,)),
        ensures
            forall|k: u32| #[trigger] r@.contains_key(k) ==> self@.contains_key(k) && r@[k] == self@[k],
            forall|k: u32|
                #[trigger] self@.contains_key(k) ==> (r@.contains_key(k) ==> fc.ensures(
                    (&self.map@[k],),
                    true,
                )) && (!r@.contains_key(k) ==> fc.ensures((&self.map@[k],), false)),
    {
        let ids = self.keys();
        let mut out = ChainMap::new();
        let mut i: usize = 0;
        while i < ids.len()
            invariant
                i <= ids@.len(),
                ids@.no_duplicates(),
                forall|k: u32| ids@.contains(k) <==> self@.contains_key(k),
                forall|k: u32| #[trigger] out@.contains_key(k) ==> ids@.take(i as int).contains(k)
                    && self@.contains_key(k) && out@[k] == self@[k],
                forall|j: int|
                    0 <= j < i ==> (out@.contains_key(#[trigger] ids@[j]) ==> fc.ensures(
                        (&self.map@[ids@[j]],),
                        true,
                    )) && (!out@.contains_key(ids@[j]) ==> fc.ensures(
                        (&self.map@[ids@[j]],),
                        false,
                    )),
                forall|c: &Chain| #[trigger] fc.requires((c,)),
            decreases ids@.len() - i,
        {
            let k = ids[i];
            assert(ids@.contains(k));
            let ghost before = out@;
            match self.map.get(&k) {
                Some(c) => {
                    if fc(c) {
                        out.insert(k, copy_chain(c));
                    }
                },
                None => {},
            }
            proof {
                assert forall|j: int| 0 <= j < i implies out@.contains_key(#[trigger] ids@[j])
                    == before.contains_key(ids@[j]) by {
                    assert(ids@[j] != k);
                }
                assert forall|x: u32| #[trigger] out@.contains_key(x) implies ids@.take(
                    i + 1,
                ).contains(x) && self@.contains_key(x) && out@[x] == self@[x] by {
                    if x != k {
                        assert(before.contains_key(x));
                        let w = choose|w: int| 0 <= w < i && ids@.take(i as int)[w] == x;
                        assert(ids@.take(i + 1)[w] == x);
                    } else {
                        assert(ids@.take(i + 1)[i as int] == x);
                    }
                }
                if before.contains_key(k) {
                    assert(ids@.take(i as int).contains(k));
                }
            }
            i = i + 1;
        }
        proof {
            assert forall|k: u32| #[trigger] self@.contains_key(k) implies (out@.contains_key(k)
                ==> fc.ensures((&self.map@[k],), true)) && (!out@.contains_key(k) ==> fc.ensures(
                (&self.map@[k],),
                false,
            )) by {
                assert(ids@.contains(k));
                let j = choose|j: int| 0 <= j < ids@.len() && ids@[j] == k;
            }
        }
        out
    }

    /// Keeps the chains whose rule `rule` admits.
    fn filter_rule(&self, rule: &Rule) -> (r: Self)
        ensures
            filtered(self@, r@, |k: u32, c: ChainView| rule_keeps(*rule, k, c)),
    {
        let ids = self.keys();
        let mut out = ChainMap::new();
        let mut i: usize = 0;
        while i < ids.len()
            invariant
                i <= ids@.len(),
                ids@.no_duplicates(),
                forall|k: u32| ids@.contains(k) <==> self@.contains_key(k),
                forall|k: u32| #[trigger] out@.contains_key(k) ==> ids@.take(i as int).contains(k)
                    && self@.contains_key(k) && out@[k] == self@[k] && rule_keeps(*rule, k, self@[k]),
                forall|j: int|
                    0 <= j < i ==> (out@.contains_key(#[trigger] ids@[j]) <==> rule_keeps(
                        *rule,
                        ids@[j],
                        self@[ids@[j]],
                    )),
            decreases ids@.len() - i,
        {
            let k = ids[i];
            assert(ids@.contains(k));
            let ghost before = out@;
            match self.map.get(&k) {
                Some(c) => {
                    if rule.keeps(k, c) {
                        out.insert(k, copy_chain(c));
                    }
                },
                None => {},
            }
            proof {
                assert forall|j: int| 0 <= j < i implies out@.contains_key(#[trigger] ids@[j])
                    == before.contains_key(ids@[j]) by {
                    assert(ids@[j] != k);
                }
                assert forall|x: u32| #[trigger] out@.contains_key(x) implies ids@.take(
                    i + 1,
                ).contains(x) && self@.contains_key(x) && out@[x] == self@[x] && rule_keeps(
                    *rule,
                    x,
                    self@[x],
                ) by {
                    if x != k {
                        assert(before.contains_key(x));
                        let w = choose|w: int| 0 <= w < i && ids@.take(i as int)[w] == x;
                        assert(ids@.take(i + 1)[w] == x);
                    } else {
                        assert(ids@.take(i + 1)[i as int] == x);
                    }
                }
                if before.contains_key(k) {
                    assert(ids@.take(i as int).contains(k));
                }
            }
            i = i + 1;
        }
        proof {
            assert forall|k: u32| #[trigger] out@.contains_key(k) <==> self@.contains_key(k)
                && rule_keeps(*rule, k, self@[k]) by {
                if self@.contains_key(k) {
                    assert(ids@.contains(k));
                    let j = choose|j: int| 0 <= j < ids@.len() && ids@[j] == k;
                }
            }
        }
        out
    }

    /// Keeps the chains whose score is at least `score`.
    pub fn filter_by_score(&self, score: u64) -> (r: Self)
        ensures
            filtered(self@, r@, |k: u32, c: ChainView| c.score >= score),
    {
        self.filter_rule(&Rule::MinScore(score))
    }

    /// Keeps the chains whose reference sequence is at least `size` long.
    pub fn filter_ref_by_size(&self, size: u64) -> (r: Self)
        ensures
            filtered(self@, r@, |k: u32, c: ChainView| c.refs.size >= size),
    {
        self.filter_rule(&Rule::MinRefSize(size))
    }

    /// Keeps the chains whose query sequence is at least `size` long.
    pub fn filter_query_by_size(&self, size: u64) -> (r: Self)
        ensures
            filtered(self@, r@, |k: u32, c: ChainView| c.query.size >= size),
    {
        self.filter_rule(&Rule::MinQuerySize(size))
    }

    /// Keeps the chains whose id is among `ids`.
    pub fn filter_id(&self, ids: Vec<u32>) -> (r: Self)
        ensures
            filtered(self@, r@, |k: u32, c: ChainView| ids@.contains(k)),
    {
        self.filter_rule(&Rule::Ids(ids))
    }
}

/// What a filter keeps.
enum Rule {
    MinScore(u64),
    MinRefSize(u64),
    MinQuerySize(u64),
    Ids(Vec<u32>),
}

spec fn rule_keeps(rule: Rule, k: u32, c: ChainView) -> bool {
    match rule {
        Rule::MinScore(s) => c.score >= s,
        Rule::MinRefSize(n) => c.refs.size >= n,
        Rule::MinQuerySize(n) => c.query.size >= n,
        Rule::Ids(v) => v@.contains(k),
    }
}

fn contains_id(v: &Vec<u32>, k: u32) -> (r: bool)
    ensures
        r == v@.contains(k),
{
    let mut i: usize = 0;
    while i < v.len()
        invariant
            i <= v@.len(),
            forall|j: int| 0 <= j < i ==> v@[j] != k,
        decreases v@.len() - i,
    {
        if v[i] == k {
            assert(v@[i as int] == k);
            return true;
        }
        i = i + 1;
    }
    false
}

impl Rule {
    fn keeps(&self, k: u32, c: &Chain) -> (r: bool)
        ensures
            r == rule_keeps(*self, k, c@),
    {
        match self {
            Rule::MinScore(s) => c.score >= *s,
            Rule::MinRefSize(n) => c.refs.size >= *n,
            Rule::MinQuerySize(n) => c.query.size >= *n,
            Rule::Ids(v) => contains_id(v, k),
        }
    }
}

/// A list of distinct keys that holds every key of a map has as many
/// entries as the map.
proof fn lemma_entries_cover(m: Map<u32, ChainView>, e: Seq<(u32, &Chain)>)
    requires
        e.map_values(|p: (u32, &Chain)| p.0).no_duplicates(),
        forall|i: int| 0 <= i < e.len() ==> m.contains_key((#[trigger] e[i]).0),
        forall|k: u32| m.contains_key(k) ==> exists|i: int| 0 <= i < e.len() && (#[trigger] e[i]).0 == k,
        m.dom().finite(),
    ensures
        e.len() == m.dom().len(),
{
    let ks = e.map_values(|p: (u32, &Chain)| p.0);
    assert(ks.to_set() =~= m.dom()) by {
        assert forall|k: u32| m.dom().contains(k) implies ks.to_set().contains(k) by {
            let i = choose|i: int| 0 <= i < e.len() && (#[trigger] e[i]).0 == k;
            assert(ks[i] == k);
        }
    }
    ks.unique_seq_to_set();
}

/// Relies on HashMap::get_mut: a mutable reference to the value under `k`,
/// where there is one; changes through it land in the map under `k`.
#[verifier::external_body]
fn hash_map_get_mut<'a>(m: &'a mut HashMap<u32, Chain>, k: &u32) -> (r: Option<&'a mut Chain>)
    ensures
        old(m)@.contains_key(*k) == r is Some,
        r is None ==> final(m)@ == old(m)@,
        r matches Some(c) ==> *c == old(m)@[*k] && final(m)@ == old(m)@.insert(*k, *final(c)),
{
    m.get_mut(k)
}

} // verus!
