use vstd::prelude::*;

use crate::text::{contains_chars, name_matches};
use crate::timer::RepeatingTimer;

verus! {

/// A map from parameter name to value, built from a sequence of pairs in which
/// a later pair overrides an earlier one of the same name.
pub open spec fn pairs_map(s: Seq<(Seq<char>, i64)>) -> Map<Seq<char>, i64>
    decreases s.len(),
{
    if s.len() == 0 {
        Map::empty()
    } else {
        pairs_map(s.drop_last()).insert(s.last().0, s.last().1)
    }
}

/// The pairs with each name taken as its characters.
pub open spec fn pair_names(v: Seq<(String, i64)>) -> Seq<(Seq<char>, i64)> {
    v.map_values(|p: (String, i64)| (p.0@, p.1))
}

/// No name occurs twice.
pub open spec fn unique_names(s: Seq<(Seq<char>, i64)>) -> bool {
    forall|i: int, j: int| 0 <= i < j < s.len() ==> s[i].0 != s[j].0
}

/// A parameter list as the surface reports it: each name with its value, or
/// `None` where the value is not a number.
pub open spec fn par_names(v: Seq<(String, Option<i64>)>) -> Seq<(Seq<char>, Option<i64>)> {
    v.map_values(|p: (String, Option<i64>)| (p.0@, p.1))
}

/// `m` after taking in, in order, each numeric parameter whose name contains
/// `filter`; a later value of a name overrides an earlier one.
pub open spec fn merged(
    m: Map<Seq<char>, i64>,
    pars: Seq<(Seq<char>, Option<i64>)>,
    filter: Seq<char>,
) -> Map<Seq<char>, i64>
    decreases pars.len(),
{
    if pars.len() == 0 {
        m
    } else {
        let rest = merged(m, pars.drop_last(), filter);
        let name = pars.last().0;
        let value = pars.last().1;
        if contains_chars(name, filter) && value is Some {
            rest.insert(name, value->0)
        } else {
            rest
        }
    }
}

pub proof fn lemma_pairs_map_domain(s: Seq<(Seq<char>, i64)>, k: Seq<char>)
    ensures
        pairs_map(s).contains_key(k) <==> exists|i: int| 0 <= i < s.len() && s[i].0 == k,
    decreases s.len(),
{
    if s.len() > 0 {
        lemma_pairs_map_domain(s.drop_last(), k);
        if pairs_map(s.drop_last()).contains_key(k) {
            let i = choose|i: int| 0 <= i < s.drop_last().len() && s.drop_last()[i].0 == k;
            assert(s[i].0 == k);
        }
        if exists|i: int| 0 <= i < s.len() && s[i].0 == k {
            let i = choose|i: int| 0 <= i < s.len() && s[i].0 == k;
            if i < s.len() - 1 {
                assert(s.drop_last()[i].0 == k);
            }
        }
    }
}

pub proof fn lemma_pairs_map_at(s: Seq<(Seq<char>, i64)>, j: int)
    requires
        unique_names(s),
        0 <= j < s.len(),
    ensures
        pairs_map(s).contains_key(s[j].0),
        pairs_map(s)[s[j].0] == s[j].1,
    decreases s.len(),
{
    if j < s.len() - 1 {
        lemma_pairs_map_at(s.drop_last(), j);
    }
}

proof fn lemma_pairs_map_update(s: Seq<(Seq<char>, i64)>, j: int, v: i64)
    requires
        unique_names(s),
        0 <= j < s.len(),
    ensures
        pairs_map(s.update(j, (s[j].0, v))) == pairs_map(s).insert(s[j].0, v),
    decreases s.len(),
{
    let k = s[j].0;
    let t = s.update(j, (k, v));
    assert(t.drop_last() =~= if j == s.len() - 1 {
        s.drop_last()
    } else {
        s.drop_last().update(j, (k, v))
    });
    if j < s.len() - 1 {
        lemma_pairs_map_update(s.drop_last(), j, v);
        assert(s.last().0 != k);
    }
    assert(pairs_map(t) =~= pairs_map(s).insert(k, v));
}

/// The parameter values last observed on a sampled node.
#[derive(Debug)]
pub struct SampleValues {
    pub values: Vec<(String, i64)>,
}

impl SampleValues {
    pub open spec fn wf(&self) -> bool {
        unique_names(pair_names(self.values@))
    }

    pub open spec fn view(&self) -> Map<Seq<char>, i64> {
        pairs_map(pair_names(self.values@))
    }

    /// Nothing observed yet.
    pub fn new() -> (r: Self)
        ensures
            r.wf(),
            r@ == Map::<Seq<char>, i64>::empty(),
    {
        SampleValues { values: Vec::new() }
    }

    /// The value last observed under `name`.
    pub fn get(&self, name: &String) -> (r: Option<i64>)
        requires
            self.wf(),
        ensures
            r == (if self@.contains_key(name@) {
                Some(self@[name@])
            } else {
                None::<i64>
            }),
    {
        let ghost s = pair_names(self.values@);
        let mut j: usize = 0;
        while j < self.values.len()
            invariant
                s == pair_names(self.values@),
                unique_names(s),
                j <= self.values.len(),
                forall|i: int| 0 <= i < j ==> s[i].0 != name@,
            decreases self.values.len() - j,
        {
            if self.values[j].0 == *name {
                proof {
                    lemma_pairs_map_at(s, j as int);
                }
                return Some(self.values[j].1);
            }
            j = j + 1;
        }
        proof {
            lemma_pairs_map_domain(s, name@);
        }
        None
    }

    /// How many names have a value.
    pub fn len(&self) -> (r: usize)
        requires
            self.wf(),
        ensures
            r == self@.len(),
    {
        proof {
            self.lemma_len();
        }
        self.values.len()
    }

    proof fn lemma_len(&self)
        requires
            self.wf(),
        ensures
            self@.len() == self.values@.len(),
    {
        lemma_unique_len(pair_names(self.values@));
    }

    /// Records `value` under `name`, replacing what was there.
    pub fn set(&mut self, name: String, value: i64)
        requires
            old(self).wf(),
        ensures
            final(self).wf(),
            final(self)@ == old(self)@.insert(name@, value),
    {
        let ghost s = pair_names(self.values@);
        let mut j: usize = 0;
        while j < self.values.len()
            invariant
                s == pair_names(self.values@),
                *self == *old(self),
                unique_names(s),
                j <= self.values.len(),
                forall|i: int| 0 <= i < j ==> s[i].0 != name@,
            decreases self.values.len() - j,
        {
            if self.values[j].0 == name {
                proof {
                    lemma_pairs_map_update(s, j as int, value);
                }
                self.values.set(j, (name, value));
                assert(pair_names(self.values@) =~= s.update(j as int, (s[j as int].0, value)));
                return;
            }
            j = j + 1;
        }
        let ghost key = name@;
        self.values.push((name, value));
        assert(pair_names(self.values@) =~= s.push((key, value)));
        assert(pair_names(self.values@).drop_last() =~= s);
    }

    /// Takes in, in order, each parameter whose name contains `filter` and
    /// whose value is a number; the rest are dropped.
    pub fn merge(&mut self, pars: &Vec<(String, Option<i64>)>, filter: &String)
        requires
            old(self).wf(),
        ensures
            final(self).wf(),
            final(self)@ == merged(old(self)@, par_names(pars@), filter@),
    {
        let ghost p = par_names(pars@);
        let mut i: usize = 0;
        while i < pars.len()
            invariant
                p == par_names(pars@),
                i <= pars.len(),
                self.wf(),
                self@ == merged(old(self)@, p.take(i as int), filter@),
            decreases pars.len() - i,
        {
            assert(p.take(i + 1).drop_last() =~= p.take(i as int));
            let keep = name_matches(&pars[i].0, filter);
            if keep {
                match pars[i].1 {
                    Some(v) => {
                        self.set(pars[i].0.clone(), v);
                    },
                    None => {},
                }
            }
            i = i + 1;
        }
        assert(p.take(pars.len() as int) =~= p);
    }
}

/// Handle of an entity: the external identifier of the node it stands for,
/// and the generation in which it was spawned, which tells apart an entity
/// from one spawned for the same node after it was despawned.
#[derive(Debug, Clone, Copy, PartialEq, Eq, Structural, Hash)]
pub struct Entity {
    pub op: u32,
    pub generation: u64,
}

/// Marker: each tick, set the node's randomized parameter to a fresh random value.
#[derive(Debug, Clone, Copy, PartialEq, Eq, Structural)]
pub struct Random;

/// Periodically read the node's parameters whose names contain `filter`.
#[derive(Debug)]
pub struct Sample {
    pub timer: RepeatingTimer,
    pub filter: String,
}

impl Sample {
    /// Samples every `interval_millis` milliseconds.
    pub fn new(interval_millis: u64, filter: String) -> (r: Self)
        ensures
            r.timer.interval() == interval_millis as nat * 1_000_000,
            r.timer.elapsed() == 0,
            r.filter == filter,
    {
        Sample { timer: RepeatingTimer::from_millis(interval_millis), filter }
    }
}

/// How a group of same-named sampled values is reduced to one.
#[derive(Debug, Clone, Copy, PartialEq, Eq, Structural)]
pub enum Strat {
    Mean,
    Max,
}

/// Each tick, set on the node the reduction of every sampled value whose name
/// contains `filter`, one value per name.
#[derive(Debug)]
pub struct Apply {
    pub filter: String,
    pub strat: Strat,
}

impl Apply {
    pub fn new(filter: String, strat: Strat) -> (r: Self)
        ensures
            r.filter == filter,
            r.strat == strat,
    {
        Apply { filter, strat }
    }
}

proof fn lemma_unique_len(s: Seq<(Seq<char>, i64)>)
    requires
        unique_names(s),
    ensures
        pairs_map(s).len() == s.len(),
    decreases s.len(),
{
    if s.len() > 0 {
        let t = s.drop_last();
        lemma_unique_len(t);
        lemma_pairs_map_domain(t, s.last().0);
        lemma_pairs_map_finite(t);
    }
}

proof fn lemma_pairs_map_finite(s: Seq<(Seq<char>, i64)>)
    ensures
        pairs_map(s).dom().finite(),
    decreases s.len(),
{
    if s.len() > 0 {
        lemma_pairs_map_finite(s.drop_last());
    }
}

} // verus!
