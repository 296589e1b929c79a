use vstd::prelude::*;

use crate::components::{pair_names, pairs_map, unique_names, Strat};
use crate::text::contains_chars;

verus! {

/// The values that the sampled maps hold under `name`, in the maps' order.
pub open spec fn column(maps: Seq<Map<Seq<char>, i64>>, name: Seq<char>) -> Seq<i64>
    decreases maps.len(),
{
    if maps.len() == 0 {
        Seq::empty()
    } else {
        let rest = column(maps.drop_last(), name);
        if maps.last().contains_key(name) {
            rest.push(maps.last()[name])
        } else {
            rest
        }
    }
}

pub open spec fn sum_of(s: Seq<i64>) -> int
    decreases s.len(),
{
    if s.len() == 0 {
        0
    } else {
        sum_of(s.drop_last()) + s.last()
    }
}

/// The largest value of a non-empty sequence.
pub open spec fn max_of(s: Seq<i64>) -> i64
    decreases s.len(),
{
    if s.len() <= 1 {
        if s.len() == 1 {
            s[0]
        } else {
            0
        }
    } else {
        let m = max_of(s.drop_last());
        if s.last() > m {
            s.last()
        } else {
            m
        }
    }
}

/// The arithmetic mean of a non-empty sequence, rounded toward zero.
pub open spec fn mean_of(s: Seq<i64>) -> int {
    let t = sum_of(s);
    let n = s.len() as int;
    if t >= 0 {
        t / n
    } else {
        -((-t) / n)
    }
}

pub open spec fn reduce(strat: Strat, s: Seq<i64>) -> int {
    match strat {
        Strat::Mean => mean_of(s),
        Strat::Max => max_of(s) as int,
    }
}

/// What an `Apply` with `filter` and `strat` sets: for each name that contains
/// `filter` and that some sampled map holds, the reduction of all values held
/// under exactly that name.
pub open spec fn select_spec(maps: Seq<Map<Seq<char>, i64>>, filter: Seq<char>, strat: Strat) -> Map<
    Seq<char>,
    i64,
> {
    Map::new(
        |k: Seq<char>| contains_chars(k, filter) && column(maps, k).len() > 0,
        |k: Seq<char>| reduce(strat, column(maps, k)) as i64,
    )
}

pub proof fn lemma_column_len(maps: Seq<Map<Seq<char>, i64>>, name: Seq<char>)
    ensures
        column(maps, name).len() <= maps.len(),
    decreases maps.len(),
{
    if maps.len() > 0 {
        lemma_column_len(maps.drop_last(), name);
    }
}

proof fn lemma_sum_bounds(s: Seq<i64>)
    ensures
        i64::MIN * s.len() <= sum_of(s) <= i64::MAX * s.len(),
    decreases s.len(),
{
    if s.len() > 0 {
        lemma_sum_bounds(s.drop_last());
    }
}

proof fn lemma_mean_bounds(s: Seq<i64>)
    requires
        s.len() > 0,
    ensures
        i64::MIN <= mean_of(s) <= i64::MAX,
{
    lemma_sum_bounds(s);
    let n = s.len() as int;
    let t = sum_of(s);
    if t >= 0 {
        assert(t / n <= i64::MAX) by (nonlinear_arith)
            requires
                n > 0,
                0 <= t <= i64::MAX * n,
        ;
    } else {
        assert((-t) / n <= -(i64::MIN as int)) by (nonlinear_arith)
            requires
                n > 0,
                0 <= -t <= -(i64::MIN as int) * n,
        ;
    }
}

/// The summary of one group of values collected under a name.
struct Group {
    name: String,
    max: i64,
    sum: i128,
    count: usize,
}

/// Values grouped by exact name, each group kept as its count, sum and maximum.
pub struct Grouping {
    groups: Vec<Group>,
    contents: Ghost<Map<Seq<char>, Seq<i64>>>,
}

impl Grouping {
    /// The values collected so far under each name.
    pub closed spec fn view(&self) -> Map<Seq<char>, Seq<i64>> {
        self.contents@
    }

    pub closed spec fn wf(&self) -> bool {
        &&& forall|i: int, j: int|
            0 <= i < j < self.groups@.len() ==> self.groups@[i].name@ != self.groups@[j].name@
        &&& forall|k: Seq<char>|
            self.contents@.contains_key(k) <==> exists|i: int|
                0 <= i < self.groups@.len() && #[trigger] self.groups@[i].name@ == k
        &&& forall|i: int|
            0 <= i < self.groups@.len() ==> {
                let g = #[trigger] self.groups@[i];
                let s = self.contents@[g.name@];
                &&& s.len() > 0
                &&& g.count == s.len()
                &&& g.sum == sum_of(s)
                &&& g.max == max_of(s)
            }
    }

    pub fn new() -> (r: Self)
        ensures
            r.wf(),
            r@ == Map::<Seq<char>, Seq<i64>>::empty(),
    {
        Grouping { groups: Vec::new(), contents: Ghost(Map::empty()) }
    }

    /// Adds `value` to the group of `name`, opening the group if needed.
    pub fn add(&mut self, name: &String, value: i64)
        requires
            old(self).wf(),
            old(self)@.contains_key(name@) ==> old(self)@[name@].len() < usize::MAX,
        ensures
            final(self).wf(),
            final(self)@ == old(self)@.insert(
                name@,
                if old(self)@.contains_key(name@) {
                    old(self)@[name@].push(value)
                } else {
                    seq![value]
                },
            ),
    {
        let mut j: usize = 0;
        while j < self.groups.len()
            invariant
                *self == *old(self),
                self.wf(),
                old(self)@.contains_key(name@) ==> old(self)@[name@].len() < usize::MAX,
                j <= self.groups.len(),
                forall|i: int| 0 <= i < j ==> self.groups@[i].name@ != name@,
            decreases self.groups.len() - j,
        {
            if self.groups[j].name == *name {
                assert(self.groups@[j as int].name@ == name@);
                assert(self.contents@.contains_key(name@));
                assert(old(self)@.contains_key(name@));
                let ghost s = self.contents@[name@];
                let ghost t = s.push(value);
                assert(t.drop_last() =~= s);
                proof {
                    lemma_sum_bounds(s);
                    let n = s.len() as int;
                    assert(n + 1 <= usize::MAX);
                    assert(usize::MAX <= 0xffff_ffff_ffff_ffff);
                    assert(i64::MIN * (n + 1) <= sum_of(t) <= i64::MAX * (n + 1)) by {
                        lemma_sum_bounds(t);
                    }
                    assert(i128::MIN <= i64::MIN * (n + 1) && i64::MAX * (n + 1) <= i128::MAX)
                        by (nonlinear_arith)
                        requires
                            0 <= n,
                            n + 1 <= usize::MAX,
                            n + 1 <= 0xffff_ffff_ffff_ffff,
                    ;
                }
                let old_max = self.groups[j].max;
                let g = Group {
                    name: name.clone(),
                    max: if value > old_max {
                        value
                    } else {
                        old_max
                    },
                    sum: self.groups[j].sum + value as i128,
                    count: self.groups[j].count + 1,
                };
                let ghost old_groups = self.groups@;
                self.groups.set(j, g);
                self.contents = Ghost(self.contents@.insert(name@, t));
                assert forall|i: int| 0 <= i < self.groups@.len() implies self.groups@[i].name@
                    == old_groups[i].name@ by {}
                assert forall|k: Seq<char>|
                    self.contents@.contains_key(k) <==> exists|i: int|
                        0 <= i < self.groups@.len() && #[trigger] self.groups@[i].name@ == k by {
                    if self.contents@.contains_key(k) && k != name@ {
                        let i = choose|i: int|
                            0 <= i < old_groups.len() && #[trigger] old_groups[i].name@ == k;
                        assert(self.groups@[i].name@ == k);
                    }
                }
                assert(self.wf());
                return;
            }
            j = j + 1;
        }
        let ghost t = seq![value];
        assert(t.drop_last() =~= Seq::<i64>::empty());
        assert(sum_of(Seq::<i64>::empty()) == 0);
        assert(sum_of(t) == value);
        assert(!self.contents@.contains_key(name@));
        let ghost pre = *self;
        let ghost old_groups = self.groups@;
        self.groups.push(Group { name: name.clone(), max: value, sum: value as i128, count: 1 });
        self.contents = Ghost(self.contents@.insert(name@, t));
        assert(self.groups@[self.groups@.len() - 1].name@ == name@);
        assert forall|i: int| 0 <= i < old_groups.len() implies self.groups@[i] == old_groups[i]
            && old_groups[i].name@ != name@ by {
            if old_groups[i].name@ == name@ {
                assert(old(self).contents@.contains_key(old_groups[i].name@));
            }
        }
        assert forall|k: Seq<char>|
            self.contents@.contains_key(k) <==> exists|i: int|
                0 <= i < self.groups@.len() && #[trigger] self.groups@[i].name@ == k by {
            if self.contents@.contains_key(k) && k != name@ {
                let i = choose|i: int| 0 <= i < old_groups.len() && #[trigger] old_groups[i].name@ == k;
                assert(self.groups@[i].name@ == k);
            }
            if exists|i: int| 0 <= i < self.groups@.len() && #[trigger] self.groups@[i].name@ == k {
                let i = choose|i: int| 0 <= i < self.groups@.len() && #[trigger] self.groups@[i].name@ == k;
                if i < old_groups.len() {
                    assert(old_groups[i].name@ == k);
                }
            }
        }
        assert forall|i: int| 0 <= i < self.groups@.len() implies {
            let g = #[trigger] self.groups@[i];
            let s = self.contents@[g.name@];
            &&& s.len() > 0
            &&& g.count == s.len()
            &&& g.sum == sum_of(s)
            &&& g.max == max_of(s)
        } by {
            if i < old_groups.len() {
                assert(pre.groups@[i] == old_groups[i]);
                assert(pre.contents@[old_groups[i].name@] == self.contents@[old_groups[i].name@]);
            } else {
                assert(self.groups@[i].name@ == name@);
                assert(self.contents@[name@] == t);
            }
        }
        assert(self.wf());
    }

    /// One `(name, value)` pair per group: the group reduced by `strat`.
    pub fn finish(&self, strat: Strat) -> (r: Vec<(String, i64)>)
        requires
            self.wf(),
        ensures
            unique_names(pair_names(r@)),
            pairs_map(pair_names(r@)) == Map::new(
                |k: Seq<char>| self@.contains_key(k),
                |k: Seq<char>| reduce(strat, self@[k]) as i64,
            ),
    {
        let mut out: Vec<(String, i64)> = Vec::new();
        let mut j: usize = 0;
        while j < self.groups.len()
            invariant
                self.wf(),
                j <= self.groups.len(),
                out@.len() == j,
                forall|i: int| 0 <= i < j ==> (#[trigger] out@[i]).0@ == self.groups@[i].name@,
                pairs_map(pair_names(out@)) == Map::new(
                    |k: Seq<char>| exists|i: int| 0 <= i < j && #[trigger] self.groups@[i].name@ == k,
                    |k: Seq<char>| reduce(strat, self@[k]) as i64,
                ),
            decreases self.groups.len() - j,
        {
            let g = &self.groups[j];
            let ghost s = self@[g.name@];
            let v: i64 = match strat {
                Strat::Max => g.max,
                Strat::Mean => {
                    proof {
                        lemma_mean_bounds(s);
                    }
                    let n: u128 = g.count as u128;
                    proof {
                        lemma_sum_bounds(s);
                        let c = s.len() as int;
                        assert(c <= usize::MAX);
                        assert(usize::MAX <= 0xffff_ffff_ffff_ffff);
                        assert(i128::MIN < i64::MIN * c) by (nonlinear_arith)
                            requires
                                0 < c <= 0xffff_ffff_ffff_ffff,
                        ;
                    }
                    if g.sum >= 0 {
                        ((g.sum as u128) / n) as i64
                    } else {
                        let q: u128 = ((-g.sum) as u128) / n;
                        -(q as i128) as i64
                    }
                },
            };
            let ghost before = out@;
            assert(v == reduce(strat, s) as i64);
            out.push((g.name.clone(), v));
            assert(pair_names(out@).drop_last() =~= pair_names(before));
            assert(pair_names(out@).last() == (g.name@, v));
            assert(pairs_map(pair_names(out@)) =~= Map::new(
                |k: Seq<char>| exists|i: int| 0 <= i < j + 1 && #[trigger] self.groups@[i].name@ == k,
                |k: Seq<char>| reduce(strat, self@[k]) as i64,
            ));
            j = j + 1;
        }
        assert(Map::new(
            |k: Seq<char>| exists|i: int| 0 <= i < j && #[trigger] self.groups@[i].name@ == k,
            |k: Seq<char>| reduce(strat, self@[k]) as i64,
        ) =~= Map::new(
            |k: Seq<char>| self@.contains_key(k),
            |k: Seq<char>| reduce(strat, self@[k]) as i64,
        ));
        out
    }
}

} // verus!
