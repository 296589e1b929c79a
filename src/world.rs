use vstd::prelude::*;

use crate::aggregate::{column, lemma_column_len, select_spec, Grouping};
use crate::commands::{
    effects_view, ApplyCommand, CommandView, Effect, EffectView, RandomCommand, SampleCommand,
    TDCommand, TDCommandQueue,
};
use crate::components::{
    lemma_pairs_map_domain, merged, par_names, pair_names, pairs_map, Apply, Entity, Sample,
    SampleValues, Strat,
};
use crate::text::{contains_chars, name_matches};
use crate::timer::TimerView;

verus! {

/// The parameter that a `Random` command sets.
pub const RANDOM_PARAM: &'static str = "gain";

/// Parameter values are fixed-point numbers: this many units make one.
pub const UNIT: i64 = 1_000_000;

/// Random values are drawn from zero up to, not including, this (two whole units).
pub const RANDOM_RANGE: i64 = 2 * UNIT;

/// Relies on `rand::thread_rng` and `Rng::gen_range` over a half-open integer
/// range: a uniformly drawn value of `lo..hi`. The call panics on an empty
/// range, which `requires` leaves out.
#[verifier::external_body]
fn draw_in(lo: i64, hi: i64) -> (r: i64)
    requires
        lo < hi,
    ensures
        lo <= r < hi,
{
    rand::Rng::gen_range(&mut rand::thread_rng(), lo..hi)
}

/// A fresh random value for a `Random` command.
pub fn random_value() -> (r: i64)
    ensures
        0 <= r < RANDOM_RANGE,
{
    draw_in(0, RANDOM_RANGE)
}

/// A sampled entity as plain values: its timer, its name filter and the
/// values observed so far.
pub struct SampledView {
    pub timer: TimerView,
    pub filter: Seq<char>,
    pub values: Map<Seq<char>, i64>,
}

pub struct ApplyView {
    pub filter: Seq<char>,
    pub strat: Strat,
}

/// An entity and the components it carries, as plain values.
pub struct RowView {
    pub entity: Entity,
    pub random: bool,
    pub sample: Option<SampledView>,
    pub apply: Option<ApplyView>,
}

/// No two entities stand for the same node.
pub open spec fn unique_ops(rows: Seq<RowView>) -> bool {
    forall|i: int, j: int| 0 <= i < j < rows.len() ==> rows[i].entity.op != rows[j].entity.op
}

/// Some entity stands for node `op`.
pub open spec fn has_op(rows: Seq<RowView>, op: u32) -> bool {
    exists|i: int| 0 <= i < rows.len() && rows[i].entity.op == op
}

/// The position of the entity that stands for node `op`.
pub open spec fn op_index(rows: Seq<RowView>, op: u32) -> int {
    choose|i: int| 0 <= i < rows.len() && rows[i].entity.op == op
}

/// A freshly spawned entity: no components.
pub open spec fn bare_row(e: Entity) -> RowView {
    RowView { entity: e, random: false, sample: None, apply: None }
}

/// The generation counter after a spawn; it stops at its largest value.
pub open spec fn next_generation(g: u64) -> u64 {
    if g < u64::MAX {
        (g + 1) as u64
    } else {
        g
    }
}

/// The entities after resolving node `op`: unchanged when one stands for it,
/// else with a new entity of generation `generation` at the end.
pub open spec fn resolved_rows(rows: Seq<RowView>, generation: u64, op: u32) -> Seq<RowView> {
    if has_op(rows, op) {
        rows
    } else {
        rows.push(bare_row(Entity { op, generation }))
    }
}

/// What each entity holds as sampled values, in entity order (nothing for an
/// entity that does not sample).
pub open spec fn sampled_maps(rows: Seq<RowView>) -> Seq<Map<Seq<char>, i64>> {
    rows.map_values(
        |r: RowView|
            match r.sample {
                Some(s) => s.values,
                None => Map::empty(),
            },
    )
}

/// One `Random` command per entity that carries `Random`, in entity order.
pub open spec fn random_cmds(rows: Seq<RowView>) -> Seq<CommandView>
    decreases rows.len(),
{
    if rows.len() == 0 {
        Seq::empty()
    } else {
        let rest = random_cmds(rows.drop_last());
        if rows.last().random {
            rest.push(CommandView::Random(rows.last().entity))
        } else {
            rest
        }
    }
}

/// One `Sample` command per sampling entity whose timer fires when advanced
/// by `dt` nanoseconds, in entity order.
pub open spec fn sample_cmds(rows: Seq<RowView>, dt: u64) -> Seq<CommandView>
    decreases rows.len(),
{
    if rows.len() == 0 {
        Seq::empty()
    } else {
        let rest = sample_cmds(rows.drop_last(), dt);
        match rows.last().sample {
            Some(s) => if s.timer.fires(dt) {
                rest.push(CommandView::Sample(rows.last().entity))
            } else {
                rest
            },
            None => rest,
        }
    }
}

/// The entity with its sampling timer, if any, advanced by `dt` nanoseconds.
pub open spec fn advance_row(r: RowView, dt: u64) -> RowView {
    match r.sample {
        Some(s) => RowView { sample: Some(SampledView { timer: s.timer.advanced(dt), ..s }), ..r },
        None => r,
    }
}

pub open spec fn advance_rows(rows: Seq<RowView>, dt: u64) -> Seq<RowView> {
    rows.map_values(|r: RowView| advance_row(r, dt))
}

/// The node and the `Apply` of each entity that carries one, in entity order.
pub open spec fn apply_specs(rows: Seq<RowView>) -> Seq<(u32, ApplyView)>
    decreases rows.len(),
{
    if rows.len() == 0 {
        Seq::empty()
    } else {
        let rest = apply_specs(rows.drop_last());
        match rows.last().apply {
            Some(a) => rest.push((rows.last().entity.op, a)),
            None => rest,
        }
    }
}

/// `cmd` sets on node `spec.0` what `spec.1` selects from `maps`.
pub open spec fn apply_cmd_for(
    maps: Seq<Map<Seq<char>, i64>>,
    spec: (u32, ApplyView),
    cmd: CommandView,
) -> bool {
    match cmd {
        CommandView::Apply(id, pairs) => {
            &&& id == spec.0
            &&& crate::components::unique_names(pairs)
            &&& pairs_map(pairs) == select_spec(maps, spec.1.filter, spec.1.strat)
        },
        _ => false,
    }
}

/// `cmds` holds one command per `Apply`, in order, each setting what it selects.
pub open spec fn applies(
    maps: Seq<Map<Seq<char>, i64>>,
    specs: Seq<(u32, ApplyView)>,
    cmds: Seq<CommandView>,
) -> bool {
    &&& cmds.len() == specs.len()
    &&& forall|i: int| 0 <= i < specs.len() ==> apply_cmd_for(maps, specs[i], #[trigger] cmds[i])
}

proof fn lemma_advance_keeps_applies(rows: Seq<RowView>, dt: u64)
    ensures
        apply_specs(advance_rows(rows, dt)) == apply_specs(rows),
        sampled_maps(advance_rows(rows, dt)) == sampled_maps(rows),
    decreases rows.len(),
{
    assert(sampled_maps(advance_rows(rows, dt)) =~= sampled_maps(rows));
    if rows.len() > 0 {
        lemma_advance_keeps_applies(rows.drop_last(), dt);
        assert(advance_rows(rows, dt).drop_last() =~= advance_rows(rows.drop_last(), dt));
    }
}

/// Some entity has handle `e`.
pub open spec fn has_entity(rows: Seq<RowView>, e: Entity) -> bool {
    exists|i: int| 0 <= i < rows.len() && rows[i].entity == e
}

/// The position of the entity with handle `e`.
pub open spec fn entity_index(rows: Seq<RowView>, e: Entity) -> int {
    choose|i: int| 0 <= i < rows.len() && rows[i].entity == e
}

/// Some entity has handle `e` and samples.
pub open spec fn is_sampling(rows: Seq<RowView>, e: Entity) -> bool {
    has_entity(rows, e) && rows[entity_index(rows, e)].sample is Some
}

/// What carrying out `cmd` asks of the surface, with `draw` the random value
/// for a `Random` command: a command whose entity is gone does nothing.
pub open spec fn plan_spec(rows: Seq<RowView>, cmd: CommandView, draw: i64) -> EffectView {
    match cmd {
        CommandView::Random(e) => if has_entity(rows, e) {
            EffectView::SetPars(e.op, seq![(RANDOM_PARAM@, draw)])
        } else {
            EffectView::Skip
        },
        CommandView::Sample(e) => if is_sampling(rows, e) {
            EffectView::FetchPars(e, e.op)
        } else {
            EffectView::Skip
        },
        CommandView::Apply(id, pairs) => EffectView::SetPars(id, pairs),
    }
}

/// `effect` sets on node `spec.0` what `spec.1` selects from `maps`.
pub open spec fn apply_effect_for(
    maps: Seq<Map<Seq<char>, i64>>,
    spec: (u32, ApplyView),
    effect: EffectView,
) -> bool {
    match effect {
        EffectView::SetPars(id, pairs) => {
            &&& id == spec.0
            &&& crate::components::unique_names(pairs)
            &&& pairs_map(pairs) == select_spec(maps, spec.1.filter, spec.1.strat)
        },
        _ => false,
    }
}

/// `effects` holds, in order, what carrying out each of `cmds` asks of the
/// surface, each `Random` command with some value drawn from its range.
pub open spec fn planned(rows: Seq<RowView>, cmds: Seq<CommandView>, effects: Seq<EffectView>) -> bool {
    &&& effects.len() == cmds.len()
    &&& forall|i: int| 0 <= i < cmds.len() ==> #[trigger] planned_at(rows, cmds[i], effects[i])
}

/// `effect` is what carrying out `cmd` asks of the surface, for some value
/// drawn from the random range.
pub open spec fn planned_at(rows: Seq<RowView>, cmd: CommandView, effect: EffectView) -> bool {
    exists|d: i64| 0 <= d < RANDOM_RANGE && effect == #[trigger] plan_spec(rows, cmd, d)
}

proof fn lemma_planned(
    rows: Seq<RowView>,
    cmds: Seq<CommandView>,
    effects: Seq<EffectView>,
    draws: Seq<i64>,
)
    requires
        effects.len() == cmds.len(),
        draws.len() == cmds.len(),
        forall|i: int|
            0 <= i < cmds.len() ==> 0 <= #[trigger] draws[i] < RANDOM_RANGE && effects[i] == plan_spec(
                rows,
                cmds[i],
                draws[i],
            ),
    ensures
        planned(rows, cmds, effects),
{
    assert forall|i: int| 0 <= i < cmds.len() implies #[trigger] planned_at(rows, cmds[i], effects[i]) by {
        let d = draws[i];
        assert(0 <= d < RANDOM_RANGE && effects[i] == plan_spec(rows, cmds[i], d));
    }
}

/// The values collected for name `k` after the first `i` entities and the
/// first `j` pairs of the next one, `vs`.
spec fn partial_column(
    maps: Seq<Map<Seq<char>, i64>>,
    i: int,
    vs: Seq<(Seq<char>, i64)>,
    j: int,
    k: Seq<char>,
) -> Seq<i64> {
    let base = column(maps.take(i), k);
    let seen = pairs_map(vs.take(j));
    if seen.contains_key(k) {
        base.push(seen[k])
    } else {
        base
    }
}

struct EntityRow {
    entity: Entity,
    random: bool,
    sample: Option<(Sample, SampleValues)>,
    apply: Option<Apply>,
}

impl EntityRow {
    spec fn view(&self) -> RowView {
        RowView {
            entity: self.entity,
            random: self.random,
            sample: match self.sample {
                Some((sm, vals)) => Some(
                    SampledView { timer: sm.timer@, filter: sm.filter@, values: vals@ },
                ),
                None => None,
            },
            apply: match self.apply {
                Some(a) => Some(ApplyView { filter: a.filter@, strat: a.strat }),
                None => None,
            },
        }
    }

    spec fn wf(&self) -> bool {
        match self.sample {
            Some((_, vals)) => vals.wf(),
            None => true,
        }
    }
}

spec fn rows_view(rows: Seq<EntityRow>) -> Seq<RowView> {
    rows.map_values(|r: EntityRow| r@)
}

/// The entity store, with the queue of commands that its behaviours produce.
pub struct PyWorld {
    rows: Vec<EntityRow>,
    generation: u64,
    commands: TDCommandQueue,
}

impl PyWorld {
    /// The entities in the order they were spawned.
    pub closed spec fn rows(&self) -> Seq<RowView> {
        rows_view(self.rows@)
    }

    /// The generation that the next spawned entity gets.
    pub closed spec fn generation(&self) -> u64 {
        self.generation
    }

    /// The commands waiting for the next drain, oldest first.
    pub closed spec fn queued(&self) -> Seq<CommandView> {
        self.commands@
    }

    /// Every entity's sampled values hold each name once.
    pub closed spec fn rows_wf(&self) -> bool {
        forall|i: int| 0 <= i < self.rows@.len() ==> (#[trigger] self.rows@[i]).wf()
    }

    pub open spec fn wf(&self) -> bool {
        &&& unique_ops(self.rows())
        &&& self.rows_wf()
    }

    /// An empty store with nothing queued.
    pub fn new() -> (r: Self)
        ensures
            r.wf(),
            r.rows() == Seq::<RowView>::empty(),
            r.queued() == Seq::<CommandView>::empty(),
    {
        let r = PyWorld { rows: Vec::new(), generation: 0, commands: TDCommandQueue::new() };
        assert(rows_view(r.rows@) =~= Seq::<RowView>::empty());
        r
    }

    /// Resolves node `td_id` to the index of its entity, spawning one if none
    /// stands for it.
    fn locate(&mut self, td_id: u32) -> (i: usize)
        requires
            old(self).wf(),
        ensures
            final(self).wf(),
            final(self).queued() == old(self).queued(),
            final(self).rows() == resolved_rows(old(self).rows(), old(self).generation(), td_id),
            final(self).generation() == (if has_op(old(self).rows(), td_id) {
                old(self).generation()
            } else {
                next_generation(old(self).generation())
            }),
            i == op_index(final(self).rows(), td_id),
            i < final(self).rows().len(),
            final(self).rows()[i as int].entity.op == td_id,
            final(self).rows@.len() == final(self).rows().len(),
    {
        let ghost rs = self.rows();
        if let Some(j) = self.find_op(td_id) {
            return j;
        }
        let e = Entity { op: td_id, generation: self.generation };
        self.rows.push(EntityRow { entity: e, random: false, sample: None, apply: None });
        if self.generation < u64::MAX {
            self.generation = self.generation + 1;
        }
        let i = self.rows.len() - 1;
        assert(self.rows() =~= rs.push(bare_row(e)));
        assert(self.rows()[i as int].entity.op == td_id);
        let ghost k = op_index(self.rows(), td_id);
        assert(k == i) by {
            if k != i {
                assert(self.rows()[k].entity.op == td_id);
                assert(rs[k].entity.op == td_id);
            }
        }
        assert(self.rows_wf()) by {
            assert forall|m: int| 0 <= m < self.rows@.len() implies (#[trigger] self.rows@[m]).wf() by {
                if m < rs.len() {
                    assert(self.rows@[m] == old(self).rows@[m]);
                }
            }
        }
        i
    }

    /// The entity that stands for node `td_id`, spawned if none does yet.
    pub fn id(&mut self, td_id: u32) -> (r: Entity)
        requires
            old(self).wf(),
        ensures
            final(self).wf(),
            final(self).queued() == old(self).queued(),
            final(self).rows() == resolved_rows(old(self).rows(), old(self).generation(), td_id),
            final(self).generation() == (if has_op(old(self).rows(), td_id) {
                old(self).generation()
            } else {
                next_generation(old(self).generation())
            }),
            r == final(self).rows()[op_index(final(self).rows(), td_id)].entity,
            r.op == td_id,
            has_op(old(self).rows(), td_id) ==> r == old(self).rows()[op_index(
                old(self).rows(),
                td_id,
            )].entity,
            !has_op(old(self).rows(), td_id) ==> r.generation == old(self).generation(),
    {
        let i = self.locate(td_id);
        self.rows[i].entity
    }

    /// The entities after resolving node `op`.
    pub open spec fn resolved(&self, op: u32) -> Seq<RowView> {
        resolved_rows(self.rows(), self.generation(), op)
    }

    /// The generation counter after resolving node `op`.
    pub open spec fn generation_after(&self, op: u32) -> u64 {
        if has_op(self.rows(), op) {
            self.generation()
        } else {
            next_generation(self.generation())
        }
    }

    /// The entity of node `td_id` (spawned if needed) carries `Random`.
    pub fn insert_random(&mut self, td_id: u32)
        requires
            old(self).wf(),
        ensures
            final(self).wf(),
            final(self).queued() == old(self).queued(),
            final(self).generation() == old(self).generation_after(td_id),
            ({
                let rs = old(self).resolved(td_id);
                let i = op_index(rs, td_id);
                final(self).rows() == rs.update(i, RowView { random: true, ..rs[i] })
            }),
    {
        self.set_random(td_id, true);
    }

    /// The entity of node `td_id` (spawned if needed) no longer carries `Random`.
    pub fn remove_random(&mut self, td_id: u32)
        requires
            old(self).wf(),
        ensures
            final(self).wf(),
            final(self).queued() == old(self).queued(),
            final(self).generation() == old(self).generation_after(td_id),
            ({
                let rs = old(self).resolved(td_id);
                let i = op_index(rs, td_id);
                final(self).rows() == rs.update(i, RowView { random: false, ..rs[i] })
            }),
    {
        self.set_random(td_id, false);
    }

    fn set_random(&mut self, td_id: u32, on: bool)
        requires
            old(self).wf(),
        ensures
            final(self).wf(),
            final(self).queued() == old(self).queued(),
            final(self).generation() == old(self).generation_after(td_id),
            ({
                let rs = old(self).resolved(td_id);
                let i = op_index(rs, td_id);
                final(self).rows() == rs.update(i, RowView { random: on, ..rs[i] })
            }),
    {
        let i = self.locate(td_id);
        let ghost rs = self.rows();
        let ghost before = self.rows@;
        self.rows[i].random = on;
        assert(self.rows() =~= rs.update(i as int, RowView { random: on, ..rs[i as int] }));
        assert(self.rows_wf()) by {
            assert forall|m: int| 0 <= m < self.rows@.len() implies (#[trigger] self.rows@[m]).wf() by {
                assert(before[m].wf());
            }
        }
    }

    /// The entity of node `td_id` (spawned if needed) samples, every
    /// `millis` milliseconds, its parameters whose names contain `filter`.
    /// Values it already sampled are kept.
    pub fn insert_sample(&mut self, td_id: u32, millis: u64, filter: String)
        requires
            old(self).wf(),
        ensures
            final(self).wf(),
            final(self).queued() == old(self).queued(),
            final(self).generation() == old(self).generation_after(td_id),
            ({
                let rs = old(self).resolved(td_id);
                let i = op_index(rs, td_id);
                let sampled = SampledView {
                    timer: TimerView { interval: millis as nat * 1_000_000, elapsed: 0 },
                    filter: filter@,
                    values: match rs[i].sample {
                        Some(s) => s.values,
                        None => Map::empty(),
                    },
                };
                final(self).rows() == rs.update(i, RowView { sample: Some(sampled), ..rs[i] })
            }),
    {
        let i = self.locate(td_id);
        let ghost rs = self.rows();
        let ghost before = self.rows@;
        let sample = Sample::new(millis, filter);
        let mut prior: Option<(Sample, SampleValues)> = None;
        std::mem::swap(&mut prior, &mut self.rows[i].sample);
        let values = match prior {
            Some((_, v)) => v,
            None => SampleValues::new(),
        };
        assert(before[i as int].wf());
        self.rows[i].sample = Some((sample, values));
        assert(self.rows() =~= rs.update(
            i as int,
            RowView {
                sample: Some(
                    SampledView {
                        timer: TimerView { interval: millis as nat * 1_000_000, elapsed: 0 },
                        filter: filter@,
                        values: match rs[i as int].sample {
                            Some(s) => s.values,
                            None => Map::empty(),
                        },
                    },
                ),
                ..rs[i as int]
            },
        ));
        assert(self.rows_wf()) by {
            assert forall|m: int| 0 <= m < self.rows@.len() implies (#[trigger] self.rows@[m]).wf() by {
                assert(before[m].wf());
            }
        }
    }

    /// The entity of node `td_id` (spawned if needed) no longer samples, and
    /// the values it sampled are gone.
    pub fn remove_sample(&mut self, td_id: u32)
        requires
            old(self).wf(),
        ensures
            final(self).wf(),
            final(self).queued() == old(self).queued(),
            final(self).generation() == old(self).generation_after(td_id),
            ({
                let rs = old(self).resolved(td_id);
                let i = op_index(rs, td_id);
                final(self).rows() == rs.update(i, RowView { sample: None, ..rs[i] })
            }),
    {
        let i = self.locate(td_id);
        let ghost rs = self.rows();
        let ghost before = self.rows@;
        self.rows[i].sample = None;
        assert(self.rows() =~= rs.update(i as int, RowView { sample: None, ..rs[i as int] }));
        assert(self.rows_wf()) by {
            assert forall|m: int| 0 <= m < self.rows@.len() implies (#[trigger] self.rows@[m]).wf() by {
                assert(before[m].wf());
            }
        }
    }

    /// The entity of node `td_id` (spawned if needed) applies, each tick, the
    /// reduction by `strat` of the sampled values whose names contain `filter`.
    pub fn insert_apply(&mut self, td_id: u32, filter: String, strat: Strat)
        requires
            old(self).wf(),
        ensures
            final(self).wf(),
            final(self).queued() == old(self).queued(),
            final(self).generation() == old(self).generation_after(td_id),
            ({
                let rs = old(self).resolved(td_id);
                let i = op_index(rs, td_id);
                final(self).rows() == rs.update(
                    i,
                    RowView { apply: Some(ApplyView { filter: filter@, strat }), ..rs[i] },
                )
            }),
    {
        let i = self.locate(td_id);
        let ghost rs = self.rows();
        let ghost before = self.rows@;
        let ghost f = filter@;
        self.rows[i].apply = Some(Apply::new(filter, strat));
        assert(self.rows() =~= rs.update(
            i as int,
            RowView { apply: Some(ApplyView { filter: f, strat }), ..rs[i as int] },
        ));
        assert(self.rows_wf()) by {
            assert forall|m: int| 0 <= m < self.rows@.len() implies (#[trigger] self.rows@[m]).wf() by {
                assert(before[m].wf());
            }
        }
    }

    /// The entity of node `td_id` (spawned if needed) no longer applies.
    pub fn remove_apply(&mut self, td_id: u32)
        requires
            old(self).wf(),
        ensures
            final(self).wf(),
            final(self).queued() == old(self).queued(),
            final(self).generation() == old(self).generation_after(td_id),
            ({
                let rs = old(self).resolved(td_id);
                let i = op_index(rs, td_id);
                final(self).rows() == rs.update(i, RowView { apply: None, ..rs[i] })
            }),
    {
        let i = self.locate(td_id);
        let ghost rs = self.rows();
        let ghost before = self.rows@;
        self.rows[i].apply = None;
        assert(self.rows() =~= rs.update(i as int, RowView { apply: None, ..rs[i as int] }));
        assert(self.rows_wf()) by {
            assert forall|m: int| 0 <= m < self.rows@.len() implies (#[trigger] self.rows@[m]).wf() by {
                assert(before[m].wf());
            }
        }
    }

    /// The values that an `Apply` with `filter` and `strat` sets: every
    /// sampled value whose name contains `filter`, grouped by exact name and
    /// reduced by `strat`.
    pub fn collect(&self, filter: &String, strat: Strat) -> (r: Vec<(String, i64)>)
        requires
            self.wf(),
        ensures
            crate::components::unique_names(pair_names(r@)),
            pairs_map(pair_names(r@)) == select_spec(sampled_maps(self.rows()), filter@, strat),
    {
        let ghost maps = sampled_maps(self.rows());
        let ghost f = filter@;
        let mut groups = Grouping::new();
        let mut i: usize = 0;
        while i < self.rows.len()
            invariant
                self.wf(),
                maps == sampled_maps(self.rows()),
                f == filter@,
                i <= self.rows.len(),
                groups.wf(),
                groups@ == Map::new(
                    |k: Seq<char>| contains_chars(k, f) && column(maps.take(i as int), k).len() > 0,
                    |k: Seq<char>| column(maps.take(i as int), k),
                ),
            decreases self.rows.len() - i,
        {
            assert(maps.take(i + 1).drop_last() =~= maps.take(i as int));
            match &self.rows[i].sample {
                Some((_, vals)) => {
                    let ghost vs = pair_names(vals.values@);
                    assert(self.rows@[i as int].wf());
                    assert(vs.take(0) =~= Seq::<(Seq<char>, i64)>::empty());
                    assert(groups@ =~= Map::new(
                        |k: Seq<char>|
                            contains_chars(k, f) && partial_column(maps, i as int, vs, 0, k).len()
                                > 0,
                        |k: Seq<char>| partial_column(maps, i as int, vs, 0, k),
                    ));
                    let mut j: usize = 0;
                    while j < vals.values.len()
                        invariant
                            self.wf(),
                            maps == sampled_maps(self.rows()),
                            f == filter@,
                            i < self.rows.len(),
                            vs == pair_names(vals.values@),
                            crate::components::unique_names(vs),
                            j <= vals.values.len(),
                            groups.wf(),
                            groups@ == Map::new(
                                |k: Seq<char>|
                                    contains_chars(k, f) && partial_column(
                                        maps,
                                        i as int,
                                        vs,
                                        j as int,
                                        k,
                                    ).len() > 0,
                                |k: Seq<char>| partial_column(maps, i as int, vs, j as int, k),
                            ),
                        decreases vals.values.len() - j,
                    {
                        let name = &vals.values[j].0;
                        let v = vals.values[j].1;
                        let ghost key = name@;
                        assert(vs.take(j + 1).drop_last() =~= vs.take(j as int));
                        assert(vs[j as int] == (key, v));
                        assert(!pairs_map(vs.take(j as int)).contains_key(key)) by {
                            lemma_pairs_map_domain(vs.take(j as int), key);
                            if pairs_map(vs.take(j as int)).contains_key(key) {
                                let l = choose|l: int|
                                    0 <= l < vs.take(j as int).len() && vs.take(j as int)[l].0 == key;
                                assert(vs[l].0 == vs[j as int].0);
                            }
                        }
                        assert(vs.take(j + 1).last() == (key, v));
                        assert(pairs_map(vs.take(j + 1)) == pairs_map(vs.take(j as int)).insert(
                            key,
                            v,
                        ));
                        proof {
                            lemma_column_len(maps.take(i as int), key);
                        }
                        if name_matches(name, filter) {
                            let ghost col = column(maps.take(i as int), key);
                            assert(groups@.contains_key(key) <==> col.len() > 0);
                            proof {
                                if col.len() == 0 {
                                    assert(col.push(v) =~= seq![v]);
                                }
                            }
                            groups.add(name, v);
                            assert(partial_column(maps, i as int, vs, j + 1, key) == col.push(v));
                            assert(groups@ =~= Map::new(
                                |k: Seq<char>|
                                    contains_chars(k, f) && partial_column(
                                        maps,
                                        i as int,
                                        vs,
                                        j + 1,
                                        k,
                                    ).len() > 0,
                                |k: Seq<char>| partial_column(maps, i as int, vs, j + 1, k),
                            ));
                        } else {
                            assert(groups@ =~= Map::new(
                                |k: Seq<char>|
                                    contains_chars(k, f) && partial_column(
                                        maps,
                                        i as int,
                                        vs,
                                        j + 1,
                                        k,
                                    ).len() > 0,
                                |k: Seq<char>| partial_column(maps, i as int, vs, j + 1, k),
                            ));
                        }
                        j = j + 1;
                    }
                    assert(vs.take(j as int) =~= vs);
                    assert(maps[i as int] == pairs_map(vs));
                    assert(groups@ =~= Map::new(
                        |k: Seq<char>| contains_chars(k, f) && column(maps.take(i + 1), k).len() > 0,
                        |k: Seq<char>| column(maps.take(i + 1), k),
                    ));
                },
                None => {
                    assert(maps[i as int] == Map::<Seq<char>, i64>::empty());
                    assert(groups@ =~= Map::new(
                        |k: Seq<char>| contains_chars(k, f) && column(maps.take(i + 1), k).len() > 0,
                        |k: Seq<char>| column(maps.take(i + 1), k),
                    ));
                },
            }
            i = i + 1;
        }
        assert(maps.take(i as int) =~= maps);
        let r = groups.finish(strat);
        assert(pairs_map(pair_names(r@)) =~= select_spec(maps, f, strat));
        r
    }

    /// Queues a `Random` command for each entity that carries `Random`.
    pub fn randomize_pars(&mut self)
        requires
            old(self).wf(),
        ensures
            final(self).wf(),
            final(self).rows() == old(self).rows(),
            final(self).generation() == old(self).generation(),
            final(self).queued() == old(self).queued() + random_cmds(old(self).rows()),
    {
        let ghost rs = self.rows();
        let mut i: usize = 0;
        while i < self.rows.len()
            invariant
                self.wf(),
                self.rows == old(self).rows,
                self.generation == old(self).generation,
                rs == self.rows(),
                i <= self.rows.len(),
                self.queued() == old(self).queued() + random_cmds(rs.take(i as int)),
            decreases self.rows.len() - i,
        {
            assert(rs.take(i + 1).drop_last() =~= rs.take(i as int));
            if self.rows[i].random {
                let e = self.rows[i].entity;
                self.commands.queue(TDCommand::Random(RandomCommand { op: e }));
            }
            i = i + 1;
        }
        assert(rs.take(i as int) =~= rs);
    }

    /// Advances each sampling entity's timer by `dt` nanoseconds and queues a
    /// `Sample` command for each one that fires.
    pub fn sample_ops(&mut self, dt: u64)
        requires
            old(self).wf(),
        ensures
            final(self).wf(),
            final(self).rows() == advance_rows(old(self).rows(), dt),
            final(self).generation() == old(self).generation(),
            final(self).queued() == old(self).queued() + sample_cmds(old(self).rows(), dt),
    {
        let ghost rs = self.rows();
        let mut i: usize = 0;
        while i < self.rows.len()
            invariant
                rs == old(self).rows(),
                old(self).wf(),
                self.rows_wf(),
                self.generation == old(self).generation,
                self.rows@.len() == rs.len(),
                i <= self.rows.len(),
                forall|m: int| 0 <= m < i ==> self.rows()[m] == advance_row(rs[m], dt),
                forall|m: int| i <= m < rs.len() ==> self.rows@[m] == old(self).rows@[m],
                self.queued() == old(self).queued() + sample_cmds(rs.take(i as int), dt),
            decreases self.rows.len() - i,
        {
            assert(rs.take(i + 1).drop_last() =~= rs.take(i as int));
            let ghost before = self.rows@;
            let ghost head = self.rows();
            let mut taken: Option<(Sample, SampleValues)> = None;
            std::mem::swap(&mut taken, &mut self.rows[i].sample);
            let fired = match taken {
                Some((mut sm, vals)) => {
                    let f = sm.timer.advance(dt);
                    self.rows[i].sample = Some((sm, vals));
                    f
                },
                None => {
                    self.rows[i].sample = None;
                    false
                },
            };
            assert(self.rows()[i as int] == advance_row(rs[i as int], dt));
            assert forall|m: int| 0 <= m < self.rows@.len() && m != i implies self.rows@[m]
                == before[m] by {}
            assert forall|m: int| 0 <= m <= i implies self.rows()[m] == advance_row(rs[m], dt) by {
                if m < i {
                    assert(head[m] == advance_row(rs[m], dt));
                    assert(self.rows@[m] == before[m]);
                }
            }
            assert(self.rows_wf()) by {
                assert forall|m: int| 0 <= m < self.rows@.len() implies (#[trigger] self.rows@[m]).wf() by {
                    assert(before[m].wf());
                }
            }
            if fired {
                let e = self.rows[i].entity;
                self.commands.queue(TDCommand::Sample(SampleCommand(e)));
            }
            i = i + 1;
        }
        assert(rs.take(i as int) =~= rs);
        assert(self.rows() =~= advance_rows(rs, dt));
    }

    /// Queues, for each entity that carries `Apply`, one `Apply` command that
    /// sets on its node what the `Apply` selects from all sampled values.
    pub fn select(&mut self)
        requires
            old(self).wf(),
        ensures
            final(self).wf(),
            final(self).rows() == old(self).rows(),
            final(self).generation() == old(self).generation(),
            final(self).queued().len() == old(self).queued().len() + apply_specs(old(self).rows()).len(),
            final(self).queued().take(old(self).queued().len() as int) == old(self).queued(),
            applies(
                sampled_maps(old(self).rows()),
                apply_specs(old(self).rows()),
                final(self).queued().skip(old(self).queued().len() as int),
            ),
    {
        let ghost rs = self.rows();
        let ghost maps = sampled_maps(rs);
        let ghost n = self.queued().len();
        let mut i: usize = 0;
        while i < self.rows.len()
            invariant
                self.wf(),
                self.rows == old(self).rows,
                self.generation == old(self).generation,
                rs == self.rows(),
                maps == sampled_maps(rs),
                n == old(self).queued().len(),
                i <= self.rows.len(),
                self.queued().len() >= n,
                self.queued().take(n as int) == old(self).queued(),
                applies(maps, apply_specs(rs.take(i as int)), self.queued().skip(n as int)),
            decreases self.rows.len() - i,
        {
            assert(rs.take(i + 1).drop_last() =~= rs.take(i as int));
            let ghost q0 = self.queued();
            match &self.rows[i].apply {
                Some(a) => {
                    let vals = self.collect(&a.filter, a.strat);
                    let id = self.rows[i].entity.op;
                    let cmd = TDCommand::Apply(ApplyCommand { id, vals });
                    let ghost c = cmd@;
                    self.commands.queue(cmd);
                    assert(self.queued().take(n as int) =~= q0.take(n as int));
                    assert(self.queued().skip(n as int) =~= q0.skip(n as int).push(c));
                    assert(apply_specs(rs.take(i + 1)) == apply_specs(rs.take(i as int)).push(
                        (id, rs[i as int].apply->0),
                    ));
                },
                None => {},
            }
            i = i + 1;
        }
        assert(rs.take(i as int) =~= rs);
    }

    /// The Update phase of a tick in which `dt` nanoseconds passed: the
    /// `Random`, then the `Sample`, then the `Apply` behaviour.
    pub fn run_update(&mut self, dt: u64)
        requires
            old(self).wf(),
        ensures
            final(self).wf(),
            final(self).rows() == advance_rows(old(self).rows(), dt),
            final(self).generation() == old(self).generation(),
            ({
                let fixed = old(self).queued() + random_cmds(old(self).rows()) + sample_cmds(
                    old(self).rows(),
                    dt,
                );
                &&& final(self).queued().len() == fixed.len() + apply_specs(old(self).rows()).len()
                &&& final(self).queued().take(fixed.len() as int) == fixed
                &&& applies(
                    sampled_maps(old(self).rows()),
                    apply_specs(old(self).rows()),
                    final(self).queued().skip(fixed.len() as int),
                )
            }),
    {
        self.randomize_pars();
        self.sample_ops(dt);
        proof {
            lemma_advance_keeps_applies(old(self).rows(), dt);
        }
        self.select();
    }

    /// The position of the entity with handle `e`, if there is one.
    fn find_entity(&self, e: Entity) -> (r: Option<usize>)
        requires
            self.wf(),
        ensures
            r is Some <==> has_entity(self.rows(), e),
            r is Some ==> r->0 == entity_index(self.rows(), e) && r->0 < self.rows@.len(),
    {
        let ghost rs = self.rows();
        let mut j: usize = 0;
        while j < self.rows.len()
            invariant
                self.wf(),
                rs == self.rows(),
                j <= self.rows.len(),
                forall|k: int| 0 <= k < j ==> rs[k].entity != e,
            decreases self.rows.len() - j,
        {
            if self.rows[j].entity == e {
                assert(rs[j as int].entity == e);
                let ghost k = entity_index(rs, e);
                assert(k == j) by {
                    if k != j {
                        assert(rs[k].entity.op == e.op);
                    }
                }
                return Some(j);
            }
            j = j + 1;
        }
        None
    }

    /// What carrying out `cmd` asks of the surface, `draw` being the random
    /// value that a `Random` command sets.
    pub fn plan(&self, cmd: TDCommand, draw: i64) -> (r: Effect)
        requires
            self.wf(),
        ensures
            r@ == plan_spec(self.rows(), cmd@, draw),
    {
        match cmd {
            TDCommand::Random(c) => {
                match self.find_entity(c.op) {
                    Some(_) => {
                        let mut pars: Vec<(String, i64)> = Vec::new();
                        pars.push((RANDOM_PARAM.to_owned(), draw));
                        assert(pair_names(pars@) =~= seq![(RANDOM_PARAM@, draw)]);
                        Effect::SetPars { id: c.op.op, pars }
                    },
                    None => Effect::Skip,
                }
            },
            TDCommand::Sample(c) => {
                match self.find_entity(c.0) {
                    Some(i) => {
                        if self.rows[i].sample.is_some() {
                            Effect::FetchPars { entity: c.0, id: c.0.op }
                        } else {
                            Effect::Skip
                        }
                    },
                    None => Effect::Skip,
                }
            },
            TDCommand::Apply(c) => Effect::SetPars { id: c.id, pars: c.vals },
        }
    }

    /// The Deferred Applier's part: empties the queue and hands back, in
    /// queue order, what each command asks of the surface.
    pub fn apply_deferred_td(&mut self) -> (r: Vec<Effect>)
        requires
            old(self).wf(),
        ensures
            final(self).wf(),
            final(self).rows() == old(self).rows(),
            final(self).generation() == old(self).generation(),
            final(self).queued() == Seq::<CommandView>::empty(),
            planned(old(self).rows(), old(self).queued(), effects_view(r@)),
    {
        let mut cmds = self.commands.drain();
        let ghost q = crate::commands::commands_view(cmds@);
        let ghost rs = self.rows();
        let mut out: Vec<Effect> = Vec::new();
        let ghost mut draws: Seq<i64> = Seq::empty();
        while cmds.len() > 0
            invariant
                self.wf(),
                rs == self.rows(),
                self.rows() == old(self).rows(),
                self.generation() == old(self).generation(),
                self.queued() == Seq::<CommandView>::empty(),
                q == old(self).queued(),
                out@.len() + cmds@.len() == q.len(),
                draws.len() == out@.len(),
                crate::commands::commands_view(cmds@) == q.skip(out@.len() as int),
                forall|i: int|
                    0 <= i < out@.len() ==> 0 <= #[trigger] draws[i] < RANDOM_RANGE
                        && effects_view(out@)[i] == plan_spec(rs, q[i], draws[i]),
            decreases cmds.len(),
        {
            let ghost k = out@.len() as int;
            let ghost c0 = cmds@;
            assert(crate::commands::commands_view(c0)[0] == q.skip(k)[0]);
            let cmd = cmds.remove(0);
            assert(cmd@ == q[k]);
            assert(cmds@ =~= c0.subrange(1, c0.len() as int));
            assert(crate::commands::commands_view(cmds@) =~= crate::commands::commands_view(
                c0,
            ).subrange(1, c0.len() as int));
            assert(crate::commands::commands_view(cmds@) =~= q.skip(k + 1));
            let draw = random_value();
            let e = self.plan(cmd, draw);
            let ghost before = out@;
            out.push(e);
            proof {
                draws = draws.push(draw);
                assert forall|i: int| 0 <= i < out@.len() implies 0 <= #[trigger] draws[i] < RANDOM_RANGE
                    && effects_view(out@)[i] == plan_spec(rs, q[i], draws[i]) by {
                    if i < k {
                        assert(effects_view(out@)[i] == effects_view(before)[i]);
                    }
                }
            }
        }
        proof {
            lemma_planned(rs, q, effects_view(out@), draws);
        }
        out
    }

    /// The Sample command's second half: takes in the parameters read from
    /// entity `e`'s node (`None` for a value that is not a number), keeping
    /// those whose names contain the entity's sample filter. Nothing happens
    /// if `e` is gone or no longer samples.
    pub fn record_sample(&mut self, e: Entity, pars: &Vec<(String, Option<i64>)>)
        requires
            old(self).wf(),
        ensures
            final(self).wf(),
            final(self).queued() == old(self).queued(),
            final(self).generation() == old(self).generation(),
            final(self).rows() == (if is_sampling(old(self).rows(), e) {
                let rs = old(self).rows();
                let i = entity_index(rs, e);
                let s = rs[i].sample->0;
                rs.update(
                    i,
                    RowView {
                        sample: Some(
                            SampledView { values: merged(s.values, par_names(pars@), s.filter), ..s },
                        ),
                        ..rs[i]
                    },
                )
            } else {
                old(self).rows()
            }),
    {
        let ghost rs = self.rows();
        let ghost before = self.rows@;
        match self.find_entity(e) {
            Some(i) => {
                let mut taken: Option<(Sample, SampleValues)> = None;
                std::mem::swap(&mut taken, &mut self.rows[i].sample);
                match taken {
                    Some((sm, mut vals)) => {
                        assert(before[i as int].wf());
                        vals.merge(pars, &sm.filter);
                        self.rows[i].sample = Some((sm, vals));
                    },
                    None => {
                        self.rows[i].sample = None;
                        assert(self.rows@ =~= before);
                    },
                }
                assert(self.rows_wf()) by {
                    assert forall|m: int| 0 <= m < self.rows@.len() implies (#[trigger] self.rows@[m]).wf() by {
                        assert(before[m].wf());
                    }
                }
                assert(self.rows() =~= (if is_sampling(rs, e) {
                    let i = entity_index(rs, e);
                    let s = rs[i].sample->0;
                    rs.update(
                        i,
                        RowView {
                            sample: Some(
                                SampledView { values: merged(s.values, par_names(pars@), s.filter), ..s },
                            ),
                            ..rs[i]
                        },
                    )
                } else {
                    rs
                }));
            },
            None => {},
        }
    }

    /// One tick in which `dt` nanoseconds passed: the Update phase, then the
    /// drain. Hands back what each drained command asks of the surface.
    pub fn run(&mut self, dt: u64) -> (r: Vec<Effect>)
        requires
            old(self).wf(),
        ensures
            final(self).wf(),
            final(self).rows() == advance_rows(old(self).rows(), dt),
            final(self).generation() == old(self).generation(),
            final(self).queued() == Seq::<CommandView>::empty(),
            ({
                let fixed = old(self).queued() + random_cmds(old(self).rows()) + sample_cmds(
                    old(self).rows(),
                    dt,
                );
                let specs = apply_specs(old(self).rows());
                let ev = effects_view(r@);
                &&& ev.len() == fixed.len() + specs.len()
                &&& planned(advance_rows(old(self).rows(), dt), fixed, ev.take(fixed.len() as int))
                &&& forall|j: int|
                    0 <= j < specs.len() ==> apply_effect_for(
                        sampled_maps(old(self).rows()),
                        specs[j],
                        #[trigger] ev[fixed.len() + j],
                    )
            }),
    {
        self.run_update(dt);
        let ghost q = self.queued();
        let ghost rs = self.rows();
        let r = self.apply_deferred_td();
        proof {
            let fixed = old(self).queued() + random_cmds(old(self).rows()) + sample_cmds(
                old(self).rows(),
                dt,
            );
            let specs = apply_specs(old(self).rows());
            let maps = sampled_maps(old(self).rows());
            let ev = effects_view(r@);
            let n = fixed.len() as int;
            assert forall|i: int| 0 <= i < n implies #[trigger] planned_at(
                rs,
                fixed[i],
                ev.take(n)[i],
            ) by {
                assert(q[i] == q.take(n)[i]);
                assert(planned_at(rs, q[i], ev[i]));
            }
            assert forall|j: int| 0 <= j < specs.len() implies apply_effect_for(
                maps,
                specs[j],
                #[trigger] ev[n + j],
            ) by {
                assert(q.skip(n)[j] == q[n + j]);
                assert(apply_cmd_for(maps, specs[j], q.skip(n)[j]));
                assert(planned_at(rs, q[n + j], ev[n + j]));
                let d = choose|d: i64|
                    0 <= d < RANDOM_RANGE && ev[n + j] == #[trigger] plan_spec(rs, q[n + j], d);
            }
        }
        r
    }

    /// How many commands wait for the next drain.
    pub fn queued_len(&self) -> (r: usize)
        ensures
            r == self.queued().len(),
    {
        self.commands.len()
    }

    /// The position of the entity of node `td_id`, if there is one.
    fn find_op(&self, td_id: u32) -> (r: Option<usize>)
        requires
            self.wf(),
        ensures
            r is Some <==> has_op(self.rows(), td_id),
            r is Some ==> r->0 == op_index(self.rows(), td_id) && r->0 < self.rows@.len(),
    {
        let ghost rs = self.rows();
        let mut j: usize = 0;
        while j < self.rows.len()
            invariant
                self.wf(),
                rs == self.rows(),
                j <= self.rows.len(),
                forall|k: int| 0 <= k < j ==> rs[k].entity.op != td_id,
            decreases self.rows.len() - j,
        {
            if self.rows[j].entity.op == td_id {
                assert(rs[j as int].entity.op == td_id);
                let ghost k = op_index(rs, td_id);
                assert(k == j) by {
                    if k != j {
                        assert(rs[k].entity.op == td_id);
                    }
                }
                return Some(j);
            }
            j = j + 1;
        }
        None
    }

    /// Whether an entity stands for node `td_id`.
    pub fn contains(&self, td_id: u32) -> (r: bool)
        requires
            self.wf(),
        ensures
            r == has_op(self.rows(), td_id),
    {
        self.find_op(td_id).is_some()
    }

    /// How many entities there are.
    pub fn entity_count(&self) -> (r: usize)
        ensures
            r == self.rows().len(),
    {
        self.rows.len()
    }

    /// The value that node `td_id`'s entity last sampled under `name`, if
    /// that entity exists, samples, and has sampled that name.
    pub fn sampled_value(&self, td_id: u32, name: &String) -> (r: Option<i64>)
        requires
            self.wf(),
        ensures
            r == (if has_op(self.rows(), td_id) && self.rows()[op_index(
                self.rows(),
                td_id,
            )].sample is Some && self.rows()[op_index(
                self.rows(),
                td_id,
            )].sample->0.values.contains_key(name@) {
                Some(self.rows()[op_index(self.rows(), td_id)].sample->0.values[name@])
            } else {
                None::<i64>
            }),
    {
        match self.find_op(td_id) {
            Some(i) => match &self.rows[i].sample {
                Some((_, vals)) => {
                    assert(self.rows@[i as int].wf());
                    vals.get(name)
                },
                None => None,
            },
            None => None,
        }
    }

    /// Removes the entity of node `td_id`, with all its components, if there is one.
    pub fn despawn(&mut self, td_id: u32)
        requires
            old(self).wf(),
        ensures
            final(self).wf(),
            final(self).queued() == old(self).queued(),
            final(self).generation() == old(self).generation(),
            final(self).rows() == (if has_op(old(self).rows(), td_id) {
                old(self).rows().remove(op_index(old(self).rows(), td_id))
            } else {
                old(self).rows()
            }),
    {
        let ghost rs = self.rows();
        match self.find_op(td_id) {
            Some(j) => {
                let ghost before = self.rows@;
                self.rows.remove(j);
                assert(self.rows() =~= rs.remove(j as int));
                assert(self.rows_wf()) by {
                    assert forall|m: int| 0 <= m < self.rows@.len() implies (#[trigger] self.rows@[m]).wf() by {
                        if m < j {
                            assert(before[m].wf());
                        } else {
                            assert(before[m + 1].wf());
                        }
                    }
                }
            },
            None => {},
        }
    }
}

} // verus!
