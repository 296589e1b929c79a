use vstd::prelude::*;

use crate::commands::{CommandView, EffectView};
use crate::components::Entity;
use crate::world::{
    advance_rows, apply_specs, has_entity, has_op, op_index, plan_spec, planned, planned_at,
    random_cmds, resolved_rows, sample_cmds, sampled_maps, unique_ops, RowView, RANDOM_PARAM,
    RANDOM_RANGE,
};

verus! {

/// How many times `c` occurs in `s`.
pub open spec fn count_of(s: Seq<CommandView>, c: CommandView) -> nat
    decreases s.len(),
{
    if s.len() == 0 {
        0
    } else {
        count_of(s.drop_last(), c) + if s.last() == c {
            1nat
        } else {
            0nat
        }
    }
}

proof fn lemma_count_push(s: Seq<CommandView>, x: CommandView, c: CommandView)
    ensures
        count_of(s.push(x), c) == count_of(s, c) + if x == c {
            1nat
        } else {
            0nat
        },
{
    assert(s.push(x).drop_last() =~= s);
}

proof fn lemma_unique_rest(rows: Seq<RowView>)
    requires
        unique_ops(rows),
        rows.len() > 0,
    ensures
        unique_ops(rows.drop_last()),
{
}

/// Resolving a node a second time finds the entity that the first
/// resolution gave and changes nothing, whatever the generation counter.
pub proof fn lemma_resolve_idempotent(rows: Seq<RowView>, g1: u64, g2: u64, op: u32)
    ensures
        has_op(resolved_rows(rows, g1, op), op),
        resolved_rows(resolved_rows(rows, g1, op), g2, op) == resolved_rows(rows, g1, op),
{
    if !has_op(rows, op) {
        let once = resolved_rows(rows, g1, op);
        assert(once[rows.len() as int].entity.op == op);
    }
}

/// A drain of an empty queue carries out nothing, so a command drained once
/// is never carried out again.
pub proof fn lemma_drained_queue_yields_nothing(rows: Seq<RowView>, effects: Seq<EffectView>)
    requires
        planned(rows, Seq::<CommandView>::empty(), effects),
    ensures
        effects.len() == 0,
{
}

proof fn lemma_no_random_for(rows: Seq<RowView>, e: Entity)
    requires
        !has_entity(rows, e),
    ensures
        count_of(random_cmds(rows), CommandView::Random(e)) == 0,
    decreases rows.len(),
{
    if rows.len() > 0 {
        assert(!has_entity(rows.drop_last(), e)) by {
            if has_entity(rows.drop_last(), e) {
                let i = choose|i: int| 0 <= i < rows.drop_last().len() && rows.drop_last()[i].entity == e;
                assert(rows[i].entity == e);
            }
        }
        lemma_no_random_for(rows.drop_last(), e);
        assert(rows.last().entity != e);
        lemma_count_push(random_cmds(rows.drop_last()), CommandView::Random(rows.last().entity), CommandView::Random(e));
    }
}

proof fn lemma_no_sample_for(rows: Seq<RowView>, dt: u64, e: Entity)
    requires
        !has_entity(rows, e),
    ensures
        count_of(sample_cmds(rows, dt), CommandView::Sample(e)) == 0,
    decreases rows.len(),
{
    if rows.len() > 0 {
        assert(!has_entity(rows.drop_last(), e)) by {
            if has_entity(rows.drop_last(), e) {
                let i = choose|i: int| 0 <= i < rows.drop_last().len() && rows.drop_last()[i].entity == e;
                assert(rows[i].entity == e);
            }
        }
        lemma_no_sample_for(rows.drop_last(), dt, e);
        assert(rows.last().entity != e);
        lemma_count_push(sample_cmds(rows.drop_last(), dt), CommandView::Sample(rows.last().entity), CommandView::Sample(e));
    }
}

/// However many intervals one tick spans, a sampling entity whose timer
/// reaches its interval yields exactly one `Sample` command, and its timer
/// restarts from zero.
pub proof fn lemma_no_catch_up(rows: Seq<RowView>, dt: u64, i: int)
    requires
        unique_ops(rows),
        0 <= i < rows.len(),
        rows[i].sample is Some,
        rows[i].sample->0.timer.elapsed + dt >= rows[i].sample->0.timer.interval,
    ensures
        count_of(sample_cmds(rows, dt), CommandView::Sample(rows[i].entity)) == 1,
        advance_rows(rows, dt)[i].sample->0.timer.elapsed == 0,
    decreases rows.len(),
{
    let e = rows[i].entity;
    let rest = rows.drop_last();
    if i == rows.len() - 1 {
        assert(!has_entity(rest, e)) by {
            if has_entity(rest, e) {
                let k = choose|k: int| 0 <= k < rest.len() && rest[k].entity == e;
                assert(rows[k].entity.op == rows[i].entity.op);
            }
        }
        lemma_no_sample_for(rest, dt, e);
        lemma_count_push(sample_cmds(rest, dt), CommandView::Sample(e), CommandView::Sample(e));
    } else {
        lemma_unique_rest(rows);
        lemma_no_catch_up(rest, dt, i);
        assert(rows.last().entity != e);
        lemma_count_push(sample_cmds(rest, dt), CommandView::Sample(rows.last().entity), CommandView::Sample(e));
    }
}

/// An entity carrying `Random` yields exactly one `Random` command in a tick.
pub proof fn lemma_one_random_command(rows: Seq<RowView>, i: int)
    requires
        unique_ops(rows),
        0 <= i < rows.len(),
        rows[i].random,
    ensures
        count_of(random_cmds(rows), CommandView::Random(rows[i].entity)) == 1,
    decreases rows.len(),
{
    let e = rows[i].entity;
    let rest = rows.drop_last();
    if i == rows.len() - 1 {
        assert(!has_entity(rest, e)) by {
            if has_entity(rest, e) {
                let k = choose|k: int| 0 <= k < rest.len() && rest[k].entity == e;
                assert(rows[k].entity.op == rows[i].entity.op);
            }
        }
        lemma_no_random_for(rest, e);
        lemma_count_push(random_cmds(rest), CommandView::Random(e), CommandView::Random(e));
    } else {
        lemma_unique_rest(rows);
        lemma_one_random_command(rest, i);
        assert(rows.last().entity != e);
        lemma_count_push(random_cmds(rest), CommandView::Random(rows.last().entity), CommandView::Random(e));
    }
}

/// After `Random` is put on node `op`, one tick yields exactly one `Random`
/// command for its entity, and carrying it out sets the node's randomized
/// parameter, alone, to a value in the random range.
pub proof fn lemma_random_round_trip(
    rows: Seq<RowView>,
    generation: u64,
    op: u32,
    dt: u64,
    effects: Seq<EffectView>,
)
    requires
        unique_ops(rows),
        ({
            let rs = resolved_rows(rows, generation, op);
            let k = op_index(rs, op);
            let with = rs.update(k, RowView { random: true, ..rs[k] });
            let fixed = random_cmds(with) + sample_cmds(with, dt);
            planned(advance_rows(with, dt), fixed, effects)
        }),
    ensures
        ({
            let rs = resolved_rows(rows, generation, op);
            let k = op_index(rs, op);
            let with = rs.update(k, RowView { random: true, ..rs[k] });
            let e = with[k].entity;
            let fixed = random_cmds(with) + sample_cmds(with, dt);
            &&& e.op == op
            &&& count_of(random_cmds(with), CommandView::Random(e)) == 1
            &&& forall|j: int|
                0 <= j < fixed.len() && #[trigger] fixed[j] == CommandView::Random(e) ==> exists|
                    d: i64,
                | 0 <= d < RANDOM_RANGE && effects[j] == EffectView::SetPars(
                    op,
                    seq![(RANDOM_PARAM@, d)],
                )
        }),
{
    let rs = resolved_rows(rows, generation, op);
    lemma_resolve_idempotent(rows, generation, generation, op);
    let k = op_index(rs, op);
    assert(0 <= k < rs.len() && rs[k].entity.op == op);
    assert(unique_ops(rs)) by {
        if !has_op(rows, op) {
            assert forall|a: int, b: int| 0 <= a < b < rs.len() implies rs[a].entity.op
                != rs[b].entity.op by {
                if b == rows.len() {
                    assert(rows[a].entity.op == rs[a].entity.op);
                }
            }
        }
    }
    let with = rs.update(k, RowView { random: true, ..rs[k] });
    assert(unique_ops(with)) by {
        assert forall|a: int, b: int| 0 <= a < b < with.len() implies with[a].entity.op
            != with[b].entity.op by {
            assert(with[a].entity == rs[a].entity);
            assert(with[b].entity == rs[b].entity);
        }
    }
    lemma_one_random_command(with, k);
    let e = with[k].entity;
    let adv = advance_rows(with, dt);
    let fixed = random_cmds(with) + sample_cmds(with, dt);
    assert forall|j: int|
        0 <= j < fixed.len() && #[trigger] fixed[j] == CommandView::Random(e) implies exists|d: i64|
        0 <= d < RANDOM_RANGE && effects[j] == EffectView::SetPars(op, seq![(RANDOM_PARAM@, d)]) by {
        assert(planned_at(adv, fixed[j], effects[j]));
        assert(adv[k].entity == e);
        assert(has_entity(adv, e));
        let d = choose|d: i64|
            0 <= d < RANDOM_RANGE && effects[j] == #[trigger] plan_spec(adv, fixed[j], d);
    }
}

/// A despawned node's entity is gone from every later query: no command of
/// a later tick names it, a command built for it before does nothing, no
/// `Apply` sets from it, and its sampled values no longer feed aggregation.
pub proof fn lemma_despawn_forgets(rows: Seq<RowView>, op: u32, e: Entity, dt: u64, draw: i64)
    requires
        unique_ops(rows),
        has_op(rows, op),
        e.op == op,
    ensures
        ({
            let i = op_index(rows, op);
            let rs = rows.remove(i);
            &&& !has_op(rs, op)
            &&& !has_entity(rs, e)
            &&& count_of(random_cmds(rs), CommandView::Random(e)) == 0
            &&& count_of(sample_cmds(rs, dt), CommandView::Sample(e)) == 0
            &&& plan_spec(rs, CommandView::Random(e), draw) == EffectView::Skip
            &&& plan_spec(rs, CommandView::Sample(e), draw) == EffectView::Skip
            &&& forall|j: int| 0 <= j < apply_specs(rs).len() ==> (#[trigger] apply_specs(rs)[j]).0 != op
            &&& sampled_maps(rs) == sampled_maps(rows).remove(i)
        }),
{
    let i = op_index(rows, op);
    let rs = rows.remove(i);
    assert(!has_op(rs, op)) by {
        if has_op(rs, op) {
            let k = choose|k: int| 0 <= k < rs.len() && rs[k].entity.op == op;
            if k < i {
                assert(rows[k].entity.op == op);
            } else {
                assert(rows[k + 1].entity.op == op);
            }
        }
    }
    assert(!has_entity(rs, e)) by {
        if has_entity(rs, e) {
            let k = choose|k: int| 0 <= k < rs.len() && rs[k].entity == e;
            assert(rs[k].entity.op == op);
        }
    }
    lemma_no_random_for(rs, e);
    lemma_no_sample_for(rs, dt, e);
    lemma_apply_specs_ops(rs, op);
    assert(sampled_maps(rs) =~= sampled_maps(rows).remove(i));
}

proof fn lemma_apply_specs_ops(rows: Seq<RowView>, op: u32)
    requires
        !has_op(rows, op),
    ensures
        forall|j: int| 0 <= j < apply_specs(rows).len() ==> (#[trigger] apply_specs(rows)[j]).0 != op,
    decreases rows.len(),
{
    if rows.len() > 0 {
        let rest = rows.drop_last();
        assert(!has_op(rest, op)) by {
            if has_op(rest, op) {
                let k = choose|k: int| 0 <= k < rest.len() && rest[k].entity.op == op;
                assert(rows[k].entity.op == op);
            }
        }
        lemma_apply_specs_ops(rest, op);
        assert(rows.last().entity.op != op);
        let specs = apply_specs(rows);
        assert forall|j: int| 0 <= j < specs.len() implies (#[trigger] specs[j]).0 != op by {
            if j < apply_specs(rest).len() {
                assert(specs[j] == apply_specs(rest)[j]);
            }
        }
    }
}

} // verus!
