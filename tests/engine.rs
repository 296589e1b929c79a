use ecs::{
    random_value, Effect, Grouping, PyWorld, RandomCommand, RepeatingTimer, SampleCommand,
    SampleValues, Strat, TDCommand, TDCommandQueue, RANDOM_PARAM, RANDOM_RANGE, UNIT,
};

const MS: u64 = 1_000_000;

fn s(x: &str) -> String {
    x.to_string()
}

fn sorted(mut v: Vec<(String, i64)>) -> Vec<(String, i64)> {
    v.sort();
    v
}

/// Carries out the tick's effects the way a host does, reading parameters
/// from `surface` for every fetch and collecting the parameter writes.
fn carry_out(
    world: &mut PyWorld,
    effects: Vec<Effect>,
    surface: &[(u32, Vec<(String, Option<i64>)>)],
) -> Vec<(u32, String, i64)> {
    let mut writes = Vec::new();
    for effect in effects {
        match effect {
            Effect::SetPars { id, pars } => {
                for (name, value) in pars {
                    writes.push((id, name, value));
                }
            }
            Effect::FetchPars { entity, id } => {
                let pars = surface
                    .iter()
                    .find(|(node, _)| *node == id)
                    .map(|(_, p)| p.clone())
                    .unwrap_or_default();
                world.record_sample(entity, &pars);
            }
            Effect::Skip => {}
        }
    }
    writes
}

#[test]
fn resolve_is_idempotent() {
    let mut w = PyWorld::new();
    let a = w.id(3);
    let b = w.id(3);
    assert_eq!(a, b);
    assert_eq!(w.entity_count(), 1);
    w.insert_random(3);
    w.insert_sample(4, 10, s("x"));
    assert_eq!(w.id(3), a);
    assert_eq!(w.entity_count(), 2);
}

#[test]
fn resolve_gives_distinct_entities_per_node() {
    let mut w = PyWorld::new();
    let a = w.id(1);
    let b = w.id(2);
    assert_ne!(a, b);
    assert_eq!(a.op, 1);
    assert_eq!(b.op, 2);
    assert!(w.contains(1));
    assert!(!w.contains(9));
}

#[test]
fn respawned_entity_is_a_new_generation() {
    let mut w = PyWorld::new();
    let a = w.id(5);
    w.despawn(5);
    let b = w.id(5);
    assert_eq!(a.op, b.op);
    assert_ne!(a, b);
}

#[test]
fn queue_drains_in_order_and_empties() {
    let mut w = PyWorld::new();
    let e1 = w.id(1);
    let e2 = w.id(2);
    let mut q = TDCommandQueue::new();
    q.queue(TDCommand::Random(RandomCommand { op: e1 }));
    q.queue(TDCommand::Sample(SampleCommand(e2)));
    assert_eq!(q.len(), 2);
    let drained = q.drain();
    assert_eq!(q.len(), 0);
    assert_eq!(drained.len(), 2);
    assert!(matches!(drained[0], TDCommand::Random(RandomCommand { op }) if op == e1));
    assert!(matches!(drained[1], TDCommand::Sample(SampleCommand(e)) if e == e2));
    assert_eq!(q.drain().len(), 0);
}

#[test]
fn second_drain_carries_out_nothing() {
    let mut w = PyWorld::new();
    w.insert_random(1);
    w.run_update(MS);
    assert_eq!(w.queued_len(), 1);
    let first = w.apply_deferred_td();
    assert_eq!(first.len(), 1);
    assert_eq!(w.queued_len(), 0);
    let second = w.apply_deferred_td();
    assert!(second.is_empty());
}

#[test]
fn mean_and_max_of_five_seven_nine() {
    let mut g = Grouping::new();
    for v in [5, 7, 9] {
        g.add(&s("gain"), v * UNIT);
    }
    assert_eq!(g.finish(Strat::Mean), vec![(s("gain"), 7 * UNIT)]);
    assert_eq!(g.finish(Strat::Max), vec![(s("gain"), 9 * UNIT)]);
}

#[test]
fn mean_and_max_across_sampled_entities() {
    let mut w = PyWorld::new();
    for (node, v) in [(1u32, 5i64), (2, 7), (3, 9)] {
        w.insert_sample(node, 1, s("gain"));
        let e = w.id(node);
        w.record_sample(e, &vec![(s("gain"), Some(v * UNIT))]);
    }
    assert_eq!(w.collect(&s("gain"), Strat::Mean), vec![(s("gain"), 7 * UNIT)]);
    assert_eq!(w.collect(&s("gain"), Strat::Max), vec![(s("gain"), 9 * UNIT)]);
}

#[test]
fn mean_rounds_toward_zero() {
    let mut g = Grouping::new();
    g.add(&s("a"), -1);
    g.add(&s("a"), -2);
    g.add(&s("b"), 1);
    g.add(&s("b"), 2);
    let r = sorted(g.finish(Strat::Mean));
    assert_eq!(r, vec![(s("a"), -1), (s("b"), 1)]);
}

#[test]
fn mean_of_extreme_values_does_not_overflow() {
    let mut g = Grouping::new();
    g.add(&s("a"), i64::MAX);
    g.add(&s("a"), i64::MAX);
    g.add(&s("a"), i64::MAX - 2);
    assert_eq!(g.finish(Strat::Mean), vec![(s("a"), i64::MAX - 1)]);
    let mut h = Grouping::new();
    h.add(&s("a"), i64::MIN);
    h.add(&s("a"), i64::MIN);
    assert_eq!(h.finish(Strat::Mean), vec![(s("a"), i64::MIN)]);
    assert_eq!(h.finish(Strat::Max), vec![(s("a"), i64::MIN)]);
}

#[test]
fn timer_fires_at_interval_and_restarts() {
    let mut t = RepeatingTimer::from_millis(100);
    assert_eq!(t.interval_nanos(), 100 * MS as u128);
    assert!(!t.advance(60 * MS));
    assert_eq!(t.elapsed_nanos(), 60 * MS as u128);
    assert!(t.advance(40 * MS));
    assert_eq!(t.elapsed_nanos(), 0);
    assert!(!t.advance(99 * MS));
}

#[test]
fn long_tick_yields_one_sample_command() {
    let mut w = PyWorld::new();
    w.insert_sample(1, 100, s("gain"));
    w.run_update(350 * MS);
    assert_eq!(w.queued_len(), 1);
    let effects = w.apply_deferred_td();
    assert_eq!(effects.len(), 1);
    assert!(matches!(effects[0], Effect::FetchPars { id: 1, .. }));
    // the timer restarted from zero: 99 ms more is not enough
    w.run_update(99 * MS);
    assert_eq!(w.queued_len(), 0);
}

#[test]
fn random_round_trip() {
    let mut w = PyWorld::new();
    w.insert_random(7);
    let effects = w.run(MS);
    assert_eq!(w.queued_len(), 0);
    let writes = carry_out(&mut w, effects, &[]);
    assert_eq!(writes.len(), 1);
    let (id, name, value) = &writes[0];
    assert_eq!(*id, 7);
    assert_eq!(name, RANDOM_PARAM);
    assert!(0 <= *value && *value < RANDOM_RANGE);
}

#[test]
fn random_command_with_injected_draw() {
    let mut w = PyWorld::new();
    let e = w.id(4);
    match w.plan(TDCommand::Random(RandomCommand { op: e }), 1_234_567) {
        Effect::SetPars { id, pars } => {
            assert_eq!(id, 4);
            assert_eq!(pars, vec![(s("gain"), 1_234_567)]);
        }
        other => panic!("unexpected {:?}", other),
    }
}

#[test]
fn random_values_stay_in_range() {
    for _ in 0..1000 {
        let v = random_value();
        assert!(0 <= v && v < 2 * UNIT);
    }
}

#[test]
fn removed_random_queues_nothing() {
    let mut w = PyWorld::new();
    w.insert_random(1);
    w.remove_random(1);
    w.run_update(MS);
    assert_eq!(w.queued_len(), 0);
}

#[test]
fn sample_then_apply_scenario() {
    let observed = 1_500_000;
    let surface = vec![(1u32, vec![(s("gain"), Some(observed)), (s("speed"), Some(3))])];
    let mut w = PyWorld::new();
    w.insert_sample(1, 100, s("gain"));
    let effects = w.run(100 * MS);
    let writes = carry_out(&mut w, effects, &surface);
    assert!(writes.is_empty());
    assert_eq!(w.sampled_value(1, &s("gain")), Some(observed));
    assert_eq!(w.sampled_value(1, &s("speed")), None);

    w.insert_apply(2, s("gain"), Strat::Mean);
    let effects = w.run(10 * MS);
    let writes = carry_out(&mut w, effects, &surface);
    assert_eq!(writes, vec![(2, s("gain"), observed)]);
}

#[test]
fn max_keeps_distinct_names_apart() {
    let mut w = PyWorld::new();
    w.insert_sample(1, 1000, s("gain"));
    w.insert_sample(2, 1000, s("gain"));
    let a = w.id(1);
    let b = w.id(2);
    w.record_sample(a, &vec![(s("gain_a"), Some(2 * UNIT))]);
    w.record_sample(b, &vec![(s("gain_b"), Some(6 * UNIT))]);
    w.insert_apply(3, s("gain"), Strat::Max);
    let effects = w.run(MS);
    let writes = carry_out(&mut w, effects, &[]);
    let mut got: Vec<(String, i64)> = writes
        .into_iter()
        .map(|(id, name, v)| {
            assert_eq!(id, 3);
            (name, v)
        })
        .collect();
    got.sort();
    assert_eq!(got, vec![(s("gain_a"), 2 * UNIT), (s("gain_b"), 6 * UNIT)]);
}

#[test]
fn apply_filter_excludes_other_names() {
    let mut w = PyWorld::new();
    w.insert_sample(1, 1000, s(""));
    let a = w.id(1);
    w.record_sample(a, &vec![(s("gain"), Some(5)), (s("speed"), Some(9))]);
    assert_eq!(w.collect(&s("gai"), Strat::Max), vec![(s("gain"), 5)]);
    assert_eq!(sorted(w.collect(&s(""), Strat::Max)), vec![(s("gain"), 5), (s("speed"), 9)]);
    assert!(w.collect(&s("volume"), Strat::Mean).is_empty());
}

#[test]
fn apply_with_nothing_sampled_sets_nothing() {
    let mut w = PyWorld::new();
    w.insert_apply(3, s("gain"), Strat::Mean);
    let effects = w.run(MS);
    assert_eq!(effects.len(), 1);
    match &effects[0] {
        Effect::SetPars { id, pars } => {
            assert_eq!(*id, 3);
            assert!(pars.is_empty());
        }
        other => panic!("unexpected {:?}", other),
    }
}

#[test]
fn despawn_removes_from_aggregation() {
    let mut w = PyWorld::new();
    w.insert_sample(1, 1000, s("gain"));
    w.insert_sample(2, 1000, s("gain"));
    let a = w.id(1);
    let b = w.id(2);
    w.record_sample(a, &vec![(s("gain"), Some(2))]);
    w.record_sample(b, &vec![(s("gain"), Some(6))]);
    w.insert_apply(3, s("gain"), Strat::Mean);
    assert_eq!(w.collect(&s("gain"), Strat::Mean), vec![(s("gain"), 4)]);
    w.despawn(2);
    assert!(!w.contains(2));
    assert_eq!(w.collect(&s("gain"), Strat::Mean), vec![(s("gain"), 2)]);
    let effects = w.run(MS);
    let writes = carry_out(&mut w, effects, &[]);
    assert_eq!(writes, vec![(3, s("gain"), 2)]);
}

#[test]
fn command_for_despawned_entity_does_nothing() {
    let mut w = PyWorld::new();
    w.insert_random(1);
    w.insert_sample(1, 1, s("gain"));
    w.run_update(MS);
    assert_eq!(w.queued_len(), 2);
    w.despawn(1);
    let effects = w.apply_deferred_td();
    assert_eq!(effects.len(), 2);
    assert!(effects.iter().all(|e| matches!(e, Effect::Skip)));
    let a = w.id(1);
    w.record_sample(a, &vec![(s("gain"), Some(1))]);
    assert_eq!(w.sampled_value(1, &s("gain")), None);
}

#[test]
fn despawn_of_unknown_node_changes_nothing() {
    let mut w = PyWorld::new();
    w.id(1);
    w.despawn(2);
    assert_eq!(w.entity_count(), 1);
}

#[test]
fn sampling_drops_non_numeric_and_unmatched_values() {
    let mut v = SampleValues::new();
    v.merge(
        &vec![
            (s("gain"), Some(1)),
            (s("label"), None),
            (s("gain2"), None),
            (s("speed"), Some(4)),
            (s("gain"), Some(3)),
        ],
        &s("gain"),
    );
    assert_eq!(v.len(), 1);
    assert_eq!(v.get(&s("gain")), Some(3));
    assert_eq!(v.get(&s("gain2")), None);
    assert_eq!(v.get(&s("speed")), None);
}

#[test]
fn sampled_values_are_overwritten_per_name() {
    let mut v = SampleValues::new();
    v.set(s("a"), 1);
    v.set(s("b"), 2);
    v.set(s("a"), 5);
    assert_eq!(v.len(), 2);
    assert_eq!(v.get(&s("a")), Some(5));
    assert_eq!(v.get(&s("b")), Some(2));
}

#[test]
fn reinserted_sample_keeps_values_removed_sample_drops_them() {
    let mut w = PyWorld::new();
    w.insert_sample(1, 10, s("g"));
    let a = w.id(1);
    w.record_sample(a, &vec![(s("g"), Some(8))]);
    w.insert_sample(1, 20, s("g"));
    assert_eq!(w.sampled_value(1, &s("g")), Some(8));
    w.remove_sample(1);
    assert_eq!(w.sampled_value(1, &s("g")), None);
    w.insert_sample(1, 20, s("g"));
    assert_eq!(w.sampled_value(1, &s("g")), None);
}

#[test]
fn removed_apply_queues_nothing() {
    let mut w = PyWorld::new();
    w.insert_apply(1, s("g"), Strat::Max);
    w.remove_apply(1);
    w.run_update(MS);
    assert_eq!(w.queued_len(), 0);
}

#[test]
fn update_queues_random_then_sample_then_apply() {
    let mut w = PyWorld::new();
    w.insert_apply(1, s("g"), Strat::Max);
    w.insert_sample(2, 0, s("g"));
    w.insert_random(3);
    let effects = w.run(0);
    assert_eq!(effects.len(), 3);
    assert!(matches!(effects[0], Effect::SetPars { id: 3, .. }));
    assert!(matches!(effects[1], Effect::FetchPars { id: 2, .. }));
    assert!(matches!(effects[2], Effect::SetPars { id: 1, .. }));
}
