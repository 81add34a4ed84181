use milim_2d::engine::{flush_step, trigger_events, FlushAction, FlushState, MAX_FLUSH_ROUNDS};
use milim_2d::{ColliderKey, Id, TriggerEvent, TriggerKind};

fn key(k: u32) -> ColliderKey {
    ColliderKey { key: k, id: Id::new() }
}

#[test]
fn no_sensor_no_events() {
    let a = key(1);
    let b = key(2);
    let out = trigger_events(&vec![((a, false), (b, false))], TriggerKind::Enter);
    assert!(out.is_empty());
}

#[test]
fn sensor_notifies_both_owners() {
    let a = key(1);
    let b = key(2);
    let out = trigger_events(&vec![((a, true), (b, false))], TriggerKind::Enter);
    let ev = TriggerEvent { owner: b.id, sensor: a, kind: TriggerKind::Enter };
    assert_eq!(out, vec![(a.id, ev), (b.id, ev)]);
}

#[test]
fn second_collider_as_sensor() {
    let a = key(1);
    let b = key(2);
    let out = trigger_events(&vec![((a, false), (b, true))], TriggerKind::Exit);
    let ev = TriggerEvent { owner: a.id, sensor: b, kind: TriggerKind::Exit };
    assert_eq!(out, vec![(b.id, ev), (a.id, ev)]);
}

#[test]
fn two_sensors_and_several_pairs_in_order() {
    let a = key(1);
    let b = key(2);
    let c = key(3);
    let out = trigger_events(
        &vec![((a, true), (b, true)), ((b, false), (c, true))],
        TriggerKind::Enter,
    );
    let ab = TriggerEvent { owner: b.id, sensor: a, kind: TriggerKind::Enter };
    let ba = TriggerEvent { owner: a.id, sensor: b, kind: TriggerKind::Enter };
    let cb = TriggerEvent { owner: b.id, sensor: c, kind: TriggerKind::Enter };
    assert_eq!(
        out,
        vec![(a.id, ab), (b.id, ab), (b.id, ba), (a.id, ba), (c.id, cb), (b.id, cb)]
    );
    assert_eq!(out.len(), 2 * 3);
}

#[test]
fn flush_drains_events_then_messages() {
    let st = FlushState::start();
    assert_eq!(st, FlushState { round: 0, processed: false });
    let (st, act) = flush_step(st, true, true);
    assert_eq!(act, FlushAction::DispatchEvent);
    assert_eq!(st, FlushState { round: 0, processed: true });
    let (st, act) = flush_step(st, false, true);
    assert_eq!(act, FlushAction::DispatchMessages);
    assert_eq!(st, FlushState { round: 1, processed: false });
    let (st2, act) = flush_step(st, false, false);
    assert_eq!(act, FlushAction::Finish);
    assert_eq!(st2, st);
}

#[test]
fn flush_round_with_only_events_starts_another() {
    let (st, _) = flush_step(FlushState::start(), true, false);
    let (st, act) = flush_step(st, false, false);
    assert_eq!(act, FlushAction::NextRound);
    assert_eq!(st, FlushState { round: 1, processed: false });
}

#[test]
fn flush_stops_after_last_round() {
    let mut st = FlushState::start();
    let mut message_rounds = 0;
    loop {
        let (next, act) = flush_step(st, false, true);
        st = next;
        match act {
            FlushAction::DispatchMessages => message_rounds += 1,
            FlushAction::Finish => break,
            _ => {}
        }
        assert!(message_rounds <= MAX_FLUSH_ROUNDS);
    }
    assert_eq!(message_rounds, 10);
    assert_eq!(st.round, 10);
    let (_, act) = flush_step(st, true, true);
    assert_eq!(act, FlushAction::Finish);
}
