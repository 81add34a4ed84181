use milim_2d::{ColliderKey, Id, SpawnEvent, TriggerEvent, TriggerKind};

#[test]
fn spawn_event_hands_out_its_object_once() {
    let mut ev = SpawnEvent::new(String::from("enemy"));
    assert_eq!(ev.take(), Some(String::from("enemy")));
    assert_eq!(ev.take(), None);
    assert_eq!(ev.take(), None);
}

#[test]
fn ids_are_fresh() {
    let a = Id::new();
    let b = Id::new();
    let c = Id::default();
    assert_ne!(a, b);
    assert_ne!(b, c);
    assert_eq!(a, a.clone());
}

#[test]
fn trigger_event_values() {
    let owner = Id::new();
    let sensor = ColliderKey { key: 3, id: Id::new() };
    let ev = TriggerEvent { owner, sensor, kind: TriggerKind::Enter };
    let copy = ev.clone();
    assert_eq!(copy, ev);
    assert_eq!(copy.sensor.key, 3);
    assert_ne!(TriggerKind::Enter, TriggerKind::Exit);
}
