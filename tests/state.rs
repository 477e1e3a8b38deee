use conduit_sync::state::{SnapshotRegistry, StateEntry};

fn e(kind: &str, key: &str, event: u64) -> StateEntry {
    StateEntry { kind: kind.to_string(), state_key: key.to_string(), event }
}

#[test]
fn equal_states_share_one_snapshot() {
    let mut reg = SnapshotRegistry::new();
    let a = reg.register(vec![e("m.room.create", "", 1), e("m.room.member", "@a:x", 2)]);
    let b = reg.register(vec![e("m.room.member", "@a:x", 2), e("m.room.create", "", 1)]);
    let c = reg.register(vec![e("m.room.create", "", 1)]);
    assert_eq!(a, b);
    assert_ne!(a, c);
}

#[test]
fn diff_of_a_snapshot_with_itself_is_empty() {
    let mut reg = SnapshotRegistry::new();
    let a = reg.register(vec![e("m.room.create", "", 1), e("m.room.name", "", 3)]);
    assert!(reg.diff(a, a).is_empty());
}

#[test]
fn diff_applied_reproduces_the_target() {
    let mut reg = SnapshotRegistry::new();
    let a = reg.register(vec![e("m.room.create", "", 1), e("m.room.name", "", 3), e("m.room.topic", "", 4)]);
    let b = reg.register(vec![e("m.room.create", "", 1), e("m.room.name", "", 5), e("m.room.member", "@a:x", 6)]);
    let d = reg.diff(a, b);
    assert_eq!(d.len(), 3);
    let mut state: Vec<(String, String, u64)> =
        reg.state_at(a).into_iter().map(|x| (x.kind, x.state_key, x.event)).collect();
    for delta in &d {
        state.retain(|(k, sk, _)| !(k == &delta.kind && sk == &delta.state_key));
        if let Some(ev) = delta.after {
            state.push((delta.kind.clone(), delta.state_key.clone(), ev));
        }
    }
    state.sort();
    let mut target: Vec<(String, String, u64)> =
        reg.state_at(b).into_iter().map(|x| (x.kind, x.state_key, x.event)).collect();
    target.sort();
    assert_eq!(state, target);
    let name = d.iter().find(|x| x.kind == "m.room.name").unwrap();
    assert_eq!((name.before, name.after), (Some(3), Some(5)));
    let topic = d.iter().find(|x| x.kind == "m.room.topic").unwrap();
    assert_eq!((topic.before, topic.after), (Some(4), None));
}
