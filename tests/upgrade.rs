use conduit_sync::account_data::AccountData;
use conduit_sync::counter::Globals;
use conduit_sync::devices::device_list_changed;
use conduit_sync::events::{Content, Membership, PduBuilder};
use conduit_sync::pipeline::{
    build_and_append, create_room, restricted_level_of, upgrade_room, CreateRoomRequest, Directory, RoomLocks, Visibility,
};
use conduit_sync::response::sync_events;
use conduit_sync::rooms::EventStore;
use conduit_sync::Error;

fn s(x: &str) -> String {
    x.to_string()
}

fn request(room: &str, alias: Option<&str>, encrypted: bool) -> CreateRoomRequest {
    let mut initial = Vec::new();
    if encrypted {
        initial.push(PduBuilder {
            kind: s("m.room.encryption"),
            content: Content::Encryption { algorithm: s("m.megolm.v1.aes-sha2") },
            state_key: Some(s("")),
            redacts: None,
        });
    }
    CreateRoomRequest {
        room_id: s(room),
        server_name: s("x"),
        alias_localpart: alias.map(s),
        room_version: Some(s("5")),
        preset: None,
        visibility: Visibility::Private,
        is_direct: false,
        federate: true,
        initial_state: initial,
        name: Some(s("Old")),
        topic: None,
        invite: Vec::new(),
        allow_encryption: true,
    }
}

#[test]
fn upgrade_moves_the_room() {
    let (mut store, mut g, mut locks, mut dir) = (EventStore::new(), Globals::new(), RoomLocks::new(), Directory::new());
    let alice = s("@alice:x");
    let old = create_room(&mut store, &mut g, &mut locks, &mut dir, request("!old:x", Some("hall"), false), &alice).unwrap();
    let new = upgrade_room(&mut store, &mut g, &mut locks, &mut dir, &s("!old:x"), &s("!new:x"), &s("6"), &alice).unwrap();
    let old_pdus = store.room_pdus(old);
    let tombstone = old_pdus.iter().find(|p| p.kind == "m.room.tombstone").unwrap();
    assert!(matches!(&tombstone.content, Content::Tombstone { replacement_room, .. } if replacement_room == "!new:x"));
    let last = old_pdus.last().unwrap();
    assert_eq!(last.kind, "m.room.power_levels");
    assert!(matches!(last.content, Content::PowerLevels { events_default: 50, invite: 50, .. }));
    let new_pdus = store.room_pdus(new);
    match &new_pdus[0].content {
        Content::Create { creator, room_version, predecessor, .. } => {
            assert_eq!(creator, &alice);
            assert_eq!(room_version, "6");
            assert_eq!(predecessor, &Some((s("!old:x"), tombstone.count)));
        }
        _ => panic!("creation event expected"),
    }
    assert!(matches!(new_pdus[1].content, Content::Member { membership: Membership::Join }));
    assert!(new_pdus.iter().any(|p| matches!(&p.content, Content::Name { name } if name == "Old")));
    assert!(new_pdus.iter().any(|p| p.kind == "m.room.power_levels"));
    assert_eq!(dir.alias_target(&s("#hall:x")), Some(s("!new:x")));
}

#[test]
fn upgrade_checks_version_and_room() {
    let (mut store, mut g, mut locks, mut dir) = (EventStore::new(), Globals::new(), RoomLocks::new(), Directory::new());
    let alice = s("@alice:x");
    create_room(&mut store, &mut g, &mut locks, &mut dir, request("!old:x", None, false), &alice).unwrap();
    assert_eq!(
        upgrade_room(&mut store, &mut g, &mut locks, &mut dir, &s("!old:x"), &s("!new:x"), &s("9"), &alice),
        Err(Error::UnsupportedRoomVersion)
    );
    assert_eq!(
        upgrade_room(&mut store, &mut g, &mut locks, &mut dir, &s("!nowhere:x"), &s("!new:x"), &s("6"), &alice),
        Err(Error::NotFound)
    );
    assert_eq!(
        upgrade_room(&mut store, &mut g, &mut locks, &mut dir, &s("!old:x"), &s("!new:x"), &s("6"), &s("@bob:x")),
        Err(Error::Forbidden)
    );
}

#[test]
fn restricted_levels() {
    assert_eq!(restricted_level_of(0), 50);
    assert_eq!(restricted_level_of(49), 50);
    assert_eq!(restricted_level_of(50), 51);
    assert_eq!(restricted_level_of(i64::MAX), i64::MAX);
}

#[test]
fn joining_an_encrypted_room_announces_keys() {
    let (mut store, mut g, mut locks, mut dir) = (EventStore::new(), Globals::new(), RoomLocks::new(), Directory::new());
    let r = create_room(&mut store, &mut g, &mut locks, &mut dir, request("!e:x", None, true), &s("@a:x")).unwrap();
    let since = g.current_count();
    let lock = locks.lock_for(&s("!e:x"));
    let join = PduBuilder { kind: s("m.room.member"), content: Content::Member { membership: Membership::Join }, state_key: Some(s("@b:x")), redacts: None };
    build_and_append(&mut store, &mut g, r, join, &s("@b:x"), &lock).unwrap();
    assert_eq!(device_list_changed(&store, &s("@a:x"), since), vec![s("@b:x")]);
    let for_b = device_list_changed(&store, &s("@b:x"), since);
    assert!(for_b.contains(&s("@a:x")));
    assert!(for_b.contains(&s("@b:x")));
    assert_eq!(for_b.len(), 2);
    assert!(device_list_changed(&store, &s("@a:x"), g.current_count()).is_empty());
}

#[test]
fn full_sync_and_quiet_sync() {
    let (mut store, mut g, mut locks, mut dir) = (EventStore::new(), Globals::new(), RoomLocks::new(), Directory::new());
    let mut account = AccountData::new();
    let alice = s("@alice:x");
    create_room(&mut store, &mut g, &mut locks, &mut dir, request("!r:x", None, false), &alice).unwrap();
    account.update(&None, &alice, &s("m.tag"), &br#"{"type":"m.tag","content":{}}"#.to_vec(), &mut g).unwrap();
    let first = sync_events(&store, &account, &g, &alice, &None, false);
    assert_eq!(first.next_batch, g.current_count());
    assert_eq!(first.rooms.join.len(), 1);
    assert_eq!(first.account_data.len(), 1);
    assert!(!first.completion.wait);
    assert!(first.completion.cacheable);
    let token = Some(first.next_batch.to_string());
    let quiet = sync_events(&store, &account, &g, &alice, &token, false);
    assert!(quiet.rooms.join.is_empty() && quiet.account_data.is_empty());
    assert!(quiet.device_lists_changed.is_empty() && quiet.device_lists_left.is_empty());
    assert!(quiet.completion.wait);
    assert!(!quiet.completion.cacheable);
    let again = sync_events(&store, &account, &g, &alice, &token, false);
    assert_eq!(again.next_batch, quiet.next_batch);
    assert_eq!(again.rooms.join.len(), quiet.rooms.join.len());
    let full = sync_events(&store, &account, &g, &alice, &token, true);
    assert!(!full.completion.wait);
}

#[test]
fn upgrade_of_a_room_with_unreadable_creation_fails() {
    let (mut store, mut g, mut locks, mut dir) = (EventStore::new(), Globals::new(), RoomLocks::new(), Directory::new());
    let alice = s("@alice:x");
    let r = store.get_or_create_room(&s("!odd:x"));
    let lock = locks.lock_for(&s("!odd:x"));
    let create = PduBuilder { kind: s("m.room.create"), content: Content::Json { bytes: b"{}".to_vec() }, state_key: Some(s("")), redacts: None };
    build_and_append(&mut store, &mut g, r, create, &alice, &lock).unwrap();
    let join = PduBuilder { kind: s("m.room.member"), content: Content::Member { membership: Membership::Join }, state_key: Some(alice.clone()), redacts: None };
    build_and_append(&mut store, &mut g, r, join, &alice, &lock).unwrap();
    assert_eq!(
        upgrade_room(&mut store, &mut g, &mut locks, &mut dir, &s("!odd:x"), &s("!new:x"), &s("6"), &alice),
        Err(Error::BadDatabase)
    );
}

#[test]
fn upgrade_carries_state_and_links_rooms() {
    let (mut store, mut g, mut locks, mut dir) = (EventStore::new(), Globals::new(), RoomLocks::new(), Directory::new());
    let alice = s("@alice:x");
    let mut req = request("!old:x", None, true);
    req.federate = false;
    req.topic = Some(s("About"));
    let old = create_room(&mut store, &mut g, &mut locks, &mut dir, req, &alice).unwrap();
    let new = upgrade_room(&mut store, &mut g, &mut locks, &mut dir, &s("!old:x"), &s("!new:x"), &s("6"), &alice).unwrap();
    let old_pdus = store.room_pdus(old);
    let tomb = &old_pdus[old_pdus.len() - 2];
    assert_eq!(tomb.kind, "m.room.tombstone");
    let new_pdus = store.room_pdus(new);
    assert!(new_pdus[0].count > tomb.count);
    match &new_pdus[0].content {
        Content::Create { federate, predecessor, .. } => {
            assert!(!*federate);
            assert_eq!(predecessor.as_ref().map(|p| p.1), Some(tomb.count));
        }
        _ => panic!("creation event expected"),
    }
    for kind in ["m.room.encryption", "m.room.name", "m.room.topic", "m.room.join_rules", "m.room.power_levels"] {
        let ev = store.state_get(new, &s(kind), &s("")).unwrap();
        let i = store.position_of(new, ev).unwrap();
        assert_eq!(store.room_pdus(new)[i].kind, kind);
    }
    match &old_pdus.last().unwrap().content {
        Content::PowerLevels { users, users_default, events_default, invite } => {
            assert_eq!(users, &vec![(alice.clone(), 100)]);
            assert_eq!((*users_default, *events_default, *invite), (0, 50, 50));
        }
        _ => panic!("power levels expected"),
    }
}
