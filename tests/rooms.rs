use conduit_sync::counter::Globals;
use conduit_sync::events::{Content, GuestAccess, HistoryVisibility, JoinRule, Membership, PduBuilder};
use conduit_sync::pipeline::{
    build_and_append, create_room, CreateRoomRequest, Directory, RoomLocks, RoomPreset, Visibility,
};
use conduit_sync::rooms::EventStore;
use conduit_sync::Error;

fn s(x: &str) -> String {
    x.to_string()
}

fn request(room: &str, preset: Option<RoomPreset>) -> CreateRoomRequest {
    CreateRoomRequest {
        room_id: s(room),
        server_name: s("x"),
        alias_localpart: None,
        room_version: None,
        preset,
        visibility: Visibility::Private,
        is_direct: false,
        federate: true,
        initial_state: Vec::new(),
        name: None,
        topic: None,
        invite: Vec::new(),
        allow_encryption: true,
    }
}

struct World {
    store: EventStore,
    globals: Globals,
    locks: RoomLocks,
    directory: Directory,
}

fn world() -> World {
    World { store: EventStore::new(), globals: Globals::new(), locks: RoomLocks::new(), directory: Directory::new() }
}

#[test]
fn private_chat_creation_state() {
    let mut w = world();
    let alice = s("@alice:x");
    let r = create_room(&mut w.store, &mut w.globals, &mut w.locks, &mut w.directory, request("!r:x", Some(RoomPreset::PrivateChat)), &alice)
        .unwrap();
    let pdus = w.store.room_pdus(r);
    let kinds: Vec<&str> = pdus.iter().map(|p| p.kind.as_str()).collect();
    assert_eq!(
        kinds,
        vec![
            "m.room.create",
            "m.room.member",
            "m.room.power_levels",
            "m.room.join_rules",
            "m.room.history_visibility",
            "m.room.guest_access"
        ]
    );
    assert!(pdus.iter().all(|p| p.state_key.is_some()));
    assert_eq!(pdus[1].state_key, Some(alice.clone()));
    assert!(matches!(pdus[1].content, Content::Member { membership: Membership::Join }));
    match &pdus[2].content {
        Content::PowerLevels { users, .. } => assert_eq!(users, &vec![(alice.clone(), 100)]),
        _ => panic!("power levels expected"),
    }
    assert!(matches!(pdus[3].content, Content::JoinRules { rule: JoinRule::Invite }));
    assert!(matches!(pdus[4].content, Content::HistoryVisibility { visibility: HistoryVisibility::Shared }));
    assert!(matches!(pdus[5].content, Content::GuestAccess { access: GuestAccess::Forbidden }));
    assert_eq!(w.store.membership_of(r, &alice), Some(Membership::Join));
    let counts: Vec<u64> = pdus.iter().map(|p| p.count).collect();
    assert_eq!(counts, vec![1, 2, 3, 4, 5, 6]);
}

#[test]
fn public_chat_is_listed_and_public() {
    let mut w = world();
    let alice = s("@alice:x");
    let mut req = request("!p:x", None);
    req.visibility = Visibility::Public;
    req.alias_localpart = Some(s("lobby"));
    req.name = Some(s("Lobby"));
    let r = create_room(&mut w.store, &mut w.globals, &mut w.locks, &mut w.directory, req, &alice).unwrap();
    let pdus = w.store.room_pdus(r);
    assert_eq!(pdus[3].kind, "m.room.canonical_alias");
    assert!(matches!(&pdus[3].content, Content::CanonicalAlias { alias } if alias == "#lobby:x"));
    assert!(matches!(pdus[4].content, Content::JoinRules { rule: JoinRule::Public }));
    assert!(matches!(pdus[6].content, Content::GuestAccess { access: GuestAccess::Forbidden }));
    assert_eq!(pdus[7].kind, "m.room.name");
    assert_eq!(w.directory.alias_target(&s("#lobby:x")), Some(s("!p:x")));
}

#[test]
fn taken_alias_and_bad_alias_and_bad_version_fail() {
    let mut w = world();
    let alice = s("@alice:x");
    let mut req = request("!a:x", None);
    req.alias_localpart = Some(s("lobby"));
    create_room(&mut w.store, &mut w.globals, &mut w.locks, &mut w.directory, req, &alice).unwrap();
    let mut again = request("!b:x", None);
    again.alias_localpart = Some(s("lobby"));
    assert_eq!(create_room(&mut w.store, &mut w.globals, &mut w.locks, &mut w.directory, again, &alice), Err(Error::RoomInUse));
    let mut bad = request("!c:x", None);
    bad.alias_localpart = Some(s("lob:by"));
    bad.server_name = s("");
    assert_eq!(create_room(&mut w.store, &mut w.globals, &mut w.locks, &mut w.directory, bad, &alice), Err(Error::InvalidParam));
    let mut version = request("!d:x", None);
    version.room_version = Some(s("1"));
    assert_eq!(
        create_room(&mut w.store, &mut w.globals, &mut w.locks, &mut w.directory, version, &alice),
        Err(Error::UnsupportedRoomVersion)
    );
}

#[test]
fn state_follows_the_last_write() {
    let mut w = world();
    let alice = s("@alice:x");
    let r = create_room(&mut w.store, &mut w.globals, &mut w.locks, &mut w.directory, request("!r:x", None), &alice).unwrap();
    let lock = w.locks.lock_for(&s("!r:x"));
    let name = |n: &str| PduBuilder { kind: s("m.room.name"), content: Content::Name { name: s(n) }, state_key: Some(s("")), redacts: None };
    let first = build_and_append(&mut w.store, &mut w.globals, r, name("one"), &alice, &lock).unwrap();
    let message = PduBuilder { kind: s("m.room.message"), content: Content::Json { bytes: b"{}".to_vec() }, state_key: None, redacts: None };
    build_and_append(&mut w.store, &mut w.globals, r, message, &alice, &lock).unwrap();
    assert_eq!(w.store.state_get(r, &s("m.room.name"), &s("")), Some(first));
    let second = build_and_append(&mut w.store, &mut w.globals, r, name("two"), &alice, &lock).unwrap();
    assert_eq!(w.store.state_get(r, &s("m.room.name"), &s("")), Some(second));
    assert_eq!(w.store.room_state_full(r).len(), 7);
}

#[test]
fn outsiders_and_second_creation_are_forbidden() {
    let mut w = world();
    let alice = s("@alice:x");
    let r = create_room(&mut w.store, &mut w.globals, &mut w.locks, &mut w.directory, request("!r:x", None), &alice).unwrap();
    let lock = w.locks.lock_for(&s("!r:x"));
    let message = PduBuilder { kind: s("m.room.message"), content: Content::Json { bytes: b"{}".to_vec() }, state_key: None, redacts: None };
    assert_eq!(build_and_append(&mut w.store, &mut w.globals, r, message, &s("@bob:x"), &lock), Err(Error::Forbidden));
    let create = PduBuilder {
        kind: s("m.room.create"),
        content: Content::Create { creator: alice.clone(), room_version: s("6"), federate: true, predecessor: None },
        state_key: Some(s("")),
        redacts: None,
    };
    assert_eq!(build_and_append(&mut w.store, &mut w.globals, r, create, &alice, &lock), Err(Error::Forbidden));
}

#[test]
fn only_state_events_move_the_snapshot() {
    let mut w = world();
    let alice = s("@alice:x");
    let r = create_room(&mut w.store, &mut w.globals, &mut w.locks, &mut w.directory, request("!r:x", None), &alice).unwrap();
    let lock = w.locks.lock_for(&s("!r:x"));
    let before = w.store.current_snapshot(r);
    let message = PduBuilder { kind: s("m.room.message"), content: Content::Json { bytes: b"{}".to_vec() }, state_key: None, redacts: None };
    build_and_append(&mut w.store, &mut w.globals, r, message, &alice, &lock).unwrap();
    assert_eq!(w.store.current_snapshot(r), before);
    let topic = PduBuilder { kind: s("m.room.topic"), content: Content::Topic { topic: s("t") }, state_key: Some(s("")), redacts: None };
    build_and_append(&mut w.store, &mut w.globals, r, topic, &alice, &lock).unwrap();
    assert_ne!(w.store.current_snapshot(r), before);
}

#[test]
fn trusted_chat_raises_invitees_and_failed_checks_leave_no_room() {
    let mut w = world();
    let alice = s("@alice:x");
    let mut req = request("!t:x", Some(RoomPreset::TrustedPrivateChat));
    req.invite = vec![s("@bob:x")];
    let r = create_room(&mut w.store, &mut w.globals, &mut w.locks, &mut w.directory, req, &alice).unwrap();
    let pdus = w.store.room_pdus(r);
    match &pdus[2].content {
        Content::PowerLevels { users, .. } => assert_eq!(users, &vec![(alice.clone(), 100), (s("@bob:x"), 100)]),
        _ => panic!("power levels expected"),
    }
    assert!(matches!(pdus[5].content, Content::GuestAccess { access: GuestAccess::CanJoin }));
    let rooms = w.store.room_count();
    let mut bad = request("!v:x", None);
    bad.room_version = Some(s("1"));
    assert_eq!(create_room(&mut w.store, &mut w.globals, &mut w.locks, &mut w.directory, bad, &alice), Err(Error::UnsupportedRoomVersion));
    assert_eq!(w.store.room_count(), rooms);
    assert!(w.store.find_room(&s("!v:x")).is_none());
}

#[test]
fn caller_state_follows_the_preset_and_overrides_it() {
    let mut w = world();
    let alice = s("@alice:x");
    let mut req = request("!o:x", Some(RoomPreset::PrivateChat));
    req.initial_state = vec![
        PduBuilder { kind: s("m.room.join_rules"), content: Content::JoinRules { rule: JoinRule::Public }, state_key: Some(s("")), redacts: None },
        PduBuilder { kind: s("m.room.encryption"), content: Content::Encryption { algorithm: s("a") }, state_key: Some(s("")), redacts: None },
    ];
    req.allow_encryption = false;
    req.name = Some(s("N"));
    req.topic = Some(s("T"));
    req.invite = vec![s("@bob:x")];
    let r = create_room(&mut w.store, &mut w.globals, &mut w.locks, &mut w.directory, req, &alice).unwrap();
    let kinds: Vec<String> = w.store.room_pdus(r).iter().map(|p| p.kind.clone()).collect();
    assert_eq!(&kinds[6..], &[s("m.room.join_rules"), s("m.room.name"), s("m.room.topic"), s("m.room.member")]);
    let holder = w.store.state_get(r, &s("m.room.join_rules"), &s("")).unwrap();
    assert_eq!(holder, w.store.room_pdus(r)[6].count);
    assert_eq!(w.store.state_get(r, &s("m.room.encryption"), &s("")), None);
    assert_eq!(w.store.membership_of(r, &s("@bob:x")), Some(Membership::Invite));
}
