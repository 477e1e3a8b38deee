use conduit_sync::counter::Globals;
use conduit_sync::devices::{device_list_left, share_encrypted_room};
use conduit_sync::events::{Content, Membership, PduBuilder};
use conduit_sync::flight::{SyncDecision, SyncRegistry};
use conduit_sync::pipeline::{build_and_append, create_room, CreateRoomRequest, Directory, RoomLocks, Visibility};
use conduit_sync::rooms::EventStore;
use conduit_sync::sync::{after_since, completion, merge_presence, parse_since, sync_room, sync_rooms, wait_ms, Presence};

fn s(x: &str) -> String {
    x.to_string()
}

struct World {
    store: EventStore,
    globals: Globals,
    locks: RoomLocks,
    directory: Directory,
}

fn world() -> World {
    World { store: EventStore::new(), globals: Globals::new(), locks: RoomLocks::new(), directory: Directory::new() }
}

fn room(w: &mut World, id: &str, creator: &str, encrypted: bool) -> usize {
    let mut initial = Vec::new();
    if encrypted {
        initial.push(PduBuilder {
            kind: s("m.room.encryption"),
            content: Content::Encryption { algorithm: s("m.megolm.v1.aes-sha2") },
            state_key: Some(s("")),
            redacts: None,
        });
    }
    let req = CreateRoomRequest {
        room_id: s(id),
        server_name: s("x"),
        alias_localpart: None,
        room_version: None,
        preset: None,
        visibility: Visibility::Private,
        is_direct: false,
        federate: true,
        initial_state: initial,
        name: None,
        topic: None,
        invite: Vec::new(),
        allow_encryption: true,
    };
    create_room(&mut w.store, &mut w.globals, &mut w.locks, &mut w.directory, req, &s(creator)).unwrap()
}

fn post(w: &mut World, r: usize, id: &str, sender: &str) -> u64 {
    let lock = w.locks.lock_for(&s(id));
    let message = PduBuilder { kind: s("m.room.message"), content: Content::Json { bytes: b"{}".to_vec() }, state_key: None, redacts: None };
    build_and_append(&mut w.store, &mut w.globals, r, message, &s(sender), &lock).unwrap()
}

fn member(w: &mut World, r: usize, id: &str, user: &str, m: Membership) -> u64 {
    let lock = w.locks.lock_for(&s(id));
    let pdu = PduBuilder { kind: s("m.room.member"), content: Content::Member { membership: m }, state_key: Some(s(user)), redacts: None };
    build_and_append(&mut w.store, &mut w.globals, r, pdu, &s(user), &lock).unwrap()
}

#[test]
fn initial_sync_of_fifteen_messages() {
    let mut w = world();
    let r = room(&mut w, "!r:x", "@d:x", false);
    let mut counts = Vec::new();
    for _ in 0..15 {
        counts.push(post(&mut w, r, "!r:x", "@d:x"));
    }
    let joined = sync_room(&w.store, r, &s("@d:x"), 0).unwrap();
    assert_eq!(joined.timeline, counts[5..].to_vec());
    assert!(joined.limited);
    assert_eq!(joined.prev_batch, Some(counts[5]));
    assert!(joined.joined_since_last_sync);
    assert_eq!(joined.state.len(), 6);
    let summary = joined.summary.unwrap();
    assert_eq!((summary.joined_member_count, summary.invited_member_count), (1, 0));
    assert!(summary.heroes.is_empty());
}

#[test]
fn incremental_sync_delivers_only_news() {
    let mut w = world();
    let r = room(&mut w, "!r:x", "@d:x", false);
    let since = w.globals.current_count();
    let a = post(&mut w, r, "!r:x", "@d:x");
    let b = post(&mut w, r, "!r:x", "@d:x");
    let joined = sync_room(&w.store, r, &s("@d:x"), since).unwrap();
    assert_eq!(joined.timeline, vec![a, b]);
    assert!(!joined.limited);
    assert_eq!(joined.prev_batch, Some(a));
    assert!(joined.state.is_empty());
    assert!(joined.summary.is_none());
    assert!(sync_room(&w.store, r, &s("@d:x"), b).is_none());
}

#[test]
fn a_new_member_brings_a_summary() {
    let mut w = world();
    let r = room(&mut w, "!r:x", "@d:x", false);
    let since = w.globals.current_count();
    member(&mut w, r, "!r:x", "@e:x", Membership::Join);
    let joined = sync_room(&w.store, r, &s("@d:x"), since).unwrap();
    assert!(!joined.joined_since_last_sync);
    let summary = joined.summary.unwrap();
    assert_eq!((summary.joined_member_count, summary.invited_member_count), (2, 0));
    assert_eq!(summary.heroes, vec![s("@e:x")]);
    let topic_since = w.globals.current_count();
    let lock = w.locks.lock_for(&s("!r:x"));
    let topic = PduBuilder { kind: s("m.room.topic"), content: Content::Topic { topic: s("t") }, state_key: Some(s("")), redacts: None };
    build_and_append(&mut w.store, &mut w.globals, r, topic, &s("@d:x"), &lock).unwrap();
    assert!(sync_room(&w.store, r, &s("@d:x"), topic_since).unwrap().summary.is_none());
}

#[test]
fn state_changed_outside_the_timeline_is_delivered() {
    let mut w = world();
    let r = room(&mut w, "!r:x", "@d:x", false);
    let since = w.globals.current_count();
    let lock = w.locks.lock_for(&s("!r:x"));
    let topic = PduBuilder { kind: s("m.room.topic"), content: Content::Topic { topic: s("t") }, state_key: Some(s("")), redacts: None };
    let t = build_and_append(&mut w.store, &mut w.globals, r, topic, &s("@d:x"), &lock).unwrap();
    let mut last = 0;
    for _ in 0..12 {
        last = post(&mut w, r, "!r:x", "@d:x");
    }
    let joined = sync_room(&w.store, r, &s("@d:x"), since).unwrap();
    assert_eq!(joined.timeline.len(), 10);
    assert_eq!(joined.timeline[9], last);
    assert!(joined.limited);
    assert!(!joined.joined_since_last_sync);
    assert_eq!(joined.state, vec![t]);
}

#[test]
fn quiet_sync_is_empty_and_waits() {
    let mut w = world();
    let r = room(&mut w, "!r:x", "@d:x", false);
    post(&mut w, r, "!r:x", "@d:x");
    let since = w.globals.current_count();
    let rooms = sync_rooms(&w.store, &s("@d:x"), since);
    assert!(rooms.join.is_empty() && rooms.leave.is_empty() && rooms.invite.is_empty());
    let c = completion(true, false, since, since);
    assert!(c.wait);
    assert!(!c.cacheable);
    assert_eq!(wait_ms(Some(60_000)), 30_000);
    assert_eq!(wait_ms(Some(1_500)), 1_500);
    assert_eq!(wait_ms(None), 0);
    let full = completion(true, true, since, since);
    assert!(!full.wait && !full.cacheable);
    let progress = completion(false, false, 3, 9);
    assert!(!progress.wait && progress.cacheable);
}

#[test]
fn left_and_invited_rooms_after_since() {
    let mut w = world();
    let r1 = room(&mut w, "!one:x", "@a:x", false);
    let r2 = room(&mut w, "!two:x", "@a:x", false);
    member(&mut w, r1, "!one:x", "@b:x", Membership::Join);
    let since = w.globals.current_count();
    member(&mut w, r1, "!one:x", "@b:x", Membership::Leave);
    let lock = w.locks.lock_for(&s("!two:x"));
    let invite = PduBuilder { kind: s("m.room.member"), content: Content::Member { membership: Membership::Invite }, state_key: Some(s("@b:x")), redacts: None };
    build_and_append(&mut w.store, &mut w.globals, r2, invite, &s("@a:x"), &lock).unwrap();
    let rooms = sync_rooms(&w.store, &s("@b:x"), since);
    assert_eq!(rooms.leave, vec![r1]);
    assert_eq!(rooms.invite, vec![r2]);
    assert!(rooms.join.is_empty());
    let later = sync_rooms(&w.store, &s("@b:x"), w.globals.current_count());
    assert!(later.leave.is_empty() && later.invite.is_empty());
    assert!(after_since(Some(5), 4));
    assert!(!after_since(Some(4), 4));
    assert!(!after_since(None, 4));
}

#[test]
fn leaving_one_encrypted_room_keeps_shared_user_out_of_left() {
    let mut w = world();
    let r1 = room(&mut w, "!one:x", "@a:x", true);
    let r2 = room(&mut w, "!two:x", "@a:x", true);
    member(&mut w, r1, "!one:x", "@b:x", Membership::Join);
    member(&mut w, r2, "!two:x", "@b:x", Membership::Join);
    let since = w.globals.current_count();
    member(&mut w, r1, "!one:x", "@a:x", Membership::Leave);
    assert!(share_encrypted_room(&w.store, &s("@a:x"), &s("@b:x"), None));
    assert!(!share_encrypted_room(&w.store, &s("@a:x"), &s("@b:x"), Some(r2)));
    assert!(!device_list_left(&w.store, &s("@a:x"), since).contains(&s("@b:x")));
    assert!(!device_list_left(&w.store, &s("@b:x"), since).contains(&s("@a:x")));
}

#[test]
fn leaving_the_last_shared_encrypted_room_is_reported() {
    let mut w = world();
    let r1 = room(&mut w, "!one:x", "@a:x", true);
    member(&mut w, r1, "!one:x", "@b:x", Membership::Join);
    let since = w.globals.current_count();
    member(&mut w, r1, "!one:x", "@b:x", Membership::Leave);
    assert_eq!(device_list_left(&w.store, &s("@a:x"), since), vec![s("@b:x")]);
}

#[test]
fn same_since_attaches_to_one_computation() {
    let mut reg = SyncRegistry::new();
    let (u, d) = (s("@a:x"), s("DEV"));
    let first = reg.request(&u, &d, &Some(s("5")));
    assert_eq!(first, SyncDecision::Start { ticket: 0 });
    let second = reg.request(&u, &d, &Some(s("5")));
    assert_eq!(second, SyncDecision::Attach { ticket: 0 });
    let other = reg.request(&u, &d, &Some(s("6")));
    assert_eq!(other, SyncDecision::Start { ticket: 1 });
    reg.finish(&u, &d, &Some(s("5")), false);
    assert_eq!(reg.request(&u, &d, &Some(s("6"))), SyncDecision::Attach { ticket: 1 });
    reg.finish(&u, &d, &Some(s("6")), false);
    assert_eq!(reg.request(&u, &d, &Some(s("6"))), SyncDecision::Start { ticket: 2 });
    assert_eq!(reg.request(&u, &s("OTHER"), &Some(s("6"))), SyncDecision::Start { ticket: 3 });
}

#[test]
fn since_tokens_parse_as_counts() {
    assert_eq!(parse_since(&None), 0);
    assert_eq!(parse_since(&Some(s("42"))), 42);
    assert_eq!(parse_since(&Some(s("+7"))), 7);
    assert_eq!(parse_since(&Some(s(""))), 0);
    assert_eq!(parse_since(&Some(s("4x"))), 0);
    assert_eq!(parse_since(&Some(s("18446744073709551615"))), u64::MAX);
    assert_eq!(parse_since(&Some(s("18446744073709551616"))), 0);
}

#[test]
fn presence_merge_keeps_known_fields() {
    let mut p = Presence {
        presence: s("online"),
        status_msg: Some(s("busy")),
        last_active_ago: Some(10),
        displayname: None,
        avatar_url: Some(s("mxc://a")),
        currently_active: Some(true),
    };
    let later = Presence {
        presence: s("unavailable"),
        status_msg: None,
        last_active_ago: Some(20),
        displayname: Some(s("A")),
        avatar_url: None,
        currently_active: None,
    };
    merge_presence(&mut p, later);
    assert_eq!(p.presence, "unavailable");
    assert_eq!(p.status_msg, Some(s("busy")));
    assert_eq!(p.last_active_ago, Some(20));
    assert_eq!(p.displayname, Some(s("A")));
    assert_eq!(p.avatar_url, Some(s("mxc://a")));
    assert_eq!(p.currently_active, Some(true));
}
