use conduit_sync::counter::Globals;
use conduit_sync::events::{Content, Membership, PduBuilder};
use conduit_sync::pipeline::{build_and_append, create_room, CreateRoomRequest, Directory, RoomLocks, Visibility};
use conduit_sync::rooms::EventStore;
use conduit_sync::summary::{heroes, member_counts, room_summary};

fn s(x: &str) -> String {
    x.to_string()
}

fn setup(invite: Vec<String>) -> (EventStore, Globals, RoomLocks, usize) {
    let (mut store, mut g, mut locks, mut dir) = (EventStore::new(), Globals::new(), RoomLocks::new(), Directory::new());
    let req = CreateRoomRequest {
        room_id: s("!r:x"),
        server_name: s("x"),
        alias_localpart: None,
        room_version: None,
        preset: None,
        visibility: Visibility::Private,
        is_direct: false,
        federate: true,
        initial_state: Vec::new(),
        name: None,
        topic: None,
        invite,
        allow_encryption: true,
    };
    let r = create_room(&mut store, &mut g, &mut locks, &mut dir, req, &s("@a:x")).unwrap();
    (store, g, locks, r)
}

#[test]
fn counts_and_heroes_of_a_small_room() {
    let (mut store, mut g, mut locks, r) = setup(vec![s("@b:x"), s("@c:x")]);
    assert_eq!(member_counts(&store, r), (1, 2));
    let lock = locks.lock_for(&s("!r:x"));
    let join = PduBuilder { kind: s("m.room.member"), content: Content::Member { membership: Membership::Join }, state_key: Some(s("@b:x")), redacts: None };
    build_and_append(&mut store, &mut g, r, join, &s("@b:x"), &lock).unwrap();
    let summary = room_summary(&store, r, &s("@a:x"));
    assert_eq!((summary.joined_member_count, summary.invited_member_count), (2, 1));
    assert_eq!(summary.heroes, vec![s("@b:x"), s("@c:x")]);
    assert_eq!(heroes(&store, r, &s("@b:x")), vec![s("@a:x"), s("@c:x")]);
}

#[test]
fn large_rooms_list_no_heroes() {
    let invite: Vec<String> = (0..5).map(|i| format!("@u{}:x", i)).collect();
    let (store, _g, _locks, r) = setup(invite);
    let summary = room_summary(&store, r, &s("@a:x"));
    assert_eq!((summary.joined_member_count, summary.invited_member_count), (1, 5));
    assert!(summary.heroes.is_empty());
}
