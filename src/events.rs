use vstd::prelude::*;

verus! {

/// The membership a member event gives its state key's user.
#[derive(Clone, Copy, Debug, PartialEq, Eq, Structural)]
pub enum Membership {
    Join,
    Invite,
    Leave,
    Ban,
    Knock,
}

/// Who may join a room.
#[derive(Clone, Copy, Debug, PartialEq, Eq, Structural)]
pub enum JoinRule {
    Public,
    Invite,
}

/// Who may read a room's history.
#[derive(Clone, Copy, Debug, PartialEq, Eq, Structural)]
pub enum HistoryVisibility {
    Shared,
    Invited,
    Joined,
    WorldReadable,
}

/// Whether guests may join a room.
#[derive(Clone, Copy, Debug, PartialEq, Eq, Structural)]
pub enum GuestAccess {
    CanJoin,
    Forbidden,
}

/// The content of an event. The kinds that the engine reads are held as
/// plain values; any other content is kept as opaque JSON bytes.
#[derive(Clone)]
pub enum Content {
    /// `predecessor` names the room this one replaces and its tombstone event.
    Create { creator: String, room_version: String, federate: bool, predecessor: Option<(String, u64)> },
    Member { membership: Membership },
    PowerLevels { users: Vec<(String, i64)>, users_default: i64, events_default: i64, invite: i64 },
    JoinRules { rule: JoinRule },
    HistoryVisibility { visibility: HistoryVisibility },
    GuestAccess { access: GuestAccess },
    CanonicalAlias { alias: String },
    Name { name: String },
    Topic { topic: String },
    Tombstone { body: String, replacement_room: String },
    Encryption { algorithm: String },
    Json { bytes: Vec<u8> },
}

/// An event that is yet to be appended: what the sender asks for.
pub struct PduBuilder {
    pub kind: String,
    pub content: Content,
    pub state_key: Option<String>,
    pub redacts: Option<u64>,
}

/// A committed event. Its global count is its identity.
pub struct Pdu {
    pub count: u64,
    pub sender: String,
    pub kind: String,
    pub state_key: Option<String>,
    pub content: Content,
    pub redacts: Option<u64>,
}

impl Pdu {
    /// The membership that a member event gives.
    pub open spec fn membership(&self) -> Option<Membership> {
        match self.content {
            Content::Member { membership } => Some(membership),
            _ => None,
        }
    }
}

pub const ROOM_CREATE: &'static str = "m.room.create";
pub const ROOM_MEMBER: &'static str = "m.room.member";
pub const ROOM_POWER_LEVELS: &'static str = "m.room.power_levels";
pub const ROOM_JOIN_RULES: &'static str = "m.room.join_rules";
pub const ROOM_HISTORY_VISIBILITY: &'static str = "m.room.history_visibility";
pub const ROOM_GUEST_ACCESS: &'static str = "m.room.guest_access";
pub const ROOM_CANONICAL_ALIAS: &'static str = "m.room.canonical_alias";
pub const ROOM_NAME: &'static str = "m.room.name";
pub const ROOM_TOPIC: &'static str = "m.room.topic";
pub const ROOM_TOMBSTONE: &'static str = "m.room.tombstone";
pub const ROOM_SERVER_ACL: &'static str = "m.room.server_acl";
pub const ROOM_AVATAR: &'static str = "m.room.avatar";
pub const ROOM_ENCRYPTION: &'static str = "m.room.encryption";

/// The event type of a member event.
pub open spec fn member_type() -> Seq<char> {
    ROOM_MEMBER@
}

/// The event type of a room-creation event.
pub open spec fn create_type() -> Seq<char> {
    ROOM_CREATE@
}

/// The event type of an encryption event.
pub open spec fn encryption_type() -> Seq<char> {
    ROOM_ENCRYPTION@
}

/// An owned copy of an event type name.
pub fn event_type(s: &str) -> (r: String)
    ensures
        r@ == s@,
{
    String::from_str(s)
}

/// Two power-level user lists name the same users at the same levels, in order.
pub open spec fn users_same(a: Seq<(String, i64)>, b: Seq<(String, i64)>) -> bool {
    &&& a.len() == b.len()
    &&& forall|i: int| 0 <= i < a.len() ==> (#[trigger] a[i]).0@ == b[i].0@ && a[i].1 == b[i].1
}

/// Two contents are the same kind with the same values.
pub open spec fn content_same(a: Content, b: Content) -> bool {
    match (a, b) {
        (Content::Create { creator: c1, room_version: v1, federate: f1, predecessor: p1 },
         Content::Create { creator: c2, room_version: v2, federate: f2, predecessor: p2 }) =>
            c1@ == c2@ && v1@ == v2@ && f1 == f2 && match (p1, p2) {
                (Some(x), Some(y)) => x.0@ == y.0@ && x.1 == y.1,
                (None, None) => true,
                _ => false,
            },
        (Content::Member { membership: m1 }, Content::Member { membership: m2 }) => m1 == m2,
        (Content::PowerLevels { users: u1, users_default: d1, events_default: e1, invite: i1 },
         Content::PowerLevels { users: u2, users_default: d2, events_default: e2, invite: i2 }) =>
            users_same(u1@, u2@) && d1 == d2 && e1 == e2 && i1 == i2,
        (Content::JoinRules { rule: r1 }, Content::JoinRules { rule: r2 }) => r1 == r2,
        (Content::HistoryVisibility { visibility: v1 }, Content::HistoryVisibility { visibility: v2 }) => v1 == v2,
        (Content::GuestAccess { access: a1 }, Content::GuestAccess { access: a2 }) => a1 == a2,
        (Content::CanonicalAlias { alias: a1 }, Content::CanonicalAlias { alias: a2 }) => a1@ == a2@,
        (Content::Name { name: n1 }, Content::Name { name: n2 }) => n1@ == n2@,
        (Content::Topic { topic: t1 }, Content::Topic { topic: t2 }) => t1@ == t2@,
        (Content::Tombstone { body: b1, replacement_room: r1 }, Content::Tombstone { body: b2, replacement_room: r2 }) =>
            b1@ == b2@ && r1@ == r2@,
        (Content::Encryption { algorithm: a1 }, Content::Encryption { algorithm: a2 }) => a1@ == a2@,
        (Content::Json { bytes: x1 }, Content::Json { bytes: x2 }) => x1@ == x2@,
        _ => false,
    }
}

/// A copy of a power-level user list.
pub fn copy_users(v: &Vec<(String, i64)>) -> (r: Vec<(String, i64)>)
    ensures
        users_same(r@, v@),
{
    let mut out: Vec<(String, i64)> = Vec::new();
    let mut i: usize = 0;
    while i < v.len()
        invariant
            i <= v@.len(),
            out@.len() == i,
            forall|j: int| 0 <= j < i ==> (#[trigger] out@[j]).0@ == v@[j].0@ && out@[j].1 == v@[j].1,
        decreases v@.len() - i,
    {
        out.push((v[i].0.clone(), v[i].1));
        i = i + 1;
    }
    out
}

/// A copy of an event content.
pub fn copy_content(c: &Content) -> (r: Content)
    ensures
        content_same(r, *c),
{
    match c {
        Content::Create { creator, room_version, federate, predecessor } => Content::Create {
            creator: creator.clone(),
            room_version: room_version.clone(),
            federate: *federate,
            predecessor: match predecessor {
                Some((room, event)) => Some((room.clone(), *event)),
                None => None,
            },
        },
        Content::Member { membership } => Content::Member { membership: *membership },
        Content::PowerLevels { users, users_default, events_default, invite } => Content::PowerLevels {
            users: copy_users(users),
            users_default: *users_default,
            events_default: *events_default,
            invite: *invite,
        },
        Content::JoinRules { rule } => Content::JoinRules { rule: *rule },
        Content::HistoryVisibility { visibility } => Content::HistoryVisibility { visibility: *visibility },
        Content::GuestAccess { access } => Content::GuestAccess { access: *access },
        Content::CanonicalAlias { alias } => Content::CanonicalAlias { alias: alias.clone() },
        Content::Name { name } => Content::Name { name: name.clone() },
        Content::Topic { topic } => Content::Topic { topic: topic.clone() },
        Content::Tombstone { body, replacement_room } => Content::Tombstone { body: body.clone(), replacement_room: replacement_room.clone() },
        Content::Encryption { algorithm } => Content::Encryption { algorithm: algorithm.clone() },
        Content::Json { bytes } => Content::Json { bytes: crate::account_data::copy_bytes(bytes) },
    }
}

} // verus!
