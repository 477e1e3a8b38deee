use vstd::prelude::*;

use crate::counter::Globals;
use crate::error::Error;
use crate::events::{
    content_same, copy_content, copy_users, create_type, users_same, event_type, member_type, Content, GuestAccess, HistoryVisibility, JoinRule, Membership, Pdu, PduBuilder,
    ROOM_CANONICAL_ALIAS, ROOM_CREATE, ROOM_ENCRYPTION, ROOM_GUEST_ACCESS, ROOM_HISTORY_VISIBILITY, ROOM_JOIN_RULES,
    ROOM_MEMBER, ROOM_NAME, ROOM_POWER_LEVELS, ROOM_TOPIC, ROOM_TOMBSTONE, ROOM_SERVER_ACL, ROOM_AVATAR,
};
use crate::ids::parse_room_alias;
use crate::text::{opt_chars, strings_view};
use crate::rooms::{extends, state_content, EventStore};
use crate::state::StateKey;

verus! {

/// The capability to mutate one room's state: only `RoomLocks::lock_for`
/// hands one out, and every append asks for the one of its room.
pub struct StateLock {
    room: String,
}

impl StateLock {
    pub closed spec fn room(&self) -> Seq<char> {
        self.room@
    }
}

/// The per-room lock registry: an entry is created on first use and kept for
/// the lifetime of the process.
pub struct RoomLocks {
    rooms: Vec<String>,
}

impl RoomLocks {
    pub closed spec fn known(&self) -> Seq<Seq<char>> {
        self.rooms@.map_values(|s: String| s@)
    }

    pub fn new() -> (r: RoomLocks)
        ensures
            r.known().len() == 0,
    {
        RoomLocks { rooms: Vec::new() }
    }

    /// The lock of a room, registering the room where it is new.
    pub fn lock_for(&mut self, room: &String) -> (l: StateLock)
        ensures
            l.room() == room@,
            final(self).known().contains(room@),
            forall|x: Seq<char>| old(self).known().contains(x) ==> final(self).known().contains(x),
    {
        let mut i: usize = 0;
        while i < self.rooms.len()
            invariant
                i <= self.rooms@.len(),
            decreases self.rooms@.len() - i,
        {
            if self.rooms[i] == *room {
                assert(self.known()[i as int] == room@);
                return StateLock { room: room.clone() };
            }
            i = i + 1;
        }
        let ghost before = self.known();
        self.rooms.push(room.clone());
        proof {
            assert(self.known() =~= before.push(room@));
            assert(self.known()[before.len() as int] == room@);
            assert forall|x: Seq<char>| before.contains(x) implies self.known().contains(x) by {
                let j = choose|j: int| 0 <= j < before.len() && before[j] == x;
                assert(self.known()[j] == x);
            }
        }
        StateLock { room: room.clone() }
    }
}

/// Whether `sender` may append an event of `kind` with `state_key` to room `r`:
/// a creation event only as a room's first event; any other event only in a
/// room that has begun, from a joined sender, or as the sender's own
/// membership event.
pub open spec fn authorized(store: EventStore, r: int, sender: Seq<char>, kind: Seq<char>, state_key: Option<Seq<char>>) -> bool {
    if kind == create_type() {
        store.rooms()[r].pdus().len() == 0
    } else {
        &&& store.rooms()[r].pdus().len() > 0
        &&& (store.membership(r, sender) == Some(Membership::Join)
            || (kind == member_type() && state_key == Some(sender)))
    }
}

/// Validates an event against the room's current state, then appends it.
/// The lock of the room must be held.
pub fn build_and_append(
    store: &mut EventStore,
    globals: &mut Globals,
    r: usize,
    pdu: PduBuilder,
    sender: &String,
    lock: &StateLock,
) -> (res: Result<u64, Error>)
    requires
        old(store).wf(),
        old(store).bounded_by(old(globals).current()),
        r < old(store).rooms().len(),
        lock.room() == old(store).rooms()[r as int].id(),
    ensures
        final(store).wf(),
        final(store).bounded_by(final(globals).current()),
        final(store).rooms().len() == old(store).rooms().len(),
        forall|q: int| 0 <= q < old(store).rooms().len() && q != r ==> #[trigger] final(store).rooms()[q] == old(store).rooms()[q],
        final(store).rooms()[r as int].id() == old(store).rooms()[r as int].id(),
        !authorized(*old(store), r as int, sender@, pdu.kind@, opt_chars(pdu.state_key))
            ==> res == Err::<u64, Error>(Error::Forbidden) && *final(store) == *old(store)
            && final(globals).current() == old(globals).current(),
        authorized(*old(store), r as int, sender@, pdu.kind@, opt_chars(pdu.state_key)) && old(globals).current() == u64::MAX
            ==> res == Err::<u64, Error>(Error::CounterExhausted) && *final(store) == *old(store),
        authorized(*old(store), r as int, sender@, pdu.kind@, opt_chars(pdu.state_key)) && old(globals).current() < u64::MAX
            ==> res == Ok::<u64, Error>((old(globals).current() + 1) as u64),
        res.is_ok() ==> final(globals).current() == res.unwrap(),
        res.is_err() ==> *final(store) == *old(store) && final(globals).current() == old(globals).current(),
        extends(final(store).reg(), old(store).reg()),
        res.is_ok() ==> ({
            let p = final(store).rooms()[r as int].pdus();
            &&& p.drop_last() == old(store).rooms()[r as int].pdus()
            &&& p.len() == old(store).rooms()[r as int].pdus().len() + 1
            &&& p.last().count == res.unwrap()
            &&& p.last().sender@ == sender@
            &&& p.last().kind == pdu.kind
            &&& p.last().state_key == pdu.state_key
            &&& p.last().content == pdu.content
        }),
        res.is_ok() ==> final(store).room_state(r as int) == match pdu.state_key {
            Some(sk) => old(store).room_state(r as int).insert((pdu.kind@, sk@), res.unwrap()),
            None => old(store).room_state(r as int),
        },
{
    let is_create = pdu.kind == event_type(ROOM_CREATE);
    let begun = store.room_pdus(r).len() > 0;
    let allowed = if is_create {
        !begun
    } else if !begun {
        false
    } else {
        let joined = store.membership_of(r, sender) == Some(Membership::Join);
        let own_membership = pdu.kind == event_type(ROOM_MEMBER) && match &pdu.state_key {
            Some(sk) => *sk == *sender,
            None => false,
        };
        proof {
            if own_membership {
                assert(opt_chars(pdu.state_key) == Some(sender@));
            }
            if opt_chars(pdu.state_key) == Some(sender@) && pdu.kind@ == member_type() {
                assert(own_membership);
            }
        }
        joined || own_membership
    };
    if !allowed {
        return Err(Error::Forbidden);
    }
    store.append(r, sender, pdu, globals)
}

/// The preset of a new room, which decides its join rules and guest access.
#[derive(Clone, Copy, Debug, PartialEq, Eq, Structural)]
pub enum RoomPreset {
    PrivateChat,
    PublicChat,
    TrustedPrivateChat,
}

/// Whether a room is listed in the public directory.
#[derive(Clone, Copy, Debug, PartialEq, Eq, Structural)]
pub enum Visibility {
    Private,
    Public,
}

/// The preset a creation request stands for: the one it names, else the one
/// its visibility implies.
pub open spec fn effective_preset(preset: Option<RoomPreset>, visibility: Visibility) -> RoomPreset {
    match preset {
        Some(p) => p,
        None => match visibility {
            Visibility::Public => RoomPreset::PublicChat,
            Visibility::Private => RoomPreset::PrivateChat,
        },
    }
}

/// The join rule of a preset: public for a public chat, else invite.
pub open spec fn preset_join_rule(p: RoomPreset) -> JoinRule {
    match p {
        RoomPreset::PublicChat => JoinRule::Public,
        _ => JoinRule::Invite,
    }
}

/// The guest access of a preset: guests may join a trusted private chat only.
pub open spec fn preset_guest_access(p: RoomPreset) -> GuestAccess {
    match p {
        RoomPreset::TrustedPrivateChat => GuestAccess::CanJoin,
        _ => GuestAccess::Forbidden,
    }
}

/// The room-alias directory and the public room list.
pub struct Directory {
    aliases: Vec<(String, String)>,
    public_rooms: Vec<String>,
}

impl Directory {
    /// The room each alias points to.
    pub closed spec fn alias_map(&self) -> Map<Seq<char>, Seq<char>> {
        Map::new(
            |a: Seq<char>| exists|i: int| 0 <= i < self.aliases@.len() && self.aliases@[i].0@ == a,
            |a: Seq<char>| self.aliases@[choose|i: int| 0 <= i < self.aliases@.len() && self.aliases@[i].0@ == a].1@,
        )
    }

    pub closed spec fn wf(&self) -> bool {
        forall|i: int, j: int| 0 <= i < self.aliases@.len() && 0 <= j < self.aliases@.len() && i != j
            ==> self.aliases@[i].0@ != self.aliases@[j].0@
    }

    /// The public rooms.
    pub closed spec fn public(&self) -> Set<Seq<char>> {
        Set::new(|r: Seq<char>| exists|i: int| 0 <= i < self.public_rooms@.len() && self.public_rooms@[i]@ == r)
    }

    pub fn new() -> (d: Directory)
        ensures
            d.wf(),
            d.alias_map() == Map::<Seq<char>, Seq<char>>::empty(),
            d.public() == Set::<Seq<char>>::empty(),
    {
        let d = Directory { aliases: Vec::new(), public_rooms: Vec::new() };
        assert(d.alias_map() =~= Map::<Seq<char>, Seq<char>>::empty());
        assert(d.public() =~= Set::<Seq<char>>::empty());
        d
    }

    fn find_alias(&self, alias: &String) -> (r: Option<usize>)
        ensures
            r.is_none() ==> forall|i: int| 0 <= i < self.aliases@.len() ==> self.aliases@[i].0@ != alias@,
            r.is_some() ==> r.unwrap() < self.aliases@.len() && self.aliases@[r.unwrap() as int].0@ == alias@,
    {
        let mut i: usize = 0;
        while i < self.aliases.len()
            invariant
                i <= self.aliases@.len(),
                forall|j: int| 0 <= j < i ==> self.aliases@[j].0@ != alias@,
            decreases self.aliases@.len() - i,
        {
            if self.aliases[i].0 == *alias {
                return Some(i);
            }
            i = i + 1;
        }
        None
    }

    /// The room an alias points to.
    pub fn alias_target(&self, alias: &String) -> (r: Option<String>)
        requires
            self.wf(),
        ensures
            r.is_some() == self.alias_map().contains_key(alias@),
            r.is_some() ==> r.unwrap()@ == self.alias_map()[alias@],
    {
        match self.find_alias(alias) {
            Some(i) => {
                proof {
                    let j = choose|j: int| 0 <= j < self.aliases@.len() && self.aliases@[j].0@ == alias@;
                    assert(i == j);
                }
                Some(self.aliases[i].1.clone())
            },
            None => None,
        }
    }

    /// Points an alias at a room.
    pub fn set_alias(&mut self, alias: &String, room: &String)
        requires
            old(self).wf(),
        ensures
            final(self).wf(),
            final(self).alias_map() == old(self).alias_map().insert(alias@, room@),
            final(self).public() == old(self).public(),
    {
        let ghost before = self.aliases@;
        let entry = (alias.clone(), room.clone());
        match self.find_alias(alias) {
            Some(i) => {
                self.aliases.set(i, entry);
                proof {
                    let after = self.aliases@;
                    assert(self.wf()) by {
                        assert forall|x: int, y: int| 0 <= x < after.len() && 0 <= y < after.len() && x != y
                            implies after[x].0@ != after[y].0@ by {
                            if x != i { assert(after[x] == before[x]); }
                            if y != i { assert(after[y] == before[y]); }
                        }
                    }
                    assert forall|a: Seq<char>| #[trigger] self.alias_map().contains_key(a) == old(self).alias_map().insert(alias@, room@).contains_key(a) by {
                        if exists|x: int| 0 <= x < before.len() && before[x].0@ == a {
                            let x = choose|x: int| 0 <= x < before.len() && before[x].0@ == a;
                            if x != i { assert(after[x] == before[x]); } else { assert(after[x].0@ == a); }
                        }
                        if exists|x: int| 0 <= x < after.len() && after[x].0@ == a {
                            let x = choose|x: int| 0 <= x < after.len() && after[x].0@ == a;
                            if x != i { assert(after[x] == before[x]); }
                        }
                        if a == alias@ { assert(after[i as int].0@ == a); }
                    }
                    assert forall|a: Seq<char>| self.alias_map().contains_key(a) implies
                        self.alias_map()[a] == old(self).alias_map().insert(alias@, room@)[a] by {
                        let x = choose|x: int| 0 <= x < after.len() && after[x].0@ == a;
                        if x != i {
                            assert(after[x] == before[x]);
                            let y = choose|y: int| 0 <= y < before.len() && before[y].0@ == a;
                            assert(y == x);
                        }
                    }
                    assert(self.alias_map() =~= old(self).alias_map().insert(alias@, room@));
                    assert(self.public() =~= old(self).public());
                }
            },
            None => {
                self.aliases.push(entry);
                proof {
                    let after = self.aliases@;
                    let n = before.len() as int;
                    assert(after[n] == entry);
                    assert(self.wf()) by {
                        assert forall|x: int, y: int| 0 <= x < after.len() && 0 <= y < after.len() && x != y
                            implies after[x].0@ != after[y].0@ by {
                            if x < n { assert(after[x] == before[x]); }
                            if y < n { assert(after[y] == before[y]); }
                        }
                    }
                    assert forall|a: Seq<char>| #[trigger] self.alias_map().contains_key(a) == old(self).alias_map().insert(alias@, room@).contains_key(a) by {
                        if exists|x: int| 0 <= x < before.len() && before[x].0@ == a {
                            let x = choose|x: int| 0 <= x < before.len() && before[x].0@ == a;
                            assert(after[x] == before[x]);
                        }
                        if exists|x: int| 0 <= x < after.len() && after[x].0@ == a {
                            let x = choose|x: int| 0 <= x < after.len() && after[x].0@ == a;
                            if x < n { assert(after[x] == before[x]); }
                        }
                    }
                    assert forall|a: Seq<char>| self.alias_map().contains_key(a) implies
                        self.alias_map()[a] == old(self).alias_map().insert(alias@, room@)[a] by {
                        let x = choose|x: int| 0 <= x < after.len() && after[x].0@ == a;
                        if x < n {
                            assert(after[x] == before[x]);
                            let y = choose|y: int| 0 <= y < before.len() && before[y].0@ == a;
                            assert(y == x);
                        } else {
                            assert(x == n);
                        }
                    }
                    assert(self.alias_map() =~= old(self).alias_map().insert(alias@, room@));
                    assert(self.public() =~= old(self).public());
                }
            },
        }
    }

    /// Lists a room in the public directory.
    pub fn set_public(&mut self, room: &String)
        requires
            old(self).wf(),
        ensures
            final(self).wf(),
            final(self).alias_map() == old(self).alias_map(),
            final(self).public() == old(self).public().insert(room@),
    {
        let ghost before = self.public_rooms@;
        self.public_rooms.push(room.clone());
        proof {
            let after = self.public_rooms@;
            assert(after[before.len() as int]@ == room@);
            assert forall|r: Seq<char>| #[trigger] self.public().contains(r) == old(self).public().insert(room@).contains(r) by {
                if exists|i: int| 0 <= i < before.len() && before[i]@ == r {
                    let i = choose|i: int| 0 <= i < before.len() && before[i]@ == r;
                    assert(after[i] == before[i]);
                }
                if exists|i: int| 0 <= i < after.len() && after[i]@ == r {
                    let i = choose|i: int| 0 <= i < after.len() && after[i]@ == r;
                    if i < before.len() { assert(after[i] == before[i]); }
                }
            }
            assert(self.public() =~= old(self).public().insert(room@));
            assert(self.alias_map() =~= old(self).alias_map());
        }
    }
}

/// A request to create a room.
pub struct CreateRoomRequest {
    /// The new room's identifier, drawn by the caller.
    pub room_id: String,
    /// This server's name, the domain of a new alias.
    pub server_name: String,
    pub alias_localpart: Option<String>,
    pub room_version: Option<String>,
    pub preset: Option<RoomPreset>,
    pub visibility: Visibility,
    pub is_direct: bool,
    pub federate: bool,
    pub initial_state: Vec<PduBuilder>,
    pub name: Option<String>,
    pub topic: Option<String>,
    pub invite: Vec<String>,
    /// Whether encryption events of the initial state are kept.
    pub allow_encryption: bool,
}

/// The alias `#localpart:server`.
pub open spec fn alias_of(localpart: Seq<char>, server: Seq<char>) -> Seq<char> {
    "#"@ + localpart + ":"@ + server
}

/// The event at `i` is a state event of type `kind` with the empty state key.
pub open spec fn plain_state(p: Pdu, kind: Seq<char>) -> bool {
    p.kind@ == kind && opt_chars(p.state_key) == Some(Seq::<char>::empty())
}

/// The events a room creation appends before any caller-supplied state, in
/// order: creation, the creator's join, power levels with exactly the
/// creator at 100 (and, in a trusted private chat, each invitee at 100), the canonical alias where one was asked for, then join rules,
/// history visibility and guest access as the preset says.
pub open spec fn creation_prefix(p: Seq<Pdu>, creator: Seq<char>, preset: RoomPreset, alias: Option<Seq<char>>, invites: Seq<Seq<char>>) -> bool {
    let a: int = if alias.is_some() { 1 } else { 0 };
    &&& p.len() >= 6 + a
    &&& plain_state(p[0], create_type())
    &&& (match p[0].content { Content::Create { creator: c, .. } => c@ == creator, _ => false })
    &&& p[1].kind@ == member_type() && opt_chars(p[1].state_key) == Some(creator)
    &&& p[1].membership() == Some(Membership::Join)
    &&& plain_state(p[2], ROOM_POWER_LEVELS@)
    &&& (match p[2].content {
        Content::PowerLevels { users, .. } => {
            &&& users@.len() == 1 + (if preset == RoomPreset::TrustedPrivateChat { invites.len() } else { 0 })
            &&& users@[0].0@ == creator && users@[0].1 == 100
            &&& forall|i: int| 1 <= i < users@.len() ==> (#[trigger] users@[i]).0@ == invites[i - 1] && users@[i].1 == 100
        },
        _ => false,
    })
    &&& (match alias {
        Some(al) => plain_state(p[3], ROOM_CANONICAL_ALIAS@)
            && (match p[3].content { Content::CanonicalAlias { alias: x } => x@ == al, _ => false }),
        None => true,
    })
    &&& plain_state(p[3 + a], ROOM_JOIN_RULES@)
    &&& p[3 + a].content == Content::JoinRules { rule: preset_join_rule(preset) }
    &&& plain_state(p[4 + a], ROOM_HISTORY_VISIBILITY@)
    &&& p[4 + a].content == Content::HistoryVisibility { visibility: HistoryVisibility::Shared }
    &&& plain_state(p[5 + a], ROOM_GUEST_ACCESS@)
    &&& p[5 + a].content == Content::GuestAccess { access: preset_guest_access(preset) }
}

pub proof fn lemma_prefix_kept(p: Seq<Pdu>, q: Seq<Pdu>, creator: Seq<char>, preset: RoomPreset, alias: Option<Seq<char>>, invites: Seq<Seq<char>>)
    requires
        creation_prefix(p, creator, preset, alias, invites),
        extends_log(q, p),
    ensures
        creation_prefix(q, creator, preset, alias, invites),
{
}

/// Every room of `s0` is in `s1`, under the same id, with its log extended.
pub open spec fn grows(s1: EventStore, s0: EventStore) -> bool {
    &&& s1.rooms().len() >= s0.rooms().len()
    &&& forall|q: int| 0 <= q < s0.rooms().len() ==> #[trigger] s1.rooms()[q].id() == s0.rooms()[q].id()
        && extends_log(s1.rooms()[q].pdus(), s0.rooms()[q].pdus())
}

pub proof fn lemma_grows_refl(s: EventStore)
    ensures
        grows(s, s),
{
}

/// One append to room `r` (or none) keeps a store growing.
pub proof fn lemma_grows_append(s0: EventStore, s1: EventStore, s2: EventStore, r: int)
    requires
        grows(s1, s0),
        0 <= r < s1.rooms().len(),
        s2.rooms().len() == s1.rooms().len(),
        forall|q: int| 0 <= q < s1.rooms().len() && q != r ==> #[trigger] s2.rooms()[q] == s1.rooms()[q],
        s2.rooms()[r].id() == s1.rooms()[r].id(),
        s2 == s1 || (s2.rooms()[r].pdus().len() == s1.rooms()[r].pdus().len() + 1
            && s2.rooms()[r].pdus().drop_last() == s1.rooms()[r].pdus()),
    ensures
        grows(s2, s0),
{
    assert forall|q: int| 0 <= q < s0.rooms().len() implies #[trigger] s2.rooms()[q].id() == s0.rooms()[q].id()
        && extends_log(s2.rooms()[q].pdus(), s0.rooms()[q].pdus()) by {
        if q == r && s2 != s1 {
            let p2 = s2.rooms()[r].pdus();
            let p1 = s1.rooms()[r].pdus();
            assert forall|j: int| 0 <= j < s0.rooms()[q].pdus().len() implies #[trigger] p2[j] == s0.rooms()[q].pdus()[j] by {
                assert(p2.drop_last()[j] == p2[j]);
                assert(p1[j] == s0.rooms()[q].pdus()[j]);
            }
        }
    }
}

pub proof fn lemma_grows_trans(s0: EventStore, s1: EventStore, s2: EventStore)
    requires
        grows(s1, s0),
        grows(s2, s1),
    ensures
        grows(s2, s0),
{
    assert forall|q: int| 0 <= q < s0.rooms().len() implies #[trigger] s2.rooms()[q].id() == s0.rooms()[q].id()
        && extends_log(s2.rooms()[q].pdus(), s0.rooms()[q].pdus()) by {
        assert(s1.rooms()[q].id() == s0.rooms()[q].id());
        assert(s2.rooms()[q].id() == s1.rooms()[q].id());
        assert forall|j: int| 0 <= j < s0.rooms()[q].pdus().len() implies #[trigger] s2.rooms()[q].pdus()[j] == s0.rooms()[q].pdus()[j] by {
            assert(s2.rooms()[q].pdus()[j] == s1.rooms()[q].pdus()[j]);
        }
    }
}

/// A store that only extended the log of room `r`, or added rooms, grows.
pub proof fn lemma_grows_frame(s0: EventStore, s1: EventStore, r: int)
    requires
        s1.rooms().len() >= s0.rooms().len(),
        forall|q: int| 0 <= q < s0.rooms().len() && q != r ==> #[trigger] s1.rooms()[q] == s0.rooms()[q],
        0 <= r < s0.rooms().len() ==> s1.rooms()[r].id() == s0.rooms()[r].id()
            && extends_log(s1.rooms()[r].pdus(), s0.rooms()[r].pdus()),
    ensures
        grows(s1, s0),
{
    assert forall|q: int| 0 <= q < s0.rooms().len() implies #[trigger] s1.rooms()[q].id() == s0.rooms()[q].id()
        && extends_log(s1.rooms()[q].pdus(), s0.rooms()[q].pdus()) by {
        if q != r {
            assert(s1.rooms()[q] == s0.rooms()[q]);
        }
    }
}

/// `q` is `p` with events added after it.
pub open spec fn extends_log(q: Seq<Pdu>, p: Seq<Pdu>) -> bool {
    q.len() >= p.len() && forall|j: int| 0 <= j < p.len() ==> #[trigger] q[j] == p[j]
}

/// Appends one state event with the empty state key.
fn append_plain(
    store: &mut EventStore,
    globals: &mut Globals,
    r: usize,
    kind: &'static str,
    content: Content,
    sender: &String,
    lock: &StateLock,
) -> (res: Result<u64, Error>)
    requires
        old(store).wf(),
        old(store).bounded_by(old(globals).current()),
        r < old(store).rooms().len(),
        lock.room() == old(store).rooms()[r as int].id(),
    ensures
        final(store).wf(),
        final(store).bounded_by(final(globals).current()),
        final(store).rooms().len() == old(store).rooms().len(),
        final(store).rooms()[r as int].id() == old(store).rooms()[r as int].id(),
        forall|q: int| 0 <= q < old(store).rooms().len() && q != r ==> #[trigger] final(store).rooms()[q] == old(store).rooms()[q],
        extends_log(final(store).rooms()[r as int].pdus(), old(store).rooms()[r as int].pdus()),
        extends(final(store).reg(), old(store).reg()),
        res.is_ok() ==> ({
            let p = final(store).rooms()[r as int].pdus();
            &&& p.len() == old(store).rooms()[r as int].pdus().len() + 1
            &&& plain_state(p.last(), kind@)
            &&& p.last().content == content
        }),
        res.is_ok() && kind@ == create_type() ==> old(store).rooms()[r as int].pdus().len() == 0,
        res.is_ok() ==> final(globals).current() == res.unwrap() && old(globals).current() < u64::MAX
            && res.unwrap() == old(globals).current() + 1,
        res.is_ok() ==> final(store).rooms()[r as int].pdus().drop_last() == old(store).rooms()[r as int].pdus()
            && final(store).rooms()[r as int].pdus().last().count == res.unwrap()
            && final(store).room_state(r as int) == old(store).room_state(r as int).insert((kind@, Seq::<char>::empty()), res.unwrap()),
        authorized(*old(store), r as int, sender@, kind@, Some(Seq::<char>::empty())) && old(globals).current() < u64::MAX
            ==> res.is_ok(),
        res.is_err() ==> *final(store) == *old(store) && final(globals).current() == old(globals).current(),
{
    let pdu = PduBuilder { kind: event_type(kind), content, state_key: Some(String::new()), redacts: None };
    let res = build_and_append(store, globals, r, pdu, sender, lock);
    proof {
        let p = store.rooms()[r as int].pdus();
        if res.is_ok() {
            assert forall|j: int| 0 <= j < old(store).rooms()[r as int].pdus().len() implies #[trigger] p[j] == old(store).rooms()[r as int].pdus()[j] by {
                assert(p.drop_last()[j] == p[j]);
            }
        }
    }
    res
}

/// Appends one event with `build_and_append`, keeping what came before.
fn append_kept(
    store: &mut EventStore,
    globals: &mut Globals,
    r: usize,
    pdu: PduBuilder,
    sender: &String,
    lock: &StateLock,
) -> (res: Result<u64, Error>)
    requires
        old(store).wf(),
        old(store).bounded_by(old(globals).current()),
        r < old(store).rooms().len(),
        lock.room() == old(store).rooms()[r as int].id(),
    ensures
        final(store).wf(),
        final(store).bounded_by(final(globals).current()),
        final(store).rooms().len() == old(store).rooms().len(),
        final(store).rooms()[r as int].id() == old(store).rooms()[r as int].id(),
        extends_log(final(store).rooms()[r as int].pdus(), old(store).rooms()[r as int].pdus()),
        forall|q: int| 0 <= q < old(store).rooms().len() && q != r ==> #[trigger] final(store).rooms()[q] == old(store).rooms()[q],
        extends(final(store).reg(), old(store).reg()),
{
    let res = build_and_append(store, globals, r, pdu, sender, lock);
    proof {
        let p = store.rooms()[r as int].pdus();
        if res.is_ok() {
            assert forall|j: int| 0 <= j < old(store).rooms()[r as int].pdus().len() implies #[trigger] p[j] == old(store).rooms()[r as int].pdus()[j] by {
                assert(p.drop_last()[j] == p[j]);
            }
        }
    }
    res
}

/// The event types a room creation writes differ from each other where the
/// authorization rule tells them apart.
proof fn lemma_creation_types_differ()
    ensures
        ROOM_MEMBER@ != create_type(),
        ROOM_POWER_LEVELS@ != create_type() && ROOM_POWER_LEVELS@ != member_type(),
        ROOM_CANONICAL_ALIAS@ != create_type() && ROOM_CANONICAL_ALIAS@ != member_type(),
        ROOM_JOIN_RULES@ != create_type() && ROOM_JOIN_RULES@ != member_type(),
        ROOM_HISTORY_VISIBILITY@ != create_type() && ROOM_HISTORY_VISIBILITY@ != member_type(),
        ROOM_GUEST_ACCESS@ != create_type() && ROOM_GUEST_ACCESS@ != member_type(),
{
    reveal_strlit("m.room.create");
    reveal_strlit("m.room.member");
    reveal_strlit("m.room.power_levels");
    reveal_strlit("m.room.canonical_alias");
    reveal_strlit("m.room.join_rules");
    reveal_strlit("m.room.history_visibility");
    reveal_strlit("m.room.guest_access");
    assert(ROOM_MEMBER@[7] != ROOM_CREATE@[7]);
    assert(ROOM_CANONICAL_ALIAS@.len() == 22);
    assert(ROOM_CREATE@.len() == 13);
    assert(ROOM_MEMBER@.len() == 13);
}

/// Appends the fixed events of a room creation.
#[verifier::rlimit(60)]
fn append_creation_events(
    store: &mut EventStore,
    globals: &mut Globals,
    r: usize,
    lock: &StateLock,
    sender: &String,
    version: String,
    federate: bool,
    preset: RoomPreset,
    alias: &Option<String>,
    invite: &Vec<String>,
) -> (res: Result<(), Error>)
    requires
        old(store).wf(),
        old(store).bounded_by(old(globals).current()),
        r < old(store).rooms().len(),
        lock.room() == old(store).rooms()[r as int].id(),
    ensures
        final(store).wf(),
        final(store).bounded_by(final(globals).current()),
        final(store).rooms().len() == old(store).rooms().len(),
        final(store).rooms()[r as int].id() == old(store).rooms()[r as int].id(),
        res.is_ok() ==> creation_prefix(final(store).rooms()[r as int].pdus(), sender@, preset, opt_chars(*alias), strings_view(invite@)),
        res.is_ok() ==> old(store).rooms()[r as int].pdus().len() == 0
            && final(store).rooms()[r as int].pdus().len() == 6 + (if alias.is_some() { 1int } else { 0int }),
        old(store).rooms()[r as int].pdus().len() == 0 && old(globals).current() + 7 <= u64::MAX ==> res.is_ok(),
        res.is_ok() ==> final(globals).current() <= old(globals).current() + 7,
        grows(*final(store), *old(store)),
{
    proof {
        lemma_grows_refl(*old(store));
    }
    let ghost owed = old(store).rooms()[r as int].pdus().len() == 0 && old(globals).current() + 7 <= u64::MAX;
    let ghost g0 = old(globals).current();
    proof {
        lemma_creation_types_differ();
    }
    let create = Content::Create { creator: sender.clone(), room_version: version, federate, predecessor: None };
    let ghost before1 = *store;
    let step1 = append_plain(store, globals, r, ROOM_CREATE, create, sender, lock);
    proof {
        lemma_grows_append(*old(store), before1, *store, r as int);
    }
    if let Err(e) = step1 {
        return Err(e);
    }
    let ghost log0 = store.rooms()[r as int].pdus();
    let ghost s0 = *store;
    assert(globals.current() == g0 + 1);

    let join = PduBuilder {
        kind: event_type(ROOM_MEMBER),
        content: Content::Member { membership: Membership::Join },
        state_key: Some(sender.clone()),
        redacts: None,
    };
    assert(owed ==> authorized(*store, r as int, sender@, ROOM_MEMBER@, Some(sender@)));
    let ghost before2 = *store;
    let step2 = build_and_append(store, globals, r, join, sender, lock);
    proof {
        lemma_grows_append(*old(store), before2, *store, r as int);
    }
    if let Err(e) = step2 {
        return Err(e);
    }
    let ghost log1 = store.rooms()[r as int].pdus();
    proof {
        crate::rooms::lemma_membership_after_append(s0, *store, r as int, sender@, globals.current(), Some((member_type(), sender@)));
    }
    assert(store.membership(r as int, sender@) == Some(Membership::Join));
    assert(globals.current() == g0 + 2);

    let mut users: Vec<(String, i64)> = Vec::new();
    users.push((sender.clone(), 100));
    if preset == RoomPreset::TrustedPrivateChat {
        let mut k: usize = 0;
        while k < invite.len()
            invariant
                k <= invite@.len(),
                users@.len() == 1 + k,
                users@[0].0@ == sender@,
                users@[0].1 == 100,
                forall|i: int| 1 <= i < users@.len() ==> (#[trigger] users@[i]).0@ == strings_view(invite@)[i - 1] && users@[i].1 == 100,
            decreases invite@.len() - k,
        {
            users.push((invite[k].clone(), 100));
            k = k + 1;
        }
    }
    let levels = Content::PowerLevels { users, users_default: 0, events_default: 0, invite: 50 };
    let ghost s1 = *store;
    let ghost before3 = *store;
    let step3 = append_plain(store, globals, r, ROOM_POWER_LEVELS, levels, sender, lock);
    proof {
        lemma_grows_append(*old(store), before3, *store, r as int);
    }
    if let Err(e) = step3 {
        return Err(e);
    }
    let ghost log2 = store.rooms()[r as int].pdus();
    proof {
        crate::rooms::lemma_membership_after_append(s1, *store, r as int, sender@, globals.current(), Some((ROOM_POWER_LEVELS@, Seq::<char>::empty())));
    }
    assert(globals.current() == g0 + 3);

    match alias {
        Some(a) => {
            let content = Content::CanonicalAlias { alias: a.clone() };
            let ghost s2 = *store;
            let ghost before4 = *store;
            let step4 = append_plain(store, globals, r, ROOM_CANONICAL_ALIAS, content, sender, lock);
            proof {
                lemma_grows_append(*old(store), before4, *store, r as int);
            }
            if let Err(e) = step4 {
                return Err(e);
            }
            proof {
                crate::rooms::lemma_membership_after_append(s2, *store, r as int, sender@, globals.current(), Some((ROOM_CANONICAL_ALIAS@, Seq::<char>::empty())));
            }
        },
        None => {},
    }
    let ghost log3 = store.rooms()[r as int].pdus();
    assert(store.membership(r as int, sender@) == Some(Membership::Join));
    assert(globals.current() <= g0 + 4);

    let rule = match preset {
        RoomPreset::PublicChat => JoinRule::Public,
        _ => JoinRule::Invite,
    };
    let ghost s3 = *store;
    let ghost before5 = *store;
    let step5 = append_plain(store, globals, r, ROOM_JOIN_RULES, Content::JoinRules { rule }, sender, lock);
    proof {
        lemma_grows_append(*old(store), before5, *store, r as int);
    }
    if let Err(e) = step5 {
        return Err(e);
    }
    let ghost log4 = store.rooms()[r as int].pdus();
    proof {
        crate::rooms::lemma_membership_after_append(s3, *store, r as int, sender@, globals.current(), Some((ROOM_JOIN_RULES@, Seq::<char>::empty())));
    }
    let history = Content::HistoryVisibility { visibility: HistoryVisibility::Shared };
    let ghost s4 = *store;
    let ghost before6 = *store;
    let step6 = append_plain(store, globals, r, ROOM_HISTORY_VISIBILITY, history, sender, lock);
    proof {
        lemma_grows_append(*old(store), before6, *store, r as int);
    }
    if let Err(e) = step6 {
        return Err(e);
    }
    let ghost log5 = store.rooms()[r as int].pdus();
    proof {
        crate::rooms::lemma_membership_after_append(s4, *store, r as int, sender@, globals.current(), Some((ROOM_HISTORY_VISIBILITY@, Seq::<char>::empty())));
    }
    let access = match preset {
        RoomPreset::TrustedPrivateChat => GuestAccess::CanJoin,
        _ => GuestAccess::Forbidden,
    };
    let ghost before7 = *store;
    let step7 = append_plain(store, globals, r, ROOM_GUEST_ACCESS, Content::GuestAccess { access }, sender, lock);
    proof {
        lemma_grows_append(*old(store), before7, *store, r as int);
    }
    if let Err(e) = step7 {
        return Err(e);
    }
    let ghost log6 = store.rooms()[r as int].pdus();
    proof {
        let a: int = if alias.is_some() { 1 } else { 0 };
        reveal_strlit("m.room.create");
        assert(log0.len() == 1);
        assert(log1.drop_last() == log0);
        assert(log1[0] == log0[0]);
        assert(log2[0] == log1[0] && log2[1] == log1[1]);
        if alias.is_some() {
            assert(log3[0] == log2[0] && log3[1] == log2[1] && log3[2] == log2[2]);
        } else {
            assert(log3 == log2);
        }
        assert(log6[3 + a] == log4[3 + a]) by {
            assert(log6[3 + a] == log5[3 + a]);
        }
        assert(log6[4 + a] == log5[4 + a]);
        assert forall|j: int| 0 <= j < log3.len() implies log6[j] == log3[j] by {
            assert(log6[j] == log5[j]);
            assert(log5[j] == log4[j]);
        }
        assert(log6.len() == 6 + a);
        assert(creation_prefix(log6, sender@, preset, opt_chars(*alias), strings_view(invite@)));
    }
    Ok(())
}

/// Creates a room: its creation event, the creator's join, power levels, the
/// canonical alias, the preset's rules, the caller's initial state, name and
/// topic, then the invites; each appended under the room's lock. A failure
/// part-way leaves the events already appended in place.
pub fn create_room(
    store: &mut EventStore,
    globals: &mut Globals,
    locks: &mut RoomLocks,
    directory: &mut Directory,
    req: CreateRoomRequest,
    sender: &String,
) -> (res: Result<usize, Error>)
    requires
        old(store).wf(),
        old(store).bounded_by(old(globals).current()),
        old(directory).wf(),
    ensures
        final(store).wf(),
        final(store).bounded_by(final(globals).current()),
        final(directory).wf(),
        (match req.alias_localpart {
            Some(lp) => !crate::ids::room_alias_valid(alias_of(lp@, req.server_name@)),
            None => false,
        }) ==> res == Err::<usize, Error>(Error::InvalidParam) && *final(store) == *old(store)
            && *final(directory) == *old(directory) && final(globals).current() == old(globals).current(),
        (match req.alias_localpart {
            Some(lp) => crate::ids::room_alias_valid(alias_of(lp@, req.server_name@))
                && old(directory).alias_map().contains_key(alias_of(lp@, req.server_name@)),
            None => false,
        }) ==> res == Err::<usize, Error>(Error::RoomInUse) && *final(store) == *old(store)
            && *final(directory) == *old(directory) && final(globals).current() == old(globals).current(),
        (match req.alias_localpart {
            Some(lp) => crate::ids::room_alias_valid(alias_of(lp@, req.server_name@))
                && !old(directory).alias_map().contains_key(alias_of(lp@, req.server_name@)),
            None => true,
        }) && (match req.room_version {
            Some(v) => v@ != "5"@ && v@ != "6"@,
            None => false,
        }) ==> res == Err::<usize, Error>(Error::UnsupportedRoomVersion) && *final(store) == *old(store)
            && *final(directory) == *old(directory) && final(globals).current() == old(globals).current(),
        res.is_ok() ==> res.unwrap() < final(store).rooms().len()
            && final(store).rooms()[res.unwrap() as int].id() == req.room_id@
            && creation_prefix(
                final(store).rooms()[res.unwrap() as int].pdus(),
                sender@,
                effective_preset(req.preset, req.visibility),
                match req.alias_localpart {
                    Some(lp) => Some(alias_of(lp@, req.server_name@)),
                    None => None,
                },
                strings_view(req.invite@),
            ),
        res.is_ok() ==> creation_tail(
            final(store).rooms()[res.unwrap() as int].pdus(),
            6 + if req.alias_localpart.is_some() { 1int } else { 0int },
            kept_initial(req.initial_state@, req.allow_encryption),
            req.name,
            req.topic,
            strings_view(req.invite@),
            sender@,
        ),
        grows(*final(store), *old(store)),
        res.is_ok() && req.initial_state@.len() == 0 && req.name.is_none() && req.topic.is_none() && req.invite@.len() == 0
            ==> final(store).rooms()[res.unwrap() as int].pdus().len() == 6 + (if req.alias_localpart.is_some() { 1int } else { 0int }),
        res.is_ok() && req.alias_localpart.is_some() ==> final(directory).alias_map().contains_key(
            alias_of(req.alias_localpart.unwrap()@, req.server_name@),
        ) && final(directory).alias_map()[alias_of(req.alias_localpart.unwrap()@, req.server_name@)] == req.room_id@,
        res.is_ok() && req.visibility == Visibility::Public ==> final(directory).public().contains(req.room_id@),
        (forall|q: int| 0 <= q < old(store).rooms().len() && old(store).rooms()[q].id() == req.room_id@
            ==> old(store).rooms()[q].pdus().len() == 0)
            && (match req.alias_localpart {
                Some(lp) => crate::ids::room_alias_valid(alias_of(lp@, req.server_name@))
                    && !old(directory).alias_map().contains_key(alias_of(lp@, req.server_name@)),
                None => true,
            })
            && (match req.room_version {
                Some(v) => v@ == "5"@ || v@ == "6"@,
                None => true,
            })
            && req.initial_state@.len() == 0 && req.name.is_none() && req.topic.is_none()
            && old(globals).current() + 7 <= u64::MAX ==> res.is_ok(),
{
    let CreateRoomRequest {
        room_id,
        server_name,
        alias_localpart,
        room_version,
        preset,
        visibility,
        is_direct,
        federate,
        initial_state,
        name,
        topic,
        invite,
        allow_encryption,
    } = req;
    let alias: Option<String> = match &alias_localpart {
        Some(lp) => {
            let a = String::from_str("#").concat(lp.as_str()).concat(":").concat(server_name.as_str());
            assert(a@ == alias_of(lp@, server_name@));
            if !parse_room_alias(a.as_str()) {
                return Err(Error::InvalidParam);
            }
            if directory.alias_target(&a).is_some() {
                return Err(Error::RoomInUse);
            }
            Some(a)
        },
        None => None,
    };
    let ghost alias_view: Option<Seq<char>> = match alias_localpart {
        Some(lp) => Some(alias_of(lp@, server_name@)),
        None => None,
    };
    assert(opt_chars(alias) == alias_view);

    let version = match room_version {
        Some(v) => {
            if v == String::from_str("5") || v == String::from_str("6") {
                v
            } else {
                return Err(Error::UnsupportedRoomVersion);
            }
        },
        None => String::from_str("6"),
    };

    let preset = match preset {
        Some(p) => p,
        None => match visibility {
            Visibility::Public => RoomPreset::PublicChat,
            Visibility::Private => RoomPreset::PrivateChat,
        },
    };

    proof {
        lemma_grows_refl(*old(store));
    }
    let r = store.get_or_create_room(&room_id);
    let ghost s1 = *store;
    proof {
        lemma_grows_frame(*old(store), s1, -1);
    }
    let lock = locks.lock_for(&room_id);
    let begun = append_creation_events(store, globals, r, &lock, sender, version, federate, preset, &alias, &invite);
    let ghost s2 = *store;
    proof {
        lemma_grows_trans(*old(store), s1, s2);
    }
    if let Err(e) = begun {
        return Err(e);
    }
    let ghost created = store.rooms()[r as int].pdus();

    let tail = append_caller_events(store, globals, r, &lock, sender, initial_state, allow_encryption, name, topic, &invite);
    proof {
        lemma_grows_frame(s2, *store, r as int);
        lemma_grows_trans(*old(store), s2, *store);
    }
    if let Err(e) = tail {
        return Err(e);
    }

    if let Some(a) = &alias {
        directory.set_alias(a, &room_id);
    }
    if visibility == Visibility::Public {
        directory.set_public(&room_id);
    }
    Ok(r)
}

/// The event invites one of `invites`.
pub open spec fn invite_of(p: Pdu, invites: Seq<Seq<char>>) -> bool {
    p.kind@ == member_type() && p.membership() == Some(Membership::Invite) && p.state_key.is_some()
        && invites.contains(p.state_key.unwrap()@)
}

/// From position `base` on, the log holds the kept initial-state events in
/// order, then the name event, then the topic event (each where asked for),
/// then only invites of the listed users.
pub open spec fn creation_tail(
    p: Seq<Pdu>,
    base: int,
    kept: Seq<PduBuilder>,
    name: Option<String>,
    topic: Option<String>,
    invites: Seq<Seq<char>>,
    sender: Seq<char>,
) -> bool {
    let nb = base + kept.len();
    let tb = nb + if name.is_some() { 1int } else { 0int };
    let ib = tb + if topic.is_some() { 1int } else { 0int };
    &&& p.len() >= ib
    &&& forall|i: int| 0 <= i < kept.len() ==> built_from(#[trigger] p[base + i], kept[i], sender)
    &&& (match name {
        Some(nm) => plain_state(p[nb], ROOM_NAME@) && p[nb].content == (Content::Name { name: nm }),
        None => true,
    })
    &&& (match topic {
        Some(t) => plain_state(p[tb], ROOM_TOPIC@) && p[tb].content == (Content::Topic { topic: t }),
        None => true,
    })
    &&& forall|j: int| ib <= j < p.len() ==> invite_of(#[trigger] p[j], invites)
}

/// Appends what the caller asked for after the fixed creation events: the
/// initial state, the name, the topic, then the invites (an invite that fails
/// is passed over).
fn append_caller_events(
    store: &mut EventStore,
    globals: &mut Globals,
    r: usize,
    lock: &StateLock,
    sender: &String,
    initial_state: Vec<PduBuilder>,
    allow_encryption: bool,
    name: Option<String>,
    topic: Option<String>,
    invite: &Vec<String>,
) -> (res: Result<(), Error>)
    requires
        old(store).wf(),
        old(store).bounded_by(old(globals).current()),
        r < old(store).rooms().len(),
        lock.room() == old(store).rooms()[r as int].id(),
    ensures
        final(store).wf(),
        final(store).bounded_by(final(globals).current()),
        final(store).rooms().len() == old(store).rooms().len(),
        final(store).rooms()[r as int].id() == old(store).rooms()[r as int].id(),
        forall|q: int| 0 <= q < old(store).rooms().len() && q != r ==> #[trigger] final(store).rooms()[q] == old(store).rooms()[q],
        extends_log(final(store).rooms()[r as int].pdus(), old(store).rooms()[r as int].pdus()),
        res.is_ok() ==> creation_tail(final(store).rooms()[r as int].pdus(), old(store).rooms()[r as int].pdus().len() as int,
            kept_initial(initial_state@, allow_encryption), name, topic, strings_view(invite@), sender@),
        initial_state@.len() == 0 && name.is_none() && topic.is_none() ==> res.is_ok(),
        initial_state@.len() == 0 && name.is_none() && topic.is_none() && invite@.len() == 0
            ==> *final(store) == *old(store),
{
    let ghost p0 = store.rooms()[r as int].pdus();
    let ghost base = p0.len() as int;
    let ghost kept = kept_initial(initial_state@, allow_encryption);
    if let Err(e) = append_initial_state(store, globals, r, lock, sender, initial_state, allow_encryption) {
        return Err(e);
    }
    let ghost p1 = store.rooms()[r as int].pdus();
    let ghost s1 = *store;
    match name {
        Some(n) => {
            let ghost nm = n;
            if let Err(e) = append_plain(store, globals, r, ROOM_NAME, Content::Name { name: n }, sender, lock) {
                return Err(e);
            }
            proof {
                let p = store.rooms()[r as int].pdus();
                assert(p[base + kept.len()] == p.last());
            }
        },
        None => {},
    }
    let ghost p2 = store.rooms()[r as int].pdus();
    match topic {
        Some(t) => {
            if let Err(e) = append_plain(store, globals, r, ROOM_TOPIC, Content::Topic { topic: t }, sender, lock) {
                return Err(e);
            }
        },
        None => {},
    }
    let ghost p3 = store.rooms()[r as int].pdus();
    invite_all(store, globals, r, lock, sender, invite);
    proof {
        let p = store.rooms()[r as int].pdus();
        assert(extends_log(p, p3));
        assert(extends_log(p3, p2));
        assert(extends_log(p2, p1));
        assert forall|i: int| 0 <= i < kept.len() implies built_from(#[trigger] p[base + i], kept[i], sender@) by {
            assert(p[base + i] == p3[base + i]);
            assert(p3[base + i] == p2[base + i]);
            assert(p2[base + i] == p1[base + i]);
        }
        let nb = base + kept.len();
        if name.is_some() {
            assert(p[nb] == p3[nb]);
            assert(p3[nb] == p2[nb]);
            assert(p2[nb] == p2.last());
        }
        if topic.is_some() {
            let tb = nb + if name.is_some() { 1int } else { 0int };
            assert(p[tb] == p3[tb]);
            assert(p3[tb] == p3.last());
        }
        assert forall|q: int| 0 <= q < old(store).rooms().len() && q != r implies #[trigger] store.rooms()[q] == old(store).rooms()[q] by {
            assert(s1.rooms()[q] == old(store).rooms()[q]);
        }
        assert forall|j: int| 0 <= j < p0.len() implies #[trigger] p[j] == p0[j] by {
            assert(p[j] == p3[j]);
            assert(p3[j] == p2[j]);
            assert(p2[j] == p1[j]);
        }
    }
    Ok(())
}

/// The events of the caller's initial state that are appended: all of them,
/// without encryption events where encryption is not allowed.
pub open spec fn kept_initial(events: Seq<PduBuilder>, allow_encryption: bool) -> Seq<PduBuilder>
    decreases events.len(),
{
    if events.len() == 0 {
        Seq::empty()
    } else {
        let rest = kept_initial(events.drop_last(), allow_encryption);
        if allow_encryption || events.last().kind@ != ROOM_ENCRYPTION@ {
            rest.push(events.last())
        } else {
            rest
        }
    }
}

/// The event `p` is what builder `b` asked for, sent by `sender`.
pub open spec fn built_from(p: Pdu, b: PduBuilder, sender: Seq<char>) -> bool {
    p.kind == b.kind && p.state_key == b.state_key && p.content == b.content && p.sender@ == sender
}

/// Appends the caller's initial state, in order, without encryption events
/// where encryption is not allowed.
fn append_initial_state(
    store: &mut EventStore,
    globals: &mut Globals,
    r: usize,
    lock: &StateLock,
    sender: &String,
    events: Vec<PduBuilder>,
    allow_encryption: bool,
) -> (res: Result<(), Error>)
    requires
        old(store).wf(),
        old(store).bounded_by(old(globals).current()),
        r < old(store).rooms().len(),
        lock.room() == old(store).rooms()[r as int].id(),
    ensures
        final(store).wf(),
        final(store).bounded_by(final(globals).current()),
        final(store).rooms().len() == old(store).rooms().len(),
        final(store).rooms()[r as int].id() == old(store).rooms()[r as int].id(),
        forall|q: int| 0 <= q < old(store).rooms().len() && q != r ==> #[trigger] final(store).rooms()[q] == old(store).rooms()[q],
        extends_log(final(store).rooms()[r as int].pdus(), old(store).rooms()[r as int].pdus()),
        events@.len() == 0 ==> res.is_ok() && *final(store) == *old(store),
        res.is_ok() ==> ({
            let p = final(store).rooms()[r as int].pdus();
            let n = old(store).rooms()[r as int].pdus().len() as int;
            let k = kept_initial(events@, allow_encryption);
            &&& p.len() == n + k.len()
            &&& forall|i: int| 0 <= i < k.len() ==> built_from(#[trigger] p[n + i], k[i], sender@)
        }),
{
    let ghost start = store.rooms()[r as int].pdus();
    let ghost n = start.len() as int;
    let ghost mut done: Seq<PduBuilder> = Seq::empty();
    let mut pending = events;
    while pending.len() > 0
        invariant
            store.wf(),
            store.bounded_by(globals.current()),
            r < store.rooms().len(),
            store.rooms().len() == old(store).rooms().len(),
            forall|q: int| 0 <= q < old(store).rooms().len() && q != r ==> #[trigger] store.rooms()[q] == old(store).rooms()[q],
            store.rooms()[r as int].id() == old(store).rooms()[r as int].id(),
            lock.room() == store.rooms()[r as int].id(),
            start == old(store).rooms()[r as int].pdus(),
            n == start.len(),
            extends_log(store.rooms()[r as int].pdus(), start),
            pending@.len() <= events@.len(),
            events@.len() == 0 ==> *store == *old(store),
            events@ == done + pending@,
            store.rooms()[r as int].pdus().len() == n + kept_initial(done, allow_encryption).len(),
            forall|i: int| 0 <= i < kept_initial(done, allow_encryption).len()
                ==> built_from(#[trigger] store.rooms()[r as int].pdus()[n + i], kept_initial(done, allow_encryption)[i], sender@),
        decreases pending@.len(),
    {
        let ghost before_pending = pending@;
        let ghost before = store.rooms()[r as int].pdus();
        let ev = pending.remove(0);
        proof {
            assert(ev == before_pending[0]);
            assert(done.push(ev) + pending@ =~= done + before_pending);
            assert(done.push(ev).drop_last() =~= done);
            assert(done.push(ev).last() == ev);
        }
        let ghost ev_ghost = ev;
        if allow_encryption || !(ev.kind == event_type(ROOM_ENCRYPTION)) {
            let appended = build_and_append(store, globals, r, ev, sender, lock);
            match appended {
                Ok(_) => {
                    proof {
                        let p = store.rooms()[r as int].pdus();
                        let k = kept_initial(done.push(ev_ghost), allow_encryption);
                        assert(k == kept_initial(done, allow_encryption).push(ev_ghost));
                        assert forall|j: int| 0 <= j < before.len() implies #[trigger] p[j] == before[j] by {
                            assert(p.drop_last()[j] == p[j]);
                        }
                        assert forall|i: int| 0 <= i < k.len() implies built_from(#[trigger] p[n + i], k[i], sender@) by {
                            if i < k.len() - 1 {
                                assert(p[n + i] == before[n + i]);
                            } else {
                                assert(p[n + i] == p.last());
                            }
                        }
                    }
                },
                Err(e) => {
                    return Err(e);
                },
            }
        } else {
            proof {
                assert(kept_initial(done.push(ev_ghost), allow_encryption) == kept_initial(done, allow_encryption));
            }
        }
        proof {
            done = done.push(ev_ghost);
        }
    }
    proof {
        assert(done =~= events@);
    }
    Ok(())
}

/// Invites each user in turn; an invite that fails is passed over.
fn invite_all(
    store: &mut EventStore,
    globals: &mut Globals,
    r: usize,
    lock: &StateLock,
    sender: &String,
    invite: &Vec<String>,
)
    requires
        old(store).wf(),
        old(store).bounded_by(old(globals).current()),
        r < old(store).rooms().len(),
        lock.room() == old(store).rooms()[r as int].id(),
    ensures
        final(store).wf(),
        final(store).bounded_by(final(globals).current()),
        final(store).rooms().len() == old(store).rooms().len(),
        final(store).rooms()[r as int].id() == old(store).rooms()[r as int].id(),
        extends_log(final(store).rooms()[r as int].pdus(), old(store).rooms()[r as int].pdus()),
        invite@.len() == 0 ==> *final(store) == *old(store),
        forall|q: int| 0 <= q < old(store).rooms().len() && q != r ==> #[trigger] final(store).rooms()[q] == old(store).rooms()[q],
        forall|j: int| old(store).rooms()[r as int].pdus().len() <= j < final(store).rooms()[r as int].pdus().len()
            ==> invite_of(#[trigger] final(store).rooms()[r as int].pdus()[j], strings_view(invite@)),
{
    let ghost start = store.rooms()[r as int].pdus();
    let mut k: usize = 0;
    while k < invite.len()
        invariant
            k <= invite@.len(),
            store.wf(),
            store.bounded_by(globals.current()),
            r < store.rooms().len(),
            store.rooms().len() == old(store).rooms().len(),
            store.rooms()[r as int].id() == old(store).rooms()[r as int].id(),
            lock.room() == store.rooms()[r as int].id(),
            start == old(store).rooms()[r as int].pdus(),
            extends_log(store.rooms()[r as int].pdus(), start),
            invite@.len() == 0 ==> *store == *old(store),
            forall|q: int| 0 <= q < old(store).rooms().len() && q != r ==> #[trigger] store.rooms()[q] == old(store).rooms()[q],
            forall|j: int| start.len() <= j < store.rooms()[r as int].pdus().len()
                ==> invite_of(#[trigger] store.rooms()[r as int].pdus()[j], strings_view(invite@)),
        decreases invite@.len() - k,
    {
        let pdu = PduBuilder {
            kind: event_type(ROOM_MEMBER),
            content: Content::Member { membership: Membership::Invite },
            state_key: Some(invite[k].clone()),
            redacts: None,
        };
        let ghost before = store.rooms()[r as int].pdus();
        let done = build_and_append(store, globals, r, pdu, sender, lock);
        proof {
            if done.is_ok() {
                let p = store.rooms()[r as int].pdus();
                assert forall|j: int| 0 <= j < before.len() implies #[trigger] p[j] == before[j] by {
                    assert(p.drop_last()[j] == p[j]);
                }
                assert(strings_view(invite@)[k as int] == invite@[k as int]@);
                assert forall|j: int| start.len() <= j < p.len() implies invite_of(#[trigger] p[j], strings_view(invite@)) by {
                    if j < before.len() {
                        assert(p[j] == before[j]);
                    } else {
                        assert(p[j] == p.last());
                    }
                }
            }
        }
        k = k + 1;
    }
}

/// A state event with the empty state key.
fn plain_builder(kind: &'static str, content: Content) -> (b: PduBuilder)
    ensures
        b.kind@ == kind@,
        opt_chars(b.state_key) == Some(Seq::<char>::empty()),
        b.content == content,
{
    PduBuilder { kind: event_type(kind), content, state_key: Some(String::new()), redacts: None }
}

/// The power level that events and invites need in a replaced room: the
/// greater of 50 and one above the users' default (saturating).
pub open spec fn restricted_level(users_default: i64) -> i64 {
    if users_default < 50 {
        50
    } else if users_default == i64::MAX {
        i64::MAX
    } else {
        (users_default + 1) as i64
    }
}

/// The power level that events and invites need in a replaced room.
pub fn restricted_level_of(users_default: i64) -> (r: i64)
    ensures
        r == restricted_level(users_default),
{
    if users_default < 50 {
        50
    } else if users_default == i64::MAX {
        i64::MAX
    } else {
        users_default + 1
    }
}

impl Directory {
    /// The aliases that point to a room.
    pub fn aliases_of(&self, room: &String) -> (r: Vec<String>)
        requires
            self.wf(),
        ensures
            forall|a: Seq<char>| #[trigger] strings_view(r@).contains(a) <==> self.alias_map().contains_key(a)
                && self.alias_map()[a] == room@,
    {
        let mut out: Vec<String> = Vec::new();
        let mut i: usize = 0;
        while i < self.aliases.len()
            invariant
                self.wf(),
                i <= self.aliases@.len(),
                forall|a: Seq<char>| #[trigger] strings_view(out@).contains(a) <==> exists|j: int| 0 <= j < i
                    && #[trigger] self.aliases@[j].0@ == a && self.aliases@[j].1@ == room@,
            decreases self.aliases@.len() - i,
        {
            let ghost prev = out@;
            if self.aliases[i].1 == *room {
                out.push(self.aliases[i].0.clone());
            }
            proof {
                assert forall|a: Seq<char>| #[trigger] strings_view(out@).contains(a) <==> exists|j: int| 0 <= j < i + 1
                    && #[trigger] self.aliases@[j].0@ == a && self.aliases@[j].1@ == room@ by {
                    let ov = strings_view(out@);
                    let pv = strings_view(prev);
                    if ov.contains(a) {
                        let x = choose|x: int| 0 <= x < ov.len() && ov[x] == a;
                        if x < prev.len() {
                            assert(pv[x] == a);
                            assert(pv.contains(a));
                        }
                    }
                    if exists|j: int| 0 <= j < i + 1 && #[trigger] self.aliases@[j].0@ == a && self.aliases@[j].1@ == room@ {
                        let j = choose|j: int| 0 <= j < i + 1 && #[trigger] self.aliases@[j].0@ == a && self.aliases@[j].1@ == room@;
                        if j < i {
                            assert(pv.contains(a));
                            let x = choose|x: int| 0 <= x < pv.len() && pv[x] == a;
                            assert(ov[x] == a);
                        } else {
                            assert(ov[prev.len() as int] == a);
                        }
                    }
                }
            }
            i = i + 1;
        }
        proof {
            assert forall|a: Seq<char>| #[trigger] strings_view(out@).contains(a) <==> self.alias_map().contains_key(a)
                && self.alias_map()[a] == room@ by {
                if self.alias_map().contains_key(a) {
                    let j = choose|j: int| 0 <= j < self.aliases@.len() && self.aliases@[j].0@ == a;
                    assert(self.alias_map()[a] == self.aliases@[j].1@);
                }
                if exists|j: int| 0 <= j < self.aliases@.len() && #[trigger] self.aliases@[j].0@ == a && self.aliases@[j].1@ == room@ {
                    let j = choose|j: int| 0 <= j < self.aliases@.len() && #[trigger] self.aliases@[j].0@ == a && self.aliases@[j].1@ == room@;
                    let k = choose|k: int| 0 <= k < self.aliases@.len() && self.aliases@[k].0@ == a;
                    assert(j == k);
                }
            }
        }
        out
    }
}

/// The content of the state event of `kind` with the empty state key in room `r`.
fn plain_content<'a>(store: &'a EventStore, r: usize, kind: &'static str) -> (c: Option<&'a Content>)
    requires
        store.wf(),
        r < store.rooms().len(),
    ensures
        c.is_some() == state_content(*store, r as int, (kind@, Seq::<char>::empty())).is_some(),
        c.is_some() ==> *c.unwrap() == state_content(*store, r as int, (kind@, Seq::<char>::empty())).unwrap(),
{
    let k = event_type(kind);
    let empty = String::new();
    match store.state_get(r, &k, &empty) {
        Some(count) => match store.position_of(r, count) {
            Some(j) => {
                proof {
                    let p = store.rooms()[r as int].pdus();
                    assert(store.rooms()[r as int].wf(store.reg()));
                    let i = choose|i: int| 0 <= i < p.len() && p[i].count == count;
                    if i < j {
                        assert(p[i].count < p[j as int].count);
                    } else if i > j {
                        assert(p[j as int].count < p[i].count);
                    }
                }
                Some(&store.room_pdus(r)[j].content)
            },
            None => None,
        },
        None => None,
    }
}

/// The state event types a replacement room takes over, and the tombstone,
/// differ from the creation and member types.
proof fn lemma_upgrade_types_differ()
    ensures
        ROOM_SERVER_ACL@ != create_type() && ROOM_SERVER_ACL@ != member_type(),
        ROOM_ENCRYPTION@ != create_type() && ROOM_ENCRYPTION@ != member_type(),
        ROOM_NAME@ != create_type() && ROOM_NAME@ != member_type(),
        ROOM_AVATAR@ != create_type() && ROOM_AVATAR@ != member_type(),
        ROOM_TOPIC@ != create_type() && ROOM_TOPIC@ != member_type(),
        ROOM_GUEST_ACCESS@ != create_type() && ROOM_GUEST_ACCESS@ != member_type(),
        ROOM_HISTORY_VISIBILITY@ != create_type() && ROOM_HISTORY_VISIBILITY@ != member_type(),
        ROOM_JOIN_RULES@ != create_type() && ROOM_JOIN_RULES@ != member_type(),
        ROOM_POWER_LEVELS@ != create_type() && ROOM_POWER_LEVELS@ != member_type(),
        ROOM_TOMBSTONE@ != create_type() && ROOM_TOMBSTONE@ != member_type(),
        ROOM_TOMBSTONE@ != ROOM_POWER_LEVELS@,
        ROOM_MEMBER@ != create_type(),
{
    reveal_strlit("m.room.create");
    reveal_strlit("m.room.member");
    reveal_strlit("m.room.server_acl");
    reveal_strlit("m.room.encryption");
    reveal_strlit("m.room.name");
    reveal_strlit("m.room.avatar");
    reveal_strlit("m.room.topic");
    reveal_strlit("m.room.guest_access");
    reveal_strlit("m.room.history_visibility");
    reveal_strlit("m.room.join_rules");
    reveal_strlit("m.room.power_levels");
    reveal_strlit("m.room.tombstone");
    assert(ROOM_CREATE@.len() == 13);
    assert(ROOM_MEMBER@.len() == 13);
    assert(ROOM_AVATAR@.len() == 13);
    assert(ROOM_MEMBER@[7] != ROOM_CREATE@[7]);
    assert(ROOM_AVATAR@[7] != ROOM_CREATE@[7]);
    assert(ROOM_AVATAR@[7] != ROOM_MEMBER@[7]);
    assert(ROOM_SERVER_ACL@.len() == 17);
    assert(ROOM_ENCRYPTION@.len() == 17);
    assert(ROOM_NAME@.len() == 11);
    assert(ROOM_TOPIC@.len() == 12);
    assert(ROOM_GUEST_ACCESS@.len() == 19);
    assert(ROOM_HISTORY_VISIBILITY@.len() == 25);
    assert(ROOM_JOIN_RULES@.len() == 17);
    assert(ROOM_POWER_LEVELS@.len() == 19);
    assert(ROOM_TOMBSTONE@.len() == 16);
}

/// The state event types that carry over to a replacement room.
pub open spec fn transfer_kinds() -> Seq<Seq<char>> {
    seq![
        ROOM_SERVER_ACL@,
        ROOM_ENCRYPTION@,
        ROOM_NAME@,
        ROOM_AVATAR@,
        ROOM_TOPIC@,
        ROOM_GUEST_ACCESS@,
        ROOM_HISTORY_VISIBILITY@,
        ROOM_JOIN_RULES@,
        ROOM_POWER_LEVELS@,
    ]
}

/// The state of room `to` holds, under each transferable type that room
/// `from` of `src` holds, the same content.
pub open spec fn transferred(dst: EventStore, to: int, src: EventStore, from: int, upto: int) -> bool {
    forall|x: int| 0 <= x < upto && #[trigger] state_content(src, from, (transfer_kinds()[x], Seq::<char>::empty())).is_some()
        ==> state_content(dst, to, (transfer_kinds()[x], Seq::<char>::empty())).is_some()
            && content_same(
                state_content(dst, to, (transfer_kinds()[x], Seq::<char>::empty())).unwrap(),
                state_content(src, from, (transfer_kinds()[x], Seq::<char>::empty())).unwrap(),
            )
}

/// The transferable types differ from each other and from the tombstone.
proof fn lemma_transfer_kinds_distinct()
    ensures
        forall|x: int, y: int| 0 <= x < 9 && 0 <= y < 9 && x != y ==> transfer_kinds()[x] != transfer_kinds()[y],
        forall|x: int| 0 <= x < 9 ==> transfer_kinds()[x] != ROOM_TOMBSTONE@,
        transfer_kinds().len() == 9,
{
    reveal_strlit("m.room.server_acl");
    reveal_strlit("m.room.encryption");
    reveal_strlit("m.room.name");
    reveal_strlit("m.room.avatar");
    reveal_strlit("m.room.topic");
    reveal_strlit("m.room.guest_access");
    reveal_strlit("m.room.history_visibility");
    reveal_strlit("m.room.join_rules");
    reveal_strlit("m.room.power_levels");
    reveal_strlit("m.room.tombstone");
    let k = transfer_kinds();
    assert(k[0].len() == 17 && k[1].len() == 17 && k[2].len() == 11 && k[3].len() == 13 && k[4].len() == 12);
    assert(k[5].len() == 19 && k[6].len() == 25 && k[7].len() == 17 && k[8].len() == 19);
    assert(ROOM_TOMBSTONE@.len() == 16);
    assert(k[0][7] == 's' && k[1][7] == 'e' && k[7][7] == 'j');
    assert(k[5][7] == 'g' && k[8][7] == 'p');
}

/// Copies the state event of `kind` of room `from`, if any, into room `to`.
fn transfer_one(
    store: &mut EventStore,
    globals: &mut Globals,
    from: usize,
    to: usize,
    kind: &'static str,
    lock: &StateLock,
    sender: &String,
) -> (res: Result<(), Error>)
    requires
        old(store).wf(),
        old(store).bounded_by(old(globals).current()),
        from < old(store).rooms().len(),
        to < old(store).rooms().len(),
        from != to,
        lock.room() == old(store).rooms()[to as int].id(),
        kind@ != create_type(),
        kind@ != member_type(),
        old(store).membership(to as int, sender@) == Some(Membership::Join),
    ensures
        final(store).wf(),
        final(store).bounded_by(final(globals).current()),
        final(store).rooms().len() == old(store).rooms().len(),
        forall|q: int| 0 <= q < old(store).rooms().len() && q != to ==> #[trigger] final(store).rooms()[q] == old(store).rooms()[q],
        final(store).rooms()[to as int].id() == old(store).rooms()[to as int].id(),
        extends_log(final(store).rooms()[to as int].pdus(), old(store).rooms()[to as int].pdus()),
        extends(final(store).reg(), old(store).reg()),
        final(store).membership(to as int, sender@) == Some(Membership::Join),
        final(globals).current() <= old(globals).current() + 1,
        old(globals).current() < u64::MAX ==> res.is_ok(),
        res.is_ok() && state_content(*old(store), from as int, (kind@, Seq::<char>::empty())).is_some() ==> ({
            let key = (kind@, Seq::<char>::empty());
            &&& state_content(*final(store), to as int, key).is_some()
            &&& content_same(state_content(*final(store), to as int, key).unwrap(), state_content(*old(store), from as int, key).unwrap())
        }),
        forall|key: StateKey| key != (kind@, Seq::<char>::empty())
            ==> #[trigger] state_content(*final(store), to as int, key) == state_content(*old(store), to as int, key),
{
    let content = match plain_content(store, from, kind) {
        Some(c) => Some(copy_content(c)),
        None => None,
    };
    match content {
        Some(c) => {
            let ghost s0 = *store;
            proof {
                assert(store.rooms()[to as int].pdus().len() > 0);
            }
            match append_plain(store, globals, to, kind, c, sender, lock) {
                Ok(count) => {
                    proof {
                        let k = Some((kind@, Seq::<char>::empty()));
                        crate::rooms::lemma_membership_after_append(s0, *store, to as int, sender@, count, k);
                        crate::rooms::lemma_content_after_append(s0, *store, to as int, (kind@, Seq::<char>::empty()), count, k);
                        assert forall|key: StateKey| key != (kind@, Seq::<char>::empty())
                            implies #[trigger] state_content(*store, to as int, key) == state_content(s0, to as int, key) by {
                            crate::rooms::lemma_content_after_append(s0, *store, to as int, key, count, k);
                        }
                    }
                    Ok(())
                },
                Err(e) => Err(e),
            }
        },
        None => Ok(()),
    }
}

/// Copies the transferable state of room `from` into room `to`: server ACL,
/// encryption, name, avatar, topic, guest access, history visibility, join
/// rules and power levels.
fn transfer_state(
    store: &mut EventStore,
    globals: &mut Globals,
    from: usize,
    to: usize,
    lock: &StateLock,
    sender: &String,
) -> (res: Result<(), Error>)
    requires
        old(store).wf(),
        old(store).bounded_by(old(globals).current()),
        from < old(store).rooms().len(),
        to < old(store).rooms().len(),
        from != to,
        lock.room() == old(store).rooms()[to as int].id(),
        old(store).membership(to as int, sender@) == Some(Membership::Join),
    ensures
        final(store).wf(),
        final(store).bounded_by(final(globals).current()),
        final(store).rooms().len() == old(store).rooms().len(),
        forall|q: int| 0 <= q < old(store).rooms().len() && q != to ==> #[trigger] final(store).rooms()[q] == old(store).rooms()[q],
        final(store).rooms()[to as int].id() == old(store).rooms()[to as int].id(),
        extends_log(final(store).rooms()[to as int].pdus(), old(store).rooms()[to as int].pdus()),
        extends(final(store).reg(), old(store).reg()),
        final(globals).current() <= old(globals).current() + 9,
        old(globals).current() + 9 <= u64::MAX ==> res.is_ok(),
        res.is_ok() ==> transferred(*final(store), to as int, *old(store), from as int, 9),
        final(store).membership(to as int, sender@) == Some(Membership::Join),
{
    proof {
        lemma_upgrade_types_differ();
        lemma_transfer_kinds_distinct();
    }
    let kinds: [&'static str; 9] = [
        ROOM_SERVER_ACL,
        ROOM_ENCRYPTION,
        ROOM_NAME,
        ROOM_AVATAR,
        ROOM_TOPIC,
        ROOM_GUEST_ACCESS,
        ROOM_HISTORY_VISIBILITY,
        ROOM_JOIN_RULES,
        ROOM_POWER_LEVELS,
    ];
    let ghost g0 = old(globals).current();
    let mut t: usize = 0;
    while t < 9
        invariant
            t <= 9,
            kinds@ == seq![ROOM_SERVER_ACL, ROOM_ENCRYPTION, ROOM_NAME, ROOM_AVATAR, ROOM_TOPIC, ROOM_GUEST_ACCESS,
                ROOM_HISTORY_VISIBILITY, ROOM_JOIN_RULES, ROOM_POWER_LEVELS],
            forall|x: int| 0 <= x < 9 ==> (#[trigger] kinds@[x])@ != create_type() && kinds@[x]@ != member_type(),
            store.wf(),
            store.bounded_by(globals.current()),
            from < store.rooms().len(),
            to < store.rooms().len(),
            from != to,
            store.rooms().len() == old(store).rooms().len(),
            forall|q: int| 0 <= q < old(store).rooms().len() && q != to ==> #[trigger] store.rooms()[q] == old(store).rooms()[q],
            store.rooms()[to as int].id() == old(store).rooms()[to as int].id(),
            lock.room() == store.rooms()[to as int].id(),
            extends_log(store.rooms()[to as int].pdus(), old(store).rooms()[to as int].pdus()),
            extends(store.reg(), old(store).reg()),
            store.membership(to as int, sender@) == Some(Membership::Join),
            globals.current() <= g0 + t,
            g0 == old(globals).current(),
            forall|x: int| 0 <= x < 9 ==> (#[trigger] kinds@[x])@ == transfer_kinds()[x],
            forall|x: int, y: int| 0 <= x < 9 && 0 <= y < 9 && x != y ==> transfer_kinds()[x] != transfer_kinds()[y],
            transferred(*store, to as int, *old(store), from as int, t as int),
            old(store).wf(),
        decreases 9 - t,
    {
        let ghost before = *store;
        let ghost before_log = store.rooms()[to as int].pdus();
        let done = transfer_one(store, globals, from, to, kinds[t], lock, sender);
        if let Err(e) = done {
            return Err(e);
        }
        proof {
            crate::rooms::lemma_room_kept(*old(store), before, from as int);
            let kt = transfer_kinds()[t as int];
            assert(kinds@[t as int]@ == kt);
            assert forall|x: int| 0 <= x < t + 1 && #[trigger] state_content(*old(store), from as int, (transfer_kinds()[x], Seq::<char>::empty())).is_some()
                implies state_content(*store, to as int, (transfer_kinds()[x], Seq::<char>::empty())).is_some()
                    && content_same(
                        state_content(*store, to as int, (transfer_kinds()[x], Seq::<char>::empty())).unwrap(),
                        state_content(*old(store), from as int, (transfer_kinds()[x], Seq::<char>::empty())).unwrap(),
                    ) by {
                let key = (transfer_kinds()[x], Seq::<char>::empty());
                assert(state_content(before, from as int, key) == state_content(*old(store), from as int, key));
                if x < t {
                    assert(transfer_kinds()[x] != kt);
                    assert(key != (kt, Seq::<char>::empty()));
                    assert(state_content(*store, to as int, key) == state_content(before, to as int, key));
                }
            }
            assert forall|i: int| 0 <= i < old(store).rooms()[to as int].pdus().len() implies
                #[trigger] store.rooms()[to as int].pdus()[i] == old(store).rooms()[to as int].pdus()[i] by {
                assert(store.rooms()[to as int].pdus()[i] == before_log[i]);
            }
            assert forall|i: int| 0 <= i < old(store).reg().len() implies #[trigger] store.reg().snapshot(i) == old(store).reg().snapshot(i) by {
                assert(store.reg().snapshot(i) == before.reg().snapshot(i));
            }
        }
        t = t + 1;
    }
    Ok(())
}

/// Every alias that pointed to room `from` in `d0` points to room `to` in `d1`.
pub open spec fn aliases_moved(d1: Directory, d0: Directory, from: Seq<char>, to: Seq<char>) -> bool {
    forall|a: Seq<char>| d0.alias_map().contains_key(a) && d0.alias_map()[a] == from
        ==> d1.alias_map().contains_key(a) && #[trigger] d1.alias_map()[a] == to
}

/// Points every alias of room `from` at room `to`.
fn move_aliases(directory: &mut Directory, from: &String, to: &String)
    requires
        old(directory).wf(),
    ensures
        final(directory).wf(),
        aliases_moved(*final(directory), *old(directory), from@, to@),
{
    let aliases = directory.aliases_of(from);
    assert(*directory == *old(directory));
    assert forall|a: Seq<char>| strings_view(aliases@).contains(a) <==> old(directory).alias_map().contains_key(a)
        && old(directory).alias_map()[a] == from@ by {
        assert(strings_view(aliases@).contains(a) <==> directory.alias_map().contains_key(a) && directory.alias_map()[a] == from@);
    }
    assert(aliases@.subrange(0, 0) =~= Seq::<String>::empty());
    let mut k: usize = 0;
    while k < aliases.len()
        invariant
            directory.wf(),
            k <= aliases@.len(),
            forall|a: Seq<char>| strings_view(aliases@).contains(a) <==> old(directory).alias_map().contains_key(a)
                && old(directory).alias_map()[a] == from@,
            forall|a: Seq<char>| old(directory).alias_map().contains_key(a) ==> directory.alias_map().contains_key(a),
            forall|a: Seq<char>| #[trigger] directory.alias_map().contains_key(a) && !strings_view(aliases@.subrange(0, k as int)).contains(a)
                ==> old(directory).alias_map().contains_key(a) && directory.alias_map()[a] == old(directory).alias_map()[a],
            forall|i: int| 0 <= i < k ==> #[trigger] directory.alias_map()[aliases@[i]@] == to@ && directory.alias_map().contains_key(aliases@[i]@),
        decreases aliases@.len() - k,
    {
        let ghost prev = directory.alias_map();
        directory.set_alias(&aliases[k], to);
        proof {
            let sp = strings_view(aliases@.subrange(0, k as int));
            let sn = strings_view(aliases@.subrange(0, k + 1));
            assert(sn =~= sp.push(aliases@[k as int]@));
            assert forall|i: int| 0 <= i < k + 1 implies #[trigger] directory.alias_map()[aliases@[i]@] == to@
                && directory.alias_map().contains_key(aliases@[i]@) by {
                if i < k {
                    assert(prev[aliases@[i]@] == to@);
                }
            }
            assert forall|a: Seq<char>| #[trigger] directory.alias_map().contains_key(a) && !sn.contains(a)
                implies old(directory).alias_map().contains_key(a) && directory.alias_map()[a] == old(directory).alias_map()[a] by {
                assert(a != aliases@[k as int]@) by {
                    if a == aliases@[k as int]@ {
                        assert(sn[k as int] == a);
                    }
                }
                if sp.contains(a) {
                    let x = choose|x: int| 0 <= x < sp.len() && sp[x] == a;
                    assert(sn[x] == a);
                }
            }
        }
        k = k + 1;
    }
    proof {
        assert forall|a: Seq<char>| old(directory).alias_map().contains_key(a) && old(directory).alias_map()[a] == from@
            implies directory.alias_map().contains_key(a) && #[trigger] directory.alias_map()[a] == to@ by {
            assert(strings_view(aliases@).contains(a));
            let i = choose|i: int| 0 <= i < strings_view(aliases@).len() && strings_view(aliases@)[i] == a;
            assert(aliases@[i]@ == a);
        }
    }
}

/// `p` is the log `before` followed by a tombstone that names `replacement`
/// and by power levels that need `restricted_level` to send or invite.
pub open spec fn replaced_log(p: Seq<Pdu>, before: Seq<Pdu>, replacement: Seq<char>, old_levels: Option<Content>) -> bool {
    let n = before.len() as int;
    &&& p.len() == n + 2
    &&& extends_log(p, before)
    &&& plain_state(p[n], ROOM_TOMBSTONE@)
    &&& (match p[n].content {
        Content::Tombstone { replacement_room, .. } => replacement_room@ == replacement,
        _ => false,
    })
    &&& plain_state(p[n + 1], ROOM_POWER_LEVELS@)
    &&& levels_raised(p[n + 1].content, old_levels)
}

/// `new` is the power-levels content `old` with events and invites needing
/// `restricted_level` of the old users' default, every other field kept.
pub open spec fn levels_raised(new: Content, old: Option<Content>) -> bool {
    match (new, old) {
        (
            Content::PowerLevels { users: u2, users_default: d2, events_default: e2, invite: i2 },
            Some(Content::PowerLevels { users: u1, users_default: d1, .. }),
        ) => users_same(u2@, u1@) && d2 == d1 && e2 == restricted_level(d1) && i2 == restricted_level(d1),
        _ => false,
    }
}

/// The replacement room `r` of room `q` began after `q`'s tombstone: its
/// creation event names the tombstone and keeps `q`'s `federate`.
pub open spec fn upgrade_linked(fin: EventStore, start: EventStore, q: int, r: int) -> bool {
    let t = fin.rooms()[q].pdus()[start.rooms()[q].pdus().len() as int];
    let c = fin.rooms()[r].pdus()[0];
    &&& c.count > t.count
    &&& match c.content {
        Content::Create { federate, predecessor, .. } => predecessor.is_some() && predecessor.unwrap().1 == t.count
            && match state_content(start, q, (create_type(), Seq::<char>::empty())) {
                Some(Content::Create { federate: f0, .. }) => federate == f0,
                _ => false,
            },
        _ => false,
    }
}

/// Raises the power levels of room `r` so that ordinary users can no longer
/// send events or invite.
fn silence_room(store: &mut EventStore, globals: &mut Globals, r: usize, lock: &StateLock, sender: &String) -> (res: Result<u64, Error>)
    requires
        old(store).wf(),
        old(store).bounded_by(old(globals).current()),
        r < old(store).rooms().len(),
        lock.room() == old(store).rooms()[r as int].id(),
    ensures
        final(store).wf(),
        final(store).bounded_by(final(globals).current()),
        final(store).rooms().len() == old(store).rooms().len(),
        forall|q: int| 0 <= q < old(store).rooms().len() && q != r ==> #[trigger] final(store).rooms()[q] == old(store).rooms()[q],
        final(store).rooms()[r as int].id() == old(store).rooms()[r as int].id(),
        extends(final(store).reg(), old(store).reg()),
        old(store).membership(r as int, sender@) == Some(Membership::Join) && old(globals).current() < u64::MAX
            && (state_content(*old(store), r as int, (ROOM_POWER_LEVELS@, Seq::<char>::empty())) matches Some(Content::PowerLevels { .. }))
            ==> res.is_ok(),
        res.is_ok() ==> ({
            let p = final(store).rooms()[r as int].pdus();
            &&& p.drop_last() == old(store).rooms()[r as int].pdus()
            &&& p.len() == old(store).rooms()[r as int].pdus().len() + 1
            &&& plain_state(p.last(), ROOM_POWER_LEVELS@)
            &&& levels_raised(p.last().content, state_content(*old(store), r as int, (ROOM_POWER_LEVELS@, Seq::<char>::empty())))
        }),
{
    proof {
        lemma_upgrade_types_differ();
    }
    let levels = match plain_content(store, r, ROOM_POWER_LEVELS) {
        Some(Content::PowerLevels { users, users_default, .. }) => {
            let level = restricted_level_of(*users_default);
            Content::PowerLevels { users: copy_users(users), users_default: *users_default, events_default: level, invite: level }
        },
        _ => {
            return Err(Error::BadDatabase);
        },
    };
    proof {
        if old(store).membership(r as int, sender@) == Some(Membership::Join) {
            assert(store.rooms()[r as int].pdus().len() > 0);
        }
    }
    append_plain(store, globals, r, ROOM_POWER_LEVELS, levels, sender, lock)
}

/// Starts the replacement room `to` of room `from`: its creation event
/// (naming `from` and its tombstone), the sender's join, then the
/// transferable state of `from`.
#[verifier::rlimit(60)]
fn start_replacement(
    store: &mut EventStore,
    globals: &mut Globals,
    from: usize,
    to: usize,
    lock: &StateLock,
    sender: &String,
    version: &String,
    old_room: &String,
    tombstone_id: u64,
    federate: bool,
) -> (res: Result<(), Error>)
    requires
        old(store).wf(),
        old(store).bounded_by(old(globals).current()),
        from < old(store).rooms().len(),
        to < old(store).rooms().len(),
        from != to,
        lock.room() == old(store).rooms()[to as int].id(),
    ensures
        final(store).wf(),
        final(store).bounded_by(final(globals).current()),
        final(store).rooms().len() == old(store).rooms().len(),
        forall|q: int| 0 <= q < old(store).rooms().len() && q != to ==> #[trigger] final(store).rooms()[q] == old(store).rooms()[q],
        final(store).rooms()[to as int].id() == old(store).rooms()[to as int].id(),
        extends_log(final(store).rooms()[to as int].pdus(), old(store).rooms()[to as int].pdus()),
        extends(final(store).reg(), old(store).reg()),
        final(globals).current() <= old(globals).current() + 11,
        old(store).rooms()[to as int].pdus().len() == 0 && old(globals).current() + 11 <= u64::MAX ==> res.is_ok(),
        res.is_ok() ==> transferred(*final(store), to as int, *old(store), from as int, 9),
        res.is_ok() ==> final(store).rooms()[to as int].pdus()[0].count > old(globals).current(),
        res.is_ok() ==> ({
            let p = final(store).rooms()[to as int].pdus();
            &&& p.len() >= 2
            &&& plain_state(p[0], create_type())
            &&& p[0].content == (Content::Create {
                creator: *sender,
                room_version: *version,
                federate,
                predecessor: Some((*old_room, tombstone_id)),
            })
            &&& p[1].kind@ == member_type() && opt_chars(p[1].state_key) == Some(sender@)
            &&& p[1].membership() == Some(Membership::Join)
        }),
{
    proof {
        lemma_upgrade_types_differ();
    }
    let ghost s0 = *store;
    let create = Content::Create {
        creator: sender.clone(),
        room_version: version.clone(),
        federate,
        predecessor: Some((old_room.clone(), tombstone_id)),
    };
    if let Err(e) = append_plain(store, globals, to, ROOM_CREATE, create, sender, lock) {
        return Err(e);
    }
    let ghost log0 = store.rooms()[to as int].pdus();
    let ghost s1 = *store;
    let join = PduBuilder {
        kind: event_type(ROOM_MEMBER),
        content: Content::Member { membership: Membership::Join },
        state_key: Some(sender.clone()),
        redacts: None,
    };
    assert(s0.rooms()[to as int].pdus().len() == 0 ==> authorized(s1, to as int, sender@, ROOM_MEMBER@, Some(sender@)));
    let joined = build_and_append(store, globals, to, join, sender, lock);
    let c = match joined {
        Ok(c) => c,
        Err(e) => {
            return Err(e);
        },
    };
    let ghost log1 = store.rooms()[to as int].pdus();
    proof {
        crate::rooms::lemma_membership_after_append(s1, *store, to as int, sender@, c, Some((member_type(), sender@)));
        assert(log0.len() == 1);
        assert(log1[0] == log0[0]);
    }
    let ghost s2 = *store;
    let moved = transfer_state(store, globals, from, to, lock, sender);
    proof {
        crate::rooms::lemma_room_kept(s0, s2, from as int);
        assert forall|x: int| 0 <= x < 9 implies #[trigger] state_content(s2, from as int, (transfer_kinds()[x], Seq::<char>::empty()))
            == state_content(s0, from as int, (transfer_kinds()[x], Seq::<char>::empty())) by {}
        assert forall|i: int| 0 <= i < s0.rooms()[to as int].pdus().len() implies
            #[trigger] store.rooms()[to as int].pdus()[i] == s0.rooms()[to as int].pdus()[i] by {
            assert(store.rooms()[to as int].pdus()[i] == log1[i]);
            assert(log1[i] == log0[i]);
        }
        assert(store.rooms()[to as int].pdus()[0] == log1[0]);
        assert(store.rooms()[to as int].pdus()[1] == log1[1]);
        assert forall|i: int| 0 <= i < s0.reg().len() implies #[trigger] store.reg().snapshot(i) == s0.reg().snapshot(i) by {
            assert(store.reg().snapshot(i) == s2.reg().snapshot(i));
            assert(s2.reg().snapshot(i) == s1.reg().snapshot(i));
        }
    }
    if let Err(e) = moved {
        return Err(e);
    }
    proof {
        assert forall|x: int| 0 <= x < 9 && #[trigger] state_content(s0, from as int, (transfer_kinds()[x], Seq::<char>::empty())).is_some()
            implies state_content(*store, to as int, (transfer_kinds()[x], Seq::<char>::empty())).is_some()
                && content_same(
                    state_content(*store, to as int, (transfer_kinds()[x], Seq::<char>::empty())).unwrap(),
                    state_content(s0, from as int, (transfer_kinds()[x], Seq::<char>::empty())).unwrap(),
                ) by {
            assert(state_content(s2, from as int, (transfer_kinds()[x], Seq::<char>::empty()))
                == state_content(s0, from as int, (transfer_kinds()[x], Seq::<char>::empty())));
        }
    }
    Ok(())
}

/// The upgrade of room `old_room` is owed: the room exists, the sender is
/// joined to it, its state holds a readable creation event and power levels,
/// and no other room named `new_room` has begun.
pub open spec fn upgrade_possible(store: EventStore, old_room: Seq<char>, new_room: Seq<char>, sender: Seq<char>) -> bool {
    &&& exists|q: int| 0 <= q < store.rooms().len() && #[trigger] store.rooms()[q].id() == old_room
        && store.membership(q, sender) == Some(Membership::Join)
        && (state_content(store, q, (create_type(), Seq::<char>::empty())) matches Some(Content::Create { .. }))
        && (state_content(store, q, (ROOM_POWER_LEVELS@, Seq::<char>::empty())) matches Some(Content::PowerLevels { .. }))
    &&& new_room != old_room
    &&& forall|q: int| 0 <= q < store.rooms().len() && #[trigger] store.rooms()[q].id() == new_room
        ==> store.rooms()[q].pdus().len() == 0
}

/// Upgrades a room: a tombstone in the old room under its lock; then, under
/// the new room's lock, the new room's creation event (naming the old room
/// and the tombstone, and keeping the old room's `federate`), the sender's
/// join and the transferable state; the aliases move to the new room; last,
/// under the old room's lock again, the old room's power levels are raised so
/// that ordinary users can no longer send or invite. The two locks are never
/// held together.
#[verifier::rlimit(100)]
#[verifier::spinoff_prover]
pub fn upgrade_room(
    store: &mut EventStore,
    globals: &mut Globals,
    locks: &mut RoomLocks,
    directory: &mut Directory,
    old_room: &String,
    new_room: &String,
    new_version: &String,
    sender: &String,
) -> (res: Result<usize, Error>)
    requires
        old(store).wf(),
        old(store).bounded_by(old(globals).current()),
        old(directory).wf(),
    ensures
        final(store).wf(),
        final(store).bounded_by(final(globals).current()),
        final(directory).wf(),
        new_version@ != "5"@ && new_version@ != "6"@ ==> res == Err::<usize, Error>(Error::UnsupportedRoomVersion)
            && *final(store) == *old(store) && final(globals).current() == old(globals).current(),
        (new_version@ == "5"@ || new_version@ == "6"@) && (forall|q: int| 0 <= q < old(store).rooms().len()
            ==> old(store).rooms()[q].id() != old_room@) ==> res == Err::<usize, Error>(Error::NotFound)
            && *final(store) == *old(store),
        (new_version@ == "5"@ || new_version@ == "6"@) && upgrade_possible(*old(store), old_room@, new_room@, sender@)
            && old(globals).current() + 13 <= u64::MAX ==> res.is_ok(),
        res.is_ok() ==> ({
            let r = res.unwrap() as int;
            let p = final(store).rooms()[r].pdus();
            &&& r < final(store).rooms().len()
            &&& final(store).rooms()[r].id() == new_room@
            &&& p.len() >= 2
            &&& plain_state(p[0], create_type())
            &&& (match p[0].content {
                Content::Create { creator, room_version, predecessor, .. } => creator@ == sender@
                    && room_version@ == new_version@ && predecessor.is_some() && predecessor.unwrap().0@ == old_room@,
                _ => false,
            })
            &&& p[1].kind@ == member_type() && opt_chars(p[1].state_key) == Some(sender@)
            &&& p[1].membership() == Some(Membership::Join)
        }),
        res.is_ok() ==> forall|q: int| 0 <= q < old(store).rooms().len() && old(store).rooms()[q].id() == old_room@
            ==> replaced_log(final(store).rooms()[q].pdus(), old(store).rooms()[q].pdus(), new_room@,
                state_content(*old(store), q, (ROOM_POWER_LEVELS@, Seq::<char>::empty()))),
        res.is_ok() ==> forall|q: int| 0 <= q < old(store).rooms().len() && old(store).rooms()[q].id() == old_room@
            ==> upgrade_linked(*final(store), *old(store), q, res.unwrap() as int),
        res.is_ok() ==> forall|q: int| 0 <= q < old(store).rooms().len() && old(store).rooms()[q].id() == old_room@
            ==> transferred(*final(store), res.unwrap() as int, *old(store), q, 9),
        res.is_ok() ==> aliases_moved(*final(directory), *old(directory), old_room@, new_room@),
{
    proof {
        lemma_upgrade_types_differ();
    }
    if !(*new_version == String::from_str("5") || *new_version == String::from_str("6")) {
        return Err(Error::UnsupportedRoomVersion);
    }
    let old_r = match store.find_room(old_room) {
        Some(i) => i,
        None => {
            return Err(Error::NotFound);
        },
    };
    let ghost owed = upgrade_possible(*old(store), old_room@, new_room@, sender@) && old(globals).current() + 13 <= u64::MAX;
    let ghost g0 = old(globals).current();
    proof {
        if owed {
            let q = choose|q: int| 0 <= q < old(store).rooms().len() && #[trigger] old(store).rooms()[q].id() == old_room@
                && old(store).membership(q, sender@) == Some(Membership::Join)
                && (state_content(*old(store), q, (create_type(), Seq::<char>::empty())) matches Some(Content::Create { .. }))
                && (state_content(*old(store), q, (ROOM_POWER_LEVELS@, Seq::<char>::empty())) matches Some(Content::PowerLevels { .. }));
            assert(q == old_r);
        }
    }
    let ghost sa = *store;
    let new_r = store.get_or_create_room(new_room);
    proof {
        crate::rooms::lemma_room_kept(sa, *store, old_r as int);
        if new_room@ != old_room@ {
            assert(new_r != old_r);
        }
    }

    // The tombstone, under the old room's lock.
    let old_lock = locks.lock_for(old_room);
    let tombstone = Content::Tombstone { body: String::from_str("This room has been replaced"), replacement_room: new_room.clone() };
    let ghost before_old = store.rooms()[old_r as int].pdus();
    let ghost sb = *store;
    proof {
        if owed {
            assert(store.rooms()[old_r as int].pdus().len() > 0);
        }
    }
    let tombstone_id = match append_plain(store, globals, old_r, ROOM_TOMBSTONE, tombstone, sender, &old_lock) {
        Ok(c) => c,
        Err(e) => {
            return Err(e);
        },
    };
    let ghost marked = store.rooms()[old_r as int].pdus();
    let ghost sc = *store;
    proof {
        let k = Some((ROOM_TOMBSTONE@, Seq::<char>::empty()));
        crate::rooms::lemma_membership_after_append(sb, sc, old_r as int, sender@, tombstone_id, k);
        crate::rooms::lemma_content_after_append(sb, sc, old_r as int, (create_type(), Seq::<char>::empty()), tombstone_id, k);
        crate::rooms::lemma_content_after_append(sb, sc, old_r as int, (ROOM_POWER_LEVELS@, Seq::<char>::empty()), tombstone_id, k);
        lemma_transfer_kinds_distinct();
        assert forall|x: int| 0 <= x < 9 implies #[trigger] state_content(sc, old_r as int, (transfer_kinds()[x], Seq::<char>::empty()))
            == state_content(*old(store), old_r as int, (transfer_kinds()[x], Seq::<char>::empty())) by {
            crate::rooms::lemma_content_after_append(sb, sc, old_r as int, (transfer_kinds()[x], Seq::<char>::empty()), tombstone_id, k);
        }
    }

    // The new room, under its own lock.
    let new_lock = locks.lock_for(new_room);
    let federate = match plain_content(store, old_r, ROOM_CREATE) {
        Some(Content::Create { federate, .. }) => *federate,
        _ => {
            return Err(Error::BadDatabase);
        },
    };
    if old_r == new_r {
        return Err(Error::RoomInUse);
    }
    let started = start_replacement(store, globals, old_r, new_r, &new_lock, sender, new_version, old_room, tombstone_id, federate);
    if let Err(e) = started {
        return Err(e);
    }
    let ghost sd = *store;
    proof {
        crate::rooms::lemma_room_kept(sc, sd, old_r as int);
    }
    move_aliases(directory, old_room, new_room);

    // The old room's power levels, raised so that its users fall silent.
    let ghost kept = store.rooms()[new_r as int].pdus();
    assert(store.rooms()[old_r as int].pdus() == marked);
    if let Err(e) = silence_room(store, globals, old_r, &old_lock, sender) {
        return Err(e);
    }
    proof {
        let fin = store.rooms()[old_r as int].pdus();
        let n = before_old.len() as int;
        assert(fin.drop_last() == marked);
        assert(fin[n] == marked[n]);
        assert forall|j: int| 0 <= j < n implies #[trigger] fin[j] == before_old[j] by {
            assert(fin[j] == marked[j]);
        }
        assert(fin[n + 1] == fin.last());
        let pl = (ROOM_POWER_LEVELS@, Seq::<char>::empty());
        assert(state_content(sd, old_r as int, pl) == state_content(*old(store), old_r as int, pl));
        assert(replaced_log(fin, before_old, new_room@, state_content(*old(store), old_r as int, pl)));
        assert forall|q: int| 0 <= q < old(store).rooms().len() && old(store).rooms()[q].id() == old_room@
            implies replaced_log(store.rooms()[q].pdus(), old(store).rooms()[q].pdus(), new_room@,
                state_content(*old(store), q, (ROOM_POWER_LEVELS@, Seq::<char>::empty()))) by {
            if q != old_r {
                assert(old(store).rooms()[old_r as int].id() == old_room@);
            }
        }
        let p = store.rooms()[new_r as int].pdus();
        assert(p[0] == kept[0]);
        assert(p[1] == kept[1]);
        crate::rooms::lemma_room_kept(sd, *store, new_r as int);
        assert(upgrade_linked(*store, *old(store), old_r as int, new_r as int));
        assert forall|q: int| 0 <= q < old(store).rooms().len() && old(store).rooms()[q].id() == old_room@
            implies upgrade_linked(*store, *old(store), q, new_r as int) by {
            if q != old_r {
                assert(old(store).rooms()[old_r as int].id() == old_room@);
            }
        }
        assert forall|x: int| 0 <= x < 9 && #[trigger] state_content(*old(store), old_r as int, (transfer_kinds()[x], Seq::<char>::empty())).is_some()
            implies state_content(*store, new_r as int, (transfer_kinds()[x], Seq::<char>::empty())).is_some()
                && content_same(
                    state_content(*store, new_r as int, (transfer_kinds()[x], Seq::<char>::empty())).unwrap(),
                    state_content(*old(store), old_r as int, (transfer_kinds()[x], Seq::<char>::empty())).unwrap(),
                ) by {
            let key = (transfer_kinds()[x], Seq::<char>::empty());
            assert(state_content(sc, old_r as int, key) == state_content(*old(store), old_r as int, key));
            assert(state_content(sd, new_r as int, key) == state_content(*store, new_r as int, key));
        }
        assert forall|q: int| 0 <= q < old(store).rooms().len() && old(store).rooms()[q].id() == old_room@
            implies transferred(*store, new_r as int, *old(store), q, 9) by {
            if q != old_r {
                assert(old(store).rooms()[old_r as int].id() == old_room@);
            }
        }
    }
    Ok(new_r)
}

} // verus!
