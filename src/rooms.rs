use vstd::prelude::*;

use crate::counter::Globals;
use crate::error::Error;
use crate::events::{event_type, member_type, Content, Membership, Pdu, PduBuilder, ROOM_MEMBER};
use crate::state::{set_entry, state_map, unique_keys, SnapshotRegistry, StateEntry, StateKey};

verus! {

/// The room state that results from replaying the state events in order,
/// keeping the last write for each (type, state key).
pub open spec fn replay(p: Seq<Pdu>) -> Map<StateKey, u64>
    decreases p.len(),
{
    if p.len() == 0 {
        Map::empty()
    } else {
        let m = replay(p.drop_last());
        match p.last().state_key {
            Some(sk) => m.insert((p.last().kind@, sk@), p.last().count),
            None => m,
        }
    }
}

/// The mapping of an optional snapshot; no snapshot is the empty state.
pub open spec fn snap_map(reg: SnapshotRegistry, s: Option<usize>) -> Map<StateKey, u64> {
    match s {
        Some(id) => reg.snapshot(id as int),
        None => Map::empty(),
    }
}

/// `reg2` holds every snapshot of `reg1` under the same identifier.
pub open spec fn extends(reg2: SnapshotRegistry, reg1: SnapshotRegistry) -> bool {
    &&& reg2.len() >= reg1.len()
    &&& forall|i: int| 0 <= i < reg1.len() ==> #[trigger] reg2.snapshot(i) == reg1.snapshot(i)
}

/// The append-only event log of one room, with the state snapshot after each event.
pub struct RoomLog {
    room_id: String,
    pdus: Vec<Pdu>,
    states: Vec<Option<usize>>,
}

impl RoomLog {
    pub closed spec fn id(&self) -> Seq<char> {
        self.room_id@
    }

    /// The room's events in append order.
    pub closed spec fn pdus(&self) -> Seq<Pdu> {
        self.pdus@
    }

    /// The snapshot after each event; `None` before the first state event.
    pub closed spec fn states(&self) -> Seq<Option<usize>> {
        self.states@
    }

    /// The room's current snapshot.
    pub open spec fn current(&self) -> Option<usize> {
        if self.states().len() == 0 {
            None
        } else {
            self.states().last()
        }
    }

    pub open spec fn wf(&self, reg: SnapshotRegistry) -> bool {
        &&& self.pdus().len() == self.states().len()
        &&& forall|i: int, j: int| 0 <= i < j < self.pdus().len() ==> self.pdus()[i].count < self.pdus()[j].count
        &&& forall|i: int| 0 <= i < self.states().len() && (#[trigger] self.states()[i]).is_some()
            ==> self.states()[i].unwrap() < reg.len()
        &&& forall|i: int| 0 <= i < self.states().len()
            ==> snap_map(reg, #[trigger] self.states()[i]) == replay(self.pdus().take(i + 1))
    }

    pub proof fn lemma_wf_extends(&self, reg1: SnapshotRegistry, reg2: SnapshotRegistry)
        requires
            self.wf(reg1),
            extends(reg2, reg1),
        ensures
            self.wf(reg2),
    {
        assert forall|i: int| 0 <= i < self.states().len()
            implies snap_map(reg2, #[trigger] self.states()[i]) == replay(self.pdus().take(i + 1)) by {
            if self.states()[i].is_some() {
                assert(reg2.snapshot(self.states()[i].unwrap() as int) == reg1.snapshot(self.states()[i].unwrap() as int));
            }
        }
    }

    /// The current state is the replay of every state event in append order.
    pub proof fn lemma_current_is_replay(&self, reg: SnapshotRegistry)
        requires
            self.wf(reg),
        ensures
            snap_map(reg, self.current()) == replay(self.pdus()),
    {
        if self.states().len() > 0 {
            let n = self.states().len() - 1;
            assert(self.pdus().take(n + 1) =~= self.pdus());
            assert(snap_map(reg, self.states()[n]) == replay(self.pdus().take(n + 1)));
        } else {
            assert(self.pdus() =~= Seq::<Pdu>::empty());
        }
    }

    fn current_exec(&self) -> (r: Option<usize>)
        ensures
            r == self.current(),
    {
        if self.states.len() == 0 {
            None
        } else {
            self.states[self.states.len() - 1]
        }
    }
}

/// The event store of every room, with the snapshot registry they share.
pub struct EventStore {
    rooms: Vec<RoomLog>,
    registry: SnapshotRegistry,
}

impl EventStore {
    pub closed spec fn rooms(&self) -> Seq<RoomLog> {
        self.rooms@
    }

    pub closed spec fn reg(&self) -> SnapshotRegistry {
        self.registry
    }

    pub open spec fn wf(&self) -> bool {
        &&& self.reg().wf()
        &&& forall|r: int| 0 <= r < self.rooms().len() ==> (#[trigger] self.rooms()[r]).wf(self.reg())
        &&& forall|r: int, q: int| 0 <= r < self.rooms().len() && 0 <= q < self.rooms().len() && r != q
            ==> self.rooms()[r].id() != self.rooms()[q].id()
    }

    /// No event of any room was appended after `count`.
    pub open spec fn bounded_by(&self, count: u64) -> bool {
        forall|r: int, i: int| 0 <= r < self.rooms().len() && 0 <= i < self.rooms()[r].pdus().len()
            ==> (#[trigger] self.rooms()[r].pdus()[i]).count <= count
    }

    /// The current state of room `r`.
    pub open spec fn room_state(&self, r: int) -> Map<StateKey, u64> {
        snap_map(self.reg(), self.rooms()[r].current())
    }

    /// A store without rooms.
    pub fn new() -> (r: EventStore)
        ensures
            r.wf(),
            r.rooms().len() == 0,
            forall|c: u64| r.bounded_by(c),
    {
        EventStore { rooms: Vec::new(), registry: SnapshotRegistry::new() }
    }

    /// The snapshot registry.
    pub fn registry(&self) -> (r: &SnapshotRegistry)
        ensures
            *r == self.reg(),
    {
        &self.registry
    }

    /// How many rooms the store knows.
    pub fn room_count(&self) -> (r: usize)
        ensures
            r == self.rooms().len(),
    {
        self.rooms.len()
    }

    /// The position of a room by its identifier.
    pub fn find_room(&self, room_id: &String) -> (r: Option<usize>)
        ensures
            r.is_none() ==> forall|q: int| 0 <= q < self.rooms().len() ==> self.rooms()[q].id() != room_id@,
            r.is_some() ==> r.unwrap() < self.rooms().len() && self.rooms()[r.unwrap() as int].id() == room_id@,
    {
        let mut i: usize = 0;
        while i < self.rooms.len()
            invariant
                i <= self.rooms@.len(),
                forall|q: int| 0 <= q < i ==> self.rooms@[q].id() != room_id@,
            decreases self.rooms@.len() - i,
        {
            if self.rooms[i].room_id == *room_id {
                return Some(i);
            }
            i = i + 1;
        }
        None
    }

    /// The identifier of room `r`.
    pub fn room_id(&self, r: usize) -> (s: &String)
        requires
            r < self.rooms().len(),
        ensures
            s@ == self.rooms()[r as int].id(),
    {
        &self.rooms[r].room_id
    }

    /// The position of a room, creating an empty log for it where it is new.
    pub fn get_or_create_room(&mut self, room_id: &String) -> (r: usize)
        requires
            old(self).wf(),
        ensures
            final(self).wf(),
            r < final(self).rooms().len(),
            final(self).rooms()[r as int].id() == room_id@,
            final(self).reg() == old(self).reg(),
            final(self).rooms().len() >= old(self).rooms().len(),
            forall|q: int| 0 <= q < old(self).rooms().len() ==> #[trigger] final(self).rooms()[q] == old(self).rooms()[q],
            r >= old(self).rooms().len() ==> final(self).rooms()[r as int].pdus().len() == 0,
            forall|c: u64| old(self).bounded_by(c) ==> final(self).bounded_by(c),
    {
        match self.find_room(room_id) {
            Some(r) => r,
            None => {
                let log = RoomLog { room_id: room_id.clone(), pdus: Vec::new(), states: Vec::new() };
                let ghost before = self.rooms@;
                self.rooms.push(log);
                proof {
                    assert(self.rooms@[before.len() as int] == log);
                    assert(log.pdus() =~= Seq::<Pdu>::empty());
                    assert(log.wf(self.registry));
                    assert forall|q: int| 0 <= q < before.len() implies #[trigger] self.rooms@[q] == before[q] by {}
                }
                self.rooms.len() - 1
            },
        }
    }

    /// The events of room `r`, in append order.
    pub fn room_pdus(&self, r: usize) -> (p: &Vec<Pdu>)
        requires
            r < self.rooms().len(),
        ensures
            p@ == self.rooms()[r as int].pdus(),
    {
        &self.rooms[r].pdus
    }

    /// The current snapshot of room `r`.
    pub fn current_snapshot(&self, r: usize) -> (s: Option<usize>)
        requires
            r < self.rooms().len(),
        ensures
            s == self.rooms()[r as int].current(),
    {
        self.rooms[r].current_exec()
    }

    /// The snapshot after the event at position `i` of room `r`.
    pub fn snapshot_after(&self, r: usize, i: usize) -> (s: Option<usize>)
        requires
            self.wf(),
            r < self.rooms().len(),
            i < self.rooms()[r as int].pdus().len(),
        ensures
            s == self.rooms()[r as int].states()[i as int],
            s.is_some() ==> s.unwrap() < self.reg().len(),
    {
        assert(self.rooms@[r as int].wf(self.registry));
        self.rooms[r].states[i]
    }

    /// Appends an event to room `r`: it gets the next global count, and a
    /// state event moves the room to the snapshot of the previous state with
    /// its (type, state key) entry overwritten.
    pub fn append(&mut self, r: usize, sender: &String, pdu: PduBuilder, globals: &mut Globals) -> (res: Result<u64, Error>)
        requires
            old(self).wf(),
            old(self).bounded_by(old(globals).current()),
            r < old(self).rooms().len(),
        ensures
            final(self).wf(),
            final(self).bounded_by(final(globals).current()),
            final(self).rooms().len() == old(self).rooms().len(),
            extends(final(self).reg(), old(self).reg()),
            forall|q: int| 0 <= q < old(self).rooms().len() && q != r ==> #[trigger] final(self).rooms()[q] == old(self).rooms()[q],
            final(self).rooms()[r as int].id() == old(self).rooms()[r as int].id(),
            old(globals).current() == u64::MAX ==> res == Err::<u64, Error>(Error::CounterExhausted)
                && *final(self) == *old(self) && final(globals).current() == old(globals).current(),
            old(globals).current() < u64::MAX ==> res == Ok::<u64, Error>((old(globals).current() + 1) as u64)
                && final(globals).current() == old(globals).current() + 1,
            res.is_ok() ==> ({
                let p = final(self).rooms()[r as int].pdus();
                &&& p.drop_last() == old(self).rooms()[r as int].pdus()
                &&& p.len() == old(self).rooms()[r as int].pdus().len() + 1
                &&& p.last().count == res.unwrap()
                &&& p.last().sender@ == sender@
                &&& p.last().kind == pdu.kind
                &&& p.last().state_key == pdu.state_key
                &&& p.last().content == pdu.content
                &&& p.last().redacts == pdu.redacts
            }),
            res.is_ok() ==> final(self).room_state(r as int) == match pdu.state_key {
                Some(sk) => old(self).room_state(r as int).insert((pdu.kind@, sk@), res.unwrap()),
                None => old(self).room_state(r as int),
            },
    {
        let count = match globals.next_count() {
            Ok(c) => c,
            Err(e) => {
                return Err(e);
            },
        };
        let ghost old_reg = self.registry;
        let ghost old_log = self.rooms@[r as int];
        assert(old_log.wf(old_reg));
        proof {
            old_log.lemma_current_is_replay(old_reg);
        }
        let current = self.rooms[r].current_exec();
        let new_state = match &pdu.state_key {
            Some(sk) => {
                let mut entries = match current {
                    Some(id) => {
                        assert(old_log.states()[old_log.states().len() - 1].is_some());
                        self.registry.state_at(id)
                    },
                    None => {
                        let e: Vec<StateEntry> = Vec::new();
                        assert(state_map(e@) =~= Map::<StateKey, u64>::empty());
                        e
                    },
                };
                set_entry(&mut entries, &pdu.kind, sk, count);
                Some(self.registry.register(entries))
            },
            None => current,
        };
        let ghost new_reg = self.registry;
        let ghost kind = pdu.kind;
        let ghost state_key = pdu.state_key;
        let ghost content = pdu.content;
        let ghost redacts = pdu.redacts;
        let stored = Pdu {
            count,
            sender: sender.clone(),
            kind: pdu.kind,
            state_key: pdu.state_key,
            content: pdu.content,
            redacts: pdu.redacts,
        };
        let ghost before_rooms = self.rooms@;
        self.rooms[r].pdus.push(stored);
        self.rooms[r].states.push(new_state);
        proof {
            let log = self.rooms@[r as int];
            assert(log.pdus() == old_log.pdus().push(stored));
            assert(log.states() == old_log.states().push(new_state));
            assert(log.pdus().drop_last() =~= old_log.pdus());
            assert(extends(new_reg, old_reg));
            old_log.lemma_wf_extends(old_reg, new_reg);
            assert(log.pdus().take(log.pdus().len() as int) =~= log.pdus());
            assert(replay(log.pdus()) == match state_key {
                Some(sk) => replay(old_log.pdus()).insert((kind@, sk@), count),
                None => replay(old_log.pdus()),
            });
            assert forall|i: int| 0 <= i < log.states().len()
                implies snap_map(new_reg, #[trigger] log.states()[i]) == replay(log.pdus().take(i + 1)) by {
                if i < old_log.states().len() {
                    assert(log.states()[i] == old_log.states()[i]);
                    assert(log.pdus().take(i + 1) =~= old_log.pdus().take(i + 1));
                } else {
                    assert(i == old_log.states().len());
                    assert(log.pdus().take(i + 1) =~= log.pdus());
                    assert(snap_map(old_reg, current) == replay(old_log.pdus()));
                    if current.is_some() {
                        assert(new_reg.snapshot(current.unwrap() as int) == old_reg.snapshot(current.unwrap() as int));
                    }
                }
            }
            assert forall|i: int, j: int| 0 <= i < j < log.pdus().len() implies log.pdus()[i].count < log.pdus()[j].count by {
                if j == log.pdus().len() - 1 {
                    assert(before_rooms[r as int].pdus()[i].count <= old(globals).current());
                } else {
                    assert(log.pdus()[i] == old_log.pdus()[i]);
                    assert(log.pdus()[j] == old_log.pdus()[j]);
                }
            }
            assert forall|i: int| 0 <= i < log.states().len() && (#[trigger] log.states()[i]).is_some()
                implies log.states()[i].unwrap() < new_reg.len() by {
                if i < old_log.states().len() {
                    assert(log.states()[i] == old_log.states()[i]);
                }
            }
            assert(log.wf(new_reg));
            assert forall|q: int| 0 <= q < self.rooms@.len() implies (#[trigger] self.rooms@[q]).wf(self.registry) by {
                if q != r {
                    assert(self.rooms@[q] == before_rooms[q]);
                    before_rooms[q].lemma_wf_extends(old_reg, new_reg);
                }
            }
            assert forall|q: int, i: int| 0 <= q < self.rooms@.len() && 0 <= i < self.rooms@[q].pdus().len()
                implies (#[trigger] self.rooms@[q].pdus()[i]).count <= globals.current() by {
                if q != r {
                    assert(self.rooms@[q] == before_rooms[q]);
                } else if i < old_log.pdus().len() {
                    assert(log.pdus()[i] == old_log.pdus()[i]);
                }
            }
        }
        Ok(count)
    }

    /// The current state of room `r` equals the replay of all its state
    /// events in append order, keeping the last write for each key.
    pub proof fn lemma_state_is_replay(&self, r: int)
        requires
            self.wf(),
            0 <= r < self.rooms().len(),
        ensures
            self.room_state(r) == replay(self.rooms()[r].pdus()),
    {
        self.rooms()[r].lemma_current_is_replay(self.reg());
    }

    /// Two rooms whose update histories reach the same (type, state key) ->
    /// event mapping stand at the same snapshot identifier.
    pub proof fn lemma_converging_rooms(&self, r1: int, r2: int)
        requires
            self.wf(),
            0 <= r1 < self.rooms().len(),
            0 <= r2 < self.rooms().len(),
            self.rooms()[r1].current().is_some(),
            self.rooms()[r2].current().is_some(),
            replay(self.rooms()[r1].pdus()) == replay(self.rooms()[r2].pdus()),
        ensures
            self.rooms()[r1].current() == self.rooms()[r2].current(),
    {
        self.lemma_state_is_replay(r1);
        self.lemma_state_is_replay(r2);
        let a = self.rooms()[r1].current().unwrap();
        let b = self.rooms()[r2].current().unwrap();
        assert(self.rooms()[r1].wf(self.reg()));
        assert(self.rooms()[r2].wf(self.reg()));
        assert(self.rooms()[r1].states()[self.rooms()[r1].states().len() - 1].is_some());
        assert(self.rooms()[r2].states()[self.rooms()[r2].states().len() - 1].is_some());
        self.reg().lemma_identity_by_content(a as int, b as int);
    }

    /// The event that currently holds (kind, state key) in room `r`.
    pub fn state_get(&self, r: usize, kind: &String, state_key: &String) -> (e: Option<u64>)
        requires
            self.wf(),
            r < self.rooms().len(),
        ensures
            e == self.room_state(r as int).get((kind@, state_key@)),
    {
        let log = &self.rooms[r];
        assert(log.wf(self.registry));
        match log.current_exec() {
            Some(id) => {
                assert(log.states()[log.states().len() - 1].is_some());
                self.registry.get(id, kind, state_key)
            },
            None => None,
        }
    }

    /// The full current state of room `r`.
    pub fn room_state_full(&self, r: usize) -> (s: Vec<StateEntry>)
        requires
            self.wf(),
            r < self.rooms().len(),
        ensures
            unique_keys(s@),
            state_map(s@) == self.room_state(r as int),
    {
        let log = &self.rooms[r];
        assert(log.wf(self.registry));
        match log.current_exec() {
            Some(id) => {
                assert(log.states()[log.states().len() - 1].is_some());
                self.registry.state_at(id)
            },
            None => {
                let e: Vec<StateEntry> = Vec::new();
                assert(state_map(e@) =~= Map::<StateKey, u64>::empty());
                e
            },
        }
    }

    /// The position in room `r` of the event with the given count.
    pub fn position_of(&self, r: usize, count: u64) -> (i: Option<usize>)
        requires
            r < self.rooms().len(),
        ensures
            i.is_none() ==> forall|j: int| 0 <= j < self.rooms()[r as int].pdus().len()
                ==> (#[trigger] self.rooms()[r as int].pdus()[j]).count != count,
            i.is_some() ==> i.unwrap() < self.rooms()[r as int].pdus().len()
                && self.rooms()[r as int].pdus()[i.unwrap() as int].count == count,
    {
        let pdus = &self.rooms[r].pdus;
        let mut j: usize = 0;
        while j < pdus.len()
            invariant
                j <= pdus@.len(),
                pdus@ == self.rooms()[r as int].pdus(),
                forall|x: int| 0 <= x < j ==> (#[trigger] pdus@[x]).count != count,
            decreases pdus@.len() - j,
        {
            if pdus[j].count == count {
                return Some(j);
            }
            j = j + 1;
        }
        None
    }

    /// How many events of room `r` have a count of at most `since`; the events
    /// after `since` are those from this position on.
    pub fn split_point(&self, r: usize, since: u64) -> (n: usize)
        requires
            self.wf(),
            r < self.rooms().len(),
        ensures
            n <= self.rooms()[r as int].pdus().len(),
            forall|j: int| 0 <= j < n ==> (#[trigger] self.rooms()[r as int].pdus()[j]).count <= since,
            forall|j: int| n <= j < self.rooms()[r as int].pdus().len()
                ==> (#[trigger] self.rooms()[r as int].pdus()[j]).count > since,
    {
        let pdus = &self.rooms[r].pdus;
        assert(self.rooms@[r as int].wf(self.registry));
        let mut n: usize = pdus.len();
        while n > 0 && pdus[n - 1].count > since
            invariant
                n <= pdus@.len(),
                pdus@ == self.rooms()[r as int].pdus(),
                forall|j: int| n <= j < pdus@.len() ==> (#[trigger] pdus@[j]).count > since,
            decreases n,
        {
            n = n - 1;
        }
        assert forall|j: int| 0 <= j < n implies (#[trigger] pdus@[j]).count <= since by {
            if j < n - 1 {
                assert(pdus@[j].count < pdus@[n - 1].count);
            }
        }
        n
    }
}

/// The membership that the state gives `user`, read from the member event
/// that holds (m.room.member, user).
pub open spec fn membership_in(pdus: Seq<Pdu>, state: Map<StateKey, u64>, user: Seq<char>) -> Option<Membership> {
    if state.contains_key((member_type(), user)) && exists|j: int| 0 <= j < pdus.len() && pdus[j].count == state[(member_type(), user)] {
        let j = choose|j: int| 0 <= j < pdus.len() && pdus[j].count == state[(member_type(), user)];
        pdus[j].membership()
    } else {
        None
    }
}

impl EventStore {
    /// The membership of `user` in the current state of room `r`.
    pub open spec fn membership(&self, r: int, user: Seq<char>) -> Option<Membership> {
        membership_in(self.rooms()[r].pdus(), self.room_state(r), user)
    }

    /// The membership of `user` in the current state of room `r`.
    pub fn membership_of(&self, r: usize, user: &String) -> (m: Option<Membership>)
        requires
            self.wf(),
            r < self.rooms().len(),
        ensures
            m == self.membership(r as int, user@),
    {
        let kind = event_type(ROOM_MEMBER);
        let found = self.state_get(r, &kind, user);
        match found {
            Some(c) => {
                match self.position_of(r, c) {
                    Some(j) => {
                        proof {
                            let pdus = self.rooms()[r as int].pdus();
                            assert(self.rooms()[r as int].wf(self.reg()));
                            let k = choose|k: int| 0 <= k < pdus.len() && pdus[k].count == c;
                            if k < j {
                                assert(pdus[k].count < pdus[j as int].count);
                            } else if k > j {
                                assert(pdus[j as int].count < pdus[k].count);
                            }
                        }
                        match &self.rooms[r].pdus[j].content {
                            Content::Member { membership } => Some(*membership),
                            _ => None,
                        }
                    },
                    None => None,
                }
            },
            None => None,
        }
    }
}

/// After `s1` appended one event with count `c` to room `r` of `s0`, writing
/// the state key `k` (if any): the membership of `user` is the one the event
/// gives where it writes `user`'s member key, else it is unchanged.
pub proof fn lemma_membership_after_append(s0: EventStore, s1: EventStore, r: int, user: Seq<char>, c: u64, k: Option<StateKey>)
    requires
        s0.wf(),
        s1.wf(),
        0 <= r < s0.rooms().len(),
        r < s1.rooms().len(),
        s1.rooms()[r].pdus().len() == s0.rooms()[r].pdus().len() + 1,
        s1.rooms()[r].pdus().drop_last() == s0.rooms()[r].pdus(),
        s1.rooms()[r].pdus().last().count == c,
        s1.room_state(r) == match k {
            Some(key) => s0.room_state(r).insert(key, c),
            None => s0.room_state(r),
        },
    ensures
        k == Some((member_type(), user)) ==> s1.membership(r, user) == s1.rooms()[r].pdus().last().membership(),
        k != Some((member_type(), user)) ==> s1.membership(r, user) == s0.membership(r, user),
{
    let p0 = s0.rooms()[r].pdus();
    let p1 = s1.rooms()[r].pdus();
    let key = (member_type(), user);
    let n = p0.len() as int;
    assert(s1.rooms()[r].wf(s1.reg()));
    assert(p1.last() == p1[n]);
    assert forall|j: int| 0 <= j < n implies #[trigger] p1[j] == p0[j] by {
        assert(p1.drop_last()[j] == p1[j]);
    }
    if k == Some(key) {
        assert(s1.room_state(r)[key] == c);
        assert(p1[n].count == c);
        let j = choose|j: int| 0 <= j < p1.len() && p1[j].count == c;
        if j < n {
            assert(p1[j].count < p1[n].count);
        }
    } else if s0.room_state(r).contains_key(key) {
        let v = s0.room_state(r)[key];
        assert(s1.room_state(r)[key] == v);
        crate::sync::lemma_count_in_room(s0, r, key);
        let j0 = choose|j: int| 0 <= j < p0.len() && p0[j].count == v;
        assert(p1[j0].count == v);
        let j1 = choose|j: int| 0 <= j < p1.len() && p1[j].count == v;
        assert(s0.rooms()[r].wf(s0.reg()));
        if j1 < j0 {
            assert(p1[j1].count < p1[j0].count);
        } else if j1 > j0 {
            assert(p1[j0].count < p1[j1].count);
        }
        let j2 = choose|j: int| 0 <= j < p0.len() && p0[j].count == v;
        if j2 < j0 {
            assert(p0[j2].count < p0[j0].count);
        } else if j2 > j0 {
            assert(p0[j0].count < p0[j2].count);
        }
    } else {
        assert(!s1.room_state(r).contains_key(key));
    }
}

/// The content of the event that holds `key` in the current state of room `r`.
pub open spec fn state_content(store: EventStore, r: int, key: StateKey) -> Option<Content> {
    let p = store.rooms()[r].pdus();
    if store.room_state(r).contains_key(key) && exists|j: int| 0 <= j < p.len() && p[j].count == store.room_state(r)[key] {
        Some(p[choose|j: int| 0 <= j < p.len() && p[j].count == store.room_state(r)[key]].content)
    } else {
        None
    }
}

/// After `s1` appended one event with count `c` to room `r` of `s0`, writing
/// the state key `k` (if any), the holder of any other key is unchanged.
pub proof fn lemma_content_after_append(s0: EventStore, s1: EventStore, r: int, key: StateKey, c: u64, k: Option<StateKey>)
    requires
        s0.wf(),
        s1.wf(),
        0 <= r < s0.rooms().len(),
        r < s1.rooms().len(),
        s1.rooms()[r].pdus().len() == s0.rooms()[r].pdus().len() + 1,
        s1.rooms()[r].pdus().drop_last() == s0.rooms()[r].pdus(),
        s1.rooms()[r].pdus().last().count == c,
        s1.room_state(r) == match k {
            Some(kk) => s0.room_state(r).insert(kk, c),
            None => s0.room_state(r),
        },
    ensures
        k != Some(key) ==> state_content(s1, r, key) == state_content(s0, r, key),
        k == Some(key) ==> state_content(s1, r, key) == Some(s1.rooms()[r].pdus().last().content),
{
    let p0 = s0.rooms()[r].pdus();
    let p1 = s1.rooms()[r].pdus();
    let n = p0.len() as int;
    assert(s1.rooms()[r].wf(s1.reg()));
    assert(s0.rooms()[r].wf(s0.reg()));
    assert forall|j: int| 0 <= j < n implies #[trigger] p1[j] == p0[j] by {
        assert(p1.drop_last()[j] == p1[j]);
    }
    assert(p1.last() == p1[n]);
    if k == Some(key) {
        assert(s1.room_state(r)[key] == c);
        let j = choose|j: int| 0 <= j < p1.len() && p1[j].count == c;
        if j < n {
            assert(p1[j].count < p1[n].count);
        }
    } else if s0.room_state(r).contains_key(key) {
        let v = s0.room_state(r)[key];
        assert(s1.room_state(r)[key] == v);
        crate::sync::lemma_count_in_room(s0, r, key);
        let j0 = choose|j: int| 0 <= j < p0.len() && p0[j].count == v;
        assert(p1[j0].count == v);
        let j1 = choose|j: int| 0 <= j < p1.len() && p1[j].count == v;
        if j1 < j0 {
            assert(p1[j1].count < p1[j0].count);
        } else if j1 > j0 {
            assert(p1[j0].count < p1[j1].count);
        }
        let j2 = choose|j: int| 0 <= j < p0.len() && p0[j].count == v;
        if j2 < j0 {
            assert(p0[j2].count < p0[j0].count);
        } else if j2 > j0 {
            assert(p0[j0].count < p0[j2].count);
        }
    } else {
        assert(!s1.room_state(r).contains_key(key));
    }
}

/// A room that one store keeps unchanged from another, under a registry that
/// extends the other's, has the same state, memberships and state contents.
pub proof fn lemma_room_kept(s0: EventStore, s1: EventStore, q: int)
    requires
        s0.wf(),
        0 <= q < s0.rooms().len(),
        q < s1.rooms().len(),
        s1.rooms()[q] == s0.rooms()[q],
        extends(s1.reg(), s0.reg()),
    ensures
        s1.room_state(q) == s0.room_state(q),
        forall|u: Seq<char>| #[trigger] s1.membership(q, u) == s0.membership(q, u),
        forall|key: StateKey| #[trigger] state_content(s1, q, key) == state_content(s0, q, key),
{
    let log = s0.rooms()[q];
    assert(log.wf(s0.reg()));
    if log.states().len() > 0 {
        assert(log.states()[log.states().len() - 1] == log.states().last());
        if log.current().is_some() {
            assert(s1.reg().snapshot(log.current().unwrap() as int) == s0.reg().snapshot(log.current().unwrap() as int));
        }
    }
}

impl EventStore {
    /// A user may read room `room_id` only while joined to it.
    pub fn joined_room(&self, room_id: &String, user: &String) -> (r: Result<usize, Error>)
        requires
            self.wf(),
        ensures
            r.is_ok() <==> exists|q: int| 0 <= q < self.rooms().len() && self.rooms()[q].id() == room_id@
                && self.membership(q, user@) == Some(Membership::Join),
            r.is_ok() ==> r.unwrap() < self.rooms().len() && self.rooms()[r.unwrap() as int].id() == room_id@,
            r.is_err() ==> r == Err::<usize, Error>(Error::Forbidden),
    {
        match self.find_room(room_id) {
            Some(q) => {
                if self.membership_of(q, user) == Some(Membership::Join) {
                    Ok(q)
                } else {
                    proof {
                        assert forall|x: int| 0 <= x < self.rooms().len() && self.rooms()[x].id() == room_id@
                            implies self.membership(x, user@) != Some(Membership::Join) by {
                            if x != q {
                                assert(self.rooms()[q as int].id() == room_id@);
                            }
                        }
                    }
                    Err(Error::Forbidden)
                }
            },
            None => Err(Error::Forbidden),
        }
    }
}

} // verus!
