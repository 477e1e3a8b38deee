use vstd::prelude::*;

use crate::events::{event_type, member_type, Membership, Pdu, ROOM_MEMBER};
use crate::text::{contains_string, distinct_strings, strings_view};
use crate::rooms::EventStore;
use crate::rooms::snap_map;
use crate::state::{lemma_state_map_at, state_map, unique_keys, StateEntry, StateKey};
use crate::sync::{membership_at, membership_in_snapshot};

verus! {

/// The most members a room may have for its heroes to be listed.
pub const HEROES_THRESHOLD: usize = 5;

/// The users whose current membership in room `r` is `m`.
pub open spec fn members_with(store: EventStore, r: int, m: Membership) -> Set<Seq<char>> {
    Set::new(|u: Seq<char>| store.membership(r, u) == Some(m))
}

/// The users whose membership in snapshot `snap` of room `r` is `m`.
pub open spec fn members_at(store: EventStore, r: int, snap: Option<usize>, m: Membership) -> Set<Seq<char>> {
    Set::new(|u: Seq<char>| membership_at(store, r, snap, u) == Some(m))
}

/// A user is a possible hero of room `r` for `user`: a member event of the
/// log let them join or invited them, they are joined or invited now, and
/// they are not `user`.
pub open spec fn hero_of(store: EventStore, r: int, user: Seq<char>, u: Seq<char>) -> bool {
    &&& exists|j: int| 0 <= j < store.rooms()[r].pdus().len() && #[trigger] store.rooms()[r].pdus()[j].kind@ == member_type()
        && store.rooms()[r].pdus()[j].state_key.is_some() && store.rooms()[r].pdus()[j].state_key.unwrap()@ == u
        && (store.rooms()[r].pdus()[j].membership() == Some(Membership::Join)
            || store.rooms()[r].pdus()[j].membership() == Some(Membership::Invite))
    &&& (store.membership(r, u) == Some(Membership::Join) || store.membership(r, u) == Some(Membership::Invite))
    &&& u != user
}

/// The event at position `j` of the log lets `u` join or invites `u`.
pub open spec fn hero_event(p: Seq<Pdu>, u: Seq<char>, j: int) -> bool {
    0 <= j < p.len() && p[j].kind@ == member_type() && p[j].state_key.is_some() && p[j].state_key.unwrap()@ == u
        && (p[j].membership() == Some(Membership::Join) || p[j].membership() == Some(Membership::Invite))
}

/// The position of the first event of the log that lets `u` join or invites `u`.
pub open spec fn first_hero_event(p: Seq<Pdu>, u: Seq<char>) -> int {
    choose|j: int| hero_event(p, u, j) && forall|k: int| 0 <= k < j ==> !hero_event(p, u, k)
}

proof fn lemma_first_hero_event(p: Seq<Pdu>, u: Seq<char>, j: int)
    requires
        hero_event(p, u, j),
        forall|k: int| 0 <= k < j ==> !hero_event(p, u, k),
    ensures
        first_hero_event(p, u) == j,
{
    let f = first_hero_event(p, u);
    assert(hero_event(p, u, f) && forall|k: int| 0 <= k < f ==> !hero_event(p, u, k));
    if f < j {
        assert(!hero_event(p, u, f));
    }
    if j < f {
        assert(!hero_event(p, u, j));
    }
}

/// Heroes are listed in the order of their first member event in the log.
pub open spec fn heroes_ordered(p: Seq<Pdu>, h: Seq<String>) -> bool {
    forall|x: int, y: int| 0 <= x < y < h.len() ==> first_hero_event(p, h[x]@) < first_hero_event(p, h[y]@)
}

/// A room's member counts and heroes.
pub struct RoomSummary {
    pub joined_member_count: usize,
    pub invited_member_count: usize,
    /// Listed only where at most five users are joined or invited.
    pub heroes: Vec<String>,
}

/// How many users are joined to and invited to room `r` in snapshot `snap`.
pub fn member_counts_at(store: &EventStore, r: usize, snap: Option<usize>) -> (c: (usize, usize))
    requires
        store.wf(),
        r < store.rooms().len(),
        snap.is_some() ==> snap.unwrap() < store.reg().len(),
    ensures
        members_at(*store, r as int, snap, Membership::Join).finite(),
        members_at(*store, r as int, snap, Membership::Invite).finite(),
        c.0 == members_at(*store, r as int, snap, Membership::Join).len(),
        c.1 == members_at(*store, r as int, snap, Membership::Invite).len(),
{
    let cur: Vec<StateEntry> = match snap {
        Some(id) => store.registry().state_at(id),
        None => {
            let e: Vec<StateEntry> = Vec::new();
            assert(state_map(e@) =~= Map::<StateKey, u64>::empty());
            e
        },
    };
    let kind = event_type(ROOM_MEMBER);
    let mut joined: usize = 0;
    let mut invited: usize = 0;
    let ghost mut joined_set: Set<Seq<char>> = Set::empty();
    let ghost mut invited_set: Set<Seq<char>> = Set::empty();
    let mut i: usize = 0;
    while i < cur.len()
        invariant
            store.wf(),
            r < store.rooms().len(),
            i <= cur@.len(),
            unique_keys(cur@),
            state_map(cur@) == snap_map(store.reg(), snap),
            snap.is_some() ==> snap.unwrap() < store.reg().len(),
            kind@ == member_type(),
            joined_set.finite(),
            invited_set.finite(),
            joined == joined_set.len(),
            invited == invited_set.len(),
            joined <= i,
            invited <= i,
            forall|u: Seq<char>| joined_set.contains(u) <==> exists|j: int| 0 <= j < i && #[trigger] cur@[j].key() == (member_type(), u)
                && membership_at(*store, r as int, snap, u) == Some(Membership::Join),
            forall|u: Seq<char>| invited_set.contains(u) <==> exists|j: int| 0 <= j < i && #[trigger] cur@[j].key() == (member_type(), u)
                && membership_at(*store, r as int, snap, u) == Some(Membership::Invite),
        decreases cur@.len() - i,
    {
        let ghost k = cur@[i as int].key();
        if cur[i].kind == kind {
            let m = membership_in_snapshot(store, r, snap, &cur[i].state_key);
            let ghost u = cur@[i as int].state_key@;
            proof {
                assert(!joined_set.contains(u) && !invited_set.contains(u)) by {
                    if joined_set.contains(u) || invited_set.contains(u) {
                        let j = choose|j: int| 0 <= j < i && #[trigger] cur@[j].key() == (member_type(), u);
                        assert(cur@[j].key() == cur@[i as int].key());
                    }
                }
            }
            if m == Some(Membership::Join) {
                joined = joined + 1;
                proof {
                    joined_set = joined_set.insert(u);
                }
            } else if m == Some(Membership::Invite) {
                invited = invited + 1;
                proof {
                    invited_set = invited_set.insert(u);
                }
            }
        }
        proof {
            assert forall|u: Seq<char>| joined_set.contains(u) <==> exists|j: int| 0 <= j < i + 1 && #[trigger] cur@[j].key() == (member_type(), u)
                && membership_at(*store, r as int, snap, u) == Some(Membership::Join) by {
                if cur@[i as int].key() == (member_type(), u) && membership_at(*store, r as int, snap, u) == Some(Membership::Join) {
                    assert(cur@[i as int].kind@ == member_type());
                    assert(cur@[i as int].state_key@ == u);
                }
            }
            assert forall|u: Seq<char>| invited_set.contains(u) <==> exists|j: int| 0 <= j < i + 1 && #[trigger] cur@[j].key() == (member_type(), u)
                && membership_at(*store, r as int, snap, u) == Some(Membership::Invite) by {
                if cur@[i as int].key() == (member_type(), u) && membership_at(*store, r as int, snap, u) == Some(Membership::Invite) {
                    assert(cur@[i as int].kind@ == member_type());
                    assert(cur@[i as int].state_key@ == u);
                }
            }
        }
        i = i + 1;
    }
    proof {
        assert forall|u: Seq<char>| joined_set.contains(u) <==> members_at(*store, r as int, snap, Membership::Join).contains(u) by {
            if membership_at(*store, r as int, snap, u) == Some(Membership::Join) {
                let k = (member_type(), u);
                assert(snap_map(store.reg(), snap).contains_key(k));
                let j = choose|j: int| 0 <= j < cur@.len() && cur@[j].key() == k;
            }
        }
        assert forall|u: Seq<char>| invited_set.contains(u) <==> members_at(*store, r as int, snap, Membership::Invite).contains(u) by {
            if membership_at(*store, r as int, snap, u) == Some(Membership::Invite) {
                let k = (member_type(), u);
                assert(snap_map(store.reg(), snap).contains_key(k));
                let j = choose|j: int| 0 <= j < cur@.len() && cur@[j].key() == k;
            }
        }
        assert(joined_set =~= members_at(*store, r as int, snap, Membership::Join));
        assert(invited_set =~= members_at(*store, r as int, snap, Membership::Invite));
    }
    (joined, invited)
}

/// How many users are joined to and invited to room `r`.
pub fn member_counts(store: &EventStore, r: usize) -> (c: (usize, usize))
    requires
        store.wf(),
        r < store.rooms().len(),
    ensures
        members_with(*store, r as int, Membership::Join).finite(),
        members_with(*store, r as int, Membership::Invite).finite(),
        c.0 == members_with(*store, r as int, Membership::Join).len(),
        c.1 == members_with(*store, r as int, Membership::Invite).len(),
{
    let current = store.current_snapshot(r);
    proof {
        let log = store.rooms()[r as int];
        assert(log.wf(store.reg()));
        if log.states().len() > 0 {
            assert(log.states()[log.states().len() - 1] == log.states().last());
        }
        assert(members_with(*store, r as int, Membership::Join) =~= members_at(*store, r as int, current, Membership::Join));
        assert(members_with(*store, r as int, Membership::Invite) =~= members_at(*store, r as int, current, Membership::Invite));
    }
    member_counts_at(store, r, current)
}

/// The heroes of room `r` for `user`: the users that `hero_of` names, each
/// once, in the order of their first qualifying member event.
/// `u` is joined to or invited to room `r` now, and is not `user`.
pub open spec fn hero_now(store: EventStore, r: int, user: Seq<char>, u: Seq<char>) -> bool {
    (store.membership(r, u) == Some(Membership::Join) || store.membership(r, u) == Some(Membership::Invite)) && u != user
}

/// The heroes of room `r` for `user`: the users that `hero_of` names, each
/// once, in the order of their first qualifying member event.
#[verifier::rlimit(100)]
pub fn heroes(store: &EventStore, r: usize, user: &String) -> (h: Vec<String>)
    requires
        store.wf(),
        r < store.rooms().len(),
    ensures
        forall|u: Seq<char>| strings_view(h@).contains(u) <==> hero_of(*store, r as int, user@, u),
        forall|x: int, y: int| 0 <= x < y < h@.len() ==> h@[x]@ != h@[y]@,
        distinct_strings(h@),
        heroes_ordered(store.rooms()[r as int].pdus(), h@),
{
    let pdus = store.room_pdus(r);
    let kind = event_type(ROOM_MEMBER);
    let mut out: Vec<String> = Vec::new();
    let mut j: usize = 0;
    while j < pdus.len()
        invariant
            store.wf(),
            r < store.rooms().len(),
            pdus@ == store.rooms()[r as int].pdus(),
            j <= pdus@.len(),
            kind@ == member_type(),
            distinct_strings(out@),
            forall|u: Seq<char>| #[trigger] strings_view(out@).contains(u) <==> (exists|k: int| 0 <= k < j && #[trigger] hero_event(pdus@, u, k))
                && hero_now(*store, r as int, user@, u),
            forall|x: int| 0 <= x < out@.len() ==> first_hero_event(pdus@, (#[trigger] out@[x])@) < j,
            heroes_ordered(pdus@, out@),
        decreases pdus@.len() - j,
    {
        let ghost prev = out@;
        let p = &pdus[j];
        let candidate: Option<&String> = if p.kind == kind {
            match (&p.state_key, &p.content) {
                (Some(u), crate::events::Content::Member { membership }) => {
                    if *membership == Membership::Join || *membership == Membership::Invite {
                        Some(u)
                    } else {
                        None
                    }
                },
                _ => None,
            }
        } else {
            None
        };
        proof {
            assert forall|u: Seq<char>| hero_event(pdus@, u, j as int) implies candidate.is_some() && candidate.unwrap()@ == u by {}
            if candidate.is_some() {
                assert(hero_event(pdus@, candidate.unwrap()@, j as int));
            }
        }
        let mut pushed = false;
        let ghost mut wanted_g = false;
        if let Some(u) = candidate {
            let now = store.membership_of(r, u);
            let wanted = (now == Some(Membership::Join) || now == Some(Membership::Invite)) && !(*u == *user);
            proof {
                wanted_g = wanted;
                assert(wanted == hero_now(*store, r as int, user@, u@));
            }
            let present = contains_string(&out, u);
            if wanted && !present {
                proof {
                    assert forall|k: int| 0 <= k < j implies !hero_event(pdus@, u@, k) by {
                        if hero_event(pdus@, u@, k) {
                            assert(strings_view(out@).contains(u@));
                        }
                    }
                    lemma_first_hero_event(pdus@, u@, j as int);
                }
                out.push(u.clone());
                pushed = true;
            }
        }
        proof {
            if pushed {
                assert(out@ == prev.push(*candidate.unwrap()));
                assert(strings_view(out@)[prev.len() as int] == candidate.unwrap()@);
            } else {
                assert(out@ == prev);
                if candidate.is_some() && wanted_g {
                    assert(strings_view(prev).contains(candidate.unwrap()@));
                }
            }
            assert(candidate.is_some() ==> wanted_g == hero_now(*store, r as int, user@, candidate.unwrap()@));
        }
        proof {
            assert(out@ == prev || (out@.len() == prev.len() + 1 && out@.drop_last() == prev));
            if out@ != prev {
                assert(strings_view(out@) =~= strings_view(prev).push(out@.last()@));
                assert forall|x: int| 0 <= x < prev.len() implies #[trigger] out@[x] == prev[x] by {
                    assert(out@.drop_last()[x] == out@[x]);
                }
            }
            assert forall|u: Seq<char>| #[trigger] strings_view(out@).contains(u) <==> (exists|k: int| 0 <= k < j + 1 && #[trigger] hero_event(pdus@, u, k))
                && hero_now(*store, r as int, user@, u) by {
                if exists|k: int| 0 <= k < j + 1 && #[trigger] hero_event(pdus@, u, k) {
                    let k = choose|k: int| 0 <= k < j + 1 && #[trigger] hero_event(pdus@, u, k);
                    if k < j {
                        assert(exists|k2: int| 0 <= k2 < j && #[trigger] hero_event(pdus@, u, k2));
                    }
                }
                if strings_view(out@).contains(u) && out@ != prev {
                    let x = choose|x: int| 0 <= x < strings_view(out@).len() && strings_view(out@)[x] == u;
                    if x < prev.len() {
                        assert(strings_view(prev)[x] == u);
                    }
                }
                if strings_view(prev).contains(u) {
                    let x = choose|x: int| 0 <= x < strings_view(prev).len() && strings_view(prev)[x] == u;
                    assert(strings_view(out@)[x] == u);
                }
            }
            assert forall|x: int, y: int| 0 <= x < y < out@.len() implies out@[x]@ != out@[y]@ by {
                if y == prev.len() {
                    assert(out@[x] == prev[x]);
                    assert(strings_view(prev)[x] == prev[x]@);
                }
            }
            assert forall|x: int| 0 <= x < out@.len() implies first_hero_event(pdus@, (#[trigger] out@[x])@) < j + 1 by {
                if x < prev.len() {
                    assert(out@[x] == prev[x]);
                }
            }
            assert forall|x: int, y: int| 0 <= x < y < out@.len() implies first_hero_event(pdus@, out@[x]@)
                < first_hero_event(pdus@, out@[y]@) by {
                if y < prev.len() {
                    assert(out@[x] == prev[x] && out@[y] == prev[y]);
                } else {
                    assert(out@[x] == prev[x]);
                }
            }
        }
        j = j + 1;
    }
    proof {
        assert forall|u: Seq<char>| strings_view(out@).contains(u) <==> hero_of(*store, r as int, user@, u) by {
            if strings_view(out@).contains(u) {
                let k = choose|k: int| 0 <= k < pdus@.len() && #[trigger] hero_event(pdus@, u, k);
                assert(pdus@[k].kind@ == member_type());
            }
            if hero_of(*store, r as int, user@, u) {
                let k = choose|k: int| 0 <= k < store.rooms()[r as int].pdus().len()
                    && #[trigger] store.rooms()[r as int].pdus()[k].kind@ == member_type()
                    && store.rooms()[r as int].pdus()[k].state_key.is_some()
                    && store.rooms()[r as int].pdus()[k].state_key.unwrap()@ == u
                    && (store.rooms()[r as int].pdus()[k].membership() == Some(Membership::Join)
                        || store.rooms()[r as int].pdus()[k].membership() == Some(Membership::Invite));
                assert(hero_event(pdus@, u, k));
            }
        }
    }
    out
}

/// `s` is the summary of room `r` for `user`: the member counts, and the
/// heroes where at most five users are joined or invited.
pub open spec fn summary_of(store: EventStore, r: int, user: Seq<char>, s: RoomSummary) -> bool {
    &&& s.joined_member_count == members_with(store, r, Membership::Join).len()
    &&& s.invited_member_count == members_with(store, r, Membership::Invite).len()
    &&& s.joined_member_count + s.invited_member_count <= HEROES_THRESHOLD ==> forall|u: Seq<char>|
        strings_view(s.heroes@).contains(u) <==> hero_of(store, r, user, u)
    &&& s.joined_member_count + s.invited_member_count > HEROES_THRESHOLD ==> s.heroes@.len() == 0
    &&& distinct_strings(s.heroes@)
    &&& heroes_ordered(store.rooms()[r].pdus(), s.heroes@)
}

/// The summary of room `r` for `user`: the member counts, and the heroes
/// where at most five users are joined or invited.
pub fn room_summary(store: &EventStore, r: usize, user: &String) -> (s: RoomSummary)
    requires
        store.wf(),
        r < store.rooms().len(),
    ensures
        summary_of(*store, r as int, user@, s),
{
    let (joined, invited) = member_counts(store, r);
    let few = joined <= HEROES_THRESHOLD && invited <= HEROES_THRESHOLD - joined;
    let heroes = if few { heroes(store, r, user) } else { Vec::new() };
    RoomSummary { joined_member_count: joined, invited_member_count: invited, heroes }
}

} // verus!
