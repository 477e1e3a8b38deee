use vstd::prelude::*;

use crate::events::{encryption_type, event_type, member_type, Membership, ROOM_ENCRYPTION, ROOM_MEMBER};
use crate::ids::{is_valid_user_id, user_id_valid};
use crate::text::{contains_string, distinct_strings, extend_strings, strings_view};
use crate::rooms::EventStore;
use crate::state::{lemma_state_map_at, state_map, unique_keys};
use crate::sync::{membership_at, membership_in_snapshot, since_snapshot, split_at};

verus! {

/// Room `q` carries an encryption state event.
pub open spec fn encrypted(store: EventStore, q: int) -> bool {
    store.room_state(q).contains_key((encryption_type(), Seq::<char>::empty()))
}

pub open spec fn joined_in(store: EventStore, q: int, u: Seq<char>) -> bool {
    store.membership(q, u) == Some(Membership::Join)
}

/// Users `a` and `b` are both joined to an encrypted room other than `ignore`.
pub open spec fn shares_encrypted(store: EventStore, a: Seq<char>, b: Seq<char>, ignore: int) -> bool {
    exists|q: int| 0 <= q < store.rooms().len() && q != ignore && encrypted(store, q) && joined_in(store, q, a) && joined_in(store, q, b)
}

/// The snapshot of room `q` at `since`.
pub open spec fn snapshot_at(store: EventStore, q: int, since: u64) -> Option<usize> {
    since_snapshot(store.rooms()[q].states(), choose|n: int| split_at(store.rooms()[q].pdus(), since, n))
}

/// User `u`, a well-formed user id, was joined to room `q` at `since` and has left it since.
pub open spec fn left_since(store: EventStore, q: int, since: u64, u: Seq<char>) -> bool {
    &&& store.membership(q, u) == Some(Membership::Leave)
    &&& membership_at(store, q, snapshot_at(store, q, since), u) == Some(Membership::Join)
    &&& user_id_valid(u)
}

/// User `u` left, since `since`, an encrypted room that `user` is joined to.
pub open spec fn left_encrypted_room(store: EventStore, user: Seq<char>, since: u64, u: Seq<char>) -> bool {
    exists|q: int| 0 <= q < store.rooms().len() && joined_in(store, q, user) && encrypted(store, q) && left_since(store, q, since, u)
}

/// Whether room `q` is encrypted.
pub fn is_encrypted(store: &EventStore, q: usize) -> (r: bool)
    requires
        store.wf(),
        q < store.rooms().len(),
    ensures
        r == encrypted(*store, q as int),
{
    let kind = event_type(ROOM_ENCRYPTION);
    store.state_get(q, &kind, &String::new()).is_some()
}

/// Whether users `a` and `b` are both joined to an encrypted room other than `ignore`.
pub fn share_encrypted_room(store: &EventStore, a: &String, b: &String, ignore: Option<usize>) -> (r: bool)
    requires
        store.wf(),
    ensures
        r == shares_encrypted(*store, a@, b@, match ignore { Some(i) => i as int, None => -1 }),
{
    let ghost ig: int = match ignore { Some(i) => i as int, None => -1 };
    let mut q: usize = 0;
    while q < store.room_count()
        invariant
            store.wf(),
            q <= store.rooms().len(),
            ig == match ignore { Some(i) => i as int, None => -1 },
            forall|x: int| 0 <= x < q && x != ig ==> !(encrypted(*store, x) && joined_in(*store, x, a@) && joined_in(*store, x, b@)),
        decreases store.rooms().len() - q,
    {
        let skip = match ignore { Some(i) => i == q, None => false };
        if !skip && is_encrypted(store, q) && store.membership_of(q, a) == Some(Membership::Join)
            && store.membership_of(q, b) == Some(Membership::Join) {
            return true;
        }
        q = q + 1;
    }
    false
}

/// The users who left room `q` since `since`.
fn room_leavers(store: &EventStore, q: usize, since: u64) -> (r: Vec<String>)
    requires
        store.wf(),
        q < store.rooms().len(),
    ensures
        forall|u: Seq<char>| strings_view(r@).contains(u) <==> left_since(*store, q as int, since, u),
{
    let n = store.split_point(q, since);
    proof {
        let p = store.rooms()[q as int].pdus();
        assert(split_at(p, since, n as int));
        let m = choose|m: int| split_at(p, since, m);
        if m < n {
            assert(p[m].count > since);
        } else if m > n {
            assert(p[n as int].count <= since);
        }
    }
    let snap = if n == 0 { None } else { store.snapshot_after(q, n - 1) };
    assert(snap == snapshot_at(*store, q as int, since));
    let cur = store.room_state_full(q);
    let kind = event_type(ROOM_MEMBER);
    let mut out: Vec<String> = Vec::new();
    let mut i: usize = 0;
    while i < cur.len()
        invariant
            store.wf(),
            q < store.rooms().len(),
            i <= cur@.len(),
            unique_keys(cur@),
            state_map(cur@) == store.room_state(q as int),
            kind@ == member_type(),
            snap == snapshot_at(*store, q as int, since),
            snap.is_some() ==> snap.unwrap() < store.reg().len(),
            forall|u: Seq<char>| strings_view(out@).contains(u) <==> exists|j: int| 0 <= j < i && #[trigger] cur@[j].key() == (member_type(), u)
                && left_since(*store, q as int, since, u),
        decreases cur@.len() - i,
    {
        let ghost prev = out@;
        let e = &cur[i];
        if e.kind == kind {
            let u = &e.state_key;
            proof {
                lemma_state_map_at(cur@, i as int);
            }
            let now = store.membership_of(q, u);
            if now == Some(Membership::Leave) && membership_in_snapshot(store, q, snap, u) == Some(Membership::Join)
                && is_valid_user_id(u) {
                out.push(u.clone());
            }
        }
        proof {
            assert forall|u: Seq<char>| strings_view(out@).contains(u) <==> exists|j: int| 0 <= j < i + 1 && #[trigger] cur@[j].key() == (member_type(), u)
                && left_since(*store, q as int, since, u) by {
                if strings_view(out@).contains(u) {
                    let x = choose|x: int| 0 <= x < strings_view(out@).len() && strings_view(out@)[x] == u;
                    if x < prev.len() {
                        assert(strings_view(prev)[x] == u);
                        assert(strings_view(prev).contains(u));
                    } else {
                        assert(cur@[i as int].key() == (member_type(), u));
                    }
                }
                if exists|j: int| 0 <= j < i + 1 && #[trigger] cur@[j].key() == (member_type(), u) && left_since(*store, q as int, since, u) {
                    let j = choose|j: int| 0 <= j < i + 1 && #[trigger] cur@[j].key() == (member_type(), u) && left_since(*store, q as int, since, u);
                    if j < i {
                        assert(strings_view(prev).contains(u));
                        let x = choose|x: int| 0 <= x < strings_view(prev).len() && strings_view(prev)[x] == u;
                        assert(strings_view(out@)[x] == u);
                    } else {
                        assert(cur@[i as int].state_key@ == u);
                        assert(strings_view(out@)[prev.len() as int] == u);
                    }
                }
            }
        }
        i = i + 1;
    }
    proof {
        assert forall|u: Seq<char>| strings_view(out@).contains(u) <==> left_since(*store, q as int, since, u) by {
            if left_since(*store, q as int, since, u) {
                let k = (member_type(), u);
                assert(store.room_state(q as int).contains_key(k));
                let j = choose|j: int| 0 <= j < cur@.len() && cur@[j].key() == k;
            }
        }
    }
    out
}

/// The users to list in `device_lists.left` of the sync of `user` since
/// `since`: those who left an encrypted room `user` is joined to, and no
/// longer share any encrypted room with `user`.
pub fn device_list_left(store: &EventStore, user: &String, since: u64) -> (r: Vec<String>)
    requires
        store.wf(),
    ensures
        forall|u: Seq<char>| strings_view(r@).contains(u) <==> left_encrypted_room(*store, user@, since, u)
            && !shares_encrypted(*store, user@, u, -1),
        distinct_strings(r@),
{
    let mut out: Vec<String> = Vec::new();
    let mut q: usize = 0;
    while q < store.room_count()
        invariant
            store.wf(),
            q <= store.rooms().len(),
            forall|u: Seq<char>| strings_view(out@).contains(u) <==> (exists|x: int| 0 <= x < q && joined_in(*store, x, user@)
                && encrypted(*store, x) && #[trigger] left_since(*store, x, since, u)) && !shares_encrypted(*store, user@, u, -1),
            distinct_strings(out@),
        decreases store.rooms().len() - q,
    {
        if store.membership_of(q, user) == Some(Membership::Join) && is_encrypted(store, q) {
            let leavers = room_leavers(store, q, since);
            let mut k: usize = 0;
            while k < leavers.len()
                invariant
                    store.wf(),
                    q < store.rooms().len(),
                    k <= leavers@.len(),
                    joined_in(*store, q as int, user@) && encrypted(*store, q as int),
                    forall|u: Seq<char>| strings_view(leavers@).contains(u) <==> left_since(*store, q as int, since, u),
                    forall|u: Seq<char>| strings_view(out@).contains(u) <==> ((exists|x: int| 0 <= x < q && joined_in(*store, x, user@)
                        && encrypted(*store, x) && #[trigger] left_since(*store, x, since, u))
                        || exists|y: int| 0 <= y < k && leavers@[y]@ == u) && !shares_encrypted(*store, user@, u, -1),
                    distinct_strings(out@),
                decreases leavers@.len() - k,
            {
                let u = &leavers[k];
                let ghost prev = out@;
                let shared = share_encrypted_room(store, user, u, None);
                let present = contains_string(&out, u);
                if !shared && !present {
                    out.push(u.clone());
                }
                proof {
                    assert(strings_view(leavers@)[k as int] == u@);
                    assert forall|w: Seq<char>| strings_view(out@).contains(w) <==> ((exists|x: int| 0 <= x < q && joined_in(*store, x, user@)
                        && encrypted(*store, x) && #[trigger] left_since(*store, x, since, w))
                        || exists|y: int| 0 <= y < k + 1 && leavers@[y]@ == w) && !shares_encrypted(*store, user@, w, -1) by {
                        if strings_view(out@).contains(w) {
                            let x = choose|x: int| 0 <= x < strings_view(out@).len() && strings_view(out@)[x] == w;
                            if x < prev.len() {
                                assert(strings_view(prev)[x] == w);
                                assert(strings_view(prev).contains(w));
                            }
                        }
                        if exists|y: int| 0 <= y < k + 1 && leavers@[y]@ == w {
                            let y = choose|y: int| 0 <= y < k + 1 && leavers@[y]@ == w;
                            if y == k && !shares_encrypted(*store, user@, w, -1) && !strings_view(prev).contains(w) {
                                assert(strings_view(out@)[prev.len() as int] == w);
                            }
                        }
                        if strings_view(prev).contains(w) {
                            let x = choose|x: int| 0 <= x < strings_view(prev).len() && strings_view(prev)[x] == w;
                            assert(strings_view(out@)[x] == w);
                        }
                    }
                    assert forall|x: int, y: int| 0 <= x < y < out@.len() implies out@[x]@ != out@[y]@ by {
                        if y == prev.len() {
                            assert(out@[x] == prev[x]);
                            assert(strings_view(prev)[x] == prev[x]@);
                        }
                    }
                }
                k = k + 1;
            }
            proof {
                assert forall|u: Seq<char>| strings_view(out@).contains(u) <==> (exists|x: int| 0 <= x < q + 1 && joined_in(*store, x, user@)
                    && encrypted(*store, x) && #[trigger] left_since(*store, x, since, u)) && !shares_encrypted(*store, user@, u, -1) by {
                    if exists|y: int| 0 <= y < leavers@.len() && leavers@[y]@ == u {
                        let y = choose|y: int| 0 <= y < leavers@.len() && leavers@[y]@ == u;
                        assert(strings_view(leavers@)[y] == u);
                        assert(left_since(*store, q as int, since, u));
                    }
                    if left_since(*store, q as int, since, u) {
                        assert(strings_view(leavers@).contains(u));
                        let y = choose|y: int| 0 <= y < strings_view(leavers@).len() && strings_view(leavers@)[y] == u;
                        assert(leavers@[y]@ == u);
                    }
                }
            }
        } else {
            proof {
                assert forall|u: Seq<char>| strings_view(out@).contains(u) <==> (exists|x: int| 0 <= x < q + 1 && joined_in(*store, x, user@)
                    && encrypted(*store, x) && #[trigger] left_since(*store, x, since, u)) && !shares_encrypted(*store, user@, u, -1) by {
                }
            }
        }
        q = q + 1;
    }
    out
}

/// A user who still shares an encrypted room with `user` is never listed in
/// `device_lists.left` of `user`'s sync.
pub proof fn lemma_shared_user_not_left(store: EventStore, user: Seq<char>, since: u64, b: Seq<char>, q: int)
    requires
        0 <= q < store.rooms().len(),
        encrypted(store, q),
        joined_in(store, q, user),
        joined_in(store, q, b),
    ensures
        !(left_encrypted_room(store, user, since, b) && !shares_encrypted(store, user, b, -1)),
{
    assert(q != -1);
}

/// Room `q` carries an encryption state event in snapshot `snap`.
pub open spec fn encrypted_at(store: EventStore, snap: Option<usize>) -> bool {
    crate::rooms::snap_map(store.reg(), snap).contains_key((encryption_type(), Seq::<char>::empty()))
}

/// Room `q`'s state changed after `since`.
pub open spec fn state_changed(store: EventStore, q: int, since: u64) -> bool {
    snapshot_at(store, q, since) != store.rooms()[q].current()
}

/// For `user`, room `q` became an encrypted room it is joined to after
/// `since`: `user` joined it, or its encryption was turned on.
pub open spec fn newly_encrypted(store: EventStore, user: Seq<char>, q: int, since: u64) -> bool {
    membership_at(store, q, snapshot_at(store, q, since), user) != Some(Membership::Join)
        || !encrypted_at(store, snapshot_at(store, q, since))
}

/// User `u`'s device keys become of interest to `user` through room `q`: `q`
/// is an encrypted room `user` is joined to whose state changed since
/// `since`, `u` joined it since (or `q` is newly encrypted for `user` and `u`
/// is another member), and no other encrypted room already covers `u`.
pub open spec fn changed_through(store: EventStore, user: Seq<char>, since: u64, q: int, u: Seq<char>) -> bool {
    let then = membership_at(store, q, snapshot_at(store, q, since), u);
    &&& joined_in(store, q, user)
    &&& encrypted(store, q)
    &&& state_changed(store, q, since)
    &&& joined_in(store, q, u)
    &&& ((then.is_none() || then == Some(Membership::Leave)) || (newly_encrypted(store, user, q, since) && u != user))
    &&& user_id_valid(u)
    &&& !shares_encrypted(store, user, u, q)
}

/// The members of room `q` whose keys `user` needs through it.
fn room_key_changes(store: &EventStore, q: usize, user: &String, since: u64) -> (r: Vec<String>)
    requires
        store.wf(),
        q < store.rooms().len(),
        joined_in(*store, q as int, user@),
        encrypted(*store, q as int),
        state_changed(*store, q as int, since),
    ensures
        forall|u: Seq<char>| strings_view(r@).contains(u) <==> changed_through(*store, user@, since, q as int, u),
{
    let n = store.split_point(q, since);
    proof {
        let p = store.rooms()[q as int].pdus();
        assert(split_at(p, since, n as int));
        let m = choose|m: int| split_at(p, since, m);
        if m < n {
            assert(p[m].count > since);
        } else if m > n {
            assert(p[n as int].count <= since);
        }
    }
    let snap = if n == 0 { None } else { store.snapshot_after(q, n - 1) };
    assert(snap == snapshot_at(*store, q as int, since));
    let was_joined = membership_in_snapshot(store, q, snap, user) == Some(Membership::Join);
    let enc_kind = event_type(ROOM_ENCRYPTION);
    let was_encrypted = match snap {
        Some(id) => store.registry().get(id, &enc_kind, &String::new()).is_some(),
        None => false,
    };
    let newly = !was_joined || !was_encrypted;
    assert(newly == newly_encrypted(*store, user@, q as int, since));
    let cur = store.room_state_full(q);
    let kind = event_type(ROOM_MEMBER);
    let mut out: Vec<String> = Vec::new();
    let mut i: usize = 0;
    while i < cur.len()
        invariant
            store.wf(),
            q < store.rooms().len(),
            joined_in(*store, q as int, user@),
            encrypted(*store, q as int),
            state_changed(*store, q as int, since),
            i <= cur@.len(),
            unique_keys(cur@),
            state_map(cur@) == store.room_state(q as int),
            kind@ == member_type(),
            snap == snapshot_at(*store, q as int, since),
            snap.is_some() ==> snap.unwrap() < store.reg().len(),
            newly == newly_encrypted(*store, user@, q as int, since),
            forall|u: Seq<char>| strings_view(out@).contains(u) <==> exists|j: int| 0 <= j < i && #[trigger] cur@[j].key() == (member_type(), u)
                && changed_through(*store, user@, since, q as int, u),
        decreases cur@.len() - i,
    {
        let ghost prev = out@;
        let e = &cur[i];
        if e.kind == kind {
            let u = &e.state_key;
            proof {
                lemma_state_map_at(cur@, i as int);
            }
            let now = store.membership_of(q, u);
            let then = membership_in_snapshot(store, q, snap, u);
            let moved = (then.is_none() || then == Some(Membership::Leave)) || (newly && !(*u == *user));
            if now == Some(Membership::Join) && moved && is_valid_user_id(u) && !share_encrypted_room(store, user, u, Some(q)) {
                out.push(u.clone());
            }
        }
        proof {
            assert forall|u: Seq<char>| strings_view(out@).contains(u) <==> exists|j: int| 0 <= j < i + 1 && #[trigger] cur@[j].key() == (member_type(), u)
                && changed_through(*store, user@, since, q as int, u) by {
                if strings_view(out@).contains(u) {
                    let x = choose|x: int| 0 <= x < strings_view(out@).len() && strings_view(out@)[x] == u;
                    if x < prev.len() {
                        assert(strings_view(prev)[x] == u);
                        assert(strings_view(prev).contains(u));
                    } else {
                        assert(cur@[i as int].key() == (member_type(), u));
                    }
                }
                if exists|j: int| 0 <= j < i + 1 && #[trigger] cur@[j].key() == (member_type(), u) && changed_through(*store, user@, since, q as int, u) {
                    let j = choose|j: int| 0 <= j < i + 1 && #[trigger] cur@[j].key() == (member_type(), u) && changed_through(*store, user@, since, q as int, u);
                    if j < i {
                        assert(strings_view(prev).contains(u));
                        let x = choose|x: int| 0 <= x < strings_view(prev).len() && strings_view(prev)[x] == u;
                        assert(strings_view(out@)[x] == u);
                    } else {
                        assert(cur@[i as int].state_key@ == u);
                        assert(strings_view(out@)[prev.len() as int] == u);
                    }
                }
            }
        }
        i = i + 1;
    }
    proof {
        assert forall|u: Seq<char>| strings_view(out@).contains(u) <==> changed_through(*store, user@, since, q as int, u) by {
            if changed_through(*store, user@, since, q as int, u) {
                let k = (member_type(), u);
                assert(store.room_state(q as int).contains_key(k));
                let j = choose|j: int| 0 <= j < cur@.len() && cur@[j].key() == k;
            }
        }
    }
    out
}

/// The users to list in `device_lists.changed` of the sync of `user` since
/// `since`, from room membership: each user who, through some room, became of
/// interest as `changed_through` says.
pub fn device_list_changed(store: &EventStore, user: &String, since: u64) -> (r: Vec<String>)
    requires
        store.wf(),
    ensures
        forall|u: Seq<char>| strings_view(r@).contains(u) <==> exists|q: int| 0 <= q < store.rooms().len()
            && #[trigger] changed_through(*store, user@, since, q, u),
        distinct_strings(r@),
{
    let mut out: Vec<String> = Vec::new();
    let mut q: usize = 0;
    while q < store.room_count()
        invariant
            store.wf(),
            q <= store.rooms().len(),
            forall|u: Seq<char>| strings_view(out@).contains(u) <==> exists|x: int| 0 <= x < q
                && #[trigger] changed_through(*store, user@, since, x, u),
            distinct_strings(out@),
        decreases store.rooms().len() - q,
    {
        let n = store.split_point(q, since);
        proof {
            let p = store.rooms()[q as int].pdus();
            assert(split_at(p, since, n as int));
            let m = choose|m: int| split_at(p, since, m);
            if m < n {
                assert(p[m].count > since);
            } else if m > n {
                assert(p[n as int].count <= since);
            }
            let st = store.rooms()[q as int].states();
            assert(store.rooms()[q as int].wf(store.reg()));
            if st.len() > 0 {
                assert(st[st.len() - 1] == st.last());
            }
        }
        let snap = if n == 0 { None } else { store.snapshot_after(q, n - 1) };
        let changed = snap != store.current_snapshot(q);
        assert(changed == state_changed(*store, q as int, since));
        if changed && store.membership_of(q, user) == Some(Membership::Join) && is_encrypted(store, q) {
            let found = room_key_changes(store, q, user, since);
            let ghost base = out@;
            extend_strings(&mut out, &found);
            proof {
                assert forall|u: Seq<char>| strings_view(out@).contains(u) <==> exists|x: int| 0 <= x < q + 1
                    && #[trigger] changed_through(*store, user@, since, x, u) by {
                    if strings_view(base).contains(u) {
                        let x = choose|x: int| 0 <= x < q && #[trigger] changed_through(*store, user@, since, x, u);
                    }
                }
            }
        }
        q = q + 1;
    }
    out
}

} // verus!
