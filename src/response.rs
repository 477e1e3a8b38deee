use vstd::prelude::*;

use crate::account_data::{lists, AccountData};
use crate::counter::Globals;
use crate::devices::{changed_through, device_list_changed, device_list_left, left_encrypted_room, shares_encrypted, snapshot_at};
use crate::text::{distinct_strings, opt_chars, strings_view};
use crate::rooms::EventStore;
use crate::sync::{completion, parse_since, rooms_reported, since_value, split_at, sync_rooms, Completion, SyncRooms};

verus! {

/// A sync response, with what becomes of it.
pub struct SyncResponse {
    /// The token of the next call: the global count when computing began.
    pub next_batch: u64,
    pub rooms: SyncRooms,
    /// The global account data changed after `since`, as (event type, payload).
    pub account_data: Vec<(String, Vec<u8>)>,
    /// The users whose device keys the caller now needs.
    pub device_lists_changed: Vec<String>,
    /// The users whose device lists the caller no longer needs.
    pub device_lists_left: Vec<String>,
    pub completion: Completion,
}

/// Nothing is reported.
pub open spec fn response_empty(r: SyncResponse) -> bool {
    &&& r.rooms.join@.len() == 0
    &&& r.rooms.leave@.len() == 0
    &&& r.rooms.invite@.len() == 0
    &&& r.account_data@.len() == 0
    &&& r.device_lists_changed@.len() == 0
    &&& r.device_lists_left@.len() == 0
}

/// `r` is the sync of `user` for the count `since`, computed when the global
/// counter stood at `next_batch`.
pub open spec fn sync_result(
    store: EventStore,
    account: AccountData,
    next_batch: u64,
    user: Seq<char>,
    since: u64,
    full_state: bool,
    r: SyncResponse,
) -> bool {
    &&& r.next_batch == next_batch
    &&& rooms_reported(store, user, since, r.rooms)
    &&& forall|i: int| 0 <= i < r.account_data@.len() ==> account.is_change(
        None,
        user,
        since,
        #[trigger] r.account_data@[i].0@,
        r.account_data@[i].1@,
    )
    &&& forall|j: int| #[trigger] account.changed_since(j, None, user, since)
        ==> lists(r.account_data@, account.records()[j].kind@, account.records()[j].data@)
    &&& forall|u: Seq<char>| strings_view(r.device_lists_left@).contains(u) <==> left_encrypted_room(store, user, since, u)
        && !shares_encrypted(store, user, u, -1)
    &&& forall|u: Seq<char>| strings_view(r.device_lists_changed@).contains(u) <==> exists|q: int| 0 <= q < store.rooms().len()
        && #[trigger] changed_through(store, user, since, q, u)
    &&& distinct_strings(r.device_lists_left@)
    &&& distinct_strings(r.device_lists_changed@)
    &&& r.completion == completion_spec(response_empty(r), full_state, since, next_batch)
}

/// Computes the sync of `user` for the token `since`: the rooms with news,
/// the global account data changed since, and the device lists to drop. An
/// empty response for a caller who did not ask for full state is to wait for
/// news and not to be cached.
pub fn sync_events(
    store: &EventStore,
    account: &AccountData,
    globals: &Globals,
    user: &String,
    since: &Option<String>,
    full_state: bool,
) -> (r: SyncResponse)
    requires
        store.wf(),
        account.wf(),
    ensures
        sync_result(*store, *account, globals.current(), user@, since_value(opt_chars(*since)), full_state, r),
        store.bounded_by(since_value(opt_chars(*since))) && account.bounded_by(since_value(opt_chars(*since)))
            ==> response_empty(r) && (!full_state ==> r.completion.wait && !r.completion.cacheable),
{
    let next_batch = globals.current_count();
    let since_count = parse_since(since);
    let rooms = sync_rooms(store, user, since_count);
    let global: Option<String> = None;
    let account_data = account.changes_since(&global, user, since_count);
    proof {
        assert(opt_chars(global) == None::<Seq<char>>);
        assert forall|j: int| #[trigger] account.changed_since(j, None, user@, since_count)
            implies lists(account_data@, account.records()[j].kind@, account.records()[j].data@) by {
            assert(account.changed_since(j, opt_chars(global), user@, since_count));
        }
    }
    let device_lists_changed = device_list_changed(store, user, since_count);
    let device_lists_left = device_list_left(store, user, since_count);
    let empty = rooms.join.len() == 0 && rooms.leave.len() == 0 && rooms.invite.len() == 0 && account_data.len() == 0
        && device_lists_changed.len() == 0 && device_lists_left.len() == 0;
    let done = completion(empty, full_state, since_count, next_batch);
    let r = SyncResponse { next_batch, rooms, account_data, device_lists_changed, device_lists_left, completion: done };
    proof {
        if store.bounded_by(since_count) && account.bounded_by(since_count) {
            lemma_quiet_sync(*store, *account, user@, since_count, full_state, r);
        }
    }
    r
}

/// The completion that `completion` computes.
pub open spec fn completion_spec(empty: bool, full_state: bool, since: u64, next_batch: u64) -> Completion {
    Completion { wait: empty && !full_state, cacheable: !(empty && !full_state) && since != next_batch }
}

/// With no write after `since` (every event and every account-data record at
/// or before it), a sync for `since` reports nothing, and, unless full state
/// was asked for, waits for news and is not cached.
pub proof fn lemma_quiet_sync(store: EventStore, account: AccountData, user: Seq<char>, since: u64, full_state: bool, r: SyncResponse)
    requires
        store.wf(),
        account.wf(),
        store.bounded_by(since),
        account.bounded_by(since),
        rooms_reported(store, user, since, r.rooms),
        forall|i: int| 0 <= i < r.account_data@.len() ==> account.is_change(None, user, since, #[trigger] r.account_data@[i].0@, r.account_data@[i].1@),
        forall|u: Seq<char>| strings_view(r.device_lists_left@).contains(u) <==> left_encrypted_room(store, user, since, u)
            && !shares_encrypted(store, user, u, -1),
        forall|u: Seq<char>| strings_view(r.device_lists_changed@).contains(u) <==> exists|q: int| 0 <= q < store.rooms().len()
            && #[trigger] changed_through(store, user, since, q, u),
        r.rooms.join@.len() == 0 && r.rooms.leave@.len() == 0 && r.rooms.invite@.len() == 0,
    ensures
        response_empty(r),
        completion_spec(response_empty(r), full_state, since, r.next_batch).wait == !full_state,
        !completion_spec(response_empty(r), full_state, since, r.next_batch).cacheable || full_state,
{
    if r.account_data@.len() > 0 {
        assert(account.is_change(None, user, since, r.account_data@[0].0@, r.account_data@[0].1@));
        let j = choose|j: int| #[trigger] account.changed_since(j, None, user, since)
            && r.account_data@[0].0@ == account.records()[j].kind@ && r.account_data@[0].1@ == account.records()[j].data@;
    }
    if r.device_lists_changed@.len() > 0 {
        let u = r.device_lists_changed@[0]@;
        assert(strings_view(r.device_lists_changed@)[0] == u);
        assert(strings_view(r.device_lists_changed@).contains(u));
        let q = choose|q: int| 0 <= q < store.rooms().len() && #[trigger] changed_through(store, user, since, q, u);
        lemma_snapshot_at_is_current(store, q, since);
    }
    if r.device_lists_left@.len() > 0 {
        let u = r.device_lists_left@[0]@;
        assert(strings_view(r.device_lists_left@)[0] == u);
        assert(left_encrypted_room(store, user, since, u));
        let q = choose|q: int| 0 <= q < store.rooms().len() && crate::devices::joined_in(store, q, user)
            && crate::devices::encrypted(store, q) && crate::devices::left_since(store, q, since, u);
        lemma_snapshot_at_is_current(store, q, since);
    }
}

/// With no event after `since`, the snapshot at `since` is the current one.
pub proof fn lemma_snapshot_at_is_current(store: EventStore, q: int, since: u64)
    requires
        store.wf(),
        0 <= q < store.rooms().len(),
        store.bounded_by(since),
    ensures
        snapshot_at(store, q, since) == store.rooms()[q].current(),
{
    crate::sync::lemma_quiet_room(store, q, since);
    let log = store.rooms()[q];
    assert(log.wf(store.reg()));
    if log.states().len() > 0 {
        assert(log.states()[log.states().len() - 1] == log.states().last());
    }
}

} // verus!
