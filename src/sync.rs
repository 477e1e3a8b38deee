use vstd::prelude::*;

use crate::events::{event_type, member_type, Content, Membership, Pdu, ROOM_MEMBER};
use crate::rooms::{membership_in, snap_map, EventStore};
use crate::state::{state_map, unique_keys, StateEntry, StateKey};
use crate::summary::{member_counts, member_counts_at, members_at, members_with, room_summary, summary_of, RoomSummary};
use crate::text::opt_chars;

verus! {

/// The most events a timeline slice carries.
pub const TIMELINE_LIMIT: usize = 10;

/// The room's events after `since` start at position `n`.
pub open spec fn split_at(p: Seq<Pdu>, since: u64, n: int) -> bool {
    &&& 0 <= n <= p.len()
    &&& forall|j: int| 0 <= j < n ==> (#[trigger] p[j]).count <= since
    &&& forall|j: int| n <= j < p.len() ==> (#[trigger] p[j]).count > since
}

/// Where the timeline slice starts: at most the last ten events after `since`.
pub open spec fn window_start(len: int, n: int) -> int {
    if len - n > TIMELINE_LIMIT { len - TIMELINE_LIMIT } else { n }
}

/// The snapshot that stood at `since`: the one after the last event at or
/// before it; none where no event came before.
pub open spec fn since_snapshot(states: Seq<Option<usize>>, n: int) -> Option<usize> {
    if n == 0 { None } else { states[n - 1] }
}

/// Some timeline event writes the key.
pub open spec fn touched_by(p: Seq<Pdu>, from: int, k: StateKey) -> bool {
    exists|j: int| from <= j < p.len() && p[j].state_key.is_some() && (p[j].kind@, p[j].state_key.unwrap()@) == k
}

/// What a joined room contributes to a sync response.
pub struct JoinedRoomSync {
    /// The room's position in the store.
    pub room: usize,
    /// The counts of the timeline events, oldest first.
    pub timeline: Vec<u64>,
    /// More events came after `since` than the timeline carries, or the user
    /// joined since the last sync.
    pub limited: bool,
    /// The count of the first timeline event.
    pub prev_batch: Option<u64>,
    /// The counts of the state events to deliver.
    pub state: Vec<u64>,
    /// The user was not joined at `since`.
    pub joined_since_last_sync: bool,
    /// The member counts and heroes, sent where the state changed and the
    /// number of joined and invited users is not the one at `since`.
    pub summary: Option<RoomSummary>,
}

/// The membership that `user` had in a snapshot of room `r`.
pub open spec fn membership_at(store: EventStore, r: int, s: Option<usize>, user: Seq<char>) -> Option<Membership> {
    membership_in(store.rooms()[r].pdus(), snap_map(store.reg(), s), user)
}

/// The state delta of a room: all current state where the user joined since
/// the last sync, else the current entries whose event changed since then
/// and that no timeline event writes.
pub open spec fn delivered_state(cur: Map<StateKey, u64>, old: Map<StateKey, u64>, joined_since: bool, p: Seq<Pdu>, from: int, e: u64) -> bool {
    exists|k: StateKey| #[trigger] cur.contains_key(k) && cur[k] == e && (joined_since || (old.get(k) != Some(e) && !touched_by(p, from, k)))
}

/// Where the events of room `r` after `since` start.
pub open spec fn news_start(store: EventStore, r: int, since: u64) -> int {
    choose|n: int| split_at(store.rooms()[r].pdus(), since, n)
}

/// Some event of room `r` came after `since`.
pub open spec fn has_news(store: EventStore, r: int, since: u64) -> bool {
    news_start(store, r, since) < store.rooms()[r].pdus().len()
}

/// `s` is what room `r`, which has news, contributes to the sync of `user`
/// since `since`: its last (at most ten) events, whether older ones were left
/// out, the first one's count, the state to deliver, and the summary where
/// the number of joined and invited users changed.
#[verifier::opaque]
pub open spec fn room_synced(store: EventStore, r: int, user: Seq<char>, since: u64, s: JoinedRoomSync) -> bool {
    let p = store.rooms()[r].pdus();
    let n = news_start(store, r, since);
    let w = window_start(p.len() as int, n);
    let since_snap = since_snapshot(store.rooms()[r].states(), n);
    let changed = store.rooms()[r].current() != since_snap;
    let joined_since = changed && membership_at(store, r, since_snap, user) != Some(Membership::Join);
    &&& s.room == r
    &&& s.timeline@.len() == p.len() - w
    &&& forall|i: int| 0 <= i < s.timeline@.len() ==> #[trigger] s.timeline@[i] == p[w + i].count
    &&& s.limited == (p.len() - n > TIMELINE_LIMIT || joined_since)
    &&& s.prev_batch == Some(p[w].count)
    &&& s.joined_since_last_sync == joined_since
    &&& (!changed ==> s.state@.len() == 0)
    &&& (changed ==> forall|e: u64| s.state@.contains(e) <==> delivered_state(
        store.room_state(r), snap_map(store.reg(), since_snap), joined_since, p, w, e))
    &&& s.summary.is_some() == (changed && (since_snap.is_none()
        || members_at(store, r, since_snap, Membership::Join).len()
            + members_at(store, r, since_snap, Membership::Invite).len()
            != members_with(store, r, Membership::Join).len()
            + members_with(store, r, Membership::Invite).len()))
    &&& s.summary.is_some() ==> summary_of(store, r, user, s.summary.unwrap())
}

/// The membership recorded by the event with count `c` of room `r`.
fn membership_by_count(store: &EventStore, r: usize, c: u64) -> (m: Option<Membership>)
    requires
        store.wf(),
        r < store.rooms().len(),
    ensures
        m == (if exists|j: int| 0 <= j < store.rooms()[r as int].pdus().len() && store.rooms()[r as int].pdus()[j].count == c {
            store.rooms()[r as int].pdus()[choose|j: int| 0 <= j < store.rooms()[r as int].pdus().len() && store.rooms()[r as int].pdus()[j].count == c].membership()
        } else {
            None
        }),
{
    match store.position_of(r, c) {
        Some(j) => {
            proof {
                let pdus = store.rooms()[r as int].pdus();
                assert(store.rooms()[r as int].wf(store.reg()));
                let k = choose|k: int| 0 <= k < pdus.len() && pdus[k].count == c;
                if k < j {
                    assert(pdus[k].count < pdus[j as int].count);
                } else if k > j {
                    assert(pdus[j as int].count < pdus[k].count);
                }
            }
            match &store.room_pdus(r)[j].content {
                Content::Member { membership } => Some(*membership),
                _ => None,
            }
        },
        None => None,
    }
}

/// The membership of `user` in snapshot `s` of room `r`.
pub fn membership_in_snapshot(store: &EventStore, r: usize, s: Option<usize>, user: &String) -> (m: Option<Membership>)
    requires
        store.wf(),
        r < store.rooms().len(),
        s.is_some() ==> s.unwrap() < store.reg().len(),
    ensures
        m == membership_at(*store, r as int, s, user@),
{
    match s {
        Some(id) => {
            let kind = event_type(ROOM_MEMBER);
            match store.registry().get(id, &kind, user) {
                Some(c) => membership_by_count(store, r, c),
                None => None,
            }
        },
        None => None,
    }
}

/// Computes what room `r` contributes to the sync of `user` since `since`:
/// nothing where no event came after `since`; else the last (at most ten)
/// events, whether older ones were left out, and the state to deliver.
pub fn sync_room(store: &EventStore, r: usize, user: &String, since: u64) -> (res: Option<JoinedRoomSync>)
    requires
        store.wf(),
        r < store.rooms().len(),
    ensures
        res.is_none() == !has_news(*store, r as int, since),
        res.is_some() ==> room_synced(*store, r as int, user@, since, res.unwrap()),
        res.is_some() ==> res.unwrap().room == r,
{
    let n = store.split_point(r, since);
    let pdus = store.room_pdus(r);
    proof {
        let p = store.rooms()[r as int].pdus();
        assert(split_at(p, since, n as int));
        let m = choose|m: int| split_at(p, since, m);
        if m < n {
            assert(p[m].count > since);
        } else if m > n {
            assert(p[n as int].count <= since);
        }
        assert(m == n);
    }
    if n == pdus.len() {
        return None;
    }
    let len = pdus.len();
    let w = if len - n > TIMELINE_LIMIT { len - TIMELINE_LIMIT } else { n };
    let mut timeline: Vec<u64> = Vec::new();
    let mut i: usize = w;
    while i < len
        invariant
            w <= i <= len,
            len == pdus@.len(),
            timeline@.len() == i - w,
            forall|x: int| 0 <= x < timeline@.len() ==> #[trigger] timeline@[x] == pdus@[w + x].count,
        decreases len - i,
    {
        timeline.push(pdus[i].count);
        i = i + 1;
    }
    let since_snap = if n == 0 { None } else { store.snapshot_after(r, n - 1) };
    let current = store.current_snapshot(r);
    assert(store.rooms()[r as int].wf(store.reg()));
    proof {
        let st = store.rooms()[r as int].states();
        if st.len() > 0 {
            assert(st[st.len() - 1] == st.last());
        }
    }
    let changed = current != since_snap;
    let joined_since = changed && membership_in_snapshot(store, r, since_snap, user) != Some(Membership::Join);
    let mut state: Vec<u64> = Vec::new();
    if changed {
        let cur = store.room_state_full(r);
        let old_state: Vec<StateEntry> = match since_snap {
            Some(id) => store.registry().state_at(id),
            None => {
                let e: Vec<StateEntry> = Vec::new();
                assert(state_map(e@) =~= Map::<StateKey, u64>::empty());
                e
            },
        };
        state = deliver_state(&cur, &old_state, joined_since, pdus, w);
    }
    let summary = if changed {
        let now = member_counts(store, r);
        let due = match since_snap {
            None => true,
            Some(_) => {
                let then = member_counts_at(store, r, since_snap);
                (then.0 as u128) + (then.1 as u128) != (now.0 as u128) + (now.1 as u128)
            },
        };
        if due {
            Some(room_summary(store, r, user))
        } else {
            None
        }
    } else {
        None
    };
    let res = JoinedRoomSync {
        room: r,
        timeline,
        limited: len - n > TIMELINE_LIMIT || joined_since,
        prev_batch: Some(pdus[w].count),
        state,
        joined_since_last_sync: joined_since,
        summary,
    };
    proof {
        reveal(room_synced);
    }
    Some(res)
}

/// Whether some event from position `from` on writes (kind, state key).
fn touched(p: &Vec<Pdu>, from: usize, kind: &String, state_key: &String) -> (r: bool)
    ensures
        r == touched_by(p@, from as int, (kind@, state_key@)),
{
    let mut j: usize = from;
    while j < p.len()
        invariant
            from <= j <= p@.len() || (j == from && from > p@.len()),
            forall|x: int| from <= x < j ==> !(p@[x].state_key.is_some() && (p@[x].kind@, p@[x].state_key.unwrap()@) == (kind@, state_key@)),
        decreases p@.len() - j,
    {
        match &p[j].state_key {
            Some(sk) => {
                if p[j].kind == *kind && *sk == *state_key {
                    return true;
                }
            },
            None => {},
        }
        j = j + 1;
    }
    proof {
        if touched_by(p@, from as int, (kind@, state_key@)) {
            let x = choose|x: int| from <= x < p@.len() && p@[x].state_key.is_some() && (p@[x].kind@, p@[x].state_key.unwrap()@) == (kind@, state_key@);
        }
    }
    false
}

/// The counts of the state events to deliver.
fn deliver_state(cur: &Vec<StateEntry>, old: &Vec<StateEntry>, joined_since: bool, p: &Vec<Pdu>, from: usize) -> (r: Vec<u64>)
    requires
        unique_keys(cur@),
        unique_keys(old@),
    ensures
        forall|e: u64| r@.contains(e) <==> delivered_state(state_map(cur@), state_map(old@), joined_since, p@, from as int, e),
{
    let mut out: Vec<u64> = Vec::new();
    let mut i: usize = 0;
    while i < cur.len()
        invariant
            i <= cur@.len(),
            unique_keys(cur@),
            unique_keys(old@),
            forall|e: u64| out@.contains(e) <==> exists|j: int| 0 <= j < i && #[trigger] cur@[j].event == e
                && (joined_since || (state_map(old@).get(cur@[j].key()) != Some(e) && !touched_by(p@, from as int, cur@[j].key()))),
        decreases cur@.len() - i,
    {
        let keep = if joined_since {
            true
        } else {
            let before = crate::state::lookup(old, &cur[i].kind, &cur[i].state_key);
            before != Some(cur[i].event) && !touched(p, from, &cur[i].kind, &cur[i].state_key)
        };
        let ghost prev = out@;
        if keep {
            out.push(cur[i].event);
        }
        proof {
            assert forall|e: u64| out@.contains(e) <==> exists|j: int| 0 <= j < i + 1 && #[trigger] cur@[j].event == e
                && (joined_since || (state_map(old@).get(cur@[j].key()) != Some(e) && !touched_by(p@, from as int, cur@[j].key()))) by {
                if out@.contains(e) {
                    let x = choose|x: int| 0 <= x < out@.len() && out@[x] == e;
                    if x < prev.len() {
                        assert(prev[x] == e);
                        assert(prev.contains(e));
                    } else {
                        assert(cur@[i as int].event == e);
                    }
                }
                if exists|j: int| 0 <= j < i + 1 && #[trigger] cur@[j].event == e
                    && (joined_since || (state_map(old@).get(cur@[j].key()) != Some(e) && !touched_by(p@, from as int, cur@[j].key()))) {
                    let j = choose|j: int| 0 <= j < i + 1 && #[trigger] cur@[j].event == e
                        && (joined_since || (state_map(old@).get(cur@[j].key()) != Some(e) && !touched_by(p@, from as int, cur@[j].key())));
                    if j < i {
                        assert(prev.contains(e));
                        let x = choose|x: int| 0 <= x < prev.len() && prev[x] == e;
                        assert(out@[x] == e);
                    } else {
                        assert(out@[prev.len() as int] == e);
                    }
                }
            }
        }
        i = i + 1;
    }
    proof {
        assert forall|e: u64| out@.contains(e) <==> delivered_state(state_map(cur@), state_map(old@), joined_since, p@, from as int, e) by {
            if out@.contains(e) {
                let j = choose|j: int| 0 <= j < cur@.len() && #[trigger] cur@[j].event == e
                    && (joined_since || (state_map(old@).get(cur@[j].key()) != Some(e) && !touched_by(p@, from as int, cur@[j].key())));
                crate::state::lemma_state_map_at(cur@, j);
                assert(state_map(cur@).contains_key(cur@[j].key()));
            }
            if delivered_state(state_map(cur@), state_map(old@), joined_since, p@, from as int, e) {
                let k = choose|k: StateKey| #[trigger] state_map(cur@).contains_key(k) && state_map(cur@)[k] == e
                    && (joined_since || (state_map(old@).get(k) != Some(e) && !touched_by(p@, from as int, k)));
                let j = choose|j: int| 0 <= j < cur@.len() && cur@[j].key() == k;
                crate::state::lemma_state_map_at(cur@, j);
                assert(cur@[j].event == e);
            }
        }
    }
    out
}

/// The longest a sync call waits for news, in milliseconds.
pub const MAX_WAIT_MS: u64 = 30000;

/// The value of a string of decimal digits.
pub open spec fn decimal(s: Seq<char>) -> int
    decreases s.len(),
{
    if s.len() == 0 {
        0
    } else {
        decimal(s.drop_last()) * 10 + (s.last() as int - '0' as int)
    }
}

pub open spec fn all_digits(s: Seq<char>) -> bool {
    forall|i: int| 0 <= i < s.len() ==> '0' <= #[trigger] s[i] <= '9'
}

/// The count a since token stands for: its decimal value (after an optional
/// `+`) where it is one that fits in 64 bits, else 0, as for no token.
pub open spec fn since_value(token: Option<Seq<char>>) -> u64 {
    match token {
        Some(t) => {
            let digits = if t.len() > 0 && t[0] == '+' { t.subrange(1, t.len() as int) } else { t };
            if digits.len() > 0 && all_digits(digits) && decimal(digits) <= u64::MAX {
                decimal(digits) as u64
            } else {
                0
            }
        },
        None => 0,
    }
}

proof fn lemma_decimal_push(s: Seq<char>, c: char)
    ensures
        decimal(s.push(c)) == decimal(s) * 10 + (c as int - '0' as int),
{
    assert(s.push(c).drop_last() =~= s);
}

proof fn lemma_decimal_nonneg(s: Seq<char>)
    requires
        all_digits(s),
    ensures
        decimal(s) >= 0,
    decreases s.len(),
{
    if s.len() > 0 {
        assert(all_digits(s.drop_last()));
        lemma_decimal_nonneg(s.drop_last());
        assert('0' <= s[s.len() - 1] <= '9');
    }
}

proof fn lemma_decimal_grows(s: Seq<char>, t: Seq<char>)
    requires
        all_digits(t),
        s.len() <= t.len(),
        s == t.subrange(0, s.len() as int),
    ensures
        decimal(s) <= decimal(t),
    decreases t.len(),
{
    if s.len() < t.len() {
        let u = t.drop_last();
        assert(u.subrange(0, s.len() as int) =~= s);
        assert(all_digits(u));
        lemma_decimal_grows(s, u);
        lemma_decimal_nonneg(u);
        assert('0' <= t[t.len() - 1] <= '9');
        assert(decimal(t) == decimal(u) * 10 + (t.last() as int - '0' as int));
    } else {
        assert(s =~= t);
    }
}

/// The count a since token stands for.
pub fn parse_since(token: &Option<String>) -> (r: u64)
    ensures
        r == since_value(opt_chars(*token)),
{
    let t = match token {
        Some(t) => t,
        None => {
            return 0;
        },
    };
    let len = t.unicode_len();
    let mut i: usize = 0;
    if len > 0 && t.get_char(0) == '+' {
        i = 1;
    }
    let ghost start = i as int;
    let ghost digits = t@.subrange(start, t@.len() as int);
    assert(start == 1 ==> t@.len() > 0 && t@[0] == '+');
    assert(start == 0 ==> !(t@.len() > 0 && t@[0] == '+'));
    assert(start == 0 ==> digits =~= t@);
    if i == len {
        assert(digits.len() == 0);
        return 0;
    }
    let mut value: u64 = 0;
    while i < len
        invariant
            opt_chars(*token) == Some(t@),
            start == 0 || start == 1,
            start == 1 ==> t@.len() > 0 && t@[0] == '+',
            start == 0 ==> !(t@.len() > 0 && t@[0] == '+'),
            start <= i <= len,
            len == t@.len(),
            digits == t@.subrange(start, len as int),
            digits == (if t@.len() > 0 && t@[0] == '+' { t@.subrange(1, t@.len() as int) } else { t@ }),
            all_digits(t@.subrange(start, i as int)),
            value == decimal(t@.subrange(start, i as int)),
        decreases len - i,
    {
        let c = t.get_char(i);
        if c < '0' || c > '9' {
            assert(!all_digits(digits)) by {
                assert(digits[i - start] == c);
            }
            return 0;
        }
        let d = (c as u64) - ('0' as u64);
        proof {
            assert(t@.subrange(start, i + 1) =~= t@.subrange(start, i as int).push(c));
            lemma_decimal_push(t@.subrange(start, i as int), c);
        }
        if value > (u64::MAX - d) / 10 {
            proof {
                assert(all_digits(t@.subrange(start, i + 1)));
                assert(decimal(t@.subrange(start, i + 1)) > u64::MAX) by (nonlinear_arith)
                    requires
                        decimal(t@.subrange(start, i + 1)) == value * 10 + d,
                        value > (u64::MAX - d) / 10,
                        d <= 9,
                ;
                if all_digits(digits) {
                    assert(t@.subrange(start, i + 1) =~= digits.subrange(0, i + 1 - start));
                    lemma_decimal_grows(t@.subrange(start, i + 1), digits);
                }
            }
            return 0;
        }
        proof {
            assert(value * 10 + d <= u64::MAX) by (nonlinear_arith)
                requires
                    value <= (u64::MAX - d) / 10,
                    d <= 9,
            ;
        }
        value = value * 10 + d;
        i = i + 1;
    }
    assert(t@.subrange(start, len as int) =~= digits);
    value
}

/// How long a sync call with nothing to report waits: the caller's timeout,
/// capped at thirty seconds; no timeout waits not at all.
pub fn wait_ms(timeout_ms: Option<u64>) -> (r: u64)
    ensures
        r == match timeout_ms {
            Some(t) => if t > MAX_WAIT_MS { MAX_WAIT_MS } else { t },
            None => 0,
        },
{
    match timeout_ms {
        Some(t) => if t > MAX_WAIT_MS { MAX_WAIT_MS } else { t },
        None => 0,
    }
}

/// What becomes of a computed response.
#[derive(Clone, Copy, Debug, PartialEq, Eq, Structural)]
pub struct Completion {
    /// Wait for a wake signal or the timeout before answering.
    pub wait: bool,
    /// The result may be handed to later calls with the same `since`.
    pub cacheable: bool,
}

/// An empty response, where the caller did not ask for full state, waits and
/// is not cached; any other is cached only where it made progress.
pub fn completion(empty: bool, full_state: bool, since: u64, next_batch: u64) -> (c: Completion)
    ensures
        c.wait == (empty && !full_state),
        c.cacheable == (!(empty && !full_state) && since != next_batch),
{
    if empty && !full_state {
        Completion { wait: true, cacheable: false }
    } else {
        Completion { wait: false, cacheable: since != next_batch }
    }
}

/// A presence update of one user.
pub struct Presence {
    pub presence: String,
    pub status_msg: Option<String>,
    pub last_active_ago: Option<u64>,
    pub displayname: Option<String>,
    pub avatar_url: Option<String>,
    pub currently_active: Option<bool>,
}

/// Merges a later presence update of the same user into an earlier one: the
/// presence state is taken over, and each optional field only where the later
/// update has it.
pub fn merge_presence(p: &mut Presence, later: Presence)
    ensures
        final(p).presence == later.presence,
        final(p).status_msg == if later.status_msg.is_some() { later.status_msg } else { old(p).status_msg },
        final(p).last_active_ago == if later.last_active_ago.is_some() { later.last_active_ago } else { old(p).last_active_ago },
        final(p).displayname == if later.displayname.is_some() { later.displayname } else { old(p).displayname },
        final(p).avatar_url == if later.avatar_url.is_some() { later.avatar_url } else { old(p).avatar_url },
        final(p).currently_active == if later.currently_active.is_some() { later.currently_active } else { old(p).currently_active },
{
    let Presence { presence, status_msg, last_active_ago, displayname, avatar_url, currently_active } = later;
    p.presence = presence;
    if status_msg.is_some() {
        p.status_msg = status_msg;
    }
    if last_active_ago.is_some() {
        p.last_active_ago = last_active_ago;
    }
    if displayname.is_some() {
        p.displayname = displayname;
    }
    if avatar_url.is_some() {
        p.avatar_url = avatar_url;
    }
    if currently_active.is_some() {
        p.currently_active = currently_active;
    }
}

/// A left or invited room is reported only where the user left or was
/// invited after `since`.
pub fn after_since(at: Option<u64>, since: u64) -> (r: bool)
    ensures
        r == (at.is_some() && at.unwrap() > since),
{
    match at {
        Some(c) => c > since,
        None => false,
    }
}

/// With no event after `since` in room `r`, the room has nothing to report.
pub proof fn lemma_quiet_room(store: EventStore, r: int, since: u64)
    requires
        store.wf(),
        0 <= r < store.rooms().len(),
        store.bounded_by(since),
    ensures
        (choose|n: int| split_at(store.rooms()[r].pdus(), since, n)) == store.rooms()[r].pdus().len(),
        !has_news(store, r, since),
{
    let p = store.rooms()[r].pdus();
    assert(split_at(p, since, p.len() as int));
    let m = choose|n: int| split_at(p, since, n);
    if m < p.len() {
        assert(p[m].count > since);
        assert(p[m].count <= since);
    }
}

/// The count of the event that gives `user` their current membership in room `r`.
pub open spec fn membership_count(store: EventStore, r: int, user: Seq<char>) -> Option<u64> {
    store.room_state(r).get((member_type(), user))
}

/// Where `user` stands in each room of the store, after `since`.
pub struct RoomLists {
    /// The rooms the user is joined to.
    pub joined: Vec<usize>,
    /// The rooms the user left after `since`.
    pub left: Vec<usize>,
    /// The rooms the user was invited to after `since`.
    pub invited: Vec<usize>,
}

/// Sorts the rooms of the store by the user's membership: every joined room,
/// and the rooms left or invited to after `since`.
pub fn room_lists(store: &EventStore, user: &String, since: u64) -> (l: RoomLists)
    requires
        store.wf(),
    ensures
        forall|r: usize| l.joined@.contains(r) <==> r < store.rooms().len() && store.membership(r as int, user@) == Some(Membership::Join),
        forall|x: int, y: int| 0 <= x < y < l.joined@.len() ==> l.joined@[x] < l.joined@[y],
        forall|r: usize| l.left@.contains(r) <==> r < store.rooms().len() && store.membership(r as int, user@) == Some(Membership::Leave)
            && membership_count(*store, r as int, user@).is_some() && membership_count(*store, r as int, user@).unwrap() > since,
        forall|r: usize| l.invited@.contains(r) <==> r < store.rooms().len() && store.membership(r as int, user@) == Some(Membership::Invite)
            && membership_count(*store, r as int, user@).is_some() && membership_count(*store, r as int, user@).unwrap() > since,
{
    let mut joined: Vec<usize> = Vec::new();
    let mut left: Vec<usize> = Vec::new();
    let mut invited: Vec<usize> = Vec::new();
    let kind = event_type(ROOM_MEMBER);
    let mut r: usize = 0;
    while r < store.room_count()
        invariant
            store.wf(),
            r <= store.rooms().len(),
            kind@ == member_type(),
            forall|q: usize| joined@.contains(q) <==> q < r && store.membership(q as int, user@) == Some(Membership::Join),
            forall|x: int, y: int| 0 <= x < y < joined@.len() ==> joined@[x] < joined@[y],
            forall|x: int| 0 <= x < joined@.len() ==> joined@[x] < r,
            forall|q: usize| left@.contains(q) <==> q < r && store.membership(q as int, user@) == Some(Membership::Leave)
                && membership_count(*store, q as int, user@).is_some() && membership_count(*store, q as int, user@).unwrap() > since,
            forall|q: usize| invited@.contains(q) <==> q < r && store.membership(q as int, user@) == Some(Membership::Invite)
                && membership_count(*store, q as int, user@).is_some() && membership_count(*store, q as int, user@).unwrap() > since,
        decreases store.rooms().len() - r,
    {
        let m = store.membership_of(r, user);
        let at = store.state_get(r, &kind, user);
        let recent = after_since(at, since);
        let ghost (j0, l0, i0) = (joined@, left@, invited@);
        if m == Some(Membership::Join) {
            joined.push(r);
        } else if m == Some(Membership::Leave) && recent {
            left.push(r);
        } else if m == Some(Membership::Invite) && recent {
            invited.push(r);
        }
        proof {
            assert forall|x: int| 0 <= x < joined@.len() implies joined@[x] < r + 1 by {
                if x < j0.len() { assert(joined@[x] == j0[x]); }
            }
            assert forall|x: int, y: int| 0 <= x < y < joined@.len() implies joined@[x] < joined@[y] by {
                if y < j0.len() { assert(joined@[x] == j0[x]); assert(joined@[y] == j0[y]); }
                else if x < j0.len() { assert(joined@[x] == j0[x]); }
            }
            assert forall|q: usize| joined@.contains(q) <==> q < r + 1 && store.membership(q as int, user@) == Some(Membership::Join) by {
                if joined@.contains(q) && !j0.contains(q) {
                    let x = choose|x: int| 0 <= x < joined@.len() && joined@[x] == q;
                    assert(x == j0.len());
                }
                if j0.contains(q) {
                    let x = choose|x: int| 0 <= x < j0.len() && j0[x] == q;
                    assert(joined@[x] == q);
                }
                if q == r && m == Some(Membership::Join) {
                    assert(joined@[j0.len() as int] == q);
                }
            }
            assert forall|q: usize| left@.contains(q) <==> q < r + 1 && store.membership(q as int, user@) == Some(Membership::Leave)
                && membership_count(*store, q as int, user@).is_some() && membership_count(*store, q as int, user@).unwrap() > since by {
                if left@.contains(q) && !l0.contains(q) {
                    let x = choose|x: int| 0 <= x < left@.len() && left@[x] == q;
                    assert(x == l0.len());
                }
                if l0.contains(q) {
                    let x = choose|x: int| 0 <= x < l0.len() && l0[x] == q;
                    assert(left@[x] == q);
                }
                if q == r && m == Some(Membership::Leave) && recent {
                    assert(left@[l0.len() as int] == q);
                }
            }
            assert forall|q: usize| invited@.contains(q) <==> q < r + 1 && store.membership(q as int, user@) == Some(Membership::Invite)
                && membership_count(*store, q as int, user@).is_some() && membership_count(*store, q as int, user@).unwrap() > since by {
                if invited@.contains(q) && !i0.contains(q) {
                    let x = choose|x: int| 0 <= x < invited@.len() && invited@[x] == q;
                    assert(x == i0.len());
                }
                if i0.contains(q) {
                    let x = choose|x: int| 0 <= x < i0.len() && i0[x] == q;
                    assert(invited@[x] == q);
                }
                if q == r && m == Some(Membership::Invite) && recent {
                    assert(invited@[i0.len() as int] == q);
                }
            }
        }
        r = r + 1;
    }
    RoomLists { joined, left, invited }
}

/// The rooms part of a sync response.
pub struct SyncRooms {
    /// The joined rooms that have news, in store order.
    pub join: Vec<JoinedRoomSync>,
    pub leave: Vec<usize>,
    pub invite: Vec<usize>,
}

/// The rooms part of a sync response reports each joined room of `user` with
/// news, only joined rooms, and exactly the rooms left or invited to after `since`.
pub open spec fn rooms_reported(store: EventStore, user: Seq<char>, since: u64, s: SyncRooms) -> bool {
    &&& forall|i: int| 0 <= i < s.join@.len() ==> (#[trigger] s.join@[i]).room < store.rooms().len()
        && store.membership(s.join@[i].room as int, user) == Some(Membership::Join)
        && has_news(store, s.join@[i].room as int, since)
        && room_synced(store, s.join@[i].room as int, user, since, s.join@[i])
    &&& forall|i: int, j: int| 0 <= i < j < s.join@.len() ==> s.join@[i].room < s.join@[j].room
    &&& forall|r: usize| r < store.rooms().len() && store.membership(r as int, user) == Some(Membership::Join)
        && has_news(store, r as int, since)
        ==> exists|i: int| 0 <= i < s.join@.len() && (#[trigger] s.join@[i]).room == r
    &&& forall|r: usize| s.leave@.contains(r) <==> r < store.rooms().len() && store.membership(r as int, user) == Some(Membership::Leave)
        && membership_count(store, r as int, user).is_some() && membership_count(store, r as int, user).unwrap() > since
    &&& forall|r: usize| s.invite@.contains(r) <==> r < store.rooms().len() && store.membership(r as int, user) == Some(Membership::Invite)
        && membership_count(store, r as int, user).is_some() && membership_count(store, r as int, user).unwrap() > since
}

/// Computes the rooms part of the sync of `user` since `since`: each joined
/// room with news, and the rooms left or invited to after `since`.
pub fn sync_rooms(store: &EventStore, user: &String, since: u64) -> (s: SyncRooms)
    requires
        store.wf(),
    ensures
        rooms_reported(*store, user@, since, s),
        store.bounded_by(since) ==> s.join@.len() == 0 && s.leave@.len() == 0 && s.invite@.len() == 0,
{
    let lists = room_lists(store, user, since);
    let RoomLists { joined, left, invited } = lists;
    let mut join: Vec<JoinedRoomSync> = Vec::new();
    let mut i: usize = 0;
    while i < joined.len()
        invariant
            store.wf(),
            i <= joined@.len(),
            forall|r: usize| joined@.contains(r) <==> r < store.rooms().len() && store.membership(r as int, user@) == Some(Membership::Join),
            forall|x: int, y: int| 0 <= x < y < joined@.len() ==> joined@[x] < joined@[y],
            forall|x: int| 0 <= x < join@.len() ==> (#[trigger] join@[x]).room < store.rooms().len()
                && store.membership(join@[x].room as int, user@) == Some(Membership::Join)
                && has_news(*store, join@[x].room as int, since)
                && room_synced(*store, join@[x].room as int, user@, since, join@[x]),
            forall|x: int, y: int| 0 <= x < y < join@.len() ==> join@[x].room < join@[y].room,
            forall|x: int| 0 <= x < join@.len() && i < joined@.len() ==> join@[x].room < joined@[i as int],
            forall|x: int| 0 <= x < i && has_news(*store, joined@[x] as int, since)
                ==> exists|y: int| 0 <= y < join@.len() && (#[trigger] join@[y]).room == joined@[x],
            store.bounded_by(since) ==> join@.len() == 0,
        decreases joined@.len() - i,
    {
        let r = joined[i];
        assert(joined@.contains(r));
        let ghost before = join@;
        match sync_room(store, r, user, since) {
            Some(s) => {
                join.push(s);
                proof {
                    assert(join@[before.len() as int].room == r);
                }
            },
            None => {},
        }
        proof {
            if store.bounded_by(since) {
                lemma_quiet_room(*store, r as int, since);
            }
            assert forall|x: int| 0 <= x < join@.len() implies (#[trigger] join@[x]).room < store.rooms().len()
                && store.membership(join@[x].room as int, user@) == Some(Membership::Join)
                && has_news(*store, join@[x].room as int, since)
                && room_synced(*store, join@[x].room as int, user@, since, join@[x]) by {
                if x < before.len() {
                    assert(join@[x] == before[x]);
                }
            }
            assert forall|x: int, y: int| 0 <= x < y < join@.len() implies join@[x].room < join@[y].room by {
                if y < before.len() {
                    assert(join@[x] == before[x] && join@[y] == before[y]);
                } else {
                    assert(join@[x] == before[x]);
                }
            }
            assert forall|x: int| 0 <= x < join@.len() && i + 1 < joined@.len() implies join@[x].room < joined@[i + 1] by {
                assert(joined@[i as int] < joined@[i + 1]);
                if x < before.len() {
                    assert(join@[x] == before[x]);
                }
            }
            assert forall|x: int| 0 <= x < i + 1 && has_news(*store, joined@[x] as int, since)
                implies exists|y: int| 0 <= y < join@.len() && (#[trigger] join@[y]).room == joined@[x] by {
                if x < i {
                    let y = choose|y: int| 0 <= y < before.len() && (#[trigger] before[y]).room == joined@[x];
                    assert(join@[y] == before[y]);
                } else {
                    assert(join@[before.len() as int].room == r);
                }
            }
        }
        i = i + 1;
    }
    proof {
        assert forall|r: usize| r < store.rooms().len() && store.membership(r as int, user@) == Some(Membership::Join)
            && has_news(*store, r as int, since)
            implies exists|i: int| 0 <= i < join@.len() && (#[trigger] join@[i]).room == r by {
            assert(joined@.contains(r));
            let x = choose|x: int| 0 <= x < joined@.len() && joined@[x] == r;
        }
        if store.bounded_by(since) {
            assert forall|r: usize| !left@.contains(r) by {
                if left@.contains(r) {
                    let c = membership_count(*store, r as int, user@).unwrap();
                    lemma_count_in_room(*store, r as int, (member_type(), user@));
                }
            }
            if left@.len() > 0 {
                assert(left@.contains(left@[0]));
            }
            assert forall|r: usize| !invited@.contains(r) by {
                if invited@.contains(r) {
                    lemma_count_in_room(*store, r as int, (member_type(), user@));
                }
            }
            if invited@.len() > 0 {
                assert(invited@.contains(invited@[0]));
            }
        }
    }
    SyncRooms { join, leave: left, invite: invited }
}

/// Every event of a room's current state is one of the room's events.
pub proof fn lemma_count_in_room(store: EventStore, r: int, k: StateKey)
    requires
        store.wf(),
        0 <= r < store.rooms().len(),
        store.room_state(r).contains_key(k),
    ensures
        exists|j: int| 0 <= j < store.rooms()[r].pdus().len() && store.rooms()[r].pdus()[j].count == store.room_state(r)[k],
{
    store.lemma_state_is_replay(r);
    lemma_replay_from_log(store.rooms()[r].pdus(), k);
}

/// Every event a replay keeps is one of the replayed events.
pub proof fn lemma_replay_from_log(p: Seq<Pdu>, k: StateKey)
    requires
        crate::rooms::replay(p).contains_key(k),
    ensures
        exists|j: int| 0 <= j < p.len() && p[j].count == crate::rooms::replay(p)[k],
    decreases p.len(),
{
    let rest = p.drop_last();
    let last = p.last();
    if last.state_key.is_some() && (last.kind@, last.state_key.unwrap()@) == k {
        assert(p[p.len() - 1].count == crate::rooms::replay(p)[k]);
    } else {
        lemma_replay_from_log(rest, k);
        let j = choose|j: int| 0 <= j < rest.len() && rest[j].count == crate::rooms::replay(rest)[k];
        assert(p[j] == rest[j]);
    }
}

} // verus!
