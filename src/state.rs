use vstd::prelude::*;

verus! {

/// The key of a state entry: (event type, state key).
pub type StateKey = (Seq<char>, Seq<char>);

/// One entry of a room state: the state event that holds a (type, state key)
/// pair, named by its global count.
pub struct StateEntry {
    pub kind: String,
    pub state_key: String,
    pub event: u64,
}

impl StateEntry {
    pub open spec fn key(&self) -> StateKey {
        (self.kind@, self.state_key@)
    }
}

/// No two entries share a key.
pub open spec fn unique_keys(s: Seq<StateEntry>) -> bool {
    forall|i: int, j: int| 0 <= i < s.len() && 0 <= j < s.len() && i != j ==> s[i].key() != s[j].key()
}

pub open spec fn has_key(s: Seq<StateEntry>, k: StateKey) -> bool {
    exists|i: int| 0 <= i < s.len() && s[i].key() == k
}

/// Some entry holds key `k` with event `ev`.
pub open spec fn holds(s: Seq<StateEntry>, k: StateKey, ev: u64) -> bool {
    exists|j: int| 0 <= j < s.len() && s[j].key() == k && s[j].event == ev
}

/// The (type, state key) -> event mapping that a list of entries describes.
pub open spec fn state_map(s: Seq<StateEntry>) -> Map<StateKey, u64> {
    Map::new(
        |k: StateKey| has_key(s, k),
        |k: StateKey| s[choose|i: int| 0 <= i < s.len() && s[i].key() == k].event,
    )
}

pub proof fn lemma_state_map_at(s: Seq<StateEntry>, i: int)
    requires
        unique_keys(s),
        0 <= i < s.len(),
    ensures
        state_map(s).contains_key(s[i].key()),
        state_map(s)[s[i].key()] == s[i].event,
{
    let k = s[i].key();
    assert(has_key(s, k));
    let j = choose|j: int| 0 <= j < s.len() && s[j].key() == k;
    assert(i == j);
}

/// Two entry lists describe the same mapping when each entry of one is found,
/// with the same event, in the other.
pub proof fn lemma_state_map_eq(a: Seq<StateEntry>, b: Seq<StateEntry>)
    requires
        unique_keys(a),
        unique_keys(b),
        forall|i: int| 0 <= i < a.len() ==> #[trigger] holds(b, a[i].key(), a[i].event),
        forall|j: int| 0 <= j < b.len() ==> #[trigger] holds(a, b[j].key(), b[j].event),
    ensures
        state_map(a) == state_map(b),
{
    assert forall|k: StateKey| state_map(a).contains_key(k) implies state_map(b).contains_key(k) && state_map(a)[k] == state_map(b)[k] by {
        let i = choose|i: int| 0 <= i < a.len() && a[i].key() == k;
        lemma_state_map_at(a, i);
        assert(holds(b, a[i].key(), a[i].event));
        let j = choose|j: int| 0 <= j < b.len() && b[j].key() == a[i].key() && b[j].event == a[i].event;
        lemma_state_map_at(b, j);
    }
    assert forall|k: StateKey| state_map(b).contains_key(k) implies state_map(a).contains_key(k) by {
        let j = choose|j: int| 0 <= j < b.len() && b[j].key() == k;
        assert(holds(a, b[j].key(), b[j].event));
        let i = choose|i: int| 0 <= i < a.len() && a[i].key() == b[j].key() && a[i].event == b[j].event;
        assert(has_key(a, k));
    }
    assert forall|k: StateKey| #[trigger] has_key(a, k) == has_key(b, k) by {
        if has_key(a, k) {
            let i = choose|i: int| 0 <= i < a.len() && a[i].key() == k;
            assert(holds(b, a[i].key(), a[i].event));
            let j = choose|j: int| 0 <= j < b.len() && b[j].key() == a[i].key() && b[j].event == a[i].event;
            assert(b[j].key() == k);
        }
        if has_key(b, k) {
            let j = choose|j: int| 0 <= j < b.len() && b[j].key() == k;
            assert(holds(a, b[j].key(), b[j].event));
            let i = choose|i: int| 0 <= i < a.len() && a[i].key() == b[j].key() && a[i].event == b[j].event;
            assert(a[i].key() == k);
        }
    }
    assert(state_map(a).dom() =~= state_map(b).dom());
    assert(state_map(a) =~= state_map(b));
}

/// The position of the entry with the given key.
pub fn find_key(s: &Vec<StateEntry>, kind: &String, state_key: &String) -> (r: Option<usize>)
    ensures
        r.is_none() ==> !has_key(s@, (kind@, state_key@)),
        r.is_some() ==> r.unwrap() < s@.len() && s@[r.unwrap() as int].key() == (kind@, state_key@),
{
    let mut i: usize = 0;
    while i < s.len()
        invariant
            i <= s@.len(),
            forall|j: int| 0 <= j < i ==> s@[j].key() != (kind@, state_key@),
        decreases s@.len() - i,
    {
        let same_kind = s[i].kind == *kind;
        let same_key = s[i].state_key == *state_key;
        if same_kind && same_key {
            return Some(i);
        }
        assert(s@[i as int].key() != (kind@, state_key@)) by {
            if s@[i as int].key() == (kind@, state_key@) {
                assert(s@[i as int].key().0 == kind@);
                assert(s@[i as int].key().1 == state_key@);
            }
        }
        i = i + 1;
    }
    None
}

/// The event that holds a key, if any.
pub fn lookup(s: &Vec<StateEntry>, kind: &String, state_key: &String) -> (r: Option<u64>)
    requires
        unique_keys(s@),
    ensures
        r == state_map(s@).get((kind@, state_key@)),
{
    match find_key(s, kind, state_key) {
        Some(i) => {
            proof {
                lemma_state_map_at(s@, i as int);
            }
            Some(s[i].event)
        },
        None => {
            assert(!state_map(s@).contains_key((kind@, state_key@)));
            None
        },
    }
}

/// A copy of a state entry.
pub fn copy_entry(e: &StateEntry) -> (r: StateEntry)
    ensures
        r.key() == e.key(),
        r.event == e.event,
{
    StateEntry { kind: e.kind.clone(), state_key: e.state_key.clone(), event: e.event }
}

/// A copy of a list of state entries.
pub fn copy_entries(s: &Vec<StateEntry>) -> (r: Vec<StateEntry>)
    ensures
        r@.len() == s@.len(),
        forall|i: int| 0 <= i < s@.len() ==> (#[trigger] r@[i]).key() == s@[i].key() && r@[i].event == s@[i].event,
{
    let mut out: Vec<StateEntry> = Vec::new();
    let mut i: usize = 0;
    while i < s.len()
        invariant
            i <= s@.len(),
            out@.len() == i,
            forall|j: int| 0 <= j < i ==> (#[trigger] out@[j]).key() == s@[j].key() && out@[j].event == s@[j].event,
        decreases s@.len() - i,
    {
        out.push(copy_entry(&s[i]));
        i = i + 1;
    }
    out
}

pub proof fn lemma_copy_same_map(a: Seq<StateEntry>, b: Seq<StateEntry>)
    requires
        a.len() == b.len(),
        forall|i: int| 0 <= i < a.len() ==> (#[trigger] b[i]).key() == a[i].key() && b[i].event == a[i].event,
        unique_keys(a),
    ensures
        unique_keys(b),
        state_map(a) == state_map(b),
{
    assert(unique_keys(b)) by {
        assert forall|i: int, j: int| 0 <= i < b.len() && 0 <= j < b.len() && i != j implies b[i].key() != b[j].key() by {
            assert(b[i].key() == a[i].key());
            assert(b[j].key() == a[j].key());
        }
    }
    assert forall|i: int| 0 <= i < a.len() implies #[trigger] holds(b, a[i].key(), a[i].event) by {
        assert(b[i].key() == a[i].key());
    }
    assert forall|j: int| 0 <= j < b.len() implies #[trigger] holds(a, b[j].key(), b[j].event) by {
        assert(b[j].key() == a[j].key());
    }
    lemma_state_map_eq(a, b);
}

/// Writes `event` under (kind, state key): replaces the entry with that key, or
/// adds one.
pub fn set_entry(s: &mut Vec<StateEntry>, kind: &String, state_key: &String, event: u64)
    requires
        unique_keys(old(s)@),
    ensures
        unique_keys(final(s)@),
        state_map(final(s)@) == state_map(old(s)@).insert((kind@, state_key@), event),
{
    let ghost k = (kind@, state_key@);
    let ghost before = s@;
    let e = StateEntry { kind: kind.clone(), state_key: state_key.clone(), event };
    match find_key(s, kind, state_key) {
        Some(i) => {
            s.set(i, e);
            let ghost after = s@;
            assert(unique_keys(after)) by {
                assert forall|x: int, y: int| 0 <= x < after.len() && 0 <= y < after.len() && x != y implies after[x].key() != after[y].key() by {
                    if x != i && y != i {
                        assert(after[x] == before[x]);
                        assert(after[y] == before[y]);
                    } else if x == i {
                        assert(after[y] == before[y]);
                        assert(before[i as int].key() == k);
                    } else {
                        assert(after[x] == before[x]);
                        assert(before[i as int].key() == k);
                    }
                }
            }
            assert(state_map(after) =~= state_map(before).insert(k, event)) by {
                assert forall|q: StateKey| state_map(after).contains_key(q) implies state_map(before).insert(k, event).contains_key(q)
                    && state_map(after)[q] == state_map(before).insert(k, event)[q] by {
                    let x = choose|x: int| 0 <= x < after.len() && after[x].key() == q;
                    lemma_state_map_at(after, x);
                    if x != i {
                        assert(after[x] == before[x]);
                        lemma_state_map_at(before, x);
                    }
                }
                assert forall|q: StateKey| state_map(before).insert(k, event).contains_key(q) implies state_map(after).contains_key(q) by {
                    if q == k {
                        assert(after[i as int].key() == q);
                    } else {
                        let x = choose|x: int| 0 <= x < before.len() && before[x].key() == q;
                        assert(x != i);
                        assert(after[x] == before[x]);
                    }
                }
            }
        },
        None => {
            s.push(e);
            let ghost after = s@;
            assert(after[before.len() as int] == e);
            assert(unique_keys(after)) by {
                assert forall|x: int, y: int| 0 <= x < after.len() && 0 <= y < after.len() && x != y implies after[x].key() != after[y].key() by {
                    if x < before.len() && y < before.len() {
                        assert(after[x] == before[x]);
                        assert(after[y] == before[y]);
                    } else if x < before.len() {
                        assert(after[x] == before[x]);
                    } else {
                        assert(after[y] == before[y]);
                    }
                }
            }
            assert(state_map(after) =~= state_map(before).insert(k, event)) by {
                assert forall|q: StateKey| state_map(after).contains_key(q) implies state_map(before).insert(k, event).contains_key(q)
                    && state_map(after)[q] == state_map(before).insert(k, event)[q] by {
                    let x = choose|x: int| 0 <= x < after.len() && after[x].key() == q;
                    lemma_state_map_at(after, x);
                    if x < before.len() {
                        assert(after[x] == before[x]);
                        lemma_state_map_at(before, x);
                    }
                }
                assert forall|q: StateKey| state_map(before).insert(k, event).contains_key(q) implies state_map(after).contains_key(q) by {
                    if q == k {
                        assert(after[before.len() as int].key() == q);
                    } else {
                        let x = choose|x: int| 0 <= x < before.len() && before[x].key() == q;
                        assert(after[x] == before[x]);
                    }
                }
            }
        },
    }
}

/// Whether every entry of `a` is held, with the same event, by `b`.
fn included(a: &Vec<StateEntry>, b: &Vec<StateEntry>) -> (r: bool)
    requires
        unique_keys(a@),
        unique_keys(b@),
    ensures
        r == forall|i: int| 0 <= i < a@.len() ==> #[trigger] holds(b@, a@[i].key(), a@[i].event),
{
    let mut i: usize = 0;
    while i < a.len()
        invariant
            i <= a@.len(),
            unique_keys(a@),
            unique_keys(b@),
            forall|j: int| 0 <= j < i ==> #[trigger] holds(b@, a@[j].key(), a@[j].event),
        decreases a@.len() - i,
    {
        let found = lookup(b, &a[i].kind, &a[i].state_key);
        if found != Some(a[i].event) {
            proof {
                if holds(b@, a@[i as int].key(), a@[i as int].event) {
                    let j = choose|j: int| 0 <= j < b@.len() && b@[j].key() == a@[i as int].key() && b@[j].event == a@[i as int].event;
                    lemma_state_map_at(b@, j);
                }
            }
            return false;
        }
        proof {
            let k = a@[i as int].key();
            assert(state_map(b@).contains_key(k));
            let j = choose|j: int| 0 <= j < b@.len() && b@[j].key() == k;
            lemma_state_map_at(b@, j);
            assert(holds(b@, a@[i as int].key(), a@[i as int].event));
        }
        i = i + 1;
    }
    true
}

/// Whether two entry lists describe the same state.
pub fn same_state(a: &Vec<StateEntry>, b: &Vec<StateEntry>) -> (r: bool)
    requires
        unique_keys(a@),
        unique_keys(b@),
    ensures
        r == (state_map(a@) == state_map(b@)),
{
    let ab = included(a, b);
    if !ab {
        proof {
            let i = choose|i: int| 0 <= i < a@.len() && !holds(b@, a@[i].key(), a@[i].event);
            lemma_state_map_at(a@, i);
            if state_map(a@) == state_map(b@) {
                let j = choose|j: int| 0 <= j < b@.len() && b@[j].key() == a@[i].key();
                lemma_state_map_at(b@, j);
            }
        }
        return false;
    }
    let ba = included(b, a);
    if !ba {
        proof {
            let j = choose|j: int| 0 <= j < b@.len() && !holds(a@, b@[j].key(), b@[j].event);
            lemma_state_map_at(b@, j);
            if state_map(a@) == state_map(b@) {
                let i = choose|i: int| 0 <= i < a@.len() && a@[i].key() == b@[j].key();
                lemma_state_map_at(a@, i);
            }
        }
        return false;
    }
    proof {
        lemma_state_map_eq(a@, b@);
    }
    true
}

/// The registry of state snapshots ("short state hashes").
///
/// A snapshot's identifier depends on its content alone: registering a state
/// that is already known hands back the identifier it already has.
pub struct SnapshotRegistry {
    snapshots: Vec<Vec<StateEntry>>,
}

impl SnapshotRegistry {
    /// How many snapshots are registered; identifiers run below this.
    pub closed spec fn len(&self) -> nat {
        self.snapshots@.len()
    }

    /// The (type, state key) -> event mapping of a snapshot.
    pub closed spec fn snapshot(&self, id: int) -> Map<StateKey, u64> {
        state_map(self.snapshots@[id]@)
    }

    closed spec fn entries_of(&self, id: int) -> Seq<StateEntry> {
        self.snapshots@[id]@
    }

    /// Every snapshot is a proper mapping, and no two identifiers name equal states.
    pub closed spec fn wf(&self) -> bool {
        &&& forall|i: int| 0 <= i < self.snapshots@.len() ==> unique_keys(#[trigger] self.snapshots@[i]@)
        &&& forall|i: int, j: int|
            0 <= i < self.snapshots@.len() && 0 <= j < self.snapshots@.len() && i != j
                ==> state_map(self.snapshots@[i]@) != state_map(self.snapshots@[j]@)
    }

    /// Equal states have equal identifiers.
    pub proof fn lemma_identity_by_content(&self, a: int, b: int)
        requires
            self.wf(),
            0 <= a < self.len(),
            0 <= b < self.len(),
            self.snapshot(a) == self.snapshot(b),
        ensures
            a == b,
    {
    }

    /// An empty registry.
    pub fn new() -> (r: SnapshotRegistry)
        ensures
            r.wf(),
            r.len() == 0,
    {
        SnapshotRegistry { snapshots: Vec::new() }
    }

    /// The identifier of the state `entries` describes, registering it where it
    /// is new.
    pub fn register(&mut self, entries: Vec<StateEntry>) -> (id: usize)
        requires
            old(self).wf(),
            unique_keys(entries@),
                    ensures
            final(self).wf(),
            id < final(self).len(),
            final(self).snapshot(id as int) == state_map(entries@),
            final(self).len() == old(self).len() || final(self).len() == old(self).len() + 1,
            forall|i: int| 0 <= i < old(self).len() ==> #[trigger] final(self).snapshot(i) == old(self).snapshot(i),
            (exists|i: int| 0 <= i < old(self).len() && old(self).snapshot(i) == state_map(entries@))
                ==> final(self).len() == old(self).len(),
    {
        let mut i: usize = 0;
        while i < self.snapshots.len()
            invariant
                i <= self.snapshots@.len(),
                self.wf(),
                unique_keys(entries@),
                forall|j: int| 0 <= j < i ==> state_map(self.snapshots@[j]@) != state_map(entries@),
            decreases self.snapshots@.len() - i,
        {
            assert(unique_keys(self.snapshots@[i as int]@));
            if same_state(&self.snapshots[i], &entries) {
                return i;
            }
            i = i + 1;
        }
        let ghost before = self.snapshots@;
        let id = self.snapshots.len();
        self.snapshots.push(entries);
        let ghost after = self.snapshots@;
        assert(forall|j: int| 0 <= j < before.len() ==> after[j] == before[j]);
        assert(self.wf()) by {
            assert forall|x: int| 0 <= x < after.len() implies unique_keys(#[trigger] after[x]@) by {
                if x < before.len() {
                    assert(after[x] == before[x]);
                }
            }
            assert forall|x: int, y: int| 0 <= x < after.len() && 0 <= y < after.len() && x != y
                implies state_map(after[x]@) != state_map(after[y]@) by {
                if x < before.len() && y < before.len() {
                    assert(after[x] == before[x]);
                    assert(after[y] == before[y]);
                } else if x < before.len() {
                    assert(after[x] == before[x]);
                } else {
                    assert(after[y] == before[y]);
                }
            }
        }
        id
    }

    /// The full state of a snapshot.
    pub fn state_at(&self, id: usize) -> (r: Vec<StateEntry>)
        requires
            self.wf(),
            id < self.len(),
        ensures
            unique_keys(r@),
            state_map(r@) == self.snapshot(id as int),
    {
        let r = copy_entries(&self.snapshots[id]);
        proof {
            assert(unique_keys(self.snapshots@[id as int]@));
            lemma_copy_same_map(self.snapshots@[id as int]@, r@);
        }
        r
    }

    /// The event that holds a key in a snapshot.
    pub fn get(&self, id: usize, kind: &String, state_key: &String) -> (r: Option<u64>)
        requires
            self.wf(),
            id < self.len(),
        ensures
            r == self.snapshot(id as int).get((kind@, state_key@)),
    {
        assert(unique_keys(self.snapshots@[id as int]@));
        lookup(&self.snapshots[id], kind, state_key)
    }

    /// The keys whose event differs between snapshot `a` and snapshot `b`, with
    /// the event before and after.
    pub fn diff(&self, a: usize, b: usize) -> (r: Vec<StateDelta>)
        requires
            self.wf(),
            a < self.len(),
            b < self.len(),
        ensures
            is_diff(self.snapshot(a as int), self.snapshot(b as int), r@),
    {
        assert(unique_keys(self.snapshots@[a as int]@));
        assert(unique_keys(self.snapshots@[b as int]@));
        diff_entries(&self.snapshots[a], &self.snapshots[b])
    }
}

/// One changed key between two states: its event before and after (`None`
/// where the key is absent).
pub struct StateDelta {
    pub kind: String,
    pub state_key: String,
    pub before: Option<u64>,
    pub after: Option<u64>,
}

impl StateDelta {
    pub open spec fn key(&self) -> StateKey {
        (self.kind@, self.state_key@)
    }
}

/// `d` lists exactly the keys on which `a` and `b` differ, once each, with the
/// event of each side.
pub open spec fn is_diff(a: Map<StateKey, u64>, b: Map<StateKey, u64>, d: Seq<StateDelta>) -> bool {
    &&& forall|i: int| 0 <= i < d.len() ==> (#[trigger] d[i]).before == a.get(d[i].key())
        && d[i].after == b.get(d[i].key()) && d[i].before != d[i].after
    &&& forall|i: int, j: int| 0 <= i < d.len() && 0 <= j < d.len() && i != j ==> d[i].key() != d[j].key()
    &&& forall|k: StateKey| a.get(k) != b.get(k) ==> exists|i: int| 0 <= i < d.len() && #[trigger] d[i].key() == k
}

/// The state that results from applying the deltas, in order, to `m`.
pub open spec fn apply_deltas(m: Map<StateKey, u64>, d: Seq<StateDelta>) -> Map<StateKey, u64>
    decreases d.len(),
{
    if d.len() == 0 {
        m
    } else {
        let rest = apply_deltas(m, d.drop_last());
        match d.last().after {
            Some(e) => rest.insert(d.last().key(), e),
            None => rest.remove(d.last().key()),
        }
    }
}

fn diff_entries(a: &Vec<StateEntry>, b: &Vec<StateEntry>) -> (r: Vec<StateDelta>)
    requires
        unique_keys(a@),
        unique_keys(b@),
    ensures
        is_diff(state_map(a@), state_map(b@), r@),
{
    let ghost ma = state_map(a@);
    let ghost mb = state_map(b@);
    let mut out: Vec<StateDelta> = Vec::new();
    let mut i: usize = 0;
    while i < b.len()
        invariant
            i <= b@.len(),
            unique_keys(a@),
            unique_keys(b@),
            ma == state_map(a@),
            mb == state_map(b@),
            forall|x: int| 0 <= x < out@.len() ==> (#[trigger] out@[x]).before == ma.get(out@[x].key())
                && out@[x].after == mb.get(out@[x].key()) && out@[x].before != out@[x].after,
            forall|x: int| #![trigger out@[x]] 0 <= x < out@.len() ==> exists|j: int| 0 <= j < i && #[trigger] b@[j].key() == out@[x].key(),
            forall|x: int, y: int| 0 <= x < out@.len() && 0 <= y < out@.len() && x != y ==> out@[x].key() != out@[y].key(),
            forall|j: int| 0 <= j < i && ma.get(#[trigger] b@[j].key()) != mb.get(b@[j].key())
                ==> exists|x: int| 0 <= x < out@.len() && #[trigger] out@[x].key() == b@[j].key(),
        decreases b@.len() - i,
    {
        let before = lookup(a, &b[i].kind, &b[i].state_key);
        proof {
            lemma_state_map_at(b@, i as int);
        }
        if before != Some(b[i].event) {
            let ghost old_out = out@;
            out.push(StateDelta {
                kind: b[i].kind.clone(),
                state_key: b[i].state_key.clone(),
                before,
                after: Some(b[i].event),
            });
            proof {
                assert(out@[old_out.len() as int].key() == b@[i as int].key());
                assert forall|x: int, y: int| 0 <= x < out@.len() && 0 <= y < out@.len() && x != y implies out@[x].key() != out@[y].key() by {
                    if x < old_out.len() && y < old_out.len() {
                        assert(out@[x] == old_out[x]);
                        assert(out@[y] == old_out[y]);
                    } else if x < old_out.len() {
                        assert(out@[x] == old_out[x]);
                        let j = choose|j: int| 0 <= j < i && #[trigger] b@[j].key() == old_out[x].key();
                        assert(j != i);
                    } else {
                        assert(out@[y] == old_out[y]);
                        let j = choose|j: int| 0 <= j < i && #[trigger] b@[j].key() == old_out[y].key();
                        assert(j != i);
                    }
                }
                assert forall|x: int| #![trigger out@[x]] 0 <= x < out@.len() implies exists|j: int| 0 <= j < i + 1 && #[trigger] b@[j].key() == out@[x].key() by {
                    if x < old_out.len() {
                        assert(out@[x] == old_out[x]);
                        let j = choose|j: int| 0 <= j < i && #[trigger] b@[j].key() == old_out[x].key();
                        assert(b@[j].key() == out@[x].key());
                    } else {
                        assert(b@[i as int].key() == out@[x].key());
                    }
                }
                assert forall|j: int| 0 <= j < i + 1 && ma.get(#[trigger] b@[j].key()) != mb.get(b@[j].key())
                    implies exists|x: int| 0 <= x < out@.len() && #[trigger] out@[x].key() == b@[j].key() by {
                    if j < i {
                        let x = choose|x: int| 0 <= x < old_out.len() && #[trigger] old_out[x].key() == b@[j].key();
                        assert(out@[x] == old_out[x]);
                    } else {
                        assert(out@[old_out.len() as int].key() == b@[j].key());
                    }
                }
            }
        }
        i = i + 1;
    }
    let ghost mid = out@.len();
    let mut i: usize = 0;
    while i < a.len()
        invariant
            i <= a@.len(),
            mid <= out@.len(),
            unique_keys(a@),
            unique_keys(b@),
            ma == state_map(a@),
            mb == state_map(b@),
            forall|x: int| 0 <= x < out@.len() ==> (#[trigger] out@[x]).before == ma.get(out@[x].key())
                && out@[x].after == mb.get(out@[x].key()) && out@[x].before != out@[x].after,
            forall|x: int| #![trigger out@[x]] mid <= x < out@.len() ==> exists|j: int| 0 <= j < i && #[trigger] a@[j].key() == out@[x].key(),
            forall|x: int| mid <= x < out@.len() ==> !mb.contains_key((#[trigger] out@[x]).key()),
            forall|x: int| 0 <= x < mid ==> mb.contains_key((#[trigger] out@[x]).key()),
            forall|x: int, y: int| 0 <= x < out@.len() && 0 <= y < out@.len() && x != y ==> out@[x].key() != out@[y].key(),
            forall|k: StateKey| mb.contains_key(k) && ma.get(k) != mb.get(k)
                ==> exists|x: int| 0 <= x < out@.len() && #[trigger] out@[x].key() == k,
            forall|j: int| 0 <= j < i && ma.get(#[trigger] a@[j].key()) != mb.get(a@[j].key())
                ==> exists|x: int| 0 <= x < out@.len() && #[trigger] out@[x].key() == a@[j].key(),
        decreases a@.len() - i,
    {
        let after = lookup(b, &a[i].kind, &a[i].state_key);
        proof {
            lemma_state_map_at(a@, i as int);
        }
        if after.is_none() {
            let ghost old_out = out@;
            out.push(StateDelta {
                kind: a[i].kind.clone(),
                state_key: a[i].state_key.clone(),
                before: Some(a[i].event),
                after: None,
            });
            proof {
                assert(out@[old_out.len() as int].key() == a@[i as int].key());
                assert forall|x: int, y: int| 0 <= x < out@.len() && 0 <= y < out@.len() && x != y implies out@[x].key() != out@[y].key() by {
                    if x < old_out.len() && y < old_out.len() {
                        assert(out@[x] == old_out[x]);
                        assert(out@[y] == old_out[y]);
                    } else if x < old_out.len() {
                        assert(out@[x] == old_out[x]);
                        if x >= mid {
                            let j = choose|j: int| 0 <= j < i && #[trigger] a@[j].key() == old_out[x].key();
                            assert(j != i);
                        }
                    } else {
                        assert(out@[y] == old_out[y]);
                        if y >= mid {
                            let j = choose|j: int| 0 <= j < i && #[trigger] a@[j].key() == old_out[y].key();
                            assert(j != i);
                        }
                    }
                }
                assert forall|x: int| #![trigger out@[x]] mid <= x < out@.len() implies exists|j: int| 0 <= j < i + 1 && #[trigger] a@[j].key() == out@[x].key() by {
                    if x < old_out.len() {
                        assert(out@[x] == old_out[x]);
                        let j = choose|j: int| 0 <= j < i && #[trigger] a@[j].key() == old_out[x].key();
                        assert(a@[j].key() == out@[x].key());
                    } else {
                        assert(a@[i as int].key() == out@[x].key());
                    }
                }
                assert forall|x: int| mid <= x < out@.len() implies !mb.contains_key((#[trigger] out@[x]).key()) by {
                    if x < old_out.len() {
                        assert(out@[x] == old_out[x]);
                    }
                }
                assert forall|x: int| 0 <= x < mid implies mb.contains_key((#[trigger] out@[x]).key()) by {
                    assert(out@[x] == old_out[x]);
                }
                assert forall|k: StateKey| mb.contains_key(k) && ma.get(k) != mb.get(k)
                    implies exists|x: int| 0 <= x < out@.len() && #[trigger] out@[x].key() == k by {
                    let x = choose|x: int| 0 <= x < old_out.len() && #[trigger] old_out[x].key() == k;
                    assert(out@[x] == old_out[x]);
                }
                assert forall|j: int| 0 <= j < i + 1 && ma.get(#[trigger] a@[j].key()) != mb.get(a@[j].key())
                    implies exists|x: int| 0 <= x < out@.len() && #[trigger] out@[x].key() == a@[j].key() by {
                    if j < i {
                        let x = choose|x: int| 0 <= x < old_out.len() && #[trigger] old_out[x].key() == a@[j].key();
                        assert(out@[x] == old_out[x]);
                    } else {
                        assert(out@[old_out.len() as int].key() == a@[j].key());
                    }
                }
            }
        } else {
            proof {
                let k = a@[i as int].key();
                if ma.get(k) != mb.get(k) {
                    assert(mb.contains_key(k));
                }
            }
        }
        i = i + 1;
    }
    proof {
        assert forall|k: StateKey| ma.get(k) != mb.get(k) implies exists|i: int| 0 <= i < out@.len() && #[trigger] out@[i].key() == k by {
            if !mb.contains_key(k) {
                assert(ma.contains_key(k));
                let j = choose|j: int| 0 <= j < a@.len() && a@[j].key() == k;
                assert(ma.get(a@[j].key()) != mb.get(a@[j].key()));
            }
        }
    }
    out
}

proof fn lemma_apply_untouched(m: Map<StateKey, u64>, d: Seq<StateDelta>, k: StateKey)
    requires
        forall|i: int| 0 <= i < d.len() ==> (#[trigger] d[i]).key() != k,
    ensures
        apply_deltas(m, d).get(k) == m.get(k),
    decreases d.len(),
{
    if d.len() > 0 {
        let rest = d.drop_last();
        assert forall|i: int| 0 <= i < rest.len() implies (#[trigger] rest[i]).key() != k by {
            assert(rest[i] == d[i]);
        }
        lemma_apply_untouched(m, rest, k);
        assert(d.last() == d[d.len() - 1]);
    }
}

proof fn lemma_apply_touched(m: Map<StateKey, u64>, d: Seq<StateDelta>, i: int)
    requires
        0 <= i < d.len(),
        forall|x: int, y: int| 0 <= x < d.len() && 0 <= y < d.len() && x != y ==> d[x].key() != d[y].key(),
    ensures
        apply_deltas(m, d).get(d[i].key()) == d[i].after,
    decreases d.len(),
{
    let rest = d.drop_last();
    assert(d.last() == d[d.len() - 1]);
    if i < d.len() - 1 {
        assert(rest[i] == d[i]);
        assert forall|x: int, y: int| 0 <= x < rest.len() && 0 <= y < rest.len() && x != y implies rest[x].key() != rest[y].key() by {
            assert(rest[x] == d[x]);
            assert(rest[y] == d[y]);
        }
        lemma_apply_touched(m, rest, i);
        assert(d[i].key() != d.last().key());
    }
}

/// Applying the diff from state `a` to state `b` onto `a` reproduces `b`
/// exactly, and the diff of a state with itself is empty.
pub proof fn lemma_diff_apply(a: Map<StateKey, u64>, b: Map<StateKey, u64>, d: Seq<StateDelta>)
    requires
        is_diff(a, b, d),
    ensures
        apply_deltas(a, d) == b,
        a == b ==> d.len() == 0,
{
    let r = apply_deltas(a, d);
    assert forall|k: StateKey| #[trigger] r.get(k) == b.get(k) by {
        if exists|i: int| 0 <= i < d.len() && d[i].key() == k {
            let i = choose|i: int| 0 <= i < d.len() && d[i].key() == k;
            lemma_apply_touched(a, d, i);
        } else {
            lemma_apply_untouched(a, d, k);
        }
    }
    assert forall|k: StateKey| r.contains_key(k) == b.contains_key(k) by {
        assert(r.get(k) == b.get(k));
    }
    assert(r.dom() =~= b.dom());
    assert forall|k: StateKey| r.contains_key(k) implies r[k] == b[k] by {
        assert(r.get(k) == b.get(k));
    }
    assert(r =~= b);
    if a == b && d.len() > 0 {
        assert(d[0].before != d[0].after);
    }
}

/// The registry's diff of a snapshot with itself is empty, and applying the
/// diff of two snapshots to the first reproduces the second.
pub proof fn lemma_snapshot_diff(reg: SnapshotRegistry, a: int, b: int, d: Seq<StateDelta>)
    requires
        is_diff(reg.snapshot(a), reg.snapshot(b), d),
    ensures
        apply_deltas(reg.snapshot(a), d) == reg.snapshot(b),
        a == b ==> d.len() == 0,
{
    lemma_diff_apply(reg.snapshot(a), reg.snapshot(b), d);
}

} // verus!
