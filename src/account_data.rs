use vstd::prelude::*;

use crate::counter::Globals;
use crate::error::Error;
use crate::json::{has_type_and_content, is_valid_account_payload, json_object_keys};
use crate::text::{opt_chars, same_opt_string};

verus! {

/// The key of an account-data slot: optional room scope, user, event type.
pub type Slot = (Option<Seq<char>>, Seq<char>, Seq<char>);

/// One versioned account-data record.
pub struct AccountRecord {
    /// The room the entry is scoped to; `None` for global account data.
    pub room: Option<String>,
    pub user: String,
    /// The global count at which the record was written.
    pub count: u64,
    /// The event type of the entry.
    pub kind: String,
    /// The JSON payload, as bytes.
    pub data: Vec<u8>,
}

impl AccountRecord {
    pub open spec fn slot(&self) -> Slot {
        (opt_chars(self.room), self.user@, self.kind@)
    }

    pub open spec fn in_scope(&self, room: Option<Seq<char>>, user: Seq<char>) -> bool {
        opt_chars(self.room) == room && self.user@ == user
    }
}

/// Per-user and per-(user, room) single-slot store of typed JSON payloads,
/// versioned by the global counter.
///
/// Records are kept in the order of their counts; at most one record lives
/// for each slot, so an update replaces the previous record of its slot.
pub struct AccountData {
    records: Vec<AccountRecord>,
}

impl AccountData {
    /// The stored records, in the order of their counts.
    pub closed spec fn records(&self) -> Seq<AccountRecord> {
        self.records@
    }

    /// Counts strictly increase along the records, and no two records share a slot.
    pub open spec fn wf(&self) -> bool {
        &&& forall|i: int, j: int|
            0 <= i < j < self.records().len() ==> self.records()[i].count < self.records()[j].count
        &&& forall|i: int, j: int|
            0 <= i < self.records().len() && 0 <= j < self.records().len() && i != j
                ==> self.records()[i].slot() != self.records()[j].slot()
    }

    /// No record was written after `count`.
    pub open spec fn bounded_by(&self, count: u64) -> bool {
        forall|i: int| 0 <= i < self.records().len() ==> self.records()[i].count <= count
    }

    pub open spec fn has_slot(&self, k: Slot) -> bool {
        exists|i: int| 0 <= i < self.records().len() && self.records()[i].slot() == k
    }

    /// The live entry of a slot: the count it was written at and its payload.
    pub open spec fn live(&self, k: Slot) -> Option<(u64, Seq<u8>)> {
        if self.has_slot(k) {
            let i = choose|i: int| 0 <= i < self.records().len() && self.records()[i].slot() == k;
            Some((self.records()[i].count, self.records()[i].data@))
        } else {
            None
        }
    }

    /// Exactly one stored record belongs to the slot.
    pub open spec fn reachable_once(&self, k: Slot) -> bool {
        &&& self.has_slot(k)
        &&& forall|i: int, j: int|
            0 <= i < self.records().len() && 0 <= j < self.records().len()
                && self.records()[i].slot() == k && self.records()[j].slot() == k ==> i == j
    }

    pub proof fn lemma_live_at(&self, i: int)
        requires
            self.wf(),
            0 <= i < self.records().len(),
        ensures
            self.live(self.records()[i].slot()) == Some(
                (self.records()[i].count, self.records()[i].data@),
            ),
    {
        let k = self.records()[i].slot();
        assert(self.has_slot(k));
        let j = choose|j: int| 0 <= j < self.records().len() && self.records()[j].slot() == k;
        assert(i == j);
    }

    /// Where the record at `j` stood before the record at `removed` was taken out.
    pub open spec fn source_index(j: int, removed: int) -> int {
        if j >= removed { j + 1 } else { j }
    }

    /// Single-slot semantics: in a well-formed store, whatever updates led to
    /// it, a slot that has an entry has exactly one stored record, and its
    /// live entry is that record's count and payload.
    pub proof fn lemma_single_slot(&self, k: Slot)
        requires
            self.wf(),
            self.has_slot(k),
        ensures
            self.reachable_once(k),
            exists|i: int| 0 <= i < self.records().len() && self.records()[i].slot() == k
                && self.live(k) == Some((self.records()[i].count, self.records()[i].data@)),
    {
        let i = choose|i: int| 0 <= i < self.records().len() && self.records()[i].slot() == k;
        self.lemma_live_at(i);
    }

    /// An update followed by a lookup of the same slot yields the payload of
    /// the update, through the slot's one record.
    pub proof fn lemma_update_then_get(&self, k: Slot, count: u64, data: Seq<u8>)
        requires
            self.wf(),
            self.live(k) == Some((count, data)),
        ensures
            self.live(k).is_some() && self.live(k).unwrap().1 == data,
            self.reachable_once(k),
    {
        assert(self.has_slot(k));
        self.lemma_single_slot(k);
    }

    /// An empty store.
    pub fn new() -> (r: AccountData)
        ensures
            r.wf(),
            r.records().len() == 0,
            forall|k: Slot| r.live(k).is_none(),
            forall|c: u64| r.bounded_by(c),
    {
        AccountData { records: Vec::new() }
    }

    fn find_slot(&self, room: &Option<String>, user: &String, kind: &String) -> (r: Option<usize>)
        requires
            self.wf(),
        ensures
            r.is_none() ==> !self.has_slot((opt_chars(*room), user@, kind@)),
            r.is_some() ==> r.unwrap() < self.records().len() && self.records()[r.unwrap() as int].slot()
                == (opt_chars(*room), user@, kind@),
    {
        let ghost k = (opt_chars(*room), user@, kind@);
        let mut i: usize = 0;
        while i < self.records.len()
            invariant
                i <= self.records@.len(),
                k == (opt_chars(*room), user@, kind@),
                forall|j: int| 0 <= j < i ==> self.records@[j].slot() != k,
            decreases self.records@.len() - i,
        {
            let rec = &self.records[i];
            let same_room = same_opt_string(&rec.room, room);
            let same_user = rec.user == *user;
            let same_kind = rec.kind == *kind;
            if same_room && same_user && same_kind {
                return Some(i);
            }
            assert(self.records@[i as int].slot() != k) by {
                if self.records@[i as int].slot() == k {
                    assert(self.records@[i as int].slot().0 == k.0);
                    assert(self.records@[i as int].slot().1 == k.1);
                    assert(self.records@[i as int].slot().2 == k.2);
                }
            }
            i = i + 1;
        }
        None
    }

    /// Places one payload in the account data of the user and removes the
    /// previous entry of its slot.
    ///
    /// The payload must be a JSON object with a `type` and a `content` field.
    /// A count is drawn from `globals` first, as the new record's version.
    pub fn update(
        &mut self,
        room: &Option<String>,
        user: &String,
        kind: &String,
        data: &Vec<u8>,
        globals: &mut Globals,
    ) -> (r: Result<(), Error>)
        requires
            old(self).wf(),
            old(self).bounded_by(old(globals).current()),
        ensures
            final(self).wf(),
            final(self).bounded_by(final(globals).current()),
            old(globals).current() == u64::MAX ==> r == Err::<(), Error>(Error::CounterExhausted)
                && final(globals).current() == old(globals).current(),
            old(globals).current() < u64::MAX ==> final(globals).current() == old(globals).current() + 1,
            old(globals).current() < u64::MAX && !has_type_and_content(json_object_keys(data@))
                ==> r == Err::<(), Error>(Error::InvalidParam),
            old(globals).current() < u64::MAX && has_type_and_content(json_object_keys(data@))
                ==> r == Ok::<(), Error>(()),
            r.is_err() ==> final(self).records() == old(self).records(),
            r.is_ok() ==> final(self).live((opt_chars(*room), user@, kind@)) == Some(
                (final(globals).current(), data@),
            ),
            r.is_ok() ==> final(self).reachable_once((opt_chars(*room), user@, kind@)),
            r.is_ok() ==> forall|k: Slot|
                k != (opt_chars(*room), user@, kind@) ==> #[trigger] final(self).live(k) == old(self).live(k),
    {
        let count = match globals.next_count() {
            Ok(c) => c,
            Err(e) => {
                return Err(e);
            },
        };
        if !is_valid_account_payload(data.as_slice()) {
            return Err(Error::InvalidParam);
        }
        let ghost key = (opt_chars(*room), user@, kind@);
        let ghost before = self.records@;
        let found = self.find_slot(room, user, kind);
        match found {
            Some(i) => {
                self.records.remove(i);
            },
            None => {},
        }
        let ghost mid = self.records@;
        let ghost removed: int = if found.is_some() { found.unwrap() as int } else { before.len() as int };
        assert(forall|j: int| 0 <= j < mid.len() ==> #[trigger] mid[j] == before[Self::source_index(j, removed)]);
        assert(forall|j: int| 0 <= j < mid.len() ==> mid[j].slot() != key) by {
            assert forall|j: int| 0 <= j < mid.len() implies mid[j].slot() != key by {
                assert(mid[j] == before[Self::source_index(j, removed)]);
            }
        }
        let stored = copy_bytes(data);
        let rec = AccountRecord {
            room: room.clone(),
            user: user.clone(),
            count,
            kind: kind.clone(),
            data: stored,
        };
        assert(opt_chars(rec.room) == opt_chars(*room)) by {
            match room {
                Some(s) => {},
                None => {},
            }
        }
        self.records.push(rec);
        let ghost after = self.records@;
        assert(after[mid.len() as int] == rec);
        assert(self.wf()) by {
            assert forall|x: int, y: int| 0 <= x < y < after.len() implies after[x].count < after[y].count by {
                if y < mid.len() {
                    let bx = Self::source_index(x, removed);
                    assert(mid[x] == before[bx]);
                    let by = Self::source_index(y, removed);
                    assert(mid[y] == before[by]);
                    assert(bx < by);
                } else {
                    let bx = Self::source_index(x, removed);
                    assert(mid[x] == before[bx]);
                    assert(before[bx].count <= old(globals).current());
                }
            }
            assert forall|x: int, y: int|
                0 <= x < after.len() && 0 <= y < after.len() && x != y implies after[x].slot() != after[y].slot() by {
                if x < mid.len() && y < mid.len() {
                    let bx = Self::source_index(x, removed);
                    assert(mid[x] == before[bx]);
                    let by = Self::source_index(y, removed);
                    assert(mid[y] == before[by]);
                    assert(bx != by);
                }
            }
        }
        proof {
            self.lemma_live_at(mid.len() as int);
            assert(self.reachable_once(key)) by {
                assert(after[mid.len() as int].slot() == key);
            }
            assert forall|k: Slot| k != key implies #[trigger] self.live(k) == old(self).live(k) by {
                if self.has_slot(k) {
                    let x = choose|x: int| 0 <= x < after.len() && after[x].slot() == k;
                    self.lemma_live_at(x);
                    let bx = Self::source_index(x, removed);
                    assert(mid[x] == before[bx]);
                    old(self).lemma_live_at(bx);
                } else if old(self).has_slot(k) {
                    let bx = choose|x: int| 0 <= x < before.len() && before[x].slot() == k;
                    if found.is_some() {
                        let i = found.unwrap() as int;
                        if bx < i {
                            assert(after[bx] == before[bx]);
                        } else {
                            assert(bx != i);
                            assert(after[bx - 1] == before[bx]);
                        }
                    } else {
                        assert(after[bx] == before[bx]);
                    }
                }
            }
        }
        Ok(())
    }

    /// The payload of a slot, looked up through the slot's single live record.
    pub fn get(&self, room: &Option<String>, user: &String, kind: &String) -> (r: Option<Vec<u8>>)
        requires
            self.wf(),
        ensures
            r.is_some() == self.live((opt_chars(*room), user@, kind@)).is_some(),
            r.is_some() ==> r.unwrap()@ == self.live((opt_chars(*room), user@, kind@)).unwrap().1,
    {
        match self.find_slot(room, user, kind) {
            Some(i) => {
                proof {
                    self.lemma_live_at(i as int);
                }
                Some(copy_bytes(&self.records[i].data))
            },
            None => None,
        }
    }

    /// Whether the record at `j` belongs to the scope and was written after `since`.
    pub open spec fn changed_since(&self, j: int, room: Option<Seq<char>>, user: Seq<char>, since: u64) -> bool {
        0 <= j < self.records().len() && self.records()[j].in_scope(room, user) && self.records()[j].count > since
    }

    /// Whether (event type, payload) is the live entry of a record of the scope written after `since`.
    pub open spec fn is_change(&self, room: Option<Seq<char>>, user: Seq<char>, since: u64, kind: Seq<char>, data: Seq<u8>) -> bool {
        exists|j: int| #[trigger] self.changed_since(j, room, user, since)
            && kind == self.records()[j].kind@ && data == self.records()[j].data@
    }

    /// All entries of the scope whose live record was written after `since`,
    /// as (event type, payload), each type once.
    ///
    /// The scan starts just after `since`: records are ordered by count.
    pub fn changes_since(&self, room: &Option<String>, user: &String, since: u64) -> (r: Vec<(String, Vec<u8>)>)
        requires
            self.wf(),
        ensures
            forall|i: int| 0 <= i < r@.len() ==> self.is_change(opt_chars(*room), user@, since, #[trigger] r@[i].0@, r@[i].1@),
            forall|j: int| #[trigger] self.changed_since(j, opt_chars(*room), user@, since)
                ==> lists(r@, self.records()[j].kind@, self.records()[j].data@),
            forall|i: int, i2: int| 0 <= i < i2 < r@.len() ==> r@[i].0@ != r@[i2].0@,
    {
        let mut start: usize = self.records.len();
        while start > 0 && self.records[start - 1].count > since
            invariant
                start <= self.records@.len(),
                forall|j: int| start <= j < self.records@.len() ==> self.records@[j].count > since,
            decreases start,
        {
            start = start - 1;
        }
        assert(forall|j: int| 0 <= j < start ==> self.records@[j].count <= since) by {
            assert forall|j: int| 0 <= j < start implies self.records@[j].count <= since by {
                if j < start - 1 {
                    assert(self.records@[j].count < self.records@[start - 1].count);
                }
            }
        }
        let mut out: Vec<(String, Vec<u8>)> = Vec::new();
        let ghost mut picked: Seq<int> = Seq::empty();
        let mut i: usize = start;
        while i < self.records.len()
            invariant
                start <= i <= self.records@.len(),
                self.wf(),
                forall|j: int| 0 <= j < start ==> self.records@[j].count <= since,
                forall|j: int| start <= j < self.records@.len() ==> self.records@[j].count > since,
                picked.len() == out@.len(),
                forall|x: int| 0 <= x < picked.len() ==> start <= #[trigger] picked[x] < i,
                forall|x: int| 0 <= x < picked.len() ==> self.changed_since(#[trigger] picked[x], opt_chars(*room), user@, since)
                    && out@[x].0@ == self.records()[picked[x]].kind@ && out@[x].1@ == self.records()[picked[x]].data@,
                forall|x: int, y: int| 0 <= x < y < picked.len() ==> picked[x] < picked[y],
                forall|j: int| start <= j < i && #[trigger] self.changed_since(j, opt_chars(*room), user@, since)
                    ==> exists|x: int| 0 <= x < picked.len() && picked[x] == j,
            decreases self.records@.len() - i,
        {
            let rec = &self.records[i];
            let ghost old_picked = picked;
            if same_opt_string(&rec.room, room) && rec.user == *user {
                out.push((rec.kind.clone(), copy_bytes(&rec.data)));
                proof {
                    picked = picked.push(i as int);
                    assert(self.changed_since(i as int, opt_chars(*room), user@, since));
                    assert(picked[picked.len() - 1] == i as int);
                }
            } else {
                assert(!self.changed_since(i as int, opt_chars(*room), user@, since));
            }
            proof {
                assert forall|j: int| start <= j < i + 1 && #[trigger] self.changed_since(j, opt_chars(*room), user@, since)
                    implies exists|x: int| 0 <= x < picked.len() && picked[x] == j by {
                    if j == i {
                        assert(picked[picked.len() - 1] == j);
                    } else {
                        let x = choose|x: int| 0 <= x < old_picked.len() && old_picked[x] == j;
                        assert(picked[x] == j);
                    }
                }
            }
            i = i + 1;
        }
        proof {
            assert forall|j: int| #[trigger] self.changed_since(j, opt_chars(*room), user@, since)
                implies lists(out@, self.records()[j].kind@, self.records()[j].data@) by {
                let x = choose|x: int| 0 <= x < picked.len() && picked[x] == j;
                assert(out@[x].0@ == self.records()[j].kind@ && out@[x].1@ == self.records()[j].data@);
            }
            assert forall|x: int| 0 <= x < out@.len() implies self.is_change(opt_chars(*room), user@, since, #[trigger] out@[x].0@, out@[x].1@) by {
                let j = picked[x];
                assert(self.changed_since(j, opt_chars(*room), user@, since));
                assert(out@[x].0@ == self.records()[j].kind@ && out@[x].1@ == self.records()[j].data@);
            }
            assert forall|x: int, y: int| 0 <= x < y < out@.len() implies out@[x].0@ != out@[y].0@ by {
                let a = picked[x];
                let b = picked[y];
                assert(self.changed_since(a, opt_chars(*room), user@, since));
                assert(self.changed_since(b, opt_chars(*room), user@, since));
                assert(a != b);
                assert(self.records()[a].slot() != self.records()[b].slot());
            }
        }
        out
    }
}

/// Some entry of `r` is (kind, data).
pub open spec fn lists(r: Seq<(String, Vec<u8>)>, kind: Seq<char>, data: Seq<u8>) -> bool {
    exists|i: int| 0 <= i < r.len() && r[i].0@ == kind && r[i].1@ == data
}

/// A copy of a byte vector.
pub fn copy_bytes(v: &Vec<u8>) -> (r: Vec<u8>)
    ensures
        r@ == v@,
{
    let mut out: Vec<u8> = Vec::new();
    let mut b: usize = 0;
    while b < v.len()
        invariant
            b <= v@.len(),
            out@ == v@.subrange(0, b as int),
        decreases v@.len() - b,
    {
        out.push(v[b]);
        b = b + 1;
    }
    assert(out@ =~= v@);
    out
}

} // verus!
