use vstd::prelude::*;

use crate::text::{opt_chars, same_opt_string};

verus! {

/// The key of a sync computation: (user, device).
pub type DeviceKey = (Seq<char>, Seq<char>);

/// How a sync call is served.
#[derive(Clone, Copy, Debug, PartialEq, Eq, Structural)]
pub enum SyncDecision {
    /// A computation for the same `since` is in flight: wait for its result.
    Attach { ticket: u64 },
    /// A new computation was registered and must be run.
    Start { ticket: u64 },
}

impl SyncDecision {
    pub open spec fn ticket_of(&self) -> u64 {
        match self {
            SyncDecision::Attach { ticket } => *ticket,
            SyncDecision::Start { ticket } => *ticket,
        }
    }

    /// The computation the caller is to wait for.
    pub fn ticket(&self) -> (t: u64)
        ensures
            t == self.ticket_of(),
    {
        match self {
            SyncDecision::Attach { ticket } => *ticket,
            SyncDecision::Start { ticket } => *ticket,
        }
    }
}

/// One registered computation: its device, its `since` token and its ticket.
pub struct Flight {
    pub user: String,
    pub device: String,
    pub since: Option<String>,
    pub ticket: u64,
}

impl Flight {
    pub open spec fn key(&self) -> DeviceKey {
        (self.user@, self.device@)
    }
}

/// The registry of in-flight or cached sync computations, one per device.
pub struct SyncRegistry {
    flights: Vec<Flight>,
    next_ticket: u64,
}

impl SyncRegistry {
    /// The computation registered for each device: its `since` and ticket.
    pub closed spec fn entries(&self) -> Map<DeviceKey, (Option<Seq<char>>, u64)> {
        Map::new(
            |k: DeviceKey| exists|i: int| 0 <= i < self.flights@.len() && self.flights@[i].key() == k,
            |k: DeviceKey| {
                let f = self.flights@[choose|i: int| 0 <= i < self.flights@.len() && self.flights@[i].key() == k];
                (opt_chars(f.since), f.ticket)
            },
        )
    }

    /// The ticket the next new computation gets.
    pub closed spec fn next(&self) -> u64 {
        self.next_ticket
    }

    pub closed spec fn wf(&self) -> bool {
        forall|i: int, j: int| 0 <= i < self.flights@.len() && 0 <= j < self.flights@.len() && i != j
            ==> self.flights@[i].key() != self.flights@[j].key()
    }

    proof fn lemma_entry_at(&self, i: int)
        requires
            self.wf(),
            0 <= i < self.flights@.len(),
        ensures
            self.entries().contains_key(self.flights@[i].key()),
            self.entries()[self.flights@[i].key()] == (opt_chars(self.flights@[i].since), self.flights@[i].ticket),
    {
        let k = self.flights@[i].key();
        let j = choose|j: int| 0 <= j < self.flights@.len() && self.flights@[j].key() == k;
        assert(i == j);
    }

    pub fn new() -> (r: SyncRegistry)
        ensures
            r.wf(),
            r.entries() == Map::<DeviceKey, (Option<Seq<char>>, u64)>::empty(),
    {
        let r = SyncRegistry { flights: Vec::new(), next_ticket: 0 };
        assert(r.entries() =~= Map::<DeviceKey, (Option<Seq<char>>, u64)>::empty());
        r
    }

    fn find(&self, user: &String, device: &String) -> (r: Option<usize>)
        ensures
            r.is_none() ==> forall|i: int| 0 <= i < self.flights@.len() ==> self.flights@[i].key() != (user@, device@),
            r.is_some() ==> r.unwrap() < self.flights@.len() && self.flights@[r.unwrap() as int].key() == (user@, device@),
    {
        let mut i: usize = 0;
        while i < self.flights.len()
            invariant
                i <= self.flights@.len(),
                forall|j: int| 0 <= j < i ==> self.flights@[j].key() != (user@, device@),
            decreases self.flights@.len() - i,
        {
            let same_user = self.flights[i].user == *user;
            let same_device = self.flights[i].device == *device;
            if same_user && same_device {
                return Some(i);
            }
            assert(self.flights@[i as int].key() != (user@, device@)) by {
                if self.flights@[i as int].key() == (user@, device@) {
                    assert(self.flights@[i as int].key().0 == user@);
                }
            }
            i = i + 1;
        }
        None
    }

    /// Registers a sync call of a device with token `since`: a call with the
    /// `since` of the device's registered computation attaches to it; any
    /// other call starts a new computation, which displaces the old one.
    pub fn request(&mut self, user: &String, device: &String, since: &Option<String>) -> (d: SyncDecision)
        requires
            old(self).wf(),
            old(self).next() < u64::MAX,
        ensures
            final(self).wf(),
            d == decide(old(self).entries(), (user@, device@), opt_chars(*since), old(self).next()),
            final(self).entries() == after_request(old(self).entries(), (user@, device@), opt_chars(*since), old(self).next()),
            final(self).next() == (if d is Attach { old(self).next() } else { (old(self).next() + 1) as u64 }),
    {
        let ghost k = (user@, device@);
        let ticket = self.next_ticket;
        let flight = Flight { user: user.clone(), device: device.clone(), since: since.clone(), ticket };
        assert(opt_chars(flight.since) == opt_chars(*since)) by {
            match since {
                Some(s) => {},
                None => {},
            }
        }
        assert(flight.key() == k);
        match self.find(user, device) {
            Some(i) => {
                proof {
                    self.lemma_entry_at(i as int);
                }
                if same_opt_string(&self.flights[i].since, since) {
                    return SyncDecision::Attach { ticket: self.flights[i].ticket };
                }
                let ghost before = self.flights@;
                let ghost old_reg = *self;
                self.flights.set(i, flight);
                self.next_ticket = ticket + 1;
                proof {
                    let after = self.flights@;
                    assert forall|x: int, y: int| 0 <= x < after.len() && 0 <= y < after.len() && x != y
                        implies after[x].key() != after[y].key() by {
                        if x != i { assert(after[x] == before[x]); }
                        if y != i { assert(after[y] == before[y]); }
                    }
                    let target = old_reg.entries().insert(k, (opt_chars(*since), ticket));
                    assert forall|q: DeviceKey| #[trigger] self.entries().contains_key(q) == target.contains_key(q) by {
                        if exists|x: int| 0 <= x < before.len() && before[x].key() == q {
                            let x = choose|x: int| 0 <= x < before.len() && before[x].key() == q;
                            if x != i { assert(after[x] == before[x]); } else { assert(after[x].key() == q); }
                        }
                        if exists|x: int| 0 <= x < after.len() && after[x].key() == q {
                            let x = choose|x: int| 0 <= x < after.len() && after[x].key() == q;
                            if x != i { assert(after[x] == before[x]); }
                        }
                        if q == k { assert(after[i as int].key() == q); }
                    }
                    assert forall|q: DeviceKey| self.entries().contains_key(q) implies self.entries()[q] == target[q] by {
                        let x = choose|x: int| 0 <= x < after.len() && after[x].key() == q;
                        self.lemma_entry_at(x);
                        if x != i {
                            assert(after[x] == before[x]);
                            old_reg.lemma_entry_at(x);
                        }
                    }
                    assert(self.entries() =~= target);
                }
                SyncDecision::Start { ticket }
            },
            None => {
                let ghost before = self.flights@;
                let ghost old_reg = *self;
                self.flights.push(flight);
                self.next_ticket = ticket + 1;
                proof {
                    let after = self.flights@;
                    let n = before.len() as int;
                    assert(after[n] == flight);
                    assert forall|x: int, y: int| 0 <= x < after.len() && 0 <= y < after.len() && x != y
                        implies after[x].key() != after[y].key() by {
                        if x < n { assert(after[x] == before[x]); }
                        if y < n { assert(after[y] == before[y]); }
                    }
                    let target = old_reg.entries().insert(k, (opt_chars(*since), ticket));
                    assert forall|q: DeviceKey| #[trigger] self.entries().contains_key(q) == target.contains_key(q) by {
                        if exists|x: int| 0 <= x < before.len() && before[x].key() == q {
                            let x = choose|x: int| 0 <= x < before.len() && before[x].key() == q;
                            assert(after[x] == before[x]);
                        }
                        if exists|x: int| 0 <= x < after.len() && after[x].key() == q {
                            let x = choose|x: int| 0 <= x < after.len() && after[x].key() == q;
                            if x < n { assert(after[x] == before[x]); }
                        }
                    }
                    assert forall|q: DeviceKey| self.entries().contains_key(q) implies self.entries()[q] == target[q] by {
                        let x = choose|x: int| 0 <= x < after.len() && after[x].key() == q;
                        self.lemma_entry_at(x);
                        if x < n {
                            assert(after[x] == before[x]);
                            old_reg.lemma_entry_at(x);
                        }
                    }
                    assert(self.entries() =~= target);
                }
                SyncDecision::Start { ticket }
            },
        }
    }

    /// Ends a computation: a result that may not be cached gives up the
    /// device's slot, unless a call with another `since` displaced it already.
    pub fn finish(&mut self, user: &String, device: &String, since: &Option<String>, cacheable: bool)
        requires
            old(self).wf(),
        ensures
            final(self).wf(),
            final(self).next() == old(self).next(),
            ({
                let k = (user@, device@);
                let e = old(self).entries();
                if !cacheable && e.contains_key(k) && e[k].0 == opt_chars(*since) {
                    final(self).entries() == e.remove(k)
                } else {
                    final(self).entries() == e
                }
            }),
    {
        if cacheable {
            return;
        }
        let ghost k = (user@, device@);
        match self.find(user, device) {
            Some(i) => {
                proof {
                    self.lemma_entry_at(i as int);
                }
                if !same_opt_string(&self.flights[i].since, since) {
                    return;
                }
                let ghost before = self.flights@;
                let ghost old_reg = *self;
                self.flights.remove(i);
                proof {
                    let after = self.flights@;
                    assert(forall|x: int| 0 <= x < after.len() ==> #[trigger] after[x] == before[if x >= i { x + 1 } else { x }]);
                    assert forall|x: int, y: int| 0 <= x < after.len() && 0 <= y < after.len() && x != y
                        implies after[x].key() != after[y].key() by {
                        assert(after[x] == before[if x >= i { x + 1 } else { x }]);
                        assert(after[y] == before[if y >= i { y + 1 } else { y }]);
                    }
                    let target = old_reg.entries().remove(k);
                    assert forall|q: DeviceKey| #[trigger] self.entries().contains_key(q) == target.contains_key(q) by {
                        if exists|x: int| 0 <= x < before.len() && before[x].key() == q {
                            let x = choose|x: int| 0 <= x < before.len() && before[x].key() == q;
                            if x < i { assert(after[x] == before[x]); }
                            if x > i { assert(after[x - 1] == before[x]); }
                        }
                        if exists|x: int| 0 <= x < after.len() && after[x].key() == q {
                            let x = choose|x: int| 0 <= x < after.len() && after[x].key() == q;
                            let b = if x >= i { x + 1 } else { x };
                            assert(after[x] == before[b]);
                            assert(b != i);
                        }
                    }
                    assert forall|q: DeviceKey| self.entries().contains_key(q) implies self.entries()[q] == target[q] by {
                        let x = choose|x: int| 0 <= x < after.len() && after[x].key() == q;
                        self.lemma_entry_at(x);
                        let b = if x >= i { x + 1 } else { x };
                        assert(after[x] == before[b]);
                        old_reg.lemma_entry_at(b);
                    }
                    assert(self.entries() =~= target);
                }
            },
            None => {},
        }
    }
}

/// How a call of device `k` with token `since` is served, given the
/// registered computations `e` and the next free ticket.
pub open spec fn decide(e: Map<DeviceKey, (Option<Seq<char>>, u64)>, k: DeviceKey, since: Option<Seq<char>>, next: u64) -> SyncDecision {
    if e.contains_key(k) && e[k].0 == since {
        SyncDecision::Attach { ticket: e[k].1 }
    } else {
        SyncDecision::Start { ticket: next }
    }
}

/// The registered computations after such a call.
pub open spec fn after_request(
    e: Map<DeviceKey, (Option<Seq<char>>, u64)>,
    k: DeviceKey,
    since: Option<Seq<char>>,
    next: u64,
) -> Map<DeviceKey, (Option<Seq<char>>, u64)> {
    if e.contains_key(k) && e[k].0 == since {
        e
    } else {
        e.insert(k, (since, next))
    }
}

/// A sync call that repeats the `since` of the call before it, with no call
/// finishing in between, attaches to the computation of the first call and
/// leaves the registry as it was: both calls receive one and the same response.
pub proof fn lemma_repeat_attaches(e0: Map<DeviceKey, (Option<Seq<char>>, u64)>, k: DeviceKey, since: Option<Seq<char>>, n0: u64, n1: u64)
    ensures
        decide(after_request(e0, k, since, n0), k, since, n1) == (SyncDecision::Attach {
            ticket: decide(e0, k, since, n0).ticket_of(),
        }),
        after_request(after_request(e0, k, since, n0), k, since, n1) == after_request(e0, k, since, n0),
{
}

} // verus!
