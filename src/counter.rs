use vstd::prelude::*;

use crate::error::Error;

verus! {

/// The sequence authority: a strictly increasing counter shared by every room
/// and every store of one server.
pub struct Globals {
    count: u64,
}

impl Globals {
    /// The last count that was handed out (0 before the first).
    pub closed spec fn current(&self) -> u64 {
        self.count
    }

    /// A counter that has handed out nothing yet.
    pub fn new() -> (r: Globals)
        ensures
            r.current() == 0,
    {
        Globals { count: 0 }
    }

    /// A counter that resumes after `count`.
    pub fn starting_at(count: u64) -> (r: Globals)
        ensures
            r.current() == count,
    {
        Globals { count }
    }

    /// Reads the counter without advancing it.
    pub fn current_count(&self) -> (r: u64)
        ensures
            r == self.current(),
    {
        self.count
    }

    /// Hands out the next count; a count is never handed out twice.
    pub fn next_count(&mut self) -> (r: Result<u64, Error>)
        ensures
            old(self).current() < u64::MAX ==> r == Ok::<u64, Error>((old(self).current() + 1) as u64),
            old(self).current() == u64::MAX ==> r == Err::<u64, Error>(Error::CounterExhausted),
            r.is_ok() ==> final(self).current() == r.unwrap(),
            r.is_err() ==> final(self).current() == old(self).current(),
    {
        if self.count == u64::MAX {
            return Err(Error::CounterExhausted);
        }
        self.count = self.count + 1;
        Ok(self.count)
    }
}

} // verus!
