use vstd::prelude::*;

verus! {

/// The failures that the library reports to its callers.
#[derive(Clone, Copy, Debug, PartialEq, Eq, Structural)]
pub enum Error {
    /// A request payload is malformed (a required JSON field is missing).
    InvalidParam,
    /// An event, room, rule or record is unknown.
    NotFound,
    /// The sender lacks the permission for the action.
    Forbidden,
    /// A room alias that is asked for is already taken.
    RoomInUse,
    /// A room version other than the supported ones was asked for.
    UnsupportedRoomVersion,
    /// Stored data does not have the shape it must have.
    BadDatabase,
    /// The global sequence counter cannot advance any further.
    CounterExhausted,
}

} // verus!
