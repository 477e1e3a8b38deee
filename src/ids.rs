use vstd::prelude::*;

verus! {

/// Whether a string is a well-formed user identifier, as ruma parses it.
pub uninterp spec fn user_id_valid(s: Seq<char>) -> bool;

/// Whether a string is a well-formed room alias, as ruma parses it.
pub uninterp spec fn room_alias_valid(s: Seq<char>) -> bool;

/// Relies on ruma's user-id parser (`<&ruma::UserId>::try_from`): whether `s`
/// parses; the parser refuses an id whose first byte is not `@`.
#[verifier::external_body]
pub(crate) fn parse_user_id(s: &str) -> (r: bool)
    ensures
        r == user_id_valid(s@),
        r ==> s@.len() > 0 && s@[0] == '@',
{
    <&ruma::UserId>::try_from(s).is_ok()
}

/// Relies on ruma's room-alias parser (`<&ruma::RoomAliasId>::try_from`):
/// whether `s` parses; the parser refuses an alias whose first byte is not `#`.
#[verifier::external_body]
pub(crate) fn parse_room_alias(s: &str) -> (r: bool)
    ensures
        r == room_alias_valid(s@),
        r ==> s@.len() > 0 && s@[0] == '#',
{
    <&ruma::RoomAliasId>::try_from(s).is_ok()
}

/// Whether `s` is a well-formed user identifier.
pub fn is_valid_user_id(s: &String) -> (r: bool)
    ensures
        r == user_id_valid(s@),
{
    parse_user_id(s.as_str())
}

} // verus!
