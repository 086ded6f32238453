//! Fresh ids for events and incidents.

use vstd::prelude::*;

verus! {

/// A digit of an id.
pub open spec fn hex_digit(c: char) -> bool {
    '0' <= c <= '9' || 'a' <= c <= 'f'
}

/// Where an id has a hyphen.
pub open spec fn hyphen_at(i: int) -> bool {
    i == 8 || i == 13 || i == 18 || i == 23
}

/// The form of a random UUID: groups of lower-case digits, with the version
/// and the variant in their places.
pub open spec fn is_random_id(s: Seq<char>) -> bool {
    &&& s.len() == 36
    &&& forall|i: int|
        0 <= i < 36 ==> (if hyphen_at(i) {
            #[trigger] s[i] == '-'
        } else {
            hex_digit(s[i])
        })
    &&& s[14] == '4'
    &&& s[19] == '8' || s[19] == '9' || s[19] == 'a' || s[19] == 'b'
}

/// Calls `uuid::Uuid::new_v4` and its `to_string`: a random UUID in its
/// hyphenated lower-case form. Which one is left to chance; the call has no
/// result where the system has no source of random numbers.
#[verifier::external_body]
pub(crate) fn fresh_id() -> (r: String)
    ensures
        is_random_id(r@),
{
    uuid::Uuid::new_v4().to_string()
}

} // verus!
