//! Random identifiers.
use vstd::prelude::*;

verus! {

pub open spec fn is_lower_hex(c: char) -> bool {
    ('0' <= c && c <= '9') || ('a' <= c && c <= 'f')
}

/// The shape of a random (version 4) UUID in its hyphenated form.
pub open spec fn is_uuid(s: Seq<char>) -> bool {
    &&& s.len() == 36
    &&& forall|i: int|
        0 <= i < 36 ==> if i == 8 || i == 13 || i == 18 || i == 23 {
            #[trigger] s[i] == '-'
        } else {
            is_lower_hex(s[i])
        }
    &&& s[14] == '4'
    &&& s[19] == '8' || s[19] == '9' || s[19] == 'a' || s[19] == 'b'
}

/// A fresh identifier: `uuid::Uuid::new_v4`, shown by its `to_string`. Which
/// one comes is left to chance; that it has the shape of a random UUID, in
/// lower case with hyphens, holds of every one.
#[verifier::external_body]
fn fresh_uuid() -> (r: String)
    ensures
        is_uuid(r@),
{
    uuid::Uuid::new_v4().to_string()
}

/// Whether the text is an identifier that chance may give.
pub closed spec fn is_drawn(text: Seq<char>) -> bool {
    exists|r: String| r@ == text && #[trigger] call_ensures(fresh_uuid, (), r)
}

/// A fresh identifier.
pub(crate) fn draw_uuid() -> (r: String)
    ensures
        is_uuid(r@),
        is_drawn(r@),
{
    fresh_uuid()
}

} // verus!
