//! Random identifiers.

use vstd::prelude::*;

verus! {

/// A lower-case hexadecimal digit.
pub open spec fn is_hex(c: char) -> bool {
    '0' <= c <= '9' || 'a' <= c <= 'f'
}

/// Thirty-two hexadecimal digits: a random UUID without hyphens.
pub open spec fn is_plain_id(s: Seq<char>) -> bool {
    &&& s.len() == 32
    &&& forall|i: int| 0 <= i < 32 ==> is_hex(#[trigger] s[i])
    &&& s[12] == '4'
    &&& s[16] == '8' || s[16] == '9' || s[16] == 'a' || s[16] == 'b'
}

/// Thirty-two hexadecimal digits in five groups: a random UUID with its hyphens.
pub open spec fn is_hyphenated_id(s: Seq<char>) -> bool {
    &&& s.len() == 36
    &&& forall|i: int|
        0 <= i < 36 ==> if i == 8 || i == 13 || i == 18 || i == 23 {
            #[trigger] s[i] == '-'
        } else {
            is_hex(s[i])
        }
    &&& s[14] == '4'
    &&& s[19] == '8' || s[19] == '9' || s[19] == 'a' || s[19] == 'b'
}

/// `uuid::Uuid::new_v4` and `Uuid::simple`: a random UUID of version 4, written with
/// thirty-two lower-case hexadecimal digits. The digits for the version and the
/// variant are fixed; the others are left to chance.
#[verifier::external_body]
pub(crate) fn random_plain_id() -> (id: String)
    ensures
        is_plain_id(id@),
{
    uuid::Uuid::new_v4().simple().to_string()
}

/// `uuid::Uuid::new_v4` and its `to_string`: a random UUID of version 4, written with
/// lower-case hexadecimal digits and hyphens. The digits for the version and the
/// variant are fixed; the others are left to chance.
#[verifier::external_body]
pub(crate) fn random_hyphenated_id() -> (id: String)
    ensures
        is_hyphenated_id(id@),
{
    uuid::Uuid::new_v4().to_string()
}

} // verus!
