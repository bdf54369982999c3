//! Proposal identifiers.

use vstd::prelude::*;

verus! {

/// Whether `c` is one of `0` to `9` or `a` to `f`.
pub open spec fn is_lower_hex(c: char) -> bool {
    ('0' <= c && c <= '9') || ('a' <= c && c <= 'f')
}

/// Whether `text` is a random UUID in its usual form: thirty-two lower-case
/// hexadecimal digits in groups of eight, four, four, four and twelve,
/// with a hyphen between the groups, the third group starting with the
/// version `4` and the fourth with one of `8`, `9`, `a` and `b`.
pub open spec fn is_uuid_text(text: Seq<char>) -> bool {
    &&& text.len() == 36
    &&& forall|i: int|
        0 <= i < 36 ==> if i == 8 || i == 13 || i == 18 || i == 23 {
            text[i] == '-'
        } else {
            is_lower_hex(#[trigger] text[i])
        }
    &&& text[14] == '4'
    &&& (text[19] == '8' || text[19] == '9' || text[19] == 'a' || text[19] == 'b')
}

/// Mints an identifier for a new proposal.
///
/// The identifier is the text of `uuid::Uuid::new_v4()`, a version 4 UUID
/// drawn from the random source of the operating system. What is
/// believed of it is its form, as the `Display` of a UUID writes it. That
/// two identifiers differ is overwhelmingly likely and cannot be stated;
/// nor can it be stated that the random source answers, without which the
/// call panics.
#[verifier::external_body]
pub(crate) fn fresh_proposal_id() -> (id: String)
    ensures
        is_uuid_text(id@),
{
    uuid::Uuid::new_v4().to_string()
}

} // verus!
