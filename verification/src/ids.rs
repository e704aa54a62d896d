//! Fresh identifiers.
use vstd::prelude::*;

verus! {

/// The digits of hexadecimal numbers, in lower case.
pub open spec fn hex_digit(c: char) -> bool {
    '0' <= c <= '9' || 'a' <= c <= 'f'
}

/// The form of a random identifier: five groups of hexadecimal digits with
/// hyphens between them, the third of which starts with the version and the
/// fourth with the variant.
pub open spec fn random_id(id: Seq<char>) -> bool {
    &&& id.len() == 36
    &&& forall|i: int|
        0 <= i < 36 ==> if i == 8 || i == 13 || i == 18 || i == 23 {
            #[trigger] id[i] == '-'
        } else {
            hex_digit(id[i])
        }
    &&& id[14] == '4'
    &&& id[19] == '8' || id[19] == '9' || id[19] == 'a' || id[19] == 'b'
}

/// `uuid::Uuid::new_v4` makes a random identifier, which `to_string` writes in
/// the hyphenated form with lower case digits. Nothing is known of it but that
/// form: it differs from call to call.
#[verifier::external_body]
pub(crate) fn new_chunk_id() -> (id: String)
    ensures
        random_id(id@),
{
    uuid::Uuid::new_v4().to_string()
}

} // verus!
