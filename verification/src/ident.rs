//! Record identifiers: random UUIDs in their canonical text form.

use vstd::prelude::*;

verus! {

/// Whether `c` is a decimal digit or a letter from `a` to `f`.
pub open spec fn is_lower_hex(c: char) -> bool {
    ('0' <= c && c <= '9') || ('a' <= c && c <= 'f')
}

/// Whether `c` may stand at index `at` of a UUID in canonical text form: a
/// hyphen at indices 8, 13, 18 and 23, a lower-case hexadecimal digit elsewhere.
pub open spec fn fits_uuid_position(at: int, c: char) -> bool {
    if at == 8 || at == 13 || at == 18 || at == 23 {
        c == '-'
    } else {
        is_lower_hex(c)
    }
}

/// The canonical text form of a random (version 4) UUID: 36 characters,
/// hyphens at indices 8, 13, 18 and 23, lower-case hexadecimal digits
/// elsewhere, the version digit `4` and a variant digit from `8` to `b`.
pub open spec fn is_random_uuid_text(id: Seq<char>) -> bool {
    &&& id.len() == 36
    &&& forall|i: int| 0 <= i < 36 ==> fits_uuid_position(i, #[trigger] id[i])
    &&& id[14] == '4'
    &&& (id[19] == '8' || id[19] == '9' || id[19] == 'a' || id[19] == 'b')
}

/// Calls `uuid::Uuid::new_v4` and formats the identifier with its `Display`.
///
/// Trusted: whatever the random bits, the text has the canonical shape of a
/// version 4 UUID. Nothing is claimed about which identifier comes back.
#[verifier::external_body]
pub(crate) fn fresh_uuid() -> (id: String)
    ensures
        is_random_uuid_text(id@),
{
    uuid::Uuid::new_v4().to_string()
}

} // verus!
