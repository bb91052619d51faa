//! Canonical composition (NFC) of text, delegated to `unicode-normalization`.

use vstd::prelude::*;
use unicode_normalization::UnicodeNormalization;

verus! {

/// The NFC form of a character sequence, as `unicode-normalization` computes it.
pub uninterp spec fn nfc(text: Seq<char>) -> Seq<char>;

/// Calls `UnicodeNormalization::nfc` on `text` and collects the characters.
///
/// Trusted: the result is the NFC form of the argument, which depends on the
/// argument alone (the crate's composition tables are fixed at build time).
#[verifier::external_body]
pub(crate) fn normalize(text: &str) -> (composed: String)
    ensures
        composed@ == nfc(text@),
{
    text.nfc().collect::<String>()
}

} // verus!
