//! Media-type inference for download responses and directory listings.

use vstd::prelude::*;

verus! {

/// The media type that `mime_guess` infers from a file name. The guess is
/// drawn from a fixed table keyed by the name's extension, so it is a
/// function of the name alone; what it maps each name to is left unstated.
pub uninterp spec fn mime_of(name: Seq<char>) -> Seq<char>;

/// Relies on `mime_guess::from_path` and `first_or_octet_stream`: the guess
/// is looked up in a static table by the file name's extension
/// (case-insensitively), so the result depends on the name alone; a missing
/// or unrecognized extension falls back to `application/octet-stream`.
#[verifier::external_body]
pub(crate) fn guess_mime(name: &str) -> (r: String)
    ensures
        r@ == mime_of(name@),
{
    mime_guess::from_path(name).first_or_octet_stream().to_string()
}

} // verus!
