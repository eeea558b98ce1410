//! URIs parsed from location texts.

use lsp_types::Uri;
use vstd::prelude::*;
use vstd::utf8::*;

verus! {

/// `lsp_types::Uri`, carried through as an opaque value.
#[verifier::external_type_specification]
#[verifier::external_body]
pub struct ExUri(Uri);

/// Whether `lsp_types::Uri::from_str` (an RFC 3986 URI-reference parser)
/// accepts a text.
pub uninterp spec fn uri_parses(text: Seq<char>) -> bool;

/// The text of a URI, as `Uri::as_str` gives it (and as `lsp_types` writes a
/// `Uri` out).
pub uninterp spec fn uri_text(uri: Uri) -> Seq<char>;

/// Calls `lsp_types::Uri::from_str` (which parses with `fluent_uri`).
/// Claimed: whether it succeeds depends on the text alone, and is named by
/// [`uri_parses`]; a parsed URI holds exactly the text it was parsed from
/// (`fluent_uri` copies the input bytes, and `as_str` gives them back), named
/// by [`uri_text`].  The parser panics on texts longer than `i32::MAX` bytes,
/// which `requires` leaves out.
#[verifier::external_body]
pub(crate) fn parse_uri(text: &str) -> (r: Option<Uri>)
    requires
        encode_utf8(text@).len() <= 0x7fff_ffff,
    ensures
        r is Some <==> uri_parses(text@),
        r matches Some(u) ==> uri_text(u) == text@,
{
    <Uri as std::str::FromStr>::from_str(text).ok()
}

} // verus!
