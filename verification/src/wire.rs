//! Boundary to the percent-coding collaborator.
//!
//! The codec itself never touches raw percent-escapes: turning wire bytes
//! into decoded `(key, value)` text pairs, and decoded text back into
//! percent-encoded wire text, is delegated to the `form_urlencoded` crate.
//! The two results are named by uninterpreted spec functions; everything the
//! rest of the crate states goes through those names.

use vstd::prelude::*;

verus! {

/// What `form_urlencoded::parse` yields on the given bytes: the decoded
/// `(key, value)` text pairs, in arrival order.
pub uninterp spec fn form_pairs_of(bytes: Seq<u8>) -> Seq<(Seq<char>, Seq<char>)>;

/// What `form_urlencoded::byte_serialize` yields on the given text: its
/// percent-encoded form.
pub uninterp spec fn form_encoded_of(text: Seq<char>) -> Seq<char>;

/// Relies on `form_urlencoded::parse`: it splits the input on `&`, skips
/// empty segments, splits each segment at the first `=`, and percent-decodes
/// both halves; the pairs depend on the input bytes alone, and empty input
/// yields no pairs.
#[verifier::external_body]
pub fn parse_form_bytes(input: &[u8]) -> (r: Vec<(String, String)>)
    ensures
        r.deep_view() == form_pairs_of(input@),
        input@.len() == 0 ==> r.deep_view().len() == 0,
{
    form_urlencoded::parse(input).into_owned().collect()
}

/// Relies on `form_urlencoded::byte_serialize`: it percent-encodes the UTF-8
/// bytes of the text, leaving `*`, `-`, `.`, `_` and alphanumerics, turning
/// a space into `+` and escaping every other byte; the result depends on the
/// text alone, and empty text stays empty.
#[verifier::external_body]
pub fn form_encode_str(s: &str) -> (r: String)
    ensures
        r@ == form_encoded_of(s@),
        s@.len() == 0 ==> r@.len() == 0,
{
    form_urlencoded::byte_serialize(s.as_bytes()).collect()
}

} // verus!
