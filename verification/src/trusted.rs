//! The library's few reliances on outside code, each behind a small
//! wrapper whose contract states only what the outside source shows.

use vstd::prelude::*;

verus! {

/// A fresh random identity in hyphenated form.
///
/// Relies on `uuid::Uuid::new_v4` and its `Display` form: a random
/// version-4 identifier, printed hyphenated as exactly 36 characters.
/// The value is random, so nothing more is promised of it.
#[verifier::external_body]
pub fn fresh_id() -> (r: String)
    ensures
        r@.len() == 36,
{
    uuid::Uuid::new_v4().to_string()
}

/// The current moment, formatted.
///
/// Relies on `chrono::Utc::now` and `DateTime::to_rfc3339`: the clock
/// reading is environment-dependent, so only non-emptiness of the
/// rendered text is promised.
#[verifier::external_body]
pub fn now_rfc3339() -> (r: String)
    ensures
        r@.len() > 0,
{
    chrono::Utc::now().to_rfc3339()
}

/// What standard base64 decoding yields for a given text: bytes on
/// well-formed input, nothing otherwise. The decoding is a function of
/// the text alone.
pub uninterp spec fn b64_decoded(s: Seq<char>) -> Option<Seq<u8>>;

#[verifier::external_type_specification]
#[verifier::external_body]
pub struct ExDecodeError(base64::DecodeError);

/// Decode standard base64 text.
///
/// Relies on `base64::engine::general_purpose::STANDARD` and
/// `Engine::decode`: the result depends on the input text alone.
#[verifier::external_body]
pub fn decode_base64(s: &str) -> (r: Result<Vec<u8>, base64::DecodeError>)
    ensures
        match b64_decoded(s@) {
            Some(b) => r is Ok && r->Ok_0@ == b,
            None => r is Err,
        },
{
    base64::Engine::decode(&base64::engine::general_purpose::STANDARD, s)
}

/// What Unicode lowercasing yields for a given text; it is a function of
/// the characters alone.
pub uninterp spec fn lower_of(s: Seq<char>) -> Seq<char>;

/// Lowercase a text.
///
/// Relies on `str::to_lowercase`: the Unicode lowercase mapping of the
/// characters, depending on nothing but them.
#[verifier::external_body]
pub fn lowercase(s: &str) -> (r: String)
    ensures
        r@ == lower_of(s@),
{
    s.to_lowercase()
}

} // verus!
