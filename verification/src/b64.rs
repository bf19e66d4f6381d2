//! The base64 framing mode leans on rustc_serialize's base64 codec
//! (URL-safe alphabet, LF newline style, padding on, no line wrapping).
//! Its results are named here and everything downstream is proved against
//! those names.

use rustc_serialize::base64::CharacterSet;
use rustc_serialize::base64::Config;
use rustc_serialize::base64::FromBase64;
use rustc_serialize::base64::Newline;
use rustc_serialize::base64::ToBase64;
use vstd::prelude::*;

verus! {

/// The URL-safe, padded base64 text of a byte sequence, as bytes.
pub uninterp spec fn base64url_of(data: Seq<u8>) -> Seq<u8>;

/// What base64 decoding yields on a byte sequence: `None` where the bytes
/// are not acceptable base64 text.
pub uninterp spec fn base64url_decode(text: Seq<u8>) -> Option<Seq<u8>>;

/// True when the padded base64 text of `data` has a length an in-memory
/// string can hold, so encoding cannot abort on allocation.
pub open spec fn b64_len_ok(data: Seq<u8>) -> bool {
    4 * ((data.len() + 2) / 3) < usize::MAX as int
}

/// Relies on rustc_serialize's `ToBase64` for `[u8]`: with padding on and no
/// line wrapping the result depends on the input bytes alone, its length is
/// exactly `4 * ceil(len / 3)`, and `FromBase64` inverts it.
#[verifier::external_body]
pub fn to_base64_url(data: &[u8]) -> (r: Vec<u8>)
    requires
        b64_len_ok(data@),
    ensures
        r@ == base64url_of(data@),
        r@.len() == 4 * ((data@.len() + 2) / 3),
        base64url_decode(r@) == Some(data@),
{
    let text = data.to_base64(
        Config { char_set: CharacterSet::UrlSafe, newline: Newline::LF, pad: true, line_length: None },
    );
    text.into_bytes()
}

/// Relies on rustc_serialize's `FromBase64` for `[u8]`: the result depends
/// on the input bytes alone, and the call never panics.
#[verifier::external_body]
pub fn from_base64_url(text: &[u8]) -> (r: Option<Vec<u8>>)
    ensures
        match r {
            Some(d) => base64url_decode(text@) == Some(d@),
            None => base64url_decode(text@) is None,
        },
{
    match text.from_base64() {
        Ok(d) => Some(d),
        Err(_) => None,
    }
}

} // verus!
