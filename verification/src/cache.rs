//! Names of the files that cache fetched metadata.

use base64::Engine;
use vstd::prelude::*;
use vstd::string::StringSliceAdditionalSpecFns;
use vstd::utf8::*;
use crate::strings::push_str;

verus! {

/// The character of a 6-bit value in the URL-safe base64 alphabet
/// `A-Z a-z 0-9 - _`.
pub open spec fn b64_digit(v: int) -> char {
    if v < 26 {
        ('A' as int + v) as char
    } else if v < 52 {
        ('a' as int + v - 26) as char
    } else if v < 62 {
        ('0' as int + v - 52) as char
    } else if v == 62 {
        '-'
    } else {
        '_'
    }
}

/// Base64 of a byte string in the URL-safe alphabet without padding
/// (RFC 4648, section 5): each group of three bytes becomes four digits of
/// six bits each, a final group of one or two bytes two or three digits.
pub open spec fn b64_url(b: Seq<u8>) -> Seq<char>
    decreases b.len(),
{
    let x = if b.len() > 0 { b[0] as int } else { 0 };
    let y = if b.len() > 1 { b[1] as int } else { 0 };
    let z = if b.len() > 2 { b[2] as int } else { 0 };
    if b.len() == 0 {
        Seq::empty()
    } else if b.len() == 1 {
        seq![b64_digit(x / 4), b64_digit((x % 4) * 16)]
    } else if b.len() == 2 {
        seq![b64_digit(x / 4), b64_digit((x % 4) * 16 + y / 16), b64_digit((y % 16) * 4)]
    } else {
        seq![
            b64_digit(x / 4),
            b64_digit((x % 4) * 16 + y / 16),
            b64_digit((y % 16) * 4 + z / 64),
            b64_digit(z % 64),
        ] + b64_url(b.skip(3))
    }
}

/// Calls `Engine::encode` of `base64::engine::general_purpose::URL_SAFE_NO_PAD`.
/// The contract states the encoding its documentation names: the URL-safe
/// alphabet of RFC 4648 without padding. The crate panics when the encoded
/// length overflows `usize`; the bound on the input rules that out.
#[verifier::external_body]
fn base64_url_no_pad(bytes: &[u8]) -> (r: String)
    requires
        bytes@.len() < usize::MAX / 2,
    ensures
        r@ == b64_url(bytes@),
{
    base64::engine::general_purpose::URL_SAFE_NO_PAD.encode(bytes)
}

/// The cache file of a URL: its URL-safe base64 without padding, then `.json`.
pub open spec fn cache_file_name(url: Seq<char>) -> Seq<char> {
    b64_url(encode_utf8(url)) + ".json"@
}

/// Names the cache file of a URL.
pub fn cache_file(url: &str) -> (r: String)
    requires
        url.spec_bytes().len() < usize::MAX / 2,
    ensures
        r@ == cache_file_name(url@),
{
    let mut out = base64_url_no_pad(url.as_bytes());
    push_str(&mut out, ".json");
    out
}

} // verus!
