use vstd::prelude::*;

verus! {

// The legacy single-byte character encoding (Windows-1251) used by the tax
// declaration format. The two conversions are supplied by the encoding_rs
// crate; their results are named by the two uninterpreted functions below,
// and the trusted wrappers state the facts the codec relies on: both
// directions are strict (an unconvertible input yields `None`, never a
// replacement), each byte maps to exactly one character, and the two tables
// invert each other.

/// What `encoding_rs::WINDOWS_1251` decodes a byte sequence to, or `None` if
/// some byte has no assigned character.
pub uninterp spec fn decode_1251(bytes: Seq<u8>) -> Option<Seq<char>>;

/// What `encoding_rs::WINDOWS_1251` encodes a character sequence to, or
/// `None` if some character is not representable in the encoding.
pub uninterp spec fn encode_1251(chars: Seq<char>) -> Option<Seq<u8>>;

/// Relies on encoding_rs's `Encoding::decode_without_bom_handling_and_without_replacement`
/// on `WINDOWS_1251`: a single-byte codec that maps ASCII bytes to themselves
/// and each high byte through the fixed `windows_1251` index, one character
/// per byte, and returns `None` instead of substituting anything on a byte
/// with no assigned character. The index is injective and `encode` uses the
/// same index, so a decoded string re-encodes to exactly the input bytes.
/// The windows-1251 index assigns a character to every one of the 128 high
/// bytes (0x98 maps to U+0098), so decoding in fact never fails.
#[verifier::external_body]
pub fn decode_win1251(data: &[u8]) -> (r: Option<String>)
    ensures
        r is Some,
        r matches Some(s) ==> decode_1251(data@) == Some(s@)
            && encode_1251(s@) == Some(data@)
            && s@.len() == data@.len(),
        r is None ==> decode_1251(data@) is None,
{
    match encoding_rs::WINDOWS_1251.decode_without_bom_handling_and_without_replacement(data) {
        Some(s) => Some(s.into_owned()),
        None => None,
    }
}

/// Relies on encoding_rs's `Encoding::encode` on `WINDOWS_1251`: each
/// representable character becomes the single byte the `windows_1251` index
/// assigns it (ASCII unchanged), so decoding the output gives back the input;
/// an unmappable character raises the returned error flag, which this wrapper
/// turns into `None` rather than keeping the substituted output.
#[verifier::external_body]
pub fn encode_win1251(data: &str) -> (r: Option<Vec<u8>>)
    ensures
        r matches Some(b) ==> encode_1251(data@) == Some(b@)
            && decode_1251(b@) == Some(data@)
            && b@.len() == data@.len(),
        r is None ==> encode_1251(data@) is None,
{
    let (bytes, _, errors) = encoding_rs::WINDOWS_1251.encode(data);
    if errors {
        None
    } else {
        Some(bytes.into_owned())
    }
}

/// Relies on `String::push` from std: appends one character to the string.
#[verifier::external_body]
pub fn push_char(s: &mut String, c: char)
    ensures
        final(s)@ == old(s)@.push(c),
{
    s.push(c);
}

} // verus!
