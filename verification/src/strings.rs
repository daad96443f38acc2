//! Text conversions between strings and their stored byte forms.

use vstd::prelude::*;
use vstd::utf8::{decode_utf8, is_scalar, valid_utf8};

verus! {

/// What `String::from_utf8_lossy` makes of `bytes`.
pub uninterp spec fn lossy_utf8(bytes: Seq<u8>) -> Seq<char>;

/// What `String::from_utf16_lossy` makes of `units`.
pub uninterp spec fn lossy_utf16(units: Seq<u16>) -> Seq<char>;

/// The text that lossy UTF-8 decoding makes of `bytes`: their characters
/// when they are valid UTF-8.
pub open spec fn utf8_text(bytes: Seq<u8>) -> Seq<char> {
    if valid_utf8(bytes) {
        decode_utf8(bytes)
    } else {
        lossy_utf8(bytes)
    }
}

/// Whether `text` is what lossy UTF-16 decoding makes of `units`, which is
/// the encoded string itself when `units` is a UTF-16 encoding.
pub open spec fn utf16_text(units: Seq<u16>, text: Seq<char>) -> bool {
    &&& text == lossy_utf16(units)
    &&& forall|cs: Seq<char>| units == utf16_encode(cs) ==> text == cs
}

/// UTF-16 code units of one character.
pub open spec fn utf16_of_char(c: char) -> Seq<u16> {
    let v = c as u32;
    if v < 0x10000 {
        seq![v as u16]
    } else {
        seq![(0xD800 + (v - 0x10000) / 1024) as u16, (0xDC00 + (v - 0x10000) % 1024) as u16]
    }
}

/// UTF-16 encoding of a character sequence.
pub open spec fn utf16_encode(chars: Seq<char>) -> Seq<u16>
    decreases chars.len(),
{
    if chars.len() == 0 {
        seq![]
    } else {
        utf16_encode(chars.drop_last()) + utf16_of_char(chars.last())
    }
}

/// Decodes bytes as UTF-8, replacing invalid sequences.
///
/// Calls `String::from_utf8_lossy`.  The contract names its result, and
/// claims what its documentation states: valid UTF-8 comes back unchanged.
#[verifier::external_body]
pub fn utf8_lossy(bytes: &[u8]) -> (r: String)
    ensures
        r@ == lossy_utf8(bytes@),
        valid_utf8(bytes@) ==> r@ == decode_utf8(bytes@),
{
    String::from_utf8_lossy(bytes).into_owned()
}

/// Decodes UTF-16 code units, replacing unpaired surrogates.
///
/// Calls `String::from_utf16_lossy`.  The contract names its result, and
/// claims what its documentation states: the UTF-16 encoding of a string
/// decodes to that string.
#[verifier::external_body]
pub fn utf16_lossy(units: &[u16]) -> (r: String)
    ensures
        r@ == lossy_utf16(units@),
        forall|cs: Seq<char>| units@ == utf16_encode(cs) ==> r@ == cs,
{
    String::from_utf16_lossy(units)
}

/// The UTF-16 code units of `text`.
///
/// Calls `str::encode_utf16` and collects the units; the contract states the
/// UTF-16 encoding that its documentation describes.
#[verifier::external_body]
pub fn utf16_units(text: &str) -> (r: Vec<u16>)
    ensures
        r@ == utf16_encode(text@),
{
    text.encode_utf16().collect()
}

/// Whether two strings hold the same characters.
///
/// Calls `==` on `str`; the contract states that it compares the
/// characters.
#[verifier::external_body]
pub fn str_equal(a: &str, b: &str) -> (r: bool)
    ensures
        r == (a@ == b@),
{
    a == b
}

/// The character with the given code, if it is a Unicode scalar value.
///
/// Calls `char::from_u32`; the contract states what its documentation does:
/// `Some` exactly for scalar values, holding the character with that code.
#[verifier::external_body]
pub fn char_from_code(v: u32) -> (r: Option<char>)
    ensures
        r is Some <==> is_scalar(v),
        r matches Some(c) ==> c as u32 == v,
{
    char::from_u32(v)
}

/// A string made of the given characters.
///
/// Collects the characters with `FromIterator<char>` for `String`; the
/// contract states that the string holds them in order.
#[verifier::external_body]
pub fn string_from_chars(chars: &[char]) -> (r: String)
    ensures
        r@ == chars@,
{
    chars.iter().collect()
}

} // verus!
