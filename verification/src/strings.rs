//! Thin trusted wrappers around the standard library's text conversions.
//! Their contracts are stated over vstd's own UTF-8 and character models;
//! everything built on top of them is verified.

use vstd::prelude::*;

verus! {

/// Relies on `core::str::from_utf8`: it returns `Ok` exactly on a valid
/// UTF-8 encoding, and the resulting text is that encoding's decoding.
#[verifier::external_body]
pub(crate) fn utf8_to_str(v: &[u8]) -> (r: Option<&str>)
    ensures
        r is Some <==> vstd::utf8::valid_utf8(v@),
        r matches Some(s) ==> s@ == vstd::utf8::decode_utf8(v@),
{
    core::str::from_utf8(v).ok()
}

/// Relies on `String`'s `FromIterator<char>` implementation: collecting
/// characters concatenates exactly those characters, in order.
#[verifier::external_body]
pub(crate) fn chars_to_string(v: &Vec<char>) -> (r: String)
    ensures
        r@ == v@,
{
    v.iter().collect()
}

/// Relies on `char::from_u32`: it returns `Some` exactly on a Unicode
/// scalar value, that is, any code point outside the surrogate range
/// `0xD800..=0xDFFF` and at most `0x10FFFF`, and the character it returns
/// has that code.
#[verifier::external_body]
pub(crate) fn char_from_u32(c: u32) -> (r: Option<char>)
    ensures
        r matches Some(ch) ==> ch as u32 == c,
        r is Some <==> (c < 0xD800 || (0xE000 <= c && c <= 0x10FFFF)),
{
    char::from_u32(c)
}

} // verus!
