//! Contracts for the standard library functions that the crate calls and that
//! `vstd` leaves unspecified. Nothing here is proved: each item says what the
//! standard library documents of the function it names.

use vstd::prelude::*;

verus! {

/// `char::from_u32` gives the character with the scalar value `i`, or `None` where
/// `i` is no Unicode scalar value.
pub assume_specification[ char::from_u32 ](i: u32) -> (r: Option<char>)
    ensures
        vstd::utf8::is_scalar(i) ==> r == Some(i as char),
        !vstd::utf8::is_scalar(i) ==> r is None,
;

/// `String::push` appends one character to the end of the string.
pub assume_specification[ String::push ](s: &mut String, ch: char)
    ensures
        final(s)@ == old(s)@.push(ch),
;

/// `String::from` on a `&str` copies its text.
pub assume_specification<'a>[ <String as From<&'a str>>::from ](s: &str) -> (r: String)
    ensures
        r@ == s@,
;

/// `From` of a type to itself hands its argument back.
pub assume_specification<A>[ <A as From<A>>::from ](value: A) -> (r: A)
    ensures
        r == value,
;

/// The error of `std::str::from_utf8`, carried but not looked into.
#[verifier::external_type_specification]
#[verifier::external_body]
pub struct ExUtf8Error(std::str::Utf8Error);

/// `std::str::from_utf8` gives the text that the bytes encode, and fails exactly where
/// they are not UTF-8.
pub assume_specification[ std::str::from_utf8 ](v: &[u8]) -> (r: std::result::Result<
    &str,
    std::str::Utf8Error,
>)
    ensures
        vstd::utf8::valid_utf8(v@) <==> r is Ok,
        r matches Ok(s) ==> vstd::utf8::encode_utf8(s@) == v@,
;

/// What `char::escape_debug` writes for a character.
pub uninterp spec fn debug_escape(c: char) -> Seq<char>;

/// `char::escape_debug` gives the characters that stand for `c` in debugging output. They
/// depend on `c` alone; which they are is not said here.
#[verifier::external_body]
pub(crate) fn escape_debug(c: char) -> (r: String)
    ensures
        r@ == debug_escape(c),
{
    c.escape_debug().to_string()
}

} // verus!
