//! UTF-8 as it arrives from the terminal: one byte at a time, and not always
//! well formed. What encodes no character is read as U+FFFD.

use vstd::prelude::*;
use vstd::utf8::*;

use crate::wstr::{char_unit, is_character, WChar};

verus! {

// ---------------------------------------------------------------------------
// Model
// ---------------------------------------------------------------------------

/// The number of bytes of a character that begins with byte `lead`. A byte that
/// begins no character counts as a character of its own.
pub open spec fn char_len(lead: u8) -> nat {
    if 0xc0 <= lead <= 0xdf {
        2
    } else if 0xe0 <= lead <= 0xef {
        3
    } else if 0xf0 <= lead <= 0xf7 {
        4
    } else {
        1
    }
}

/// The number that one to four bytes encode, whether or not it is a scalar value.
pub open spec fn code_point(bytes: Seq<u8>) -> u32 {
    if bytes.len() == 1 {
        bytes[0] as u32
    } else if bytes.len() == 2 {
        codepoint_width_2(bytes[0], bytes[1])
    } else if bytes.len() == 3 {
        codepoint_width_3(bytes[0], bytes[1], bytes[2])
    } else {
        codepoint_width_4(bytes[0], bytes[1], bytes[2], bytes[3])
    }
}

/// The unit that stands for input that encodes no character: U+FFFD.
pub const REPLACEMENT: WChar = 0xFFFD;

/// The wide unit that `bytes` stand for: the character that they encode, or U+FFFD where
/// they are not the encoding of one character.
pub open spec fn decoded_unit(bytes: Seq<u8>) -> WChar {
    if bytes.len() > 0 && bytes.len() == char_len(bytes[0]) && valid_utf8(bytes) {
        code_point(bytes) as WChar
    } else {
        REPLACEMENT
    }
}

/// `bytes` are the first bytes of a character, and more of it are to come.
pub open spec fn unfinished_char(bytes: Seq<u8>) -> bool {
    &&& 1 <= bytes.len() < char_len(bytes[0])
    &&& forall|i: int| 1 <= i < bytes.len() ==> is_continuation_byte(#[trigger] bytes[i])
}

/// How many bytes at the start of `bytes` continue a character, counting no more than
/// `most`.
pub open spec fn continued(bytes: Seq<u8>, most: nat) -> nat
    decreases most,
{
    if most == 0 || bytes.len() == 0 || !is_continuation_byte(bytes[0]) {
        0
    } else {
        1 + continued(bytes.skip(1), (most - 1) as nat)
    }
}

// ---------------------------------------------------------------------------
// Decoding
// ---------------------------------------------------------------------------

/// The length in bytes of a character, from its first byte.
pub fn utf8_char_len(b: u8) -> (r: usize)
    ensures
        r == char_len(b),
        1 <= r <= 4,
{
    match b {
        0x00..=0x7f => 1,
        0xc0..=0xdf => 2,
        0xe0..=0xef => 3,
        0xf0..=0xf7 => 4,
        _ => 1,
    }
}

/// The number that `bytes`, a whole sequence of one to four bytes, encodes.
pub fn decode_utf8(bytes: &[u8]) -> (r: u32)
    requires
        1 <= bytes@.len() <= 4,
    ensures
        r == code_point(bytes@),
{
    let n: usize = bytes.len();
    let b0: u8 = bytes[0];
    if n == 1 {
        return b0 as u32;
    }
    let b1: u8 = bytes[1];
    if n == 2 {
        return ((b0 & 0x1F) as u32) << 6 | (b1 & 0x3F) as u32;
    }
    let b2: u8 = bytes[2];
    if n == 3 {
        return ((b0 & 0x0F) as u32) << 12 | ((b1 & 0x3F) as u32) << 6 | (b2 & 0x3F) as u32;
    }
    let b3: u8 = bytes[3];
    ((b0 & 0x07) as u32) << 18 | ((b1 & 0x3F) as u32) << 12 | ((b2 & 0x3F) as u32) << 6 | (b3
        & 0x3F) as u32
}

/// `b` continues a character that an earlier byte began.
pub fn utf8_continues(b: u8) -> (r: bool)
    ensures
        r == is_continuation_byte(b),
{
    0x80 <= b && b <= 0xbf
}

/// The wide unit that `bytes`, a sequence of one to four bytes, stands for.
pub fn decode_unit(bytes: &[u8]) -> (r: WChar)
    requires
        1 <= bytes@.len() <= 4,
    ensures
        r == decoded_unit(bytes@),
{
    if bytes.len() != utf8_char_len(bytes[0]) || std::str::from_utf8(bytes).is_err() {
        return REPLACEMENT;
    }
    proof {
        lemma_code_point(bytes@);
    }
    decode_utf8(bytes) as WChar
}

// ---------------------------------------------------------------------------
// Laws
// ---------------------------------------------------------------------------

/// A character survives the terminal: its encoding begins with a byte that gives
/// its length, and decodes to the unit of the character.
pub proof fn law_decode_encoded_char(c: char)
    ensures
        1 <= encode_scalar(c as u32).len() <= 4,
        char_len(encode_scalar(c as u32)[0]) == encode_scalar(c as u32).len(),
        forall|i: int|
            1 <= i < encode_scalar(c as u32).len() ==> is_continuation_byte(
                #[trigger] encode_scalar(c as u32)[i],
            ),
        decoded_unit(encode_scalar(c as u32)) == char_unit(c),
{
    let s = c as u32;
    let text = seq![c];
    char_is_scalar(c);
    encode_utf8_first_scalar(text);
    encode_utf8_valid_utf8(text);
    reveal_with_fuel(encode_utf8, 2);
    assert(encode_utf8(text) =~= encode_scalar(s));
    if has_width_1_encoding(s) {
        assert((s & 0x7F) as u8 == s) by (bit_vector)
            requires
                s <= 0x7F,
        ;
    }
}

/// Nothing but text passes as text: bytes that are not the encoding of a character are read
/// as U+FFFD, and all others as the character that they encode.
pub proof fn law_only_characters_decode(bytes: Seq<u8>)
    ensures
        (exists|c: char| bytes == #[trigger] encode_scalar(c as u32)) || decoded_unit(bytes)
            == REPLACEMENT,
        forall|c: char|
            bytes == #[trigger] encode_scalar(c as u32) ==> decoded_unit(bytes) == char_unit(c),
        is_character(decoded_unit(bytes)),
{
    assert(char_unit('\u{FFFD}') == REPLACEMENT);
    if bytes.len() > 0 && bytes.len() == char_len(bytes[0]) && valid_utf8(bytes) {
        let c = decode_first_scalar(bytes) as char;
        decode_utf8_first_scalar(bytes);
        assert(take_first_scalar(bytes) =~= bytes);
        assert(bytes == encode_scalar(c as u32));
    }
    assert forall|c: char| bytes == #[trigger] encode_scalar(c as u32) implies decoded_unit(bytes)
        == char_unit(c) by {
        law_decode_encoded_char(c);
    }
    if exists|c: char| bytes == #[trigger] encode_scalar(c as u32) {
        let c = choose|c: char| bytes == #[trigger] encode_scalar(c as u32);
        assert(decoded_unit(bytes) == char_unit(c));
    }
}

/// The code point of a whole, well-formed character is a scalar value.
proof fn lemma_code_point(bytes: Seq<u8>)
    requires
        bytes.len() > 0,
        bytes.len() == char_len(bytes[0]),
        valid_utf8(bytes),
    ensures
        is_scalar(code_point(bytes)),
{
    let (a, b, c) = (bytes[0], bytes[1], bytes[2]);
    assert((((a & 0x1F) as u32) << 6 | (b & 0x3F) as u32) <= 0x7ff) by (bit_vector);
    assert((((a & 0x0F) as u32) << 12 | ((b & 0x3F) as u32) << 6 | (c & 0x3F) as u32) <= 0xffff)
        by (bit_vector);
}

/// No more bytes continue a character than there are, nor than are looked at.
pub proof fn lemma_continued_bound(bytes: Seq<u8>, most: nat)
    ensures
        continued(bytes, most) <= bytes.len(),
        continued(bytes, most) <= most,
    decreases most,
{
    if most > 0 && bytes.len() > 0 && is_continuation_byte(bytes[0]) {
        lemma_continued_bound(bytes.skip(1), (most - 1) as nat);
    }
}

/// The count stops where a byte does not continue the character, where the bytes end, or at
/// the most that is looked at.
pub proof fn lemma_continued(bytes: Seq<u8>, most: nat, n: nat)
    requires
        n <= bytes.len(),
        n <= most,
        forall|i: int| 0 <= i < n ==> is_continuation_byte(#[trigger] bytes[i]),
        n == bytes.len() || n == most || !is_continuation_byte(bytes[n as int]),
    ensures
        continued(bytes, most) == n,
    decreases n,
{
    if n > 0 {
        assert(is_continuation_byte(bytes[0]));
        assert forall|i: int| 0 <= i < n - 1 implies is_continuation_byte(
            #[trigger] bytes.skip(1)[i],
        ) by {
            assert(is_continuation_byte(bytes[i + 1]));
        }
        lemma_continued(bytes.skip(1), (most - 1) as nat, (n - 1) as nat);
    }
}

/// Where the encoding of a character holds the byte of an ASCII character, it is
/// the encoding of that character.
pub proof fn lemma_ascii_byte(c: char, i: int)
    requires
        0 <= i < encode_scalar(c as u32).len(),
        encode_scalar(c as u32)[i] < 0x80,
    ensures
        i == 0,
        encode_scalar(c as u32) == seq![c as u8],
        encode_scalar(c as u32)[0] == c as int,
{
    let s = c as u32;
    char_is_scalar(c);
    assert(s <= 0x7F ==> (s & 0x7F) as u8 == s) by (bit_vector);
    assert(0xC0u8 | ((s >> 6) & 0x1F) as u8 >= 0x80) by (bit_vector);
    assert(0xE0u8 | ((s >> 12) & 0x0F) as u8 >= 0x80) by (bit_vector);
    assert(0xF0u8 | ((s >> 18) & 0x7) as u8 >= 0x80) by (bit_vector);
    assert(0x80u8 | (s & 0x3F) as u8 >= 0x80) by (bit_vector);
    assert(0x80u8 | ((s >> 6) & 0x3F) as u8 >= 0x80) by (bit_vector);
    assert(0x80u8 | ((s >> 12) & 0x3F) as u8 >= 0x80) by (bit_vector);
}

/// How many bytes a character has, from its first: two to four where the byte begins such a
/// one, and one otherwise, whether it is ASCII or begins no character.
pub proof fn law_character_lengths(b: u8)
    ensures
        b < 0xc0 ==> char_len(b) == 1,
        0xc0 <= b < 0xe0 ==> char_len(b) == 2,
        0xe0 <= b < 0xf0 ==> char_len(b) == 3,
        0xf0 <= b < 0xf8 ==> char_len(b) == 4,
        b >= 0xf8 ==> char_len(b) == 1,
{
}

/// The number that bytes encode: the low bits of the first, and six bits of each that
/// follows.
pub proof fn law_encoded_numbers(a: u8, b: u8, c: u8, d: u8)
    ensures
        code_point(seq![a]) == a,
        code_point(seq![a, b]) == (a % 32) * 64 + b % 64,
        code_point(seq![a, b, c]) == (a % 16) * 4096 + (b % 64) * 64 + c % 64,
        code_point(seq![a, b, c, d]) == (a % 8) * 262144 + (b % 64) * 4096 + (c % 64) * 64 + d
            % 64,
{
    assert((((a & 0x1F) as u32) << 6 | (b & 0x3F) as u32) == (a % 32) * 64 + b % 64)
        by (bit_vector);
    assert((((a & 0x0F) as u32) << 12 | ((b & 0x3F) as u32) << 6 | (c & 0x3F) as u32) == (a % 16)
        * 4096 + (b % 64) * 64 + c % 64) by (bit_vector);
    assert((((a & 0x07) as u32) << 18 | ((b & 0x3F) as u32) << 12 | ((c & 0x3F) as u32) << 6 | (d
        & 0x3F) as u32) == (a % 8) * 262144 + (b % 64) * 4096 + (c % 64) * 64 + d % 64)
        by (bit_vector);
}

/// Bytes that are the encoding of no character are read as U+FFFD, and those of a character
/// as its scalar value.
pub proof fn law_other_bytes_are_replaced(bytes: Seq<u8>, c: char)
    ensures
        (forall|d: char| bytes != #[trigger] encode_scalar(d as u32)) ==> decoded_unit(bytes)
            == 0xFFFD,
        bytes == encode_scalar(c as u32) ==> decoded_unit(bytes) as int == c as int,
        bytes.len() == 1 && bytes[0] >= 0x80 ==> decoded_unit(bytes) == 0xFFFD,
        bytes.len() == 1 && bytes[0] < 0x80 ==> decoded_unit(bytes) == bytes[0],
{
    law_only_characters_decode(bytes);
    if bytes.len() == 1 && bytes[0] < 0x80 {
        let d = bytes[0] as char;
        let s = d as u32;
        assert((s & 0x7F) as u8 == s) by (bit_vector)
            requires
                s <= 0x7F,
        ;
        assert(encode_scalar(s) =~= bytes);
    }
}

} // verus!
