//! The history file: a header line, then one line per entry, the oldest first.
//!
//! An entry is written in UTF-8. Spaces, tabs, newlines and backslashes in it are
//! written as a backslash and three octal digits, other control characters as `\^`
//! and a letter. On reading, the notations `\\`, `\M-` and `\M^` are understood too.
//! A file with a line that cannot be read is refused as a whole.
//!
//! The format is modelled on the one that libedit writes. How the file is written and
//! read is this library's own choice: that libedit writes and reads every file the same
//! way is not shown here.

use vstd::prelude::*;
use vstd::utf8::*;

use crate::text::{
    before_nul, chars_of, cut_at_nul, lemma_before_nul, lemma_before_nul_has_none,
    lemma_encode_concat,
};

verus! {

// ---------------------------------------------------------------------------
// Model
// ---------------------------------------------------------------------------

/// The first line of the file, `_HiStOrY_V2_`, with its newline.
pub open spec fn header() -> Seq<u8> {
    seq![
        0x5f, 0x48, 0x69, 0x53, 0x74, 0x4f, 0x72, 0x59, 0x5f, 0x56, 0x32, 0x5f, 0x0a,
    ]
}

/// The backslash.
pub const BACKSLASH: u8 = 0x5c;

/// The newline.
pub const NEWLINE: u8 = 0x0a;

/// A byte that is written in octal: space, tab, newline, backslash.
pub open spec fn octal_byte(b: u8) -> bool {
    b == 0x20 || b == 0x09 || b == NEWLINE || b == BACKSLASH
}

/// How byte `b` is written.
pub open spec fn written_byte(b: u8) -> Seq<u8> {
    if octal_byte(b) {
        seq![
            BACKSLASH,
            (0x30 + b / 64) as u8,
            (0x30 + (b / 8) % 8) as u8,
            (0x30 + b % 8) as u8,
        ]
    } else if b < 0x20 {
        seq![BACKSLASH, 0x5e, (b + 0x40) as u8]
    } else if b == 0x7f {
        seq![BACKSLASH, 0x5e, 0x3f]
    } else {
        seq![b]
    }
}

/// How `bytes` are written.
pub open spec fn written(bytes: Seq<u8>) -> Seq<u8>
    decreases bytes.len(),
{
    if bytes.len() == 0 {
        Seq::empty()
    } else {
        written(bytes.drop_last()) + written_byte(bytes.last())
    }
}

/// An octal digit.
pub open spec fn octal_digit(b: u8) -> bool {
    0x30 <= b <= 0x37
}

/// How many octal digits stand at the start of `bytes`, up to three.
pub open spec fn octal_len(bytes: Seq<u8>) -> nat {
    if bytes.len() < 1 || !octal_digit(bytes[0]) {
        0
    } else if bytes.len() < 2 || !octal_digit(bytes[1]) {
        1
    } else if bytes.len() < 3 || !octal_digit(bytes[2]) {
        2
    } else {
        3
    }
}

/// The byte that up to three octal digits stand for.
pub open spec fn octal_value(digits: Seq<u8>) -> u8
    decreases digits.len(),
{
    if digits.len() == 0 {
        0
    } else {
        ((octal_value(digits.drop_last()) * 8 + (digits.last() - 0x30)) % 256) as u8
    }
}

/// The control character of a letter.
pub open spec fn control_of(b: u8) -> u8 {
    if b == 0x3f {
        0x7f
    } else {
        b & 0x1f
    }
}

/// The first byte that `line` stands for and how many bytes write it, or `None` where
/// it stands for none.
pub open spec fn read_byte(line: Seq<u8>) -> Option<(u8, nat)> {
    if line.len() == 0 {
        None
    } else if line[0] != BACKSLASH {
        Some((line[0], 1))
    } else if line.len() < 2 {
        None
    } else if line[1] == BACKSLASH {
        Some((BACKSLASH, 2))
    } else if octal_digit(line[1]) {
        let n = octal_len(line.skip(1));
        Some((octal_value(line.subrange(1, 1 + n as int)), 1 + n))
    } else if line[1] == 0x5e && line.len() >= 3 {
        Some((control_of(line[2]), 3))
    } else if line[1] == 0x4d && line.len() >= 4 && line[2] == 0x2d {
        Some((line[3] | 0x80, 4))
    } else if line[1] == 0x4d && line.len() >= 4 && line[2] == 0x5e {
        Some((control_of(line[3]) | 0x80, 4))
    } else {
        None
    }
}

/// The bytes that `line` stands for, or `None` where it is malformed.
pub open spec fn read_back(line: Seq<u8>) -> Option<Seq<u8>>
    decreases line.len(),
{
    if line.len() == 0 {
        Some(Seq::empty())
    } else {
        match read_byte(line) {
            Some((b, n)) => if 0 < n <= line.len() {
                match read_back(line.skip(n as int)) {
                    Some(rest) => Some(seq![b] + rest),
                    None => None,
                }
            } else {
                None
            },
            None => None,
        }
    }
}

/// What one entry looks like in the file.
pub open spec fn written_entry(text: Seq<char>) -> Seq<u8> {
    written(encode_utf8(text)).push(NEWLINE)
}

/// What the entries `texts` look like in the file.
pub open spec fn written_entries(texts: Seq<Seq<char>>) -> Seq<u8>
    decreases texts.len(),
{
    if texts.len() == 0 {
        Seq::empty()
    } else {
        written_entries(texts.drop_last()) + written_entry(texts.last())
    }
}

/// The file of the entries `texts`, the oldest first.
pub open spec fn written_file(texts: Seq<Seq<char>>) -> Seq<u8> {
    header() + written_entries(texts)
}

/// How many bytes stand before the first newline; all of them where there is none.
pub open spec fn line_len(bytes: Seq<u8>) -> nat
    decreases bytes.len(),
{
    if bytes.len() == 0 || bytes[0] == NEWLINE {
        0
    } else {
        1 + line_len(bytes.skip(1))
    }
}

/// How many bytes the first line takes, with its newline where it has one.
pub open spec fn whole_line_len(bytes: Seq<u8>) -> nat {
    if line_len(bytes) < bytes.len() {
        line_len(bytes) + 1
    } else {
        bytes.len()
    }
}

/// The entry that `line` stands for, or `None` where it is malformed.
pub open spec fn read_entry(line: Seq<u8>) -> Option<Seq<char>> {
    match read_back(line) {
        Some(bytes) => if valid_utf8(bytes) {
            Some(before_nul(decode_utf8(bytes)))
        } else {
            None
        },
        None => None,
    }
}

/// The entries that the lines of `bytes` stand for, or `None` where one is malformed.
pub open spec fn read_entries(bytes: Seq<u8>) -> Option<Seq<Seq<char>>>
    decreases bytes.len(),
{
    if bytes.len() == 0 {
        Some(Seq::empty())
    } else {
        proof {
            lemma_line_len(bytes);
        }
        match (
            read_entry(bytes.take(line_len(bytes) as int)),
            read_entries(bytes.skip(whole_line_len(bytes) as int)),
        ) {
            (Some(first), Some(rest)) => Some(seq![first] + rest),
            _ => None,
        }
    }
}

/// The entries of a history file, the oldest first, or `None` where it is malformed.
pub open spec fn read_file(bytes: Seq<u8>) -> Option<Seq<Seq<char>>> {
    let n = whole_line_len(bytes) as int;
    if n > 0 && bytes.take(n).is_prefix_of(header()) {
        read_entries(bytes.skip(n))
    } else {
        None
    }
}

/// A line lies within the bytes, and holds no newline.
pub proof fn lemma_line_len(bytes: Seq<u8>)
    ensures
        line_len(bytes) <= bytes.len(),
        line_len(bytes) < bytes.len() ==> bytes[line_len(bytes) as int] == NEWLINE,
        forall|i: int| 0 <= i < line_len(bytes) ==> bytes[i] != NEWLINE,
        bytes.len() > 0 ==> whole_line_len(bytes) > 0,
    decreases bytes.len(),
{
    if bytes.len() > 0 && bytes[0] != NEWLINE {
        let rest = bytes.skip(1);
        lemma_line_len(rest);
        assert forall|i: int| 0 <= i < line_len(bytes) implies bytes[i] != NEWLINE by {
            if i > 0 {
                assert(rest[i - 1] == bytes[i]);
            }
        }
    }
}

// ---------------------------------------------------------------------------
// Writing
// ---------------------------------------------------------------------------

/// Appends what byte `b` looks like in the file to `out`.
fn write_byte(out: &mut Vec<u8>, b: u8)
    ensures
        final(out)@ == old(out)@ + written_byte(b),
{
    if b == 0x20 || b == 0x09 || b == NEWLINE || b == BACKSLASH {
        out.push(BACKSLASH);
        out.push(0x30 + b / 64);
        out.push(0x30 + (b / 8) % 8);
        out.push(0x30 + b % 8);
    } else if b < 0x20 {
        out.push(BACKSLASH);
        out.push(0x5e);
        out.push(b + 0x40);
    } else if b == 0x7f {
        out.push(BACKSLASH);
        out.push(0x5e);
        out.push(0x3f);
    } else {
        out.push(b);
    }
    assert(out@ =~= old(out)@ + written_byte(b));
}

/// Appends what the entry `text` looks like in the file to `out`.
pub fn write_entry(out: &mut Vec<u8>, text: &str)
    ensures
        final(out)@ == old(out)@ + written_entry(text@),
{
    let bytes: &[u8] = text.as_bytes();
    let mut i: usize = 0;
    assert(bytes@.take(0) =~= Seq::<u8>::empty());
    assert(out@ =~= old(out)@ + written(bytes@.take(0)));
    while i < bytes.len()
        invariant
            i <= bytes@.len(),
            out@ == old(out)@ + written(bytes@.take(i as int)),
        decreases bytes@.len() - i,
    {
        write_byte(out, bytes[i]);
        proof {
            let head = bytes@.take(i + 1);
            assert(head.drop_last() =~= bytes@.take(i as int));
            assert(out@ =~= old(out)@ + written(head));
        }
        i = i + 1;
    }
    assert(bytes@.take(i as int) =~= bytes@);
    out.push(NEWLINE);
    assert(out@ =~= old(out)@ + written_entry(text@));
}

/// Appends the header line to `out`.
pub fn write_header(out: &mut Vec<u8>)
    ensures
        final(out)@ == old(out)@ + header(),
{
    out.push(0x5f);
    out.push(0x48);
    out.push(0x69);
    out.push(0x53);
    out.push(0x74);
    out.push(0x4f);
    out.push(0x72);
    out.push(0x59);
    out.push(0x5f);
    out.push(0x56);
    out.push(0x32);
    out.push(0x5f);
    out.push(NEWLINE);
    assert(out@ =~= old(out)@ + header());
}

// ---------------------------------------------------------------------------
// Reading
// ---------------------------------------------------------------------------

/// The first byte that `line` stands for and how many bytes write it.
fn decode_byte(line: &[u8]) -> (r: Option<(u8, usize)>)
    requires
        line@.len() > 0,
    ensures
        match r {
            Some((b, n)) => read_byte(line@) == Some((b, n as nat)) && 0 < n <= line@.len(),
            None => read_byte(line@) is None,
        },
{
    let len: usize = line.len();
    if line[0] != BACKSLASH {
        return Some((line[0], 1));
    }
    if len < 2 {
        return None;
    }
    let kind: u8 = line[1];
    if kind == BACKSLASH {
        return Some((BACKSLASH, 2));
    }
    if kind >= 0x30 && kind <= 0x37 {
        let mut n: usize = 0;
        let mut value: u16 = 0;
        assert(line@.subrange(1, 1) =~= Seq::<u8>::empty());
        while n < 3 && n + 1 < len && line[n + 1] >= 0x30 && line[n + 1] <= 0x37
            invariant
                len == line@.len(),
                n <= 3,
                n + 1 <= len,
                value < 256,
                value == octal_value(line@.subrange(1, 1 + n as int)),
                forall|i: int| 0 <= i < n ==> octal_digit(#[trigger] line@.skip(1)[i]),
            decreases 3 - n,
        {
            let digit: u16 = (line[n + 1] - 0x30) as u16;
            proof {
                let head = line@.subrange(1, 2 + n as int);
                assert(head.drop_last() =~= line@.subrange(1, 1 + n as int));
                assert(line@.skip(1)[n as int] == line@[n + 1]);
            }
            value = (value * 8 + digit) % 256;
            n = n + 1;
        }
        proof {
            let digits = line@.skip(1);
            assert(digits.len() == len - 1);
            assert(n < digits.len() ==> digits[n as int] == line@[n + 1]);
            assert(digits[0] == kind);
            if n > 0 {
                assert(octal_digit(digits[0]));
            }
            if n > 1 {
                assert(octal_digit(digits[1]));
            }
            if n > 2 {
                assert(octal_digit(digits[2]));
            }
            assert(octal_len(digits) == n);
        }
        return Some((value as u8, 1 + n));
    }
    if kind == 0x5e && len >= 3 {
        return Some((control(line[2]), 3));
    }
    if kind == 0x4d && len >= 4 {
        if line[2] == 0x2d {
            return Some((line[3] | 0x80, 4));
        }
        if line[2] == 0x5e {
            return Some((control(line[3]) | 0x80, 4));
        }
    }
    None
}

/// The control character of a letter.
fn control(b: u8) -> (r: u8)
    ensures
        r == control_of(b),
{
    if b == 0x3f {
        0x7f
    } else {
        b & 0x1f
    }
}

/// The bytes that `line` stands for.
fn decode_line(line: &[u8]) -> (r: Option<Vec<u8>>)
    ensures
        match r {
            Some(bytes) => read_back(line@) == Some(bytes@),
            None => read_back(line@) is None,
        },
{
    let mut out: Vec<u8> = Vec::new();
    let mut i: usize = 0;
    let len: usize = line.len();
    proof {
        assert(line@.skip(0) =~= line@);
        if read_back(line@) is Some {
            assert(out@ + read_back(line@)->Some_0 =~= read_back(line@)->Some_0);
        }
    }
    while i < len
        invariant
            i <= len == line@.len(),
            match read_back(line@.skip(i as int)) {
                Some(rest) => read_back(line@) == Some(out@ + rest),
                None => read_back(line@) is None,
            },
        decreases len - i,
    {
        let rest: &[u8] = vstd::slice::slice_subrange(line, i, len);
        assert(rest@ =~= line@.skip(i as int));
        match decode_byte(rest) {
            Some((b, n)) => {
                let ghost before = out@;
                out.push(b);
                proof {
                    assert(rest@.skip(n as int) =~= line@.skip(i + n));
                    match read_back(line@.skip(i + n)) {
                        Some(more) => {
                            assert(before + (seq![b] + more) =~= out@ + more);
                        },
                        None => {},
                    }
                }
                i = i + n;
            },
            None => {
                return None;
            },
        }
    }
    assert(line@.skip(i as int) =~= Seq::<u8>::empty());
    assert(out@ + Seq::<u8>::empty() =~= out@);
    Some(out)
}

/// The entry that `line` stands for.
pub fn decode_entry(line: &[u8]) -> (r: Option<Vec<char>>)
    ensures
        match r {
            Some(text) => read_entry(line@) == Some(text@),
            None => read_entry(line@) is None,
        },
{
    let bytes: Vec<u8> = match decode_line(line) {
        Some(bytes) => bytes,
        None => {
            return None;
        },
    };
    let text: &str = match std::str::from_utf8(bytes.as_slice()) {
        Ok(text) => text,
        Err(_) => {
            return None;
        },
    };
    proof {
        encode_utf8_decode_utf8(text@);
    }
    Some(cut_at_nul(&chars_of(text)))
}

/// Where the line that begins at `start` ends.
pub fn line_end(bytes: &[u8], start: usize) -> (r: usize)
    requires
        start <= bytes@.len(),
    ensures
        start <= r <= bytes@.len(),
        r == start + line_len(bytes@.skip(start as int)),
{
    let mut i: usize = start;
    while i < bytes.len() && bytes[i] != NEWLINE
        invariant
            start <= i <= bytes@.len(),
            i + line_len(bytes@.skip(i as int)) == start + line_len(bytes@.skip(start as int)),
        decreases bytes@.len() - i,
    {
        assert(bytes@.skip(i as int).skip(1) =~= bytes@.skip(i + 1));
        i = i + 1;
    }
    i
}

/// `line` is the header line, or what there is of it in a file that breaks off.
pub fn is_header(line: &[u8]) -> (r: bool)
    ensures
        r == line@.is_prefix_of(header()),
{
    let mut expected: Vec<u8> = Vec::new();
    write_header(&mut expected);
    assert(expected@ =~= header());
    if line.len() > expected.len() {
        return false;
    }
    let mut i: usize = 0;
    while i < line.len()
        invariant
            i <= line@.len() <= expected@.len(),
            expected@ == header(),
            forall|j: int| 0 <= j < i ==> line@[j] == expected@[j],
        decreases line@.len() - i,
    {
        if line[i] != expected[i] {
            return false;
        }
        i = i + 1;
    }
    assert(line@ =~= header().take(line@.len() as int));
    true
}

/// The texts of `lines`.
pub open spec fn texts_of(lines: Seq<Vec<char>>) -> Seq<Seq<char>> {
    Seq::new(lines.len(), |i: int| lines[i]@)
}

/// The entries of a history file, the oldest first.
pub fn parse_file(bytes: &[u8]) -> (r: Option<Vec<Vec<char>>>)
    ensures
        match r {
            Some(lines) => read_file(bytes@) == Some(texts_of(lines@)),
            None => read_file(bytes@) is None,
        },
{
    let len: usize = bytes.len();
    let end: usize = line_end(bytes, 0);
    assert(bytes@.skip(0) =~= bytes@);
    let mut at: usize = if end < len {
        end + 1
    } else {
        len
    };
    let head: &[u8] = vstd::slice::slice_subrange(bytes, 0, at);
    assert(head@ =~= bytes@.take(at as int));
    if at == 0 || !is_header(head) {
        return None;
    }
    let mut lines: Vec<Vec<char>> = Vec::new();
    proof {
        assert(texts_of(lines@) =~= Seq::<Seq<char>>::empty());
        if read_file(bytes@) is Some {
            assert(texts_of(lines@) + read_file(bytes@)->Some_0 =~= read_file(bytes@)->Some_0);
        }
    }
    while at < len
        invariant
            at <= len == bytes@.len(),
            match read_entries(bytes@.skip(at as int)) {
                Some(rest) => read_file(bytes@) == Some(texts_of(lines@) + rest),
                None => read_file(bytes@) is None,
            },
        decreases len - at,
    {
        let end: usize = line_end(bytes, at);
        let line: &[u8] = vstd::slice::slice_subrange(bytes, at, end);
        let next: usize = if end < len {
            end + 1
        } else {
            len
        };
        let ghost rest = bytes@.skip(at as int);
        assert(line@ =~= rest.take(line_len(rest) as int));
        assert(rest.skip(whole_line_len(rest) as int) =~= bytes@.skip(next as int));
        match decode_entry(line) {
            Some(text) => {
                let ghost before = texts_of(lines@);
                lines.push(text);
                proof {
                    assert(texts_of(lines@) =~= before.push(text@));
                    match read_entries(bytes@.skip(next as int)) {
                        Some(more) => {
                            assert(before + (seq![text@] + more) =~= texts_of(lines@) + more);
                        },
                        None => {},
                    }
                }
            },
            None => {
                return None;
            },
        }
        at = next;
    }
    assert(bytes@.skip(at as int) =~= Seq::<u8>::empty());
    assert(texts_of(lines@) + Seq::<Seq<char>>::empty() =~= texts_of(lines@));
    Some(lines)
}

// ---------------------------------------------------------------------------
// Laws
// ---------------------------------------------------------------------------

/// What is written is read back: the file of any entries without a NUL gives the same
/// entries, in the same order.
pub proof fn law_file_is_read_back(texts: Seq<Seq<char>>)
    requires
        forall|i: int| 0 <= i < texts.len() ==> !(#[trigger] texts[i]).contains('\0'),
    ensures
        read_file(written_file(texts)) == Some(texts),
{
    let bytes = written_file(texts);
    let body = written_entries(texts);
    let line = header().drop_last();
    assert(bytes =~= line.push(NEWLINE) + body);
    lemma_first_line(line, body);
    assert(bytes.take(header().len() as int) =~= header());
    assert(bytes.skip(header().len() as int) =~= body);
    lemma_entries_are_read_back(texts);
}

/// No entry that is read holds a NUL.
pub proof fn lemma_read_file_no_nul(bytes: Seq<u8>)
    ensures
        read_file(bytes) matches Some(texts) ==> forall|i: int|
            0 <= i < texts.len() ==> !(#[trigger] texts[i]).contains('\0'),
{
    lemma_read_entries_no_nul(bytes.skip(whole_line_len(bytes) as int));
}

/// No entry that is read holds a NUL.
proof fn lemma_read_entries_no_nul(bytes: Seq<u8>)
    ensures
        read_entries(bytes) matches Some(texts) ==> forall|i: int|
            0 <= i < texts.len() ==> !(#[trigger] texts[i]).contains('\0'),
    decreases bytes.len(),
{
    if bytes.len() > 0 {
        lemma_line_len(bytes);
        let rest = bytes.skip(whole_line_len(bytes) as int);
        lemma_read_entries_no_nul(rest);
        if read_entries(bytes) is Some {
            let texts = read_entries(bytes)->Some_0;
            let line = bytes.take(line_len(bytes) as int);
            lemma_before_nul_has_none(decode_utf8(read_back(line)->Some_0));
            assert forall|i: int| 0 <= i < texts.len() implies !(#[trigger] texts[i]).contains(
                '\0',
            ) by {
                if i > 0 {
                    assert(texts[i] == read_entries(rest)->Some_0[i - 1]);
                }
            }
        }
    }
}

/// An entry takes one line: what is written of it holds no newline but the last byte.
pub proof fn law_entry_is_one_line(text: Seq<char>)
    ensures
        forall|i: int|
            0 <= i < written_entry(text).len() - 1 ==> written_entry(text)[i] != NEWLINE,
        written_entry(text).last() == NEWLINE,
{
    lemma_no_newline(encode_utf8(text));
}

/// The length of a first line that is followed by a newline.
proof fn lemma_first_line(line: Seq<u8>, rest: Seq<u8>)
    requires
        forall|i: int| 0 <= i < line.len() ==> line[i] != NEWLINE,
    ensures
        line_len(line.push(NEWLINE) + rest) == line.len(),
        whole_line_len(line.push(NEWLINE) + rest) == line.len() + 1,
    decreases line.len(),
{
    let all = line.push(NEWLINE) + rest;
    if line.len() > 0 {
        assert(all[0] == line[0]);
        assert(all.skip(1) =~= line.skip(1).push(NEWLINE) + rest);
        lemma_first_line(line.skip(1), rest);
    }
}

/// The entries that were written are read back.
proof fn lemma_entries_are_read_back(texts: Seq<Seq<char>>)
    requires
        forall|i: int| 0 <= i < texts.len() ==> !(#[trigger] texts[i]).contains('\0'),
    ensures
        read_entries(written_entries(texts)) == Some(texts),
    decreases texts.len(),
{
    if texts.len() > 0 {
        let first = texts[0];
        let rest = texts.skip(1);
        assert forall|i: int| 0 <= i < rest.len() implies !(#[trigger] rest[i]).contains('\0') by {
            assert(rest[i] == texts[i + 1]);
        }
        lemma_entries_are_read_back(rest);
        lemma_entries_from_front(texts);
        let line = written(encode_utf8(first));
        let bytes = written_entries(texts);
        lemma_no_newline(encode_utf8(first));
        lemma_first_line(line, written_entries(rest));
        assert(bytes == line.push(NEWLINE) + written_entries(rest));
        assert(bytes.take(line.len() as int) =~= line);
        assert(bytes.skip(line.len() as int + 1) =~= written_entries(rest));
        lemma_bytes_are_read_back(encode_utf8(first));
        encode_utf8_valid_utf8(first);
        encode_utf8_decode_utf8(first);
        assert(!texts[0].contains('\0'));
        lemma_before_nul(first);
        assert(seq![first] + rest =~= texts);
    } else {
        assert(texts =~= Seq::<Seq<char>>::empty());
    }
}

/// The entries of a file, the first one taken apart.
proof fn lemma_entries_from_front(texts: Seq<Seq<char>>)
    requires
        texts.len() > 0,
    ensures
        written_entries(texts) == written_entry(texts[0]) + written_entries(texts.skip(1)),
    decreases texts.len(),
{
    let rest = texts.skip(1);
    if texts.len() == 1 {
        assert(texts.drop_last() =~= Seq::<Seq<char>>::empty());
        assert(rest =~= Seq::<Seq<char>>::empty());
        assert(written_entries(texts) =~= written_entry(texts[0]) + written_entries(rest));
    } else {
        lemma_entries_from_front(texts.drop_last());
        assert(texts.drop_last().skip(1) =~= rest.drop_last());
        assert(written_entries(texts) =~= written_entry(texts[0]) + written_entries(rest));
    }
}

/// What is written of bytes, the first one taken apart.
proof fn lemma_written_from_front(bytes: Seq<u8>)
    requires
        bytes.len() > 0,
    ensures
        written(bytes) == written_byte(bytes[0]) + written(bytes.skip(1)),
    decreases bytes.len(),
{
    let rest = bytes.skip(1);
    if bytes.len() == 1 {
        assert(bytes.drop_last() =~= Seq::<u8>::empty());
        assert(rest =~= Seq::<u8>::empty());
        assert(written(bytes) =~= written_byte(bytes[0]) + written(rest));
    } else {
        lemma_written_from_front(bytes.drop_last());
        assert(bytes.drop_last().skip(1) =~= rest.drop_last());
        assert(written(bytes) =~= written_byte(bytes[0]) + written(rest));
    }
}

/// What is written of bytes holds no newline.
proof fn lemma_no_newline(bytes: Seq<u8>)
    ensures
        forall|i: int| 0 <= i < written(bytes).len() ==> written(bytes)[i] != NEWLINE,
    decreases bytes.len(),
{
    if bytes.len() > 0 {
        lemma_no_newline(bytes.drop_last());
        let head = written(bytes.drop_last());
        let b = bytes.last();
        assert forall|i: int| 0 <= i < written_byte(b).len() implies written_byte(b)[i]
            != NEWLINE by {}
        assert forall|i: int| 0 <= i < written(bytes).len() implies written(bytes)[i] != NEWLINE by {
            if i >= head.len() {
                assert(written(bytes)[i] == written_byte(b)[i - head.len()]);
            } else {
                assert(written(bytes)[i] == head[i]);
            }
        }
    }
}

/// The bytes that were written are read back.
proof fn lemma_bytes_are_read_back(bytes: Seq<u8>)
    ensures
        read_back(written(bytes)) == Some(bytes),
    decreases bytes.len(),
{
    if bytes.len() > 0 {
        let b = bytes[0];
        let rest = bytes.skip(1);
        let line = written(bytes);
        lemma_written_from_front(bytes);
        lemma_byte_is_read_back(b, written(rest));
        let n = written_byte(b).len() as int;
        assert(line.skip(n) =~= written(rest));
        lemma_bytes_are_read_back(rest);
        assert(seq![b] + rest =~= bytes);
    } else {
        assert(bytes =~= Seq::<u8>::empty());
    }
}

/// A byte that was written is read back, whatever follows it.
proof fn lemma_byte_is_read_back(b: u8, rest: Seq<u8>)
    ensures
        read_byte(written_byte(b) + rest) == Some((b, written_byte(b).len())),
        written_byte(b).len() > 0,
{
    let line = written_byte(b) + rest;
    if octal_byte(b) {
        let digits = line.skip(1);
        assert(digits[0] == line[1] && digits[1] == line[2] && digits[2] == line[3]);
        assert(octal_len(digits) == 3);
        let three = line.subrange(1, 4);
        assert(three =~= seq![line[1], line[2], line[3]]);
        assert(three.drop_last() =~= seq![line[1], line[2]]);
        assert(seq![line[1], line[2]].drop_last() =~= seq![line[1]]);
        assert(seq![line[1]].drop_last() =~= Seq::<u8>::empty());
        reveal_with_fuel(octal_value, 4);
    } else if b < 0x20 {
        assert(((b + 0x40) as u8) & 0x1f == b) by (bit_vector)
            requires
                b < 0x20,
        ;
    }
}

/// A file is the line `_HiStOrY_V2_` and then the entries, each after the ones before it.
pub proof fn law_file_lists_the_entries(texts: Seq<Seq<char>>, text: Seq<char>)
    ensures
        written_file(Seq::empty()) == seq![
                0x5fu8,
                0x48,
                0x69,
                0x53,
                0x74,
                0x4f,
                0x72,
                0x59,
                0x5f,
                0x56,
                0x32,
                0x5f,
                0x0a,
            ],
        written_file(texts.push(text)) == written_file(texts) + written_entry(text),
{
    assert(texts.push(text).drop_last() =~= texts);
    assert(written_file(Seq::empty()) =~= header());
    assert(written_file(texts.push(text)) =~= written_file(texts) + written_entry(text));
}

/// How an entry is written, character by character: space, tab, newline and backslash as a
/// backslash and three octal digits, the other control characters as `\^` and a letter, and
/// everything else as it is. A newline ends it.
pub proof fn law_how_characters_are_written(text: Seq<char>, c: char)
    ensures
        written_entry(Seq::empty()) == seq![0x0au8],
        written_entry(text.push(c)) == written_entry(text).drop_last() + (if c == ' ' {
            seq![0x5cu8, 0x30, 0x34, 0x30]
        } else if c == '\t' {
            seq![0x5cu8, 0x30, 0x31, 0x31]
        } else if c == '\n' {
            seq![0x5cu8, 0x30, 0x31, 0x32]
        } else if c == '\\' {
            seq![0x5cu8, 0x31, 0x33, 0x34]
        } else if c <= '\x1f' {
            seq![0x5cu8, 0x5e, (c as int + 0x40) as u8]
        } else if c == '\x7f' {
            seq![0x5cu8, 0x5e, 0x3f]
        } else {
            encode_scalar(c as u32)
        }) + seq![0x0au8],
{
    let bytes = encode_utf8(text);
    let more = encode_scalar(c as u32);
    lemma_encode_concat(text, seq![c]);
    assert(text + seq![c] =~= text.push(c));
    reveal_with_fuel(encode_utf8, 2);
    assert(encode_utf8(seq![c]) =~= more);
    lemma_written_concat(bytes, more);
    assert(encode_utf8(Seq::<char>::empty()) =~= Seq::<u8>::empty());
    assert(written_entry(Seq::empty()) =~= seq![0x0au8]);
    assert(written_entry(text).drop_last() =~= written(bytes));
    assert(written_entry(text.push(c)) =~= written(bytes) + written(more) + seq![0x0au8]);
    if (c as u32) < 0x80 {
        let s = c as u32;
        assert((s & 0x7F) as u8 == s) by (bit_vector)
            requires
                s <= 0x7F,
        ;
        assert(more =~= seq![c as u8]);
        lemma_written_from_front(more);
        assert(more.skip(1) =~= Seq::<u8>::empty());
        assert(written(more) =~= written_byte(c as u8));
    } else {
        assert forall|i: int| 0 <= i < more.len() implies #[trigger] more[i] >= 0x80 by {
            if more[i] < 0x80 {
                crate::utf8::lemma_ascii_byte(c, i);
            }
        }
        lemma_written_as_is(more);
    }
}

/// What is written of two runs of bytes is written of them one after the other.
proof fn lemma_written_concat(a: Seq<u8>, b: Seq<u8>)
    ensures
        written(a + b) == written(a) + written(b),
    decreases b.len(),
{
    if b.len() == 0 {
        assert(a + b =~= a);
        assert(written(a) + written(b) =~= written(a));
    } else {
        assert((a + b).drop_last() =~= a + b.drop_last());
        lemma_written_concat(a, b.drop_last());
        assert(written(a + b) =~= written(a) + written(b));
    }
}

/// Bytes that are not ASCII are written as they are.
proof fn lemma_written_as_is(bytes: Seq<u8>)
    requires
        forall|i: int| 0 <= i < bytes.len() ==> #[trigger] bytes[i] >= 0x80,
    ensures
        written(bytes) == bytes,
    decreases bytes.len(),
{
    if bytes.len() > 0 {
        lemma_written_as_is(bytes.drop_last());
        assert(bytes[bytes.len() - 1] >= 0x80);
        assert(written(bytes) =~= bytes);
    } else {
        assert(written(bytes) =~= bytes);
    }
}

/// A file is read line by line: each line gives one entry, in order, and a file with a line
/// that gives none is refused as a whole. The last line need not end in a newline.
pub proof fn law_file_is_read_line_by_line(line: Seq<u8>, rest: Seq<u8>)
    requires
        forall|i: int| 0 <= i < line.len() ==> line[i] != 0x0a,
    ensures
        ({
            let head = seq![
                0x5fu8,
                0x48,
                0x69,
                0x53,
                0x74,
                0x4f,
                0x72,
                0x59,
                0x5f,
                0x56,
                0x32,
                0x5f,
                0x0a,
            ];
            &&& read_file(head) == Some(Seq::<Seq<char>>::empty())
            &&& read_file(head + line.push(0x0a) + rest) == (match (
                read_entry(line),
                read_file(head + rest),
            ) {
                (Some(text), Some(texts)) => Some(seq![text] + texts),
                _ => None,
            })
            &&& line.len() > 0 ==> read_file(head + line) == (match read_entry(line) {
                Some(text) => Some(seq![text]),
                None => None,
            })
        }),
{
    let head = header();
    lemma_after_header(Seq::empty());
    assert(head + Seq::<u8>::empty() =~= head);
    lemma_after_header(line.push(0x0a) + rest);
    assert(head + (line.push(0x0a) + rest) =~= head + line.push(0x0a) + rest);
    lemma_after_header(rest);
    lemma_after_header(line);
    let bytes = line.push(0x0a) + rest;
    lemma_first_line(line, rest);
    assert(bytes.take(line.len() as int) =~= line);
    assert(bytes.skip(line.len() as int + 1) =~= rest);
    if line.len() > 0 {
        lemma_last_line(line);
        assert(line.take(line.len() as int) =~= line);
        assert(line.skip(line.len() as int) =~= Seq::<u8>::empty());
        if read_entry(line) is Some {
            let text = read_entry(line)->Some_0;
            assert(seq![text] + Seq::<Seq<char>>::empty() =~= seq![text]);
        }
    }
}

/// What follows the header are the entries.
proof fn lemma_after_header(rest: Seq<u8>)
    ensures
        read_file(header() + rest) == read_entries(rest),
{
    let head = header();
    let line = head.drop_last();
    let bytes = head + rest;
    assert(head =~= line.push(NEWLINE));
    assert forall|i: int| 0 <= i < line.len() implies line[i] != NEWLINE by {}
    lemma_first_line(line, rest);
    assert(bytes.take(head.len() as int) =~= head);
    assert(bytes.skip(head.len() as int) =~= rest);
}

/// A last line without a newline reaches to the end.
proof fn lemma_last_line(line: Seq<u8>)
    requires
        forall|i: int| 0 <= i < line.len() ==> line[i] != NEWLINE,
    ensures
        line_len(line) == line.len(),
        whole_line_len(line) == line.len(),
    decreases line.len(),
{
    if line.len() > 0 {
        lemma_last_line(line.skip(1));
    }
}

/// How long the first line is: up to its newline, or to the end.
pub proof fn law_length_of_a_line(line: Seq<u8>, rest: Seq<u8>)
    requires
        forall|i: int| 0 <= i < line.len() ==> line[i] != 0x0a,
    ensures
        line_len(line.push(0x0a) + rest) == line.len(),
        line_len(line) == line.len(),
{
    lemma_first_line(line, rest);
    lemma_last_line(line);
}

/// Only a file that begins with the header line is read, or one that breaks off in it, which
/// has no entries.
pub proof fn law_files_without_a_header(bytes: Seq<u8>)
    requires
        read_file(bytes) is Some,
    ensures
        bytes.len() > 0,
        bytes.len() < 13 ==> read_file(bytes) == Some(Seq::<Seq<char>>::empty()),
        forall|i: int|
            0 <= i < 13 && i < bytes.len() ==> #[trigger] bytes[i] == seq![
                0x5fu8,
                0x48,
                0x69,
                0x53,
                0x74,
                0x4f,
                0x72,
                0x59,
                0x5f,
                0x56,
                0x32,
                0x5f,
                0x0a,
            ][i],
{
    let n = whole_line_len(bytes) as int;
    let line = bytes.take(n);
    lemma_line_len(bytes);
    if n < bytes.len() || line_len(bytes) < bytes.len() {
        assert(line[n - 1] == NEWLINE);
        assert(line[n - 1] == header()[n - 1]);
        assert(n == 13);
    } else {
        assert(bytes.skip(n) =~= Seq::<u8>::empty());
    }
    assert forall|i: int| 0 <= i < 13 && i < bytes.len() implies #[trigger] bytes[i]
        == header()[i] by {
        assert(bytes[i] == line[i]);
    }
}

/// A line in UTF-8 without a backslash stands for its own text.
pub proof fn law_plain_line_is_its_text(text: Seq<char>)
    requires
        forall|i: int| 0 <= i < text.len() ==> (#[trigger] text[i]) != '\\' && text[i] != '\0',
    ensures
        read_entry(encode_utf8(text)) == Some(text),
{
    let bytes = encode_utf8(text);
    lemma_no_backslash(text);
    lemma_read_as_is(bytes);
    encode_utf8_valid_utf8(text);
    encode_utf8_decode_utf8(text);
    assert(!text.contains('\0'));
    lemma_before_nul(text);
}

/// The entry of a line is the text that its bytes encode, up to a NUL; where they encode none
/// the line is malformed.
pub proof fn law_entry_of_a_line(line: Seq<u8>, text: Seq<char>, rest: Seq<char>)
    requires
        !text.contains('\0'),
    ensures
        read_back(line) == Some(encode_utf8(text)) ==> read_entry(line) == Some(text),
        read_back(line) == Some(encode_utf8(text.push('\0') + rest)) ==> read_entry(line) == Some(
            text,
        ),
        read_back(line) is None ==> read_entry(line) is None,
        (read_back(line) matches Some(bytes) && !valid_utf8(bytes)) ==> read_entry(line) is None,
{
    let longer = text.push('\0') + rest;
    encode_utf8_valid_utf8(text);
    encode_utf8_decode_utf8(text);
    encode_utf8_valid_utf8(longer);
    encode_utf8_decode_utf8(longer);
    crate::text::law_text_before_nul(text, rest);
}

/// What the notations of a line stand for, wherever they stand in it: a byte other than a
/// backslash for itself; two backslashes for one; a backslash and three octal digits for
/// their number; `\^` and a letter for its control character, `\^?` for DEL; `\M-` and `\M^`
/// for the same with the high bit set.
pub proof fn law_notations_of_a_line(b: u8, x: u8, y: u8, z: u8, rest: Seq<u8>)
    requires
        0x30 <= x <= 0x37,
        0x30 <= y <= 0x37,
        0x30 <= z <= 0x37,
    ensures
        read_back(Seq::empty()) == Some(Seq::<u8>::empty()),
        b != 0x5c ==> read_back(seq![b] + rest) == (match read_back(rest) {
            Some(more) => Some(seq![b] + more),
            None => None,
        }),
        read_back(seq![0x5cu8, 0x5c] + rest) == (match read_back(rest) {
            Some(more) => Some(seq![0x5cu8] + more),
            None => None,
        }),
        read_back(seq![0x5cu8, x, y, z] + rest) == (match read_back(rest) {
            Some(more) => Some(
                seq![(((x - 0x30) * 64 + (y - 0x30) * 8 + (z - 0x30)) % 256) as u8] + more,
            ),
            None => None,
        }),
        read_back(seq![0x5cu8, 0x5e, b] + rest) == (match read_back(rest) {
            Some(more) => Some(
                seq![if b == 0x3f {
                    0x7fu8
                } else {
                    (b % 32) as u8
                }] + more,
            ),
            None => None,
        }),
        read_back(seq![0x5cu8, 0x4d, 0x2d, b] + rest) == (match read_back(rest) {
            Some(more) => Some(
                seq![if b < 0x80 {
                    (b + 0x80) as u8
                } else {
                    b
                }] + more,
            ),
            None => None,
        }),
        read_back(seq![0x5cu8, 0x4d, 0x5e, b] + rest) == (match read_back(rest) {
            Some(more) => Some(
                seq![if b == 0x3f {
                    0xffu8
                } else {
                    (b % 32 + 0x80) as u8
                }] + more,
            ),
            None => None,
        }),
{
    assert(b & 0x1f == b % 32) by (bit_vector);
    assert(b < 0x80 ==> b | 0x80 == (b + 0x80) as u8) by (bit_vector);
    assert(b >= 0x80 ==> b | 0x80 == b) by (bit_vector);
    assert((b & 0x1f) | 0x80 == (b % 32 + 0x80) as u8) by (bit_vector);
    assert(0x7fu8 | 0x80 == 0xff) by (bit_vector);
    if b != 0x5c {
        lemma_notation(seq![b], b, rest);
    }
    lemma_notation(seq![0x5cu8, 0x5c], 0x5c, rest);
    lemma_octal_notation(x, y, z, rest);
    lemma_notation(seq![0x5cu8, 0x5e, b], control_of(b), rest);
    lemma_notation(seq![0x5cu8, 0x4d, 0x2d, b], b | 0x80, rest);
    lemma_notation(seq![0x5cu8, 0x4d, 0x5e, b], control_of(b) | 0x80, rest);
}

/// A notation that stands for one byte stands for it before the rest of a line.
proof fn lemma_notation(notation: Seq<u8>, b: u8, rest: Seq<u8>)
    requires
        notation.len() > 0,
        read_byte(notation + rest) == Some((b, notation.len())),
    ensures
        read_back(notation + rest) == (match read_back(rest) {
            Some(more) => Some(seq![b] + more),
            None => None,
        }),
{
    assert((notation + rest).skip(notation.len() as int) =~= rest);
}

/// A backslash and three octal digits stand for their number.
proof fn lemma_octal_notation(x: u8, y: u8, z: u8, rest: Seq<u8>)
    requires
        0x30 <= x <= 0x37,
        0x30 <= y <= 0x37,
        0x30 <= z <= 0x37,
    ensures
        read_back(seq![0x5cu8, x, y, z] + rest) == (match read_back(rest) {
            Some(more) => Some(
                seq![(((x - 0x30) * 64 + (y - 0x30) * 8 + (z - 0x30)) % 256) as u8] + more,
            ),
            None => None,
        }),
{
    let octal = seq![0x5cu8, x, y, z] + rest;
    let digits = octal.skip(1);
    assert(digits[0] == x && digits[1] == y && digits[2] == z);
    assert(octal_len(digits) == 3);
    let three = octal.subrange(1, 4);
    assert(three =~= seq![x, y, z]);
    assert(three.drop_last() =~= seq![x, y]);
    assert(seq![x, y].drop_last() =~= seq![x]);
    assert(seq![x].drop_last() =~= Seq::<u8>::empty());
    reveal_with_fuel(octal_value, 4);
    let value = (((x - 0x30) * 64 + (y - 0x30) * 8 + (z - 0x30)) % 256) as u8;
    assert(octal_value(three) == value);
    lemma_notation(seq![0x5cu8, x, y, z], value, rest);
}

/// One or two octal digits do, where no third follows.
pub proof fn law_short_octal_notations(x: u8, y: u8, rest: Seq<u8>)
    requires
        0x30 <= x <= 0x37,
        0x30 <= y <= 0x37,
        rest.len() > 0 ==> !(0x30 <= rest[0] <= 0x37),
    ensures
        read_back(seq![0x5cu8, x] + rest) == (match read_back(rest) {
            Some(more) => Some(seq![(x - 0x30) as u8] + more),
            None => None,
        }),
        read_back(seq![0x5cu8, x, y] + rest) == (match read_back(rest) {
            Some(more) => Some(seq![((x - 0x30) * 8 + (y - 0x30)) as u8] + more),
            None => None,
        }),
{
    let one = seq![0x5cu8, x] + rest;
    assert(one.skip(2) =~= rest);
    let digits = one.skip(1);
    assert(digits[0] == x);
    if rest.len() > 0 {
        assert(digits[1] == rest[0]);
    }
    assert(octal_len(digits) == 1);
    assert(one.subrange(1, 2) =~= seq![x]);
    assert(seq![x].drop_last() =~= Seq::<u8>::empty());
    let two = seq![0x5cu8, x, y] + rest;
    assert(two.skip(3) =~= rest);
    let digits2 = two.skip(1);
    assert(digits2[0] == x && digits2[1] == y);
    if rest.len() > 0 {
        assert(digits2[2] == rest[0]);
    }
    assert(octal_len(digits2) == 2);
    assert(two.subrange(1, 3) =~= seq![x, y]);
    assert(seq![x, y].drop_last() =~= seq![x]);
    reveal_with_fuel(octal_value, 3);
    assert(octal_value(seq![x]) == x - 0x30);
    assert(octal_value(seq![x, y]) == (x - 0x30) * 8 + (y - 0x30));
}

/// A backslash that begins none of the notations makes a line malformed.
pub proof fn law_other_backslashes_are_malformed(b: u8, rest: Seq<u8>)
    requires
        b != 0x5c,
        b != 0x5e,
        b != 0x4d,
        !(0x30 <= b <= 0x37),
    ensures
        read_back(seq![0x5cu8]) is None,
        read_back(seq![0x5cu8, b] + rest) is None,
        read_back(seq![0x5cu8, 0x5e]) is None,
        rest.len() > 0 && rest[0] != 0x2d && rest[0] != 0x5e ==> read_back(
            seq![0x5cu8, 0x4d] + rest,
        ) is None,
        rest.len() < 2 ==> read_back(seq![0x5cu8, 0x4d] + rest) is None,
{
}

/// The texts of the lines that were read.
pub proof fn law_texts_of_lines(lines: Seq<Vec<char>>)
    ensures
        texts_of(lines).len() == lines.len(),
        forall|i: int| 0 <= i < lines.len() ==> (#[trigger] texts_of(lines)[i]) == lines[i]@,
{
}

/// A text without a backslash has no such byte.
proof fn lemma_no_backslash(text: Seq<char>)
    requires
        forall|i: int| 0 <= i < text.len() ==> (#[trigger] text[i]) != '\\',
    ensures
        forall|i: int| 0 <= i < encode_utf8(text).len() ==> encode_utf8(text)[i] != 0x5c,
    decreases text.len(),
{
    if text.len() > 0 {
        let first = encode_scalar(text[0] as u32);
        let more = text.drop_first();
        assert forall|i: int| 0 <= i < more.len() implies (#[trigger] more[i]) != '\\' by {
            assert(more[i] == text[i + 1]);
        }
        lemma_no_backslash(more);
        assert forall|i: int| 0 <= i < encode_utf8(text).len() implies encode_utf8(text)[i]
            != 0x5c by {
            if i < first.len() {
                if first[i] == 0x5c {
                    crate::utf8::lemma_ascii_byte(text[0], i);
                }
            } else {
                assert(encode_utf8(text)[i] == encode_utf8(more)[i - first.len()]);
            }
        }
    }
}

/// Bytes without a backslash stand for themselves.
proof fn lemma_read_as_is(bytes: Seq<u8>)
    requires
        forall|i: int| 0 <= i < bytes.len() ==> bytes[i] != 0x5c,
    ensures
        read_back(bytes) == Some(bytes),
    decreases bytes.len(),
{
    if bytes.len() > 0 {
        lemma_read_as_is(bytes.skip(1));
        assert(seq![bytes[0]] + bytes.skip(1) =~= bytes);
    } else {
        assert(bytes =~= Seq::<u8>::empty());
    }
}

/// A file that breaks off in the header line is read and has no entries.
pub proof fn law_file_that_breaks_off(n: int)
    requires
        0 < n < 13,
    ensures
        read_file(
            seq![
                0x5fu8,
                0x48,
                0x69,
                0x53,
                0x74,
                0x4f,
                0x72,
                0x59,
                0x5f,
                0x56,
                0x32,
                0x5f,
                0x0a,
            ].take(n),
        ) == Some(Seq::<Seq<char>>::empty()),
{
    let bytes = header().take(n);
    assert forall|i: int| 0 <= i < bytes.len() implies bytes[i] != NEWLINE by {}
    lemma_last_line(bytes);
    assert(bytes.take(n) =~= bytes);
    assert(bytes.skip(n) =~= Seq::<u8>::empty());
}

} // verus!
