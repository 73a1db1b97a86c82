//! Bracketed paste: the bytes between the terminal's start and end markers.
//!
//! A terminal in bracketed-paste mode sends pasted text between `ESC [ 200 ~` and
//! `ESC [ 201 ~`. The text is inserted as it is, whatever keys its characters are
//! bound to. A [`PasteReader`] takes the bytes that follow the start marker, one
//! at a time, and collects the text.
//!
//! An `ESC` begins the end marker. Where the bytes after it are not the rest of
//! the marker, the `ESC` and all bytes up to the one that differs are dropped. If that
//! byte is an `ESC` itself, it begins the marker anew, so that no stray `ESC` can keep a
//! paste from ending.
//!
//! Bytes that encode no character become U+FFFD. A byte that breaks a character off is
//! read as the first of what follows.

use vstd::prelude::*;
use vstd::utf8::*;

use crate::utf8::{
    char_len, continued, decode_unit, decoded_unit, law_decode_encoded_char,
    law_only_characters_decode, lemma_ascii_byte, lemma_continued, lemma_continued_bound,
    unfinished_char, utf8_char_len, utf8_continues, REPLACEMENT,
};
use crate::wstr::{char_unit, is_character, units_of, WCString, WChar};

verus! {

/// The sequence that turns bracketed-paste mode on.
pub const BRACKETED_PASTE_ON: &'static str = "\x1b[?2004h";

/// The sequence that turns bracketed-paste mode off.
pub const BRACKETED_PASTE_OFF: &'static str = "\x1b[?2004l";

/// Escape.
pub const ESC: u8 = 0x1b;

// ---------------------------------------------------------------------------
// Model
// ---------------------------------------------------------------------------

/// The marker that ends a paste, `ESC [ 201 ~`.
pub open spec fn end_marker() -> Seq<u8> {
    seq![ESC, 0x5b, 0x32, 0x30, 0x31, 0x7e]
}

/// How many bytes at the start of `bytes` agree with the start of the marker.
pub open spec fn marker_match(bytes: Seq<u8>, marker: Seq<u8>) -> nat
    decreases marker.len(),
{
    if bytes.len() == 0 || marker.len() == 0 || bytes[0] != marker[0] {
        0
    } else {
        1 + marker_match(bytes.skip(1), marker.skip(1))
    }
}

/// The text of a paste whose bytes are `bytes`: everything up to the end marker,
/// or up to the end where there is none, each character decoded on its own and U+FFFD
/// standing for one that breaks off.
pub open spec fn paste_text(bytes: Seq<u8>) -> Seq<WChar>
    decreases bytes.len(),
{
    if bytes.len() == 0 {
        Seq::empty()
    } else if bytes[0] == ESC {
        let n = marker_match(bytes, end_marker());
        if n == end_marker().len() || n >= bytes.len() {
            Seq::empty()
        } else if bytes[n as int] == ESC {
            paste_text(bytes.skip(n as int))
        } else {
            paste_text(bytes.skip(n as int + 1))
        }
    } else {
        let n = 1 + continued(bytes.skip(1), (char_len(bytes[0]) - 1) as nat);
        proof {
            lemma_continued_bound(bytes.skip(1), (char_len(bytes[0]) - 1) as nat);
        }
        if n == char_len(bytes[0]) {
            seq![decoded_unit(bytes.take(n as int))] + paste_text(bytes.skip(n as int))
        } else if n >= bytes.len() {
            Seq::empty()
        } else {
            seq![REPLACEMENT] + paste_text(bytes.skip(n as int))
        }
    }
}

/// Where the reading of a paste stands: the text so far, the bytes of an unfinished
/// character or marker, and whether the paste is over.
#[verifier::ext_equal]
pub struct PasteState {
    pub text: Seq<WChar>,
    pub partial: Seq<u8>,
    pub done: bool,
}

impl PasteState {
    /// The paste of which nothing has been read.
    pub open spec fn start() -> Self {
        PasteState { text: Seq::empty(), partial: Seq::empty(), done: false }
    }

    /// The unfinished bytes are a proper part of a character or of the end marker,
    /// and there are none once the paste is over.
    pub open spec fn valid(self) -> bool {
        &&& self.done ==> self.partial.len() == 0
        &&& self.partial.len() > 0 ==> {
            if self.partial[0] == ESC {
                self.partial.len() < end_marker().len() && self.partial.is_prefix_of(end_marker())
            } else {
                unfinished_char(self.partial)
            }
        }
    }

    /// `b` can be the next byte of what is unfinished.
    pub open spec fn goes_on(self, b: u8) -> bool {
        if self.partial.len() == 0 {
            true
        } else if self.partial[0] == ESC {
            self.partial.push(b).is_prefix_of(end_marker())
        } else {
            is_continuation_byte(b)
        }
    }

    /// What is unfinished is broken off: a marker is dropped, and U+FFFD stands for a
    /// character.
    pub open spec fn broken_off(self) -> Self {
        PasteState {
            text: if self.partial.len() > 0 && self.partial[0] != ESC {
                self.text.push(REPLACEMENT)
            } else {
                self.text
            },
            partial: Seq::empty(),
            ..self
        }
    }

    /// `b` is the next byte of what is unfinished.
    pub open spec fn take(self, b: u8) -> Self {
        let bytes = self.partial.push(b);
        if bytes == end_marker() {
            PasteState { partial: Seq::empty(), done: true, ..self }
        } else if bytes[0] == ESC || bytes.len() < char_len(bytes[0]) {
            PasteState { partial: bytes, ..self }
        } else {
            PasteState {
                text: self.text.push(decoded_unit(bytes)),
                partial: Seq::empty(),
                ..self
            }
        }
    }

    /// What one more byte makes of the state. A byte that breaks off an unfinished
    /// marker is dropped with it, unless it is an `ESC`.
    pub open spec fn byte(self, b: u8) -> Self {
        if self.goes_on(b) {
            self.take(b)
        } else if self.partial[0] == ESC && b != ESC {
            self.broken_off()
        } else {
            self.broken_off().take(b)
        }
    }

    /// What a read that gives no byte makes of the state: it breaks off an
    /// unfinished end marker, and otherwise ends the paste.
    pub open spec fn no_byte(self) -> Self {
        PasteState {
            partial: Seq::empty(),
            done: self.partial.len() == 0 || self.partial[0] != ESC,
            ..self
        }
    }

    /// The state after `bytes`, of which those that follow the end of the paste are
    /// left unread.
    pub open spec fn run(self, bytes: Seq<u8>) -> Self
        decreases bytes.len(),
    {
        if self.done || bytes.len() == 0 {
            self
        } else {
            self.byte(bytes[0]).run(bytes.skip(1))
        }
    }
}

// ---------------------------------------------------------------------------
// Reader
// ---------------------------------------------------------------------------

/// Collects the text of a paste from its bytes.
#[derive(Debug)]
pub struct PasteReader {
    text: WCString,
    partial: Vec<u8>,
    done: bool,
}

impl View for PasteReader {
    type V = PasteState;

    closed spec fn view(&self) -> PasteState {
        PasteState { text: self.text@, partial: self.partial@, done: self.done }
    }
}

impl PasteReader {
    /// A reader that has read nothing.
    pub fn new() -> (r: Self)
        ensures
            r@ == PasteState::start(),
            r@.valid(),
    {
        PasteReader { text: WCString::new(), partial: Vec::new(), done: false }
    }

    /// Takes the result of one read: a byte, or `None` where it gave none.
    pub fn feed(&mut self, read: Option<u8>)
        requires
            old(self)@.valid(),
            !old(self)@.done,
        ensures
            final(self)@ == (match read {
                Some(b) => old(self)@.byte(b),
                None => old(self)@.no_byte(),
            }),
            final(self)@.valid(),
    {
        let b: u8 = match read {
            Some(b) => b,
            None => {
                self.done = self.partial.len() == 0 || self.partial[0] != ESC;
                self.partial.clear();
                return;
            },
        };
        let at: usize = self.partial.len();
        if at > 0 && self.partial[0] == ESC {
            if marker_byte(at) != b {
                proof {
                    assert(self.partial@.push(b)[at as int] != end_marker()[at as int]);
                }
                self.partial.clear();
                if b != ESC {
                    return;
                }
            }
        } else if at > 0 && !utf8_continues(b) {
            self.text.push_scalar(REPLACEMENT);
            self.partial.clear();
        }
        assert(self@ == old(self)@ || self@ == old(self)@.broken_off());
        proof {
            if self@ == old(self)@ && at > 0 && self.partial@[0] == ESC {
                assert(self.partial@.push(b) =~= end_marker().take(at + 1));
            }
        }
        self.take(b);
    }

    /// Takes a byte that can be the next of what is unfinished.
    fn take(&mut self, b: u8)
        requires
            old(self)@.valid(),
            !old(self)@.done,
            old(self)@.goes_on(b),
        ensures
            final(self)@ == old(self)@.take(b),
            final(self)@.valid(),
    {
        self.partial.push(b);
        let ghost bytes = self.partial@;
        if self.partial[0] == ESC {
            assert(bytes.is_prefix_of(end_marker())) by {
                if bytes.len() == 1 {
                    assert(bytes =~= end_marker().take(1));
                }
            }
            if self.partial.len() == 6 {
                assert(bytes =~= end_marker());
                self.done = true;
                self.partial.clear();
            }
        } else if self.partial.len() >= utf8_char_len(self.partial[0]) {
            self.text.push_scalar(decode_unit(self.partial.as_slice()));
            self.partial.clear();
        }
    }

    /// The paste is over.
    pub fn done(&self) -> (r: bool)
        ensures
            r == self@.done,
    {
        self.done
    }

    /// The text of the paste.
    pub fn into_text(self) -> (r: WCString)
        ensures
            r@ == self@.text,
    {
        self.text
    }
}

/// Byte `at` of the end marker.
fn marker_byte(at: usize) -> (r: u8)
    requires
        at < 6,
    ensures
        r == end_marker()[at as int],
{
    match at {
        0 => ESC,
        1 => 0x5b,
        2 => 0x32,
        3 => 0x30,
        4 => 0x31,
        _ => 0x7e,
    }
}

// ---------------------------------------------------------------------------
// Laws
// ---------------------------------------------------------------------------

/// Reading a paste byte by byte gives its text.
pub proof fn law_paste_text(bytes: Seq<u8>)
    ensures
        PasteState::start().run(bytes).text == paste_text(bytes),
{
    lemma_run_text(PasteState::start(), bytes);
    assert(PasteState::start().partial + bytes =~= bytes);
    assert(PasteState::start().text + paste_text(bytes) =~= paste_text(bytes));
}

/// Whatever bytes a paste holds, its text holds nothing but characters.
pub proof fn law_paste_holds_only_characters(bytes: Seq<u8>)
    ensures
        forall|i: int|
            0 <= i < paste_text(bytes).len() ==> is_character(#[trigger] paste_text(bytes)[i]),
    decreases bytes.len(),
{
    if bytes.len() == 0 {
    } else if bytes[0] == ESC {
        let n = marker_match(bytes, end_marker()) as int;
        if n != end_marker().len() && n < bytes.len() {
            let rest = if bytes[n] == ESC {
                bytes.skip(n)
            } else {
                bytes.skip(n + 1)
            };
            law_paste_holds_only_characters(rest);
            assert(paste_text(bytes) == paste_text(rest));
        }
    } else {
        let most = (char_len(bytes[0]) - 1) as nat;
        let n = 1 + continued(bytes.skip(1), most) as int;
        lemma_continued_bound(bytes.skip(1), most);
        let rest = paste_text(bytes.skip(n));
        law_paste_holds_only_characters(bytes.skip(n));
        law_only_characters_decode(bytes.take(n));
        assert(char_unit('\u{FFFD}') == REPLACEMENT);
        assert(is_character(REPLACEMENT));
        assert forall|i: int| 0 <= i < paste_text(bytes).len() implies is_character(
            #[trigger] paste_text(bytes)[i],
        ) by {
            if i > 0 {
                assert(paste_text(bytes)[i] == rest[i - 1]);
                assert(is_character(rest[i - 1]));
            }
        }
    }
}

/// Pasted text is taken literally: any text without an `ESC`, sent in UTF-8 between
/// the markers, is read back unit for unit, and the end marker ends the paste
/// whatever follows it.
pub proof fn law_paste_is_literal(text: Seq<char>, rest: Seq<u8>)
    requires
        forall|i: int| 0 <= i < text.len() ==> text[i] != '\x1b',
    ensures
        PasteState::start().run(encode_utf8(text) + end_marker() + rest) == (PasteState {
            text: units_of(text),
            partial: Seq::empty(),
            done: true,
        }),
        paste_text(encode_utf8(text) + end_marker() + rest) == units_of(text),
{
    let st = PasteState::start();
    lemma_run_chars(st, text);
    let mid = st.run(encode_utf8(text));
    assert(st.text + units_of(text) =~= units_of(text));
    lemma_run_concat(st, encode_utf8(text), end_marker() + rest);
    lemma_run_concat(mid, end_marker(), rest);
    assert(encode_utf8(text) + end_marker() + rest =~= encode_utf8(text) + (end_marker() + rest));
    lemma_run_marker(mid);
    law_paste_text(encode_utf8(text) + end_marker() + rest);
}

/// A stray escape is dropped: an `ESC` and what follows it, up to and with the first byte
/// that differs from the end marker and is no `ESC`, leave nothing in the text and nothing
/// open.
pub proof fn law_stray_escape_is_dropped(st: PasteState, n: int, b: u8)
    requires
        st.partial.len() == 0,
        !st.done,
        1 <= n < end_marker().len(),
        b != end_marker()[n],
        b != ESC,
    ensures
        st.run(end_marker().take(n).push(b)) == st,
{
    let m = end_marker();
    assert(m.take(0) =~= st.partial);
    lemma_run_stray(st, 0, n, b);
    assert(m.take(n).push(b).skip(0) =~= m.take(n).push(b));
}

/// The end marker always ends a paste, whatever has come before it and whatever follows: a
/// stray `ESC`, or any part of the marker that breaks off, is dropped, and U+FFFD stands for
/// a character that breaks off.
pub proof fn law_end_marker_ends_the_paste(st: PasteState, rest: Seq<u8>)
    requires
        st.valid(),
        !st.done,
    ensures
        st.run(end_marker() + rest) == (PasteState { done: true, ..st.broken_off() }),
{
    let m = end_marker();
    let mid = st.broken_off();
    lemma_run_concat(st, m, rest);
    lemma_run_marker(mid);
    if st.partial.len() > 0 && st.partial[0] == ESC {
        let bytes = st.partial.push(ESC);
        assert(bytes[bytes.len() - 1] != m[bytes.len() - 1]);
    } else if st.partial.len() == 0 {
        assert(st.partial =~= mid.partial);
    }
    assert(st.byte(ESC) == mid.byte(ESC));
}

/// Any number of stray `ESC`s before the end marker leave the text as it is and do not keep
/// the paste from ending.
pub proof fn law_stray_escapes_do_not_hold_the_end(st: PasteState, strays: Seq<u8>, rest: Seq<u8>)
    requires
        st.partial.len() == 0,
        !st.done,
        forall|i: int| 0 <= i < strays.len() ==> strays[i] == ESC,
    ensures
        st.run(strays + end_marker() + rest) == (PasteState { done: true, ..st }),
{
    lemma_run_escapes(st, strays);
    let mid = st.run(strays);
    assert(strays + end_marker() + rest =~= strays + (end_marker() + rest));
    lemma_run_concat(st, strays, end_marker() + rest);
    law_end_marker_ends_the_paste(mid, rest);
    assert(mid.broken_off().partial =~= st.partial);
}

/// Stray `ESC`s change nothing but what is unfinished.
proof fn lemma_run_escapes(st: PasteState, strays: Seq<u8>)
    requires
        st.valid(),
        !st.done,
        st.partial.len() == 0 || st.partial[0] == ESC,
        forall|i: int| 0 <= i < strays.len() ==> strays[i] == ESC,
    ensures
        ({
            let end = st.run(strays);
            &&& end.valid()
            &&& !end.done
            &&& end.text == st.text
            &&& end.partial.len() == 0 || end.partial[0] == ESC
        }),
    decreases strays.len(),
{
    if strays.len() > 0 {
        let bytes = st.partial.push(ESC);
        if st.partial.len() > 0 {
            assert(bytes[bytes.len() - 1] != end_marker()[bytes.len() - 1]);
        }
        assert(seq![ESC] != end_marker()) by {
            assert(seq![ESC].len() != end_marker().len());
        }
        lemma_byte_valid(st, ESC);
        lemma_run_escapes(st.byte(ESC), strays.skip(1));
    }
}

/// Reading a stray escape from its byte `k` on drops it.
proof fn lemma_run_stray(st: PasteState, k: int, n: int, b: u8)
    requires
        0 <= k <= n < end_marker().len(),
        1 <= n,
        b != end_marker()[n],
        b != ESC,
        st.partial == end_marker().take(k),
        !st.done,
    ensures
        st.run(end_marker().take(n).push(b).skip(k)) == (PasteState { partial: Seq::empty(), ..st }),
    decreases n - k,
{
    let m = end_marker();
    let stray = m.take(n).push(b);
    let rest = stray.skip(k);
    assert(rest.skip(1) =~= stray.skip(k + 1));
    let next = st.byte(rest[0]);
    if k < n {
        assert(rest[0] == m[k]);
        assert(st.partial.push(m[k]) =~= m.take(k + 1));
        assert(m.take(k + 1) != m) by {
            assert(m.take(k + 1).len() != m.len());
        }
        lemma_run_stray(next, k + 1, n, b);
    } else {
        assert(rest[0] == b);
        let bytes = st.partial.push(b);
        assert(bytes[n] == b);
        assert(bytes[0] == ESC);
        assert(!bytes.is_prefix_of(m));
        assert(next.run(rest.skip(1)) == next);
    }
}

/// The matched length is where the two sequences first differ, or where one ends.
proof fn lemma_marker_match(bytes: Seq<u8>, marker: Seq<u8>, n: nat)
    requires
        n <= bytes.len(),
        n <= marker.len(),
        forall|i: int| 0 <= i < n ==> #[trigger] bytes[i] == marker[i],
        n == bytes.len() || n == marker.len() || bytes[n as int] != marker[n as int],
    ensures
        marker_match(bytes, marker) == n,
    decreases n,
{
    if n > 0 {
        assert(bytes[0] == marker[0]);
        assert forall|i: int| 0 <= i < n - 1 implies #[trigger] bytes.skip(1)[i] == marker.skip(
            1,
        )[i] by {
            assert(bytes[i + 1] == marker[i + 1]);
        }
        lemma_marker_match(bytes.skip(1), marker.skip(1), (n - 1) as nat);
    }
}

/// One byte keeps the state valid.
pub proof fn lemma_byte_valid(st: PasteState, b: u8)
    requires
        st.valid(),
        !st.done,
    ensures
        st.byte(b).valid(),
{
    let bytes = st.partial.push(b);
    if st.goes_on(b) && bytes[0] == ESC && bytes.len() == end_marker().len() {
        assert(bytes =~= end_marker());
    }
    if b == ESC {
        assert(seq![b] =~= end_marker().take(1));
    }
    assert(Seq::<u8>::empty().push(b) =~= seq![b]);
    if st.partial.len() == 0 {
        assert(bytes =~= seq![b]);
    }
}

/// What is read from any state is what it held, then the text of its unfinished
/// bytes and of those that follow.
proof fn lemma_run_text(st: PasteState, bytes: Seq<u8>)
    requires
        st.valid(),
        !st.done,
    ensures
        st.run(bytes).text == st.text + paste_text(st.partial + bytes),
    decreases bytes.len(), st.partial.len(),
{
    let all = st.partial + bytes;
    let k = st.partial.len() as int;
    if bytes.len() == 0 {
        assert(all =~= st.partial);
        if k > 0 && st.partial[0] == ESC {
            lemma_marker_match(st.partial, end_marker(), st.partial.len());
        } else if k > 0 {
            lemma_continued_unfinished(st.partial, all);
        }
        assert(paste_text(all) =~= Seq::<WChar>::empty());
        assert(st.text + Seq::<WChar>::empty() =~= st.text);
    } else {
        let b = bytes[0];
        let head = st.partial.push(b);
        let rest = bytes.skip(1);
        let next = st.byte(b);
        lemma_byte_valid(st, b);
        assert(all =~= head + rest);
        assert(all[0] == head[0]);
        assert(all[k] == b);
        if !st.goes_on(b) {
            if head[0] == ESC {
                assert forall|i: int| 0 <= i < k implies #[trigger] all[i] == end_marker()[i] by {
                    assert(all[i] == st.partial[i]);
                }
                if b == end_marker()[k] {
                    assert(head =~= end_marker().take(k + 1));
                }
                lemma_marker_match(all, end_marker(), k as nat);
            } else {
                lemma_continued_unfinished(st.partial, all);
            }
            let mid = st.broken_off();
            assert(all.skip(k) =~= bytes);
            assert(all.skip(k + 1) =~= rest);
            assert(mid.partial + rest =~= rest);
            assert(mid.partial + bytes =~= bytes);
            if head[0] == ESC && b != ESC {
                lemma_run_text(mid, rest);
            } else {
                lemma_run_text(mid, bytes);
                assert(mid.byte(b) == next);
                assert(mid.run(bytes) == st.run(bytes));
                assert(st.text.push(REPLACEMENT) + paste_text(bytes) =~= st.text + (seq![
                    REPLACEMENT,
                ] + paste_text(bytes)));
            }
        } else if head == end_marker() {
            assert forall|i: int| 0 <= i < 6 implies #[trigger] all[i] == end_marker()[i] by {
                assert(all[i] == head[i]);
            }
            lemma_marker_match(all, end_marker(), 6);
            assert(paste_text(all) =~= Seq::<WChar>::empty());
            assert(next.run(rest) == next);
            assert(st.text + Seq::<WChar>::empty() =~= st.text);
        } else if head[0] == ESC || head.len() < char_len(head[0]) {
            lemma_run_text(next, rest);
        } else {
            let n = char_len(head[0]) as int;
            assert forall|i: int| 0 <= i < n - 1 implies is_continuation_byte(
                #[trigger] all.skip(1)[i],
            ) by {
                assert(all.skip(1)[i] == head[i + 1]);
                if i + 1 < k {
                    assert(is_continuation_byte(st.partial[i + 1]));
                }
            }
            lemma_continued(all.skip(1), (n - 1) as nat, (n - 1) as nat);
            assert(all.take(n) =~= head);
            assert(all.skip(n) =~= rest);
            assert(Seq::<u8>::empty() + rest =~= rest);
            lemma_run_text(next, rest);
            assert(st.text.push(decoded_unit(head)) + paste_text(rest) =~= st.text + (seq![
                decoded_unit(head),
            ] + paste_text(rest)));
        }
    }
}

/// Where a character breaks off, its continuation bytes are those that have been read.
proof fn lemma_continued_unfinished(partial: Seq<u8>, all: Seq<u8>)
    requires
        unfinished_char(partial),
        partial.is_prefix_of(all),
        partial.len() < all.len() ==> !is_continuation_byte(all[partial.len() as int]),
    ensures
        continued(all.skip(1), (char_len(all[0]) - 1) as nat) == partial.len() - 1,
{
    let n = (partial.len() - 1) as nat;
    assert forall|i: int| 0 <= i < n implies is_continuation_byte(#[trigger] all.skip(1)[i]) by {
        assert(is_continuation_byte(partial[i + 1]));
    }
    lemma_continued(all.skip(1), (char_len(all[0]) - 1) as nat, n);
}

/// Reading two runs of bytes one after the other is reading them together.
proof fn lemma_run_concat(st: PasteState, a: Seq<u8>, b: Seq<u8>)
    ensures
        st.run(a + b) == st.run(a).run(b),
    decreases a.len(),
{
    if a.len() == 0 {
        assert(a + b =~= b);
    } else if !st.done {
        assert((a + b).skip(1) =~= a.skip(1) + b);
        lemma_run_concat(st.byte(a[0]), a.skip(1), b);
    }
}

/// The bytes of one character add its unit to the text.
proof fn lemma_run_char(st: PasteState, c: char)
    requires
        st.partial.len() == 0,
        !st.done,
        c != '\x1b',
    ensures
        st.run(encode_scalar(c as u32)) == (PasteState {
            text: st.text.push(char_unit(c)),
            ..st
        }),
{
    let bytes = encode_scalar(c as u32);
    law_decode_encoded_char(c);
    if bytes[0] == ESC {
        lemma_ascii_byte(c, 0);
    }
    assert(bytes.take(0) =~= st.partial);
    lemma_run_partial(st, bytes, 0);
    assert(bytes.skip(0) =~= bytes);
}

/// Reading the bytes of one character from its byte `k` on finishes it.
proof fn lemma_run_partial(st: PasteState, bytes: Seq<u8>, k: int)
    requires
        0 <= k < bytes.len(),
        bytes.len() == char_len(bytes[0]),
        bytes[0] != ESC,
        forall|i: int| 1 <= i < bytes.len() ==> is_continuation_byte(#[trigger] bytes[i]),
        st.partial == bytes.take(k),
        !st.done,
    ensures
        st.run(bytes.skip(k)) == (PasteState {
            text: st.text.push(decoded_unit(bytes)),
            partial: Seq::empty(),
            ..st
        }),
    decreases bytes.len() - k,
{
    let b = bytes[k];
    assert(st.partial.push(b) =~= bytes.take(k + 1));
    assert(bytes.skip(k)[0] == b);
    assert(bytes.skip(k).skip(1) =~= bytes.skip(k + 1));
    let next = st.byte(b);
    if k + 1 < bytes.len() {
        lemma_run_partial(next, bytes, k + 1);
    } else {
        assert(bytes.take(k + 1) =~= bytes);
        assert(bytes.skip(k + 1).len() == 0);
        assert(next.run(bytes.skip(k + 1)) == next);
    }
}

/// The bytes of a text without `ESC` add its units.
proof fn lemma_run_chars(st: PasteState, text: Seq<char>)
    requires
        st.partial.len() == 0,
        !st.done,
        forall|i: int| 0 <= i < text.len() ==> text[i] != '\x1b',
    ensures
        st.run(encode_utf8(text)) == (PasteState { text: st.text + units_of(text), ..st }),
    decreases text.len(),
{
    if text.len() == 0 {
        assert(st.text + units_of(text) =~= st.text);
    } else {
        let rest = text.drop_first();
        lemma_run_concat(st, encode_scalar(text[0] as u32), encode_utf8(rest));
        lemma_run_char(st, text[0]);
        lemma_run_chars(st.run(encode_scalar(text[0] as u32)), rest);
        assert(st.text.push(char_unit(text[0])) + units_of(rest) =~= st.text + units_of(text));
    }
}

/// The end marker ends the paste.
proof fn lemma_run_marker(st: PasteState)
    requires
        st.partial.len() == 0,
        !st.done,
    ensures
        st.run(end_marker()) == (PasteState { done: true, ..st }),
{
    let m = end_marker();
    assert(m.take(0) =~= st.partial);
    lemma_run_marker_from(st, 0);
    assert(m.skip(0) =~= m);
}

/// Reading the end marker from its byte `k` on ends the paste.
proof fn lemma_run_marker_from(st: PasteState, k: int)
    requires
        0 <= k < end_marker().len(),
        st.partial == end_marker().take(k),
        !st.done,
    ensures
        st.run(end_marker().skip(k)) == (PasteState { partial: Seq::empty(), done: true, ..st }),
    decreases end_marker().len() - k,
{
    let m = end_marker();
    assert(st.partial.push(m[k]) =~= m.take(k + 1));
    assert(m.skip(k)[0] == m[k]);
    assert(m.skip(k).skip(1) =~= m.skip(k + 1));
    let next = st.byte(m[k]);
    if k + 1 < m.len() {
        assert(m.take(k + 1) != m) by {
            assert(m.take(k + 1).len() != m.len());
        }
        lemma_run_marker_from(next, k + 1);
    } else {
        assert(m.take(k + 1) =~= m);
        assert(next.run(m.skip(k + 1)) == next);
    }
}

/// A paste begins with no text. Its bytes are taken one after the other until it is over.
pub proof fn law_bytes_are_taken_in_turn(st: PasteState, b: u8, rest: Seq<u8>)
    ensures
        PasteState::start().text.len() == 0,
        PasteState::start().partial.len() == 0,
        !PasteState::start().done,
        st.run(Seq::empty()) == st,
        st.done ==> st.run(seq![b] + rest) == st,
        !st.done ==> st.run(seq![b] + rest) == st.byte(b).run(rest),
{
    assert((seq![b] + rest).skip(1) =~= rest);
}

/// Where nothing is unfinished, an ASCII byte is the next character, whatever key it is bound
/// to; an `ESC` may begin the end marker; a byte that begins a longer character waits for the
/// rest of it; and one that begins none is U+FFFD.
pub proof fn law_first_byte_of_a_character(st: PasteState, b: u8)
    requires
        st.partial.len() == 0,
    ensures
        b < 0x80 && b != 0x1b ==> st.byte(b) == (PasteState {
            text: st.text.push(b as WChar),
            ..st
        }),
        b == 0x1b ==> st.byte(b) == (PasteState { partial: seq![0x1bu8], ..st }),
        0xc0 <= b < 0xf8 ==> st.byte(b) == (PasteState { partial: seq![b], ..st }),
        0x80 <= b < 0xc0 || b >= 0xf8 ==> st.byte(b) == (PasteState {
            text: st.text.push(0xFFFD),
            ..st
        }),
{
    let bytes = st.partial.push(b);
    assert(bytes =~= seq![b]);
    assert(bytes != end_marker()) by {
        assert(bytes.len() != end_marker().len());
    }
    crate::utf8::law_other_bytes_are_replaced(bytes, 'a');
    assert(st.partial =~= Seq::<u8>::empty());
}

/// A character that waits for more takes the bytes that continue it. When they are all there
/// it is decoded, and a byte that does not continue it makes it U+FFFD and is read as if
/// nothing were unfinished.
pub proof fn law_further_bytes_of_a_character(st: PasteState, b: u8)
    requires
        st.valid(),
        !st.done,
        st.partial.len() > 0,
        st.partial[0] != 0x1b,
    ensures
        ({
            let lead = st.partial[0];
            let n: int = if lead < 0xe0 {
                2
            } else if lead < 0xf0 {
                3
            } else {
                4
            };
            &&& 0x80 <= b <= 0xbf && st.partial.len() + 1 < n ==> st.byte(b) == (PasteState {
                partial: st.partial.push(b),
                ..st
            })
            &&& 0x80 <= b <= 0xbf && st.partial.len() + 1 == n ==> st.byte(b) == (PasteState {
                text: st.text.push(decoded_unit(st.partial.push(b))),
                partial: Seq::empty(),
                ..st
            })
            &&& b < 0x80 || b > 0xbf ==> st.byte(b) == (PasteState {
                text: st.text.push(0xFFFD),
                partial: Seq::empty(),
                ..st
            }).byte(b)
        }),
{
    let bytes = st.partial.push(b);
    assert(bytes[0] == st.partial[0]);
    assert(end_marker()[0] == 0x1b);
}

/// The end marker is `ESC [ 2 0 1 ~`. A byte that goes on with it is kept, the last one ends
/// the paste; an `ESC` begins it anew, and any other byte is dropped with what was read of it.
pub proof fn law_bytes_of_the_end_marker(st: PasteState, k: int, b: u8)
    requires
        1 <= k < 6,
        !st.done,
        st.partial == seq![0x1bu8, 0x5b, 0x32, 0x30, 0x31, 0x7e].take(k),
    ensures
        ({
            let m = seq![0x1bu8, 0x5b, 0x32, 0x30, 0x31, 0x7e];
            &&& b == m[k] && k < 5 ==> st.byte(b) == (PasteState { partial: m.take(k + 1), ..st })
            &&& b == m[k] && k == 5 ==> st.byte(b) == (PasteState {
                partial: Seq::empty(),
                done: true,
                ..st
            })
            &&& b == 0x1b ==> st.byte(b) == (PasteState { partial: seq![0x1bu8], ..st })
            &&& b != m[k] && b != 0x1b ==> st.byte(b) == (PasteState {
                partial: Seq::empty(),
                ..st
            })
        }),
{
    let m = seq![0x1bu8, 0x5b, 0x32, 0x30, 0x31, 0x7e];
    assert(m =~= end_marker());
    let bytes = st.partial.push(b);
    assert(bytes[k] == b && bytes[0] == m[0]);
    if b == m[k] {
        assert(bytes =~= m.take(k + 1));
        if k == 5 {
            assert(bytes =~= m);
        } else {
            assert(bytes.len() != m.len());
        }
    } else {
        assert(!bytes.is_prefix_of(m));
        if b == 0x1b {
            let one = Seq::<u8>::empty().push(b);
            assert(one =~= seq![0x1bu8]);
            assert(one.len() != m.len());
        }
    }
}

/// Where a read gives no byte, the paste is over with the text that is there, and an
/// unfinished character is left out; but an end marker that was begun is dropped first, and
/// the paste goes on.
pub proof fn law_paste_that_breaks_off(st: PasteState)
    requires
        st.valid(),
        !st.done,
    ensures
        st.no_byte().text == st.text,
        st.no_byte().partial.len() == 0,
        st.no_byte().done <==> st.partial.len() == 0 || st.partial[0] != 0x1b,
{
}

/// The sequences that turn bracketed-paste mode on and off are `ESC [ ? 2004 h` and
/// `ESC [ ? 2004 l`.
pub proof fn law_mode_sequences()
    ensures
        BRACKETED_PASTE_ON@ == seq!['\x1b', '[', '?', '2', '0', '0', '4', 'h'],
        BRACKETED_PASTE_OFF@ == seq!['\x1b', '[', '?', '2', '0', '0', '4', 'l'],
        ESC == 0x1b,
{
    reveal_strlit("\x1b[?2004h");
    reveal_strlit("\x1b[?2004l");
    assert(BRACKETED_PASTE_ON@ =~= seq!['\x1b', '[', '?', '2', '0', '0', '4', 'h']);
    assert(BRACKETED_PASTE_OFF@ =~= seq!['\x1b', '[', '?', '2', '0', '0', '4', 'l']);
}

} // verus!
