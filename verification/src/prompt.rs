//! Prompts, and the escape sequences in them.
//!
//! The line editor has to know how wide a prompt is, so the sequences in it that
//! print nothing, such as those that set colors, are enclosed in a pair of
//! delimiters. What stands between two delimiters is sent to the terminal but not
//! counted.

use vstd::prelude::*;
use vstd::utf8::*;

use crate::text::{chars_of, lemma_encode_concat, same_text};
use crate::wstr::{char_unit, lemma_unit_of_char, terminated, units_of, WCString, WChar};

verus! {

/// The unit that encloses what prints nothing.
pub const PROMPT_ESC_DELIM: WChar = 0x01;

// ---------------------------------------------------------------------------
// Model
// ---------------------------------------------------------------------------

/// A character that ends an escape sequence.
pub open spec fn final_char(c: char) -> bool {
    '@' <= c <= '~'
}

/// How many characters stand before the first that ends an escape sequence; all of
/// them where none does.
pub open spec fn before_final(text: Seq<char>) -> nat
    decreases text.len(),
{
    if text.len() == 0 || final_char(text[0]) {
        0
    } else {
        1 + before_final(text.skip(1))
    }
}

/// The length of what introduces an escape sequence: `ESC`, or `ESC [`, whose `[`
/// ends nothing.
pub open spec fn introducer_len(text: Seq<char>) -> nat {
    if text.len() > 1 && text[1] == '[' {
        2
    } else {
        1
    }
}

/// The length of the escape sequence at the start of `text`, which begins with an
/// `ESC`: up to and with the character that ends it, or up to the end of the text.
pub open spec fn escape_len(text: Seq<char>) -> nat {
    let n = introducer_len(text) + before_final(text.skip(introducer_len(text) as int));
    if n < text.len() {
        n + 1
    } else {
        n
    }
}

/// The units of `bytes`, one per byte.
pub open spec fn byte_units(bytes: Seq<u8>) -> Seq<WChar> {
    Seq::new(bytes.len(), |i: int| bytes[i] as WChar)
}

/// The units of a prompt: those of its characters, with each escape sequence byte by
/// byte between two delimiters.
pub open spec fn prompt_units(text: Seq<char>) -> Seq<WChar>
    decreases text.len(),
{
    if text.len() == 0 {
        Seq::empty()
    } else if text[0] == '\x1b' {
        let n = escape_len(text) as int;
        proof {
            lemma_escape_len(text);
        }
        seq![PROMPT_ESC_DELIM] + byte_units(encode_utf8(text.take(n))) + seq![PROMPT_ESC_DELIM]
            + prompt_units(text.skip(n))
    } else {
        seq![char_unit(text[0])] + prompt_units(text.skip(1))
    }
}

/// `text` without its escape sequences: what is seen of it.
pub open spec fn visible_text(text: Seq<char>) -> Seq<char>
    decreases text.len(),
{
    if text.len() == 0 {
        Seq::empty()
    } else if text[0] == '\x1b' {
        proof {
            lemma_escape_len(text);
        }
        visible_text(text.skip(escape_len(text) as int))
    } else {
        seq![text[0]] + visible_text(text.skip(1))
    }
}

/// The units that count toward the width: those not between two delimiters.
/// `inside` says that a delimiter stands open.
pub open spec fn counted_units(units: Seq<WChar>, inside: bool) -> Seq<WChar>
    decreases units.len(),
{
    if units.len() == 0 {
        Seq::empty()
    } else if units[0] == PROMPT_ESC_DELIM {
        counted_units(units.skip(1), !inside)
    } else if inside {
        counted_units(units.skip(1), inside)
    } else {
        seq![units[0]] + counted_units(units.skip(1), inside)
    }
}

// ---------------------------------------------------------------------------
// Conversion
// ---------------------------------------------------------------------------

/// Appends the wide form of prompt `s` to `buf`, with a NUL at the end.
pub fn prompt_to_wide(s: &str, buf: &mut WCString)
    ensures
        final(buf)@ == (old(buf)@ + prompt_units(s@)).push(0),
{
    let chars: Vec<char> = chars_of(s);
    let ghost text = chars@;
    let mut i: usize = 0;
    assert(text.skip(0) =~= text);
    assert(buf@ + prompt_units(text) =~= old(buf)@ + prompt_units(text));
    while i < chars.len()
        invariant
            i <= text.len(),
            text == chars@,
            buf@ + prompt_units(text.skip(i as int)) == old(buf)@ + prompt_units(text),
        decreases text.len() - i,
    {
        let ghost rest = text.skip(i as int);
        let ghost before = buf@;
        if chars[i] == '\x1b' {
            let end: usize = escape_end(&chars, i);
            buf.push_scalar(PROMPT_ESC_DELIM);
            push_bytes(buf, vstd::slice::slice_subrange(chars.as_slice(), i, end));
            buf.push_scalar(PROMPT_ESC_DELIM);
            proof {
                let n = escape_len(rest) as int;
                assert(chars@.subrange(i as int, end as int) =~= rest.take(n));
                assert(rest.skip(n) =~= text.skip(end as int));
                assert(buf@ + prompt_units(text.skip(end as int)) =~= before + prompt_units(rest));
            }
            i = end;
        } else {
            buf.push(chars[i]);
            proof {
                assert(rest.skip(1) =~= text.skip(i + 1));
                assert(buf@ + prompt_units(text.skip(i + 1)) =~= before + prompt_units(rest));
            }
            i = i + 1;
        }
    }
    assert(text.skip(i as int) =~= Seq::<char>::empty());
    assert(buf@ + prompt_units(Seq::empty()) =~= buf@);
    buf.push_nul();
}

/// Where the escape sequence that begins at `start` ends.
fn escape_end(chars: &Vec<char>, start: usize) -> (r: usize)
    requires
        start < chars@.len(),
    ensures
        start < r <= chars@.len(),
        r == start + escape_len(chars@.skip(start as int)),
{
    let ghost text = chars@.skip(start as int);
    let len: usize = chars.len();
    let mut i: usize = start + 1;
    if i < len && chars[i] == '[' {
        i = i + 1;
    }
    let ghost from = i as int;
    assert(text.skip(introducer_len(text) as int) =~= chars@.skip(from));
    while i < len && !(chars[i] >= '@' && chars[i] <= '~')
        invariant
            len == chars@.len(),
            start < from <= i <= chars@.len(),
            i + before_final(chars@.skip(i as int)) == from + before_final(chars@.skip(from)),
        decreases chars@.len() - i,
    {
        assert(chars@.skip(i as int).skip(1) =~= chars@.skip(i + 1));
        i = i + 1;
    }
    if i < len {
        i = i + 1;
    }
    i
}

/// Appends the bytes of the encoding of `chars`, one unit each.
fn push_bytes(buf: &mut WCString, chars: &[char])
    ensures
        final(buf)@ == old(buf)@ + byte_units(encode_utf8(chars@)),
{
    let mut i: usize = 0;
    assert(chars@.take(0) =~= Seq::<char>::empty());
    assert(buf@ =~= old(buf)@ + byte_units(encode_utf8(chars@.take(0))));
    while i < chars.len()
        invariant
            i <= chars@.len(),
            buf@ == old(buf)@ + byte_units(encode_utf8(chars@.take(i as int))),
        decreases chars@.len() - i,
    {
        let ghost done = chars@.take(i as int);
        let c: char = chars[i];
        push_encoded(buf, c);
        proof {
            assert(chars@.take(i + 1) =~= done + seq![c]);
            lemma_encode_concat(done, seq![c]);
            reveal_with_fuel(encode_utf8, 2);
            assert(encode_utf8(seq![c]) =~= encode_scalar(c as u32));
            assert(buf@ =~= old(buf)@ + byte_units(encode_utf8(chars@.take(i + 1))));
        }
        i = i + 1;
    }
    assert(chars@.take(i as int) =~= chars@);
}

/// Appends the bytes of the encoding of `c`, one unit each.
fn push_encoded(buf: &mut WCString, c: char)
    ensures
        final(buf)@ == old(buf)@ + byte_units(encode_scalar(c as u32)),
{
    let s: u32 = c as u32;
    if s <= 0x7F {
        buf.push_scalar((s & 0x7F) as u8 as WChar);
    } else if s <= 0x7FF {
        buf.push_scalar((0xC0u8 | ((s >> 6) & 0x1F) as u8) as WChar);
        buf.push_scalar((0x80u8 | (s & 0x3F) as u8) as WChar);
    } else if s <= 0xFFFF {
        buf.push_scalar((0xE0u8 | ((s >> 12) & 0x0F) as u8) as WChar);
        buf.push_scalar((0x80u8 | ((s >> 6) & 0x3F) as u8) as WChar);
        buf.push_scalar((0x80u8 | (s & 0x3F) as u8) as WChar);
    } else {
        buf.push_scalar((0xF0u8 | ((s >> 18) & 0x7) as u8) as WChar);
        buf.push_scalar((0x80u8 | ((s >> 12) & 0x3F) as u8) as WChar);
        buf.push_scalar((0x80u8 | ((s >> 6) & 0x3F) as u8) as WChar);
        buf.push_scalar((0x80u8 | (s & 0x3F) as u8) as WChar);
    }
    assert(buf@ =~= old(buf)@ + byte_units(encode_scalar(c as u32)));
}

// ---------------------------------------------------------------------------
// Current prompt
// ---------------------------------------------------------------------------

/// The current prompt and its wide form, which is kept while the prompt stays the
/// same.
#[derive(Debug)]
pub struct Prompt {
    text: String,
    wide: WCString,
}

impl View for Prompt {
    type V = Seq<char>;

    closed spec fn view(&self) -> Seq<char> {
        self.text@
    }
}

impl Prompt {
    /// The wide form is that of the prompt.
    pub closed spec fn valid(&self) -> bool {
        self.wide@ == prompt_units(self.text@).push(0)
    }

    /// The empty prompt.
    pub fn new() -> (r: Self)
        ensures
            r.valid(),
            r@ == Seq::<char>::empty(),
    {
        let mut wide: WCString = WCString::new();
        wide.push_nul();
        let r = Prompt { text: String::new(), wide };
        assert(r.text@ =~= Seq::<char>::empty());
        assert(r.wide@ =~= prompt_units(r.text@).push(0));
        r
    }

    /// Makes `prompt` the current prompt.
    pub fn set(&mut self, prompt: &str)
        requires
            old(self).valid(),
        ensures
            final(self).valid(),
            final(self)@ == prompt@,
    {
        if !same_text(self.text.as_str(), prompt) {
            self.wide.clear();
            prompt_to_wide(prompt, &mut self.wide);
            self.text = prompt.to_owned();
            assert(self.wide@ =~= prompt_units(self.text@).push(0));
        }
    }

    /// The wide form of the prompt.
    pub fn wide(&self) -> (r: &[WChar])
        requires
            self.valid(),
        ensures
            r@ == prompt_units(self@).push(0),
            terminated(r@),
    {
        self.wide.units_with_nul()
    }
}

// ---------------------------------------------------------------------------
// Laws
// ---------------------------------------------------------------------------

/// A prompt without escape sequences is its own characters.
pub proof fn law_plain_prompt(text: Seq<char>)
    requires
        forall|i: int| 0 <= i < text.len() ==> text[i] != '\x1b',
    ensures
        prompt_units(text) == units_of(text),
    decreases text.len(),
{
    if text.len() > 0 {
        law_plain_prompt(text.skip(1));
    }
    assert(prompt_units(text) =~= units_of(text));
}

/// The width that is counted of a prompt is that of what is seen of it: outside the
/// delimiters stand the characters of the prompt without its escape sequences.
pub proof fn law_prompt_width(text: Seq<char>)
    requires
        forall|i: int| 0 <= i < text.len() ==> text[i] != '\x01',
    ensures
        counted_units(prompt_units(text), false) == units_of(visible_text(text)),
    decreases text.len(),
{
    if text.len() == 0 {
        assert(units_of(visible_text(text)) =~= Seq::<WChar>::empty());
    } else if text[0] == '\x1b' {
        let n = escape_len(text) as int;
        lemma_escape_len(text);
        let inner = byte_units(encode_utf8(text.take(n)));
        let after = seq![PROMPT_ESC_DELIM] + prompt_units(text.skip(n));
        lemma_no_delim(text.take(n));
        lemma_counted_inside(inner, after);
        let units = prompt_units(text);
        assert(units =~= seq![PROMPT_ESC_DELIM] + (inner + after));
        assert(units.skip(1) =~= inner + after);
        assert(after.skip(1) =~= prompt_units(text.skip(n)));
        assert(units[0] == PROMPT_ESC_DELIM && after[0] == PROMPT_ESC_DELIM);
        assert(counted_units(units, false) == counted_units(inner + after, true));
        assert(counted_units(after, true) == counted_units(prompt_units(text.skip(n)), false));
        law_prompt_width(text.skip(n));
    } else {
        let units = prompt_units(text);
        assert(units.skip(1) =~= prompt_units(text.skip(1)));
        law_prompt_width(text.skip(1));
        lemma_unit_of_char(text[0]);
        assert(units[0] == char_unit(text[0]));
        assert(units_of(visible_text(text)) =~= seq![char_unit(text[0])] + units_of(
            visible_text(text.skip(1)),
        ));
    }
}

/// The units that are sent to the terminal: all but the delimiters.
pub open spec fn sent_units(units: Seq<WChar>) -> Seq<WChar>
    decreases units.len(),
{
    if units.len() == 0 {
        Seq::empty()
    } else if units[0] == PROMPT_ESC_DELIM {
        sent_units(units.skip(1))
    } else {
        seq![units[0]] + sent_units(units.skip(1))
    }
}

/// The escape sequences of `text` are ASCII.
pub open spec fn escapes_ascii(text: Seq<char>) -> bool
    decreases text.len(),
{
    if text.len() == 0 {
        true
    } else if text[0] == '\x1b' {
        let n = escape_len(text) as int;
        proof {
            lemma_escape_len(text);
        }
        is_ascii_chars(text.take(n)) && escapes_ascii(text.skip(n))
    } else {
        escapes_ascii(text.skip(1))
    }
}

/// The whole prompt reaches the terminal, its escape sequences included: without the
/// delimiters, its units are those of its characters.
pub proof fn law_prompt_is_sent_whole(text: Seq<char>)
    requires
        forall|i: int| 0 <= i < text.len() ==> text[i] != '\x01',
        escapes_ascii(text),
    ensures
        sent_units(prompt_units(text)) == units_of(text),
    decreases text.len(),
{
    if text.len() == 0 {
        assert(units_of(text) =~= Seq::<WChar>::empty());
    } else if text[0] == '\x1b' {
        let n = escape_len(text) as int;
        lemma_escape_len(text);
        let rest = text.skip(n);
        let inner = byte_units(encode_utf8(text.take(n)));
        let after = seq![PROMPT_ESC_DELIM] + prompt_units(rest);
        let units = prompt_units(text);
        lemma_no_delim(text.take(n));
        assert(units =~= seq![PROMPT_ESC_DELIM] + (inner + after));
        assert(units.skip(1) =~= inner + after);
        lemma_sent(inner, after);
        assert(after.skip(1) =~= prompt_units(rest));
        assert(after[0] == PROMPT_ESC_DELIM);
        assert(sent_units(after) == sent_units(prompt_units(rest)));
        law_prompt_is_sent_whole(rest);
        is_ascii_chars_encode_utf8(text.take(n));
        assert forall|i: int| 0 <= i < n implies #[trigger] inner[i] == units_of(text)[i] by {
            lemma_unit_of_char(text[i]);
            assert(text.take(n)[i] == text[i]);
        }
        assert(inner + units_of(rest) =~= units_of(text));
    } else {
        let units = prompt_units(text);
        assert(units.skip(1) =~= prompt_units(text.skip(1)));
        lemma_unit_of_char(text[0]);
        law_prompt_is_sent_whole(text.skip(1));
        assert(seq![char_unit(text[0])] + units_of(text.skip(1)) =~= units_of(text));
    }
}

/// Units that are no delimiters are sent.
proof fn lemma_sent(inner: Seq<WChar>, after: Seq<WChar>)
    requires
        forall|i: int| 0 <= i < inner.len() ==> inner[i] != PROMPT_ESC_DELIM,
    ensures
        sent_units(inner + after) == inner + sent_units(after),
    decreases inner.len(),
{
    if inner.len() == 0 {
        assert(inner + after =~= after);
        assert(inner + sent_units(after) =~= sent_units(after));
    } else {
        assert((inner + after).skip(1) =~= inner.skip(1) + after);
        lemma_sent(inner.skip(1), after);
        assert(seq![inner[0]] + (inner.skip(1) + sent_units(after)) =~= inner + sent_units(after));
    }
}

/// The character that ends a sequence stands within the text.
proof fn lemma_before_final(text: Seq<char>)
    ensures
        before_final(text) <= text.len(),
    decreases text.len(),
{
    if text.len() > 0 && !final_char(text[0]) {
        lemma_before_final(text.skip(1));
    }
}

/// An escape sequence is not empty and ends within the text.
pub proof fn lemma_escape_len(text: Seq<char>)
    requires
        text.len() > 0,
    ensures
        1 <= escape_len(text) <= text.len(),
{
    lemma_before_final(text.skip(introducer_len(text) as int));
}

/// A text without the delimiter has no byte like it.
proof fn lemma_no_delim(text: Seq<char>)
    requires
        forall|i: int| 0 <= i < text.len() ==> text[i] != '\x01',
    ensures
        forall|i: int| 0 <= i < encode_utf8(text).len() ==> encode_utf8(text)[i] != 0x01,
    decreases text.len(),
{
    if text.len() > 0 {
        let first = encode_scalar(text[0] as u32);
        let rest = encode_utf8(text.drop_first());
        lemma_no_delim(text.drop_first());
        assert forall|i: int| 0 <= i < encode_utf8(text).len() implies encode_utf8(text)[i]
            != 0x01 by {
            if i < first.len() {
                if first[i] == 0x01 {
                    crate::utf8::lemma_ascii_byte(text[0], i);
                }
            } else {
                assert(encode_utf8(text)[i] == rest[i - first.len()]);
            }
        }
    }
}

/// Nothing between two delimiters is counted.
proof fn lemma_counted_inside(inner: Seq<WChar>, after: Seq<WChar>)
    requires
        forall|i: int| 0 <= i < inner.len() ==> inner[i] != PROMPT_ESC_DELIM,
    ensures
        counted_units(inner + after, true) == counted_units(after, true),
    decreases inner.len(),
{
    if inner.len() == 0 {
        assert(inner + after =~= after);
    } else {
        assert((inner + after).skip(1) =~= inner.skip(1) + after);
        lemma_counted_inside(inner.skip(1), after);
    }
}

/// An escape sequence `ESC [ p f`, however long its parameters are, stands between two
/// delimiters from its `ESC` to the character that ends it, byte by byte, and what follows it
/// stands outside of them. `p` holds none of the characters from `@` to `~`, and `f` is one.
pub proof fn law_control_sequence_is_enclosed(p: Seq<char>, f: char, rest: Seq<char>)
    requires
        forall|i: int| 0 <= i < p.len() ==> !('@' <= #[trigger] p[i] <= '~'),
        '@' <= f <= '~',
    ensures
        ({
            let bytes = encode_utf8(seq!['\x1b', '['] + p + seq![f]);
            prompt_units(seq!['\x1b', '['] + p + seq![f] + rest) == seq![1 as WChar] + Seq::new(
                bytes.len(),
                |i: int| bytes[i] as WChar,
            ) + seq![1 as WChar] + prompt_units(rest)
        }),
        escape_len(seq!['\x1b', '['] + p + seq![f] + rest) == p.len() + 3,
{
    let text = seq!['\x1b', '['] + p + seq![f] + rest;
    assert(text[0] == '\x1b' && text[1] == '[');
    assert(text.skip(2) =~= p + seq![f] + rest);
    lemma_before_final_is(p, seq![f] + rest);
    assert(p + (seq![f] + rest) =~= p + seq![f] + rest);
    assert((seq![f] + rest)[0] == f);
    lemma_enclosed(text, p.len() as int + 3);
    assert(text.take(p.len() as int + 3) =~= seq!['\x1b', '['] + p + seq![f]);
    assert(text.skip(p.len() as int + 3) =~= rest);
}

/// So does a sequence `ESC p f` that no `[` introduces.
pub proof fn law_escape_sequence_is_enclosed(p: Seq<char>, f: char, rest: Seq<char>)
    requires
        forall|i: int| 0 <= i < p.len() ==> !('@' <= #[trigger] p[i] <= '~'),
        '@' <= f <= '~',
        p.len() == 0 ==> f != '[',
    ensures
        ({
            let bytes = encode_utf8(seq!['\x1b'] + p + seq![f]);
            prompt_units(seq!['\x1b'] + p + seq![f] + rest) == seq![1 as WChar] + Seq::new(
                bytes.len(),
                |i: int| bytes[i] as WChar,
            ) + seq![1 as WChar] + prompt_units(rest)
        }),
        escape_len(seq!['\x1b'] + p + seq![f] + rest) == p.len() + 2,
{
    let text = seq!['\x1b'] + p + seq![f] + rest;
    assert(text[0] == '\x1b');
    if p.len() > 0 {
        assert(text[1] == p[0]);
    } else {
        assert(text[1] == f);
    }
    assert(text.skip(1) =~= p + seq![f] + rest);
    lemma_before_final_is(p, seq![f] + rest);
    assert(p + (seq![f] + rest) =~= p + seq![f] + rest);
    assert((seq![f] + rest)[0] == f);
    lemma_enclosed(text, p.len() as int + 2);
    assert(text.take(p.len() as int + 2) =~= seq!['\x1b'] + p + seq![f]);
    assert(text.skip(p.len() as int + 2) =~= rest);
}

/// A sequence that nothing ends reaches to the end of the prompt: all of it stands between
/// the delimiters.
pub proof fn law_open_sequence_is_enclosed(p: Seq<char>)
    requires
        forall|i: int| 0 <= i < p.len() ==> !('@' <= #[trigger] p[i] <= '~'),
    ensures
        ({
            let bytes = encode_utf8(seq!['\x1b'] + p);
            prompt_units(seq!['\x1b'] + p) == seq![1 as WChar] + Seq::new(
                bytes.len(),
                |i: int| bytes[i] as WChar,
            ) + seq![1 as WChar]
        }),
        ({
            let bytes = encode_utf8(seq!['\x1b', '['] + p);
            prompt_units(seq!['\x1b', '['] + p) == seq![1 as WChar] + Seq::new(
                bytes.len(),
                |i: int| bytes[i] as WChar,
            ) + seq![1 as WChar]
        }),
{
    lemma_before_final_is(p, Seq::empty());
    assert(p + Seq::<char>::empty() =~= p);
    let text = seq!['\x1b'] + p;
    assert(text[0] == '\x1b');
    assert(text.skip(1) =~= p);
    if p.len() > 0 {
        assert(text[1] == p[0]);
    }
    lemma_enclosed(text, p.len() as int + 1);
    assert(text.take(p.len() as int + 1) =~= text);
    assert(text.skip(p.len() as int + 1) =~= Seq::<char>::empty());
    let inner = Seq::new(encode_utf8(text).len(), |i: int| encode_utf8(text)[i] as WChar);
    assert(prompt_units(text) =~= seq![1 as WChar] + inner + seq![1 as WChar]);
    let text2 = seq!['\x1b', '['] + p;
    assert(text2[0] == '\x1b' && text2[1] == '[');
    assert(text2.skip(2) =~= p);
    lemma_enclosed(text2, p.len() as int + 2);
    assert(text2.take(p.len() as int + 2) =~= text2);
    assert(text2.skip(p.len() as int + 2) =~= Seq::<char>::empty());
    let inner2 = Seq::new(encode_utf8(text2).len(), |i: int| encode_utf8(text2)[i] as WChar);
    assert(prompt_units(text2) =~= seq![1 as WChar] + inner2 + seq![1 as WChar]);
}

/// A text without an `ESC` is its own units wherever it stands before the rest of a prompt,
/// and nothing of it stands between delimiters.
pub proof fn law_text_of_a_prompt_is_kept(text: Seq<char>, rest: Seq<char>)
    requires
        forall|i: int| 0 <= i < text.len() ==> text[i] != '\x1b',
    ensures
        prompt_units(text + rest) == Seq::new(text.len(), |i: int| text[i] as WChar)
            + prompt_units(rest),
        prompt_units(Seq::empty()) == Seq::<WChar>::empty(),
    decreases text.len(),
{
    let all = text + rest;
    let units = Seq::new(text.len(), |i: int| text[i] as WChar);
    if text.len() == 0 {
        assert(all =~= rest);
        assert(units + prompt_units(rest) =~= prompt_units(rest));
    } else {
        let more = text.skip(1);
        assert(all[0] == text[0]);
        assert(all.skip(1) =~= more + rest);
        law_text_of_a_prompt_is_kept(more, rest);
        assert(prompt_units(all) =~= units + prompt_units(rest));
    }
}

/// A colored prompt takes as many columns as its text has characters: outside of the
/// delimiters stand the units of `text` and nothing of the sequences around it.
pub proof fn law_colored_text_counts_alone(
    p: Seq<char>,
    f: char,
    text: Seq<char>,
    q: Seq<char>,
    g: char,
)
    requires
        forall|i: int| 0 <= i < p.len() ==> !('@' <= #[trigger] p[i] <= '~') && p[i] != '\x01',
        forall|i: int| 0 <= i < q.len() ==> !('@' <= #[trigger] q[i] <= '~') && q[i] != '\x01',
        forall|i: int| 0 <= i < text.len() ==> (#[trigger] text[i]) != '\x1b' && text[i] != '\x01',
        '@' <= f <= '~',
        '@' <= g <= '~',
    ensures
        counted_units(
            prompt_units(
                seq!['\x1b', '['] + p + seq![f] + (text + (seq!['\x1b', '['] + q + seq![g]
                    + seq![' '])),
            ),
            false,
        ) == Seq::new(text.len(), |i: int| text[i] as WChar).push(0x20),
{
    let reset = seq!['\x1b', '['] + q + seq![g] + seq![' '];
    let all = seq!['\x1b', '['] + p + seq![f] + (text + reset);
    law_control_sequence_is_enclosed(p, f, text + reset);
    law_control_sequence_is_enclosed(q, g, seq![' ']);
    law_text_of_a_prompt_is_kept(text, reset);
    assert forall|i: int| 0 <= i < all.len() implies all[i] != '\x01' by {
        if 2 <= i < 2 + p.len() {
            assert(all[i] == p[i - 2]);
        } else if i >= p.len() + 3 {
            let j = i - p.len() - 3;
            assert(all[i] == (text + reset)[j]);
            if j >= text.len() {
                let k = j - text.len();
                assert(all[i] == reset[k]);
                if 2 <= k < 2 + q.len() {
                    assert(reset[k] == q[k - 2]);
                }
            }
        }
    }
    law_prompt_width(all);
    let n = p.len() as int + 3;
    assert(all.skip(n) =~= text + reset);
    assert(all[0] == '\x1b');
    assert(visible_text(all) == visible_text(text + reset));
    lemma_visible_text(text, reset);
    assert(reset[0] == '\x1b');
    assert(reset.skip(q.len() as int + 3) =~= seq![' ']);
    assert(visible_text(reset) == visible_text(seq![' ']));
    assert(seq![' '].skip(1) =~= Seq::<char>::empty());
    assert(visible_text(Seq::<char>::empty()) =~= Seq::<char>::empty());
    assert(visible_text(seq![' ']) =~= seq![' ']);
    assert(units_of(visible_text(all)) =~= Seq::new(
        text.len(),
        |i: int| text[i] as WChar,
    ).push(0x20));
}

/// A text without an `ESC` is seen whole.
proof fn lemma_visible_text(text: Seq<char>, rest: Seq<char>)
    requires
        forall|i: int| 0 <= i < text.len() ==> text[i] != '\x1b',
    ensures
        visible_text(text + rest) == text + visible_text(rest),
    decreases text.len(),
{
    let all = text + rest;
    if text.len() == 0 {
        assert(all =~= rest);
        assert(text + visible_text(rest) =~= visible_text(rest));
    } else {
        assert(all[0] == text[0]);
        assert(all.skip(1) =~= text.skip(1) + rest);
        lemma_visible_text(text.skip(1), rest);
        assert(visible_text(all) =~= text + visible_text(rest));
    }
}

/// How many characters stand before the one that ends a sequence.
proof fn lemma_before_final_is(p: Seq<char>, rest: Seq<char>)
    requires
        forall|i: int| 0 <= i < p.len() ==> !('@' <= #[trigger] p[i] <= '~'),
        rest.len() > 0 ==> '@' <= rest[0] <= '~',
    ensures
        before_final(p + rest) == p.len(),
    decreases p.len(),
{
    let all = p + rest;
    if p.len() > 0 {
        assert(all[0] == p[0]);
        assert(all.skip(1) =~= p.skip(1) + rest);
        let more = p.skip(1);
        assert forall|i: int| 0 <= i < more.len() implies !('@' <= #[trigger] more[i] <= '~') by {
            assert(more[i] == p[i + 1]);
        }
        lemma_before_final_is(more, rest);
    } else {
        assert(all =~= rest);
    }
}

/// The units of a prompt that begins with an escape sequence of length `n`.
proof fn lemma_enclosed(text: Seq<char>, n: int)
    requires
        text.len() > 0,
        text[0] == '\x1b',
        escape_len(text) == n,
    ensures
        ({
            let bytes = encode_utf8(text.take(n));
            prompt_units(text) == seq![1 as WChar] + Seq::new(
                bytes.len(),
                |i: int| bytes[i] as WChar,
            ) + seq![1 as WChar] + prompt_units(text.skip(n))
        }),
{
    let bytes = encode_utf8(text.take(n));
    assert(byte_units(bytes) =~= Seq::new(bytes.len(), |i: int| bytes[i] as WChar));
}

} // verus!
