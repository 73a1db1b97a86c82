//! Tab completion: what a completer is told and what it answers.
//!
//! When the completion key is pressed, a [`Completer`] is handed the line and the
//! cursor as a [`LineContext`] and returns the candidate words as a
//! [`Completion`].

use vstd::prelude::*;
use vstd::utf8::*;

use crate::editline::Action;
use crate::text::{chars_of, lemma_encode_concat, lemma_encode_injective, string_of};
use crate::utf8::lemma_ascii_byte;

verus! {

// ---------------------------------------------------------------------------
// Model
// ---------------------------------------------------------------------------

/// An ASCII whitespace character: space, tab, newline, form feed, carriage return.
pub open spec fn ascii_space(c: char) -> bool {
    c == ' ' || c == '\t' || c == '\n' || c == '\x0C' || c == '\r'
}

/// The end of `text` after its last ASCII whitespace character: all of it where
/// there is none.
pub open spec fn last_word(text: Seq<char>) -> Seq<char>
    decreases text.len(),
{
    if text.len() == 0 || ascii_space(text.last()) {
        Seq::empty()
    } else {
        last_word(text.drop_last()).push(text.last())
    }
}

/// `p` begins each of `texts`.
pub open spec fn common_prefix(p: Seq<char>, texts: Seq<String>) -> bool {
    forall|i: int| 0 <= i < texts.len() ==> p.is_prefix_of(#[trigger] texts[i]@)
}

/// `p` is the longest text that begins each of `texts`.
pub open spec fn longest_common(p: Seq<char>, texts: Seq<String>) -> bool {
    &&& common_prefix(p, texts)
    &&& forall|q: Seq<char>|
        #![trigger common_prefix(q, texts)]
        common_prefix(q, texts) ==> q.len() <= p.len()
}

/// What `full` adds to `word`: nothing where it does not begin with it.
pub open spec fn extension(word: Seq<char>, full: Seq<char>) -> Seq<char> {
    if word.is_prefix_of(full) {
        full.skip(word.len() as int)
    } else {
        Seq::empty()
    }
}

// ---------------------------------------------------------------------------
// The line
// ---------------------------------------------------------------------------

/// The number of bytes of the character `c`.
fn encoded_len(c: char) -> (r: usize)
    ensures
        r == encode_scalar(c as u32).len(),
{
    proof {
        char_is_scalar(c);
    }
    let scalar: u32 = c as u32;
    if scalar <= 0x7F {
        1
    } else if scalar <= 0x7FF {
        2
    } else if scalar <= 0xFFFF {
        3
    } else {
        4
    }
}

/// The byte offset in `line` of the place after its first `chars` characters: the end of
/// the line where it has fewer.
pub fn byte_offset(line: &str, chars: usize) -> (r: usize)
    ensures
        r == encode_utf8(
            line@.take(
                if chars <= line@.len() {
                    chars as int
                } else {
                    line@.len() as int
                },
            ),
        ).len(),
{
    broadcast use encode_utf8_valid_utf8;

    let text: Vec<char> = chars_of(line);
    let len: usize = line.as_bytes().len();
    let mut at: usize = 0;
    let mut i: usize = 0;
    assert(encode_utf8(line@.take(0)) =~= Seq::<u8>::empty());
    while i < chars && i < text.len()
        invariant
            text@ == line@,
            len == encode_utf8(line@).len(),
            i <= chars,
            i <= line@.len(),
            at == encode_utf8(line@.take(i as int)).len(),
        decreases line@.len() - i,
    {
        proof {
            let next = line@.take(i + 1);
            let c = seq![line@[i as int]];
            assert(next =~= line@.take(i as int) + c);
            lemma_encode_concat(line@.take(i as int), c);
            assert(line@ =~= next + line@.skip(i + 1));
            lemma_encode_concat(next, line@.skip(i + 1));
            reveal_with_fuel(encode_utf8, 2);
            assert(encode_utf8(c) =~= encode_scalar(line@[i as int] as u32));
        }
        at = at + encoded_len(text[i]);
        i = i + 1;
    }
    at
}

/// The input line at the moment a completion is asked for: its text and the byte
/// offset of the cursor, which always falls between two characters.
#[derive(Debug)]
pub struct LineContext {
    line: String,
    cursor: usize,
}

impl Clone for LineContext {
    fn clone(&self) -> (r: Self)
        ensures
            r.text() == self.text(),
            r.offset() == self.offset(),
    {
        proof {
            use_type_invariant(self);
        }
        LineContext { line: self.line.clone(), cursor: self.cursor }
    }
}

impl LineContext {
    /// The text of the line.
    pub closed spec fn text(&self) -> Seq<char> {
        self.line@
    }

    /// The byte offset of the cursor.
    pub closed spec fn offset(&self) -> nat {
        self.cursor as nat
    }

    /// The text before the cursor.
    pub open spec fn before_cursor(&self) -> Seq<char> {
        decode_utf8(encode_utf8(self.text()).subrange(0, self.offset() as int))
    }

    /// The cursor falls between two characters of the line.
    #[verifier::type_invariant]
    pub closed spec fn cursor_on_boundary(self) -> bool {
        &&& self.cursor <= encode_utf8(self.line@).len()
        &&& is_char_boundary(encode_utf8(self.line@), self.cursor as int)
    }

    /// The line with its cursor at byte `cursor`; moved back to the end of the line
    /// where `cursor` is past it, and to the start of the character where `cursor`
    /// falls inside one.
    pub fn new(line: String, cursor: usize) -> (r: Self)
        ensures
            r.text() == line@,
            r.offset() <= cursor,
            r.offset() <= encode_utf8(line@).len(),
            is_char_boundary(encode_utf8(line@), r.offset() as int),
            forall|i: int|
                r.offset() < i <= cursor && i <= encode_utf8(line@).len()
                    ==> !is_char_boundary(encode_utf8(line@), i),
    {
        broadcast use encode_utf8_valid_utf8;

        let text: &str = line.as_str();
        let len: usize = text.as_bytes().len();
        let mut at: usize = if cursor < len {
            cursor
        } else {
            len
        };
        while at > 0 && !text.is_char_boundary(at)
            invariant
                text@ == line@,
                len == encode_utf8(line@).len(),
                at <= len,
                at <= cursor,
                forall|i: int|
                    at < i <= cursor && i <= len ==> !is_char_boundary(encode_utf8(line@), i),
            decreases at,
        {
            at = at - 1;
        }
        LineContext { line, cursor: at }
    }

    /// The text of the line.
    pub fn line(&self) -> (r: &str)
        ensures
            r@ == self.text(),
    {
        self.line.as_str()
    }

    /// The byte offset of the cursor within [`line`](Self::line).
    pub fn cursor(&self) -> (r: usize)
        ensures
            r == self.offset(),
            is_char_boundary(encode_utf8(self.text()), r as int),
    {
        proof {
            use_type_invariant(self);
        }
        self.cursor
    }

    /// The text from the start of the current word up to the cursor. The word
    /// starts after the last ASCII whitespace character before the cursor.
    pub fn word(&self) -> (r: &str)
        ensures
            r@ == last_word(self.before_cursor()),
    {
        broadcast use encode_utf8_valid_utf8;

        proof {
            use_type_invariant(self);
        }
        let (before, _) = self.line.as_str().split_at(self.cursor);
        let ghost text = before@;
        proof {
            encode_utf8_decode_utf8(text);
            assert(text == self.before_cursor());
        }
        let bytes: &[u8] = before.as_bytes();
        let mut start: usize = bytes.len();
        while start > 0 && !is_space_byte(bytes[start - 1])
            invariant
                start <= bytes@.len(),
                forall|i: int| start <= i < bytes@.len() ==> !space_byte(#[trigger] bytes@[i]),
            decreases start,
        {
            start = start - 1;
        }
        proof {
            lemma_word_start(text, start as int);
        }
        let (_, word) = before.split_at(start);
        proof {
            lemma_encode_injective(word@, last_word(text));
        }
        word
    }

    /// The byte offset at which the current word begins.
    pub fn word_start(&self) -> (r: usize)
        ensures
            r + encode_utf8(last_word(self.before_cursor())).len() == self.offset(),
    {
        let n: usize = self.word().as_bytes().len();
        proof {
            broadcast use encode_utf8_valid_utf8;

            use_type_invariant(self);
            let bytes = encode_utf8(self.text());
            valid_utf8_split(bytes, self.cursor as int);
            decode_utf8_encode_utf8(bytes.subrange(0, self.cursor as int));
            law_word_follows_the_last_space(self.before_cursor());
            let word = last_word(self.before_cursor());
            let k = self.before_cursor().len() - word.len();
            lemma_encode_concat(self.before_cursor().take(k), word);
            assert(self.before_cursor().take(k) + word =~= self.before_cursor());
        }
        self.cursor - n
    }
}

/// The byte of an ASCII whitespace character.
spec fn space_byte(b: u8) -> bool {
    b == 0x20 || b == 0x09 || b == 0x0A || b == 0x0C || b == 0x0D
}

/// `b` is the byte of an ASCII whitespace character.
fn is_space_byte(b: u8) -> (r: bool)
    ensures
        r == space_byte(b),
{
    b == 0x20 || b == 0x09 || b == 0x0A || b == 0x0C || b == 0x0D
}

/// A place counted in characters is found again in bytes: its offset falls between two
/// characters, and what stands before it are those characters.
pub proof fn law_offset_of_characters(text: Seq<char>, chars: int)
    requires
        0 <= chars <= text.len(),
    ensures
        ({
            let bytes = encode_utf8(text);
            let at = encode_utf8(text.take(chars)).len() as int;
            &&& at <= bytes.len()
            &&& is_char_boundary(bytes, at)
            &&& decode_utf8(bytes.subrange(0, at)) == text.take(chars)
        }),
{
    let (a, b) = (text.take(chars), text.skip(chars));
    assert(a + b =~= text);
    lemma_encode_concat(a, b);
    assert(encode_utf8(text).subrange(0, encode_utf8(a).len() as int) =~= encode_utf8(a));
    encode_utf8_decode_utf8(a);
}

/// The current word is the end of the text before the cursor that holds no ASCII
/// whitespace; before it stands a whitespace character, or nothing.
pub proof fn law_word_follows_the_last_space(text: Seq<char>)
    ensures
        last_word(text).is_suffix_of(text),
        forall|i: int| 0 <= i < last_word(text).len() ==> !ascii_space(last_word(text)[i]),
        last_word(text).len() < text.len() ==> ascii_space(
            text[text.len() - last_word(text).len() - 1],
        ),
    decreases text.len(),
{
    if text.len() > 0 && !ascii_space(text.last()) {
        law_word_follows_the_last_space(text.drop_last());
    }
}

/// The encoding of a character holds a whitespace byte only where the character is
/// that whitespace.
proof fn lemma_space_bytes(c: char)
    ensures
        ascii_space(c) ==> encode_scalar(c as u32).len() == 1 && space_byte(
            encode_scalar(c as u32)[0],
        ),
        !ascii_space(c) ==> forall|i: int|
            0 <= i < encode_scalar(c as u32).len() ==> !space_byte(
                #[trigger] encode_scalar(c as u32)[i],
            ),
{
    let s = c as u32;
    if ascii_space(c) {
        assert((s & 0x7F) as u8 == s) by (bit_vector)
            requires
                s <= 0x7F,
        ;
    } else {
        assert forall|i: int| 0 <= i < encode_scalar(s).len() implies !space_byte(
            #[trigger] encode_scalar(s)[i],
        ) by {
            if encode_scalar(s)[i] < 0x80 {
                lemma_ascii_byte(c, i);
            }
        }
    }
}

/// A text without whitespace has no whitespace byte.
proof fn lemma_no_space_bytes(text: Seq<char>)
    requires
        forall|i: int| 0 <= i < text.len() ==> !ascii_space(text[i]),
    ensures
        forall|i: int| 0 <= i < encode_utf8(text).len() ==> !space_byte(encode_utf8(text)[i]),
    decreases text.len(),
{
    if text.len() > 0 {
        lemma_space_bytes(text[0]);
        lemma_no_space_bytes(text.drop_first());
        let first = encode_scalar(text[0] as u32);
        let rest = encode_utf8(text.drop_first());
        assert(encode_utf8(text) == first + rest);
        assert forall|i: int| 0 <= i < encode_utf8(text).len() implies !space_byte(
            encode_utf8(text)[i],
        ) by {
            if i < first.len() {
                assert(!space_byte(first[i]));
            } else {
                assert(!space_byte(rest[i - first.len()]));
            }
        }
    }
}

/// The last whitespace byte of an encoding stands just before its last word.
proof fn lemma_word_start(text: Seq<char>, start: int)
    requires
        0 <= start <= encode_utf8(text).len(),
        start > 0 ==> space_byte(encode_utf8(text)[start - 1]),
        forall|i: int|
            start <= i < encode_utf8(text).len() ==> !space_byte(#[trigger] encode_utf8(text)[i]),
    ensures
        is_char_boundary(encode_utf8(text), start),
        encode_utf8(text).subrange(start, encode_utf8(text).len() as int) == encode_utf8(
            last_word(text),
        ),
{
    let word = last_word(text);
    let k = text.len() - word.len();
    let head = text.take(k);
    law_word_follows_the_last_space(text);
    lemma_encode_concat(head, word);
    assert(head + word =~= text);
    lemma_no_space_bytes(word);
    let bytes = encode_utf8(text);
    let at = encode_utf8(head).len() as int;
    if k > 0 {
        let c = head.last();
        assert(head.drop_last() + seq![c] =~= head);
        lemma_encode_concat(head.drop_last(), seq![c]);
        lemma_space_bytes(c);
        reveal_with_fuel(encode_utf8, 2);
        assert(encode_utf8(seq![c]) =~= encode_scalar(c as u32));
        assert(bytes[at - 1] == encode_scalar(c as u32)[0]);
    } else {
        assert(head =~= Seq::<char>::empty());
    }
    if start > at {
        assert(bytes[start - 1] == encode_utf8(word)[start - 1 - at]);
    }
    assert(start == at);
    assert(bytes.subrange(start, bytes.len() as int) =~= encode_utf8(word));
}

// ---------------------------------------------------------------------------
// The answer
// ---------------------------------------------------------------------------

/// What a completer answers: the candidate words, and perhaps the text to insert.
///
/// Each candidate is the whole word, not only the part that is missing.
#[derive(Debug)]
pub struct Completion {
    candidates: Vec<String>,
    insertion: Option<String>,
}

impl Completion {
    /// The candidate words.
    pub closed spec fn words(&self) -> Seq<String> {
        self.candidates@
    }

    /// The text to insert at the cursor, where the completer chose one.
    pub closed spec fn inserted(&self) -> Option<String> {
        self.insertion
    }

    /// The candidates alone. What to insert is their longest common prefix.
    pub fn new(candidates: Vec<String>) -> (r: Self)
        ensures
            r.words() == candidates@,
            r.inserted() is None,
    {
        Completion { candidates, insertion: None }
    }

    /// The text to insert at the cursor, and the candidates to list.
    pub fn with_insertion<T: Into<String>>(insertion: T, candidates: Vec<String>) -> (r: Self)
        ensures
            r.words() == candidates@,
            r.inserted() matches Some(s) && call_ensures(T::into, (insertion,), s),
    {
        Completion { candidates, insertion: Some(insertion.into()) }
    }

    /// No candidate and nothing to insert.
    pub fn none() -> (r: Self)
        ensures
            r.words() == Seq::<String>::empty(),
            r.inserted() is None,
    {
        Completion { candidates: Vec::new(), insertion: None }
    }

    /// The candidate words.
    pub fn candidates(&self) -> (r: &[String])
        ensures
            r@ == self.words(),
    {
        self.candidates.as_slice()
    }

    /// The text to insert at the cursor, where the completer chose one.
    pub fn insertion(&self) -> (r: Option<&str>)
        ensures
            match r {
                Some(s) => self.inserted() matches Some(t) && s@ == t@,
                None => self.inserted() is None,
            },
    {
        match &self.insertion {
            Some(s) => Some(s.as_str()),
            None => None,
        }
    }

    /// What completing `word` comes to.
    ///
    /// The text that the completer chose is inserted as it is, and several candidates
    /// are listed. Where it chose none, a single candidate is completed and a space put
    /// after it; several are completed as far as they agree, and listed where that adds
    /// nothing.
    pub fn resolve(&self, word: &str) -> (r: Completed)
        ensures
            match self.inserted() {
                Some(s) => r.insert@ == s@ && r.list == (self.words().len() > 1),
                None => {
                    &&& self.words().len() == 0 ==> r.insert@.len() == 0 && !r.list
                    &&& self.words().len() == 1 ==> r.insert@ == extension(
                        word@,
                        self.words()[0]@,
                    ).push(' ') && !r.list
                    &&& self.words().len() > 1 ==> exists|p: Seq<char>|
                        #![trigger longest_common(p, self.words())]
                        longest_common(p, self.words()) && r.insert@ == extension(word@, p)
                            && r.list == (r.insert@.len() == 0)
                },
            },
    {
        match &self.insertion {
            Some(s) => {
                return Completed { insert: s.clone(), list: self.candidates.len() > 1 };
            },
            None => {},
        }
        if self.candidates.len() == 0 {
            return Completed { insert: String::new(), list: false };
        }
        let common: String = longest_common_prefix(self.candidates.as_slice());
        let mut insert: String = extend_word(word, common.as_str());
        if self.candidates.len() == 1 {
            proof {
                let words = self.words();
                let only = words[0]@;
                assert(only.is_prefix_of(only));
                assert(common_prefix(only, words));
                assert(common@.is_prefix_of(words[0]@));
                assert(common@ =~= only);
            }
            insert.push(' ');
            return Completed { insert, list: false };
        }
        let list: bool = insert.as_str().is_empty();
        assert(longest_common(common@, self.words()));
        Completed { insert, list }
    }

    /// There is neither a candidate nor a text to insert.
    pub fn is_empty(&self) -> (r: bool)
        ensures
            r == (self.words().len() == 0 && self.inserted() is None),
    {
        self.candidates.len() == 0 && self.insertion.is_none()
    }
}

/// What a completion comes to: the text to insert at the cursor, and whether the
/// candidates are listed.
#[derive(Debug)]
pub struct Completed {
    /// The text to insert; empty for none.
    pub insert: String,
    /// The candidates are listed.
    pub list: bool,
}

impl Completed {
    /// What the editor is to do next: draw the line anew after a list, bring it up to date
    /// after an insertion, and beep where nothing came of it.
    pub fn action(&self) -> (r: Action)
        ensures
            self.list ==> r == Action::Redisplay,
            !self.list && self.insert@.len() > 0 ==> r == Action::Refresh,
            !self.list && self.insert@.len() == 0 ==> r == Action::Error,
    {
        if self.list {
            Action::Redisplay
        } else if !self.insert.as_str().is_empty() {
            Action::Refresh
        } else {
            Action::Error
        }
    }
}

/// What `full` adds to `word`.
fn extend_word(word: &str, full: &str) -> (r: String)
    ensures
        r@ == extension(word@, full@),
{
    let start: Vec<char> = chars_of(word);
    let whole: Vec<char> = chars_of(full);
    let n: usize = start.len();
    if n > whole.len() {
        return String::new();
    }
    let mut i: usize = 0;
    while i < n
        invariant
            start@ == word@,
            whole@ == full@,
            i <= n == start@.len() <= whole@.len(),
            forall|j: int| 0 <= j < i ==> start@[j] == whole@[j],
        decreases n - i,
    {
        if start[i] != whole[i] {
            assert(!word@.is_prefix_of(full@));
            return String::new();
        }
        i = i + 1;
    }
    assert(start@ =~= whole@.take(n as int));
    let rest: &[char] = vstd::slice::slice_subrange(whole.as_slice(), n, whole.len());
    assert(rest@ =~= whole@.skip(n as int));
    string_of(rest)
}

/// Completing a word that begins every candidate leaves the longest text that begins
/// them all: what was typed is kept, and nothing is inserted that a candidate lacks.
pub proof fn law_completion_extends_the_word(word: Seq<char>, p: Seq<char>, texts: Seq<String>)
    requires
        texts.len() > 0,
        longest_common(p, texts),
        common_prefix(word, texts),
    ensures
        word + extension(word, p) == p,
{
    assert(word.is_prefix_of(texts[0]@));
    assert(p.is_prefix_of(texts[0]@));
    assert(word.len() <= p.len());
    assert forall|i: int| 0 <= i < word.len() implies word[i] == p[i] by {
        assert(word[i] == texts[0]@[i]);
        assert(p[i] == texts[0]@[i]);
    }
    assert(word =~= p.take(word.len() as int));
    assert(word + p.skip(word.len() as int) =~= p);
}

/// The longest common prefix is unique.
pub proof fn law_longest_common_prefix_is_unique(p: Seq<char>, q: Seq<char>, texts: Seq<String>)
    requires
        texts.len() > 0,
        longest_common(p, texts),
        longest_common(q, texts),
    ensures
        p == q,
{
    assert(p.is_prefix_of(texts[0]@));
    assert(q.is_prefix_of(texts[0]@));
    assert(p =~= q);
}

impl Default for Completion {
    fn default() -> (r: Self)
        ensures
            r.words() == Seq::<String>::empty(),
            r.inserted() is None,
    {
        Completion::none()
    }
}

impl Clone for Completion {
    fn clone(&self) -> (r: Self)
        ensures
            r.words().len() == self.words().len(),
            forall|i: int|
                0 <= i < r.words().len() ==> (#[trigger] r.words()[i])@ == self.words()[i]@,
            match self.inserted() {
                Some(s) => r.inserted() matches Some(t) && s@ == t@,
                None => r.inserted() is None,
            },
    {
        let mut candidates: Vec<String> = Vec::new();
        let mut i: usize = 0;
        while i < self.candidates.len()
            invariant
                i <= self.candidates@.len(),
                candidates@.len() == i,
                forall|j: int| 0 <= j < i ==> (#[trigger] candidates@[j])@ == self.candidates@[j]@,
            decreases self.candidates@.len() - i,
        {
            candidates.push(self.candidates[i].clone());
            i = i + 1;
        }
        let insertion: Option<String> = match &self.insertion {
            Some(s) => Some(s.clone()),
            None => None,
        };
        Completion { candidates, insertion }
    }
}

/// A source of completions.
pub trait Completer {
    /// The completions of the word under the cursor.
    fn complete(&mut self, ctx: &LineContext) -> Completion;
}

/// Says how a candidate is shown when several are listed.
pub trait CandidateStyler {
    /// Appends the display text of `candidate` to `out`.
    fn style(&mut self, candidate: &str, out: &mut String);
}

/// The longest text that begins each of `candidates`; empty where there are none.
pub fn longest_common_prefix(candidates: &[String]) -> (r: String)
    ensures
        candidates@.len() == 0 ==> r@.len() == 0,
        candidates@.len() > 0 ==> longest_common(r@, candidates@),
{
    if candidates.len() == 0 {
        return String::new();
    }
    let first: Vec<char> = chars_of(candidates[0].as_str());
    let mut len: usize = first.len();
    let mut i: usize = 1;
    assert(first@.take(len as int) =~= first@);
    while i < candidates.len() && len > 0
        invariant
            1 <= i <= candidates@.len(),
            len <= first@.len(),
            first@ == candidates@[0]@,
            common_prefix(first@.take(len as int), candidates@.take(i as int)),
            forall|p: Seq<char>|
                #![trigger common_prefix(p, candidates@)]
                common_prefix(p, candidates@) ==> p.len() <= len,
        decreases candidates@.len() - i,
    {
        let other: Vec<char> = chars_of(candidates[i].as_str());
        let mut common: usize = 0;
        while common < len && common < other.len() && first[common] == other[common]
            invariant
                common <= len <= first@.len(),
                common <= other@.len(),
                first@.take(common as int) =~= other@.take(common as int),
            decreases len - common,
        {
            common = common + 1;
        }
        proof {
            let shorter = first@.take(common as int);
            assert forall|j: int| 0 <= j < i + 1 implies shorter.is_prefix_of(
                #[trigger] candidates@.take(i + 1)[j]@,
            ) by {
                if j < i {
                    assert(candidates@.take(i as int)[j] == candidates@[j]);
                    assert(first@.take(len as int).is_prefix_of(candidates@.take(i as int)[j]@));
                    assert(shorter =~= first@.take(len as int).take(common as int));
                } else {
                    assert(candidates@[j]@ == other@);
                    assert(other@.take(common as int).is_prefix_of(other@));
                }
            }
            assert forall|p: Seq<char>|
                #![trigger common_prefix(p, candidates@)]
                common_prefix(p, candidates@) implies p.len() <= common by {
                assert(p.is_prefix_of(candidates@[0]@));
                assert(p.is_prefix_of(candidates@[i as int]@));
                if p.len() > common {
                    assert(p[common as int] == first@[common as int]);
                    assert(p[common as int] == other@[common as int]);
                }
            }
        }
        len = common;
        i = i + 1;
    }
    proof {
        let p = first@.take(len as int);
        if i < candidates@.len() {
            assert(p =~= Seq::<char>::empty());
        } else {
            assert(candidates@.take(i as int) =~= candidates@);
        }
        assert(common_prefix(p, candidates@));
    }
    string_of(vstd::slice::slice_subrange(first.as_slice(), 0, len))
}

/// The current word is what follows the last space, tab, newline, form feed or carriage
/// return, and everything where there is none.
pub proof fn law_current_word(head: Seq<char>, word: Seq<char>)
    requires
        head.len() > 0 ==> {
            let c = head[head.len() - 1];
            c == ' ' || c == '\t' || c == '\n' || c == '\x0C' || c == '\r'
        },
        forall|i: int|
            0 <= i < word.len() ==> (#[trigger] word[i]) != ' ' && word[i] != '\t' && word[i]
                != '\n' && word[i] != '\x0C' && word[i] != '\r',
    ensures
        last_word(head + word) == word,
    decreases word.len(),
{
    let all = head + word;
    if word.len() == 0 {
        assert(all =~= head);
        assert(last_word(all) =~= word);
    } else {
        let fewer = word.drop_last();
        assert(all.last() == word[word.len() - 1]);
        assert(all.drop_last() =~= head + fewer);
        assert forall|i: int| 0 <= i < fewer.len() implies (#[trigger] fewer[i]) != ' ' && fewer[i]
            != '\t' && fewer[i] != '\n' && fewer[i] != '\x0C' && fewer[i] != '\r' by {
            assert(fewer[i] == word[i]);
        }
        law_current_word(head, fewer);
        assert(fewer.push(word.last()) =~= word);
    }
}

/// What stands before the cursor are the characters up to its offset.
pub proof fn law_text_before_the_cursor(ctx: LineContext, chars: int)
    requires
        0 <= chars <= ctx.text().len(),
        ctx.offset() == encode_utf8(ctx.text().take(chars)).len(),
    ensures
        ctx.before_cursor() == ctx.text().take(chars),
{
    law_offset_of_characters(ctx.text(), chars);
}

/// What a text adds to a word that begins it is what follows the word; a text that the word
/// does not begin adds nothing.
pub proof fn law_what_is_added_to_a_word(word: Seq<char>, more: Seq<char>, full: Seq<char>)
    ensures
        extension(word, word + more) == more,
        full.len() < word.len() ==> extension(word, full).len() == 0,
        (exists|i: int| 0 <= i < word.len() && i < full.len() && word[i] != full[i]) ==> extension(
            word,
            full,
        ).len() == 0,
{
    assert((word + more).take(word.len() as int) =~= word);
    assert((word + more).skip(word.len() as int) =~= more);
    assert(word.is_prefix_of(word + more));
}

/// The longest common prefix begins every candidate, and nothing longer does: at its end one
/// candidate ends, or two of them differ.
pub proof fn law_longest_common_prefix(p: Seq<char>, texts: Seq<String>, q: Seq<char>)
    requires
        longest_common(p, texts),
        texts.len() > 0,
    ensures
        forall|i: int, k: int|
            0 <= i < texts.len() && 0 <= k < p.len() ==> p.len() <= texts[i]@.len() && p[k]
                == #[trigger] texts[i]@[k],
        forall|i: int| 0 <= i < texts.len() ==> p.len() <= (#[trigger] texts[i]@).len(),
        (forall|i: int|
            0 <= i < texts.len() ==> q.len() <= (#[trigger] texts[i]@).len() && forall|k: int|
                0 <= k < q.len() ==> q[k] == texts[i]@[k]) ==> q.len() <= p.len(),
{
    assert forall|i: int| 0 <= i < texts.len() implies p.len() <= (#[trigger] texts[i]@).len() by {
        assert(p.is_prefix_of(texts[i]@));
    }
    assert forall|i: int, k: int| 0 <= i < texts.len() && 0 <= k < p.len() implies p.len()
        <= texts[i]@.len() && p[k] == #[trigger] texts[i]@[k] by {
        assert(p.is_prefix_of(texts[i]@));
    }
    if forall|i: int|
        0 <= i < texts.len() ==> q.len() <= (#[trigger] texts[i]@).len() && forall|k: int|
            0 <= k < q.len() ==> q[k] == texts[i]@[k] {
        assert forall|i: int| 0 <= i < texts.len() implies q.is_prefix_of(#[trigger] texts[i]@) by {
            assert(q.len() <= texts[i]@.len());
            assert(q =~= texts[i]@.subrange(0, q.len() as int));
        }
        assert(common_prefix(q, texts));
    }
}

} // verus!
