//! The keyboard side of the editor: from bytes on the terminal to the characters
//! that the line editor is handed.
//!
//! A [`KeyReader`] decides what each byte means and says what to do next; whoever
//! drives it does the reading and writing:
//!
//! 1. [`KeyReader::begin`] starts the search for one character.
//! 2. On [`Step::ReadLead`] the hint is drawn ([`KeyReader::show_hint`]) and a byte
//!    is read, however long it takes: [`KeyReader::on_lead`].
//! 3. On [`Step::TakeLead`] the hint is drawn and the byte that comes with the step is
//!    handed to [`KeyReader::on_lead`], without a read.
//! 4. On [`Step::Peek`] a byte is read with a short timeout: [`KeyReader::on_peek`].
//! 5. On [`Step::ReadMore`] a byte is read without one: [`KeyReader::on_more`].
//! 6. On [`Step::Insert`] the text is inserted into the line, the line is redrawn,
//!    and the search begins anew.
//! 7. [`Step::Deliver`] and [`Step::End`] end it.
//!
//! Three keys are special. `^F` and the right arrow accept the hint that is showing,
//! and a bracketed paste is inserted into the line as it is. Every other character
//! passes through unchanged.
//!
//! Bytes that encode no character are delivered as U+FFFD. A byte that breaks a
//! character off, or that follows an `ESC` and is not ASCII, is kept and becomes the first
//! byte of the next key.

use vstd::prelude::*;
use vstd::utf8::*;

use crate::editline::LineContext;
use crate::escape::{
    classify, escape_outcome, law_known_sequences, lemma_classify_first, lemma_classify_second,
    lemma_classify_start, lemma_unfinished, paste_start, EscSeq, EscView, EscapeReader, Pending,
    PENDING_CAPACITY,
};
use crate::paste::{
    end_marker, law_end_marker_ends_the_paste, law_paste_is_literal, lemma_byte_valid, PasteReader,
    PasteState, ESC,
};
use crate::utf8::{
    char_len, decode_unit, decoded_unit, law_decode_encoded_char, law_only_characters_decode,
    lemma_ascii_byte, unfinished_char, utf8_char_len, utf8_continues, REPLACEMENT,
};
use crate::wstr::{
    char_unit, content, is_character, lemma_wcslen, terminated, text_of, units_of, wcslen,
    with_nul, WCString, WChar,
};

verus! {

/// Control-F, which accepts the hint.
pub const CTRL_F: u8 = 0x06;

/// How long the byte after an `ESC` is waited for, in milliseconds.
pub const ESC_SEQ_TIMEOUT_MS: i32 = 50;

// ---------------------------------------------------------------------------
// Model
// ---------------------------------------------------------------------------

/// The result of reading one byte.
#[derive(Debug, Clone, Copy, PartialEq, Eq, Structural)]
pub enum ReadByte {
    /// A byte was read.
    Byte(u8),
    /// The end of the input.
    Eof,
    /// A signal that ends the line came in.
    Interrupted,
    /// The read failed.
    Error,
}

/// What a read handed in, and at which point of the search.
#[derive(Debug, Clone, Copy)]
pub enum Event {
    /// The search for a character begins.
    Begin,
    /// The first byte of a key.
    Lead(ReadByte),
    /// A byte after an `ESC`, or `None` where none came in time.
    Peek(Option<u8>),
    /// A further byte of a character or of a paste.
    More(ReadByte),
}

/// The point that the search for a character has reached.
pub enum Phase {
    /// Nothing is being read.
    Idle,
    /// The first byte of a key comes next.
    Lead,
    /// An `ESC` and the bytes given have been read.
    Escape(Seq<u8>),
    /// A paste is being read.
    Paste(PasteState),
    /// The first bytes of a character have been read.
    Char(Seq<u8>),
}

/// The state of a [`KeyReader`]: the bytes to replay, a byte that is kept for the next
/// key, the hint that is showing, and the point that the search has reached.
pub struct KeyState {
    pub pending: Seq<u8>,
    pub held: Option<u8>,
    pub hint: Seq<WChar>,
    pub phase: Phase,
}

/// What is to be done next, in terms of sequences.
pub enum StepView {
    ReadLead,
    TakeLead(u8),
    Peek,
    ReadMore,
    Insert(Seq<WChar>),
    Deliver { unit: WChar, push: Seq<WChar> },
    End(int),
}

impl KeyState {
    /// Nothing has been read, and no hint is showing.
    pub open spec fn start() -> Self {
        KeyState { pending: Seq::empty(), held: None, hint: Seq::empty(), phase: Phase::Idle }
    }

    /// A hint is showing that the accept keys insert.
    pub open spec fn hint_showing(self) -> bool {
        content(self.hint).len() > 0
    }

    /// What can hold of a reader: the queue fits and holds ASCII alone, nothing is queued or
    /// kept while a key is being read, the hint ends in a NUL, and what has been read of a
    /// key is unfinished.
    pub open spec fn valid(self) -> bool {
        &&& self.pending.len() <= PENDING_CAPACITY
        &&& self.phase !is Idle ==> self.pending.len() == 0
        &&& forall|i: int| 0 <= i < self.pending.len() ==> #[trigger] self.pending[i] < 0x80
        &&& self.held is Some ==> self.phase is Idle
        &&& self.hint.len() > 0 ==> terminated(self.hint)
        &&& match self.phase {
            Phase::Idle => true,
            Phase::Lead => true,
            Phase::Escape(seen) => classify(seen) is Unfinished,
            Phase::Paste(paste) => paste.valid() && !paste.done,
            Phase::Char(bytes) => unfinished_char(bytes),
        }
    }

    /// `event` is what the reader waits for.
    pub open spec fn expects(self, event: Event) -> bool {
        match event {
            Event::Begin => self.phase is Idle,
            Event::Lead(_) => self.phase is Lead,
            Event::Peek(_) => self.phase is Escape,
            Event::More(_) => self.phase is Paste || self.phase is Char,
        }
    }

    /// The search is over with `step`.
    pub open spec fn finish(self, step: StepView) -> (KeyState, StepView) {
        (KeyState { phase: Phase::Idle, ..self }, step)
    }

    /// The search goes on at `phase`, after `step`.
    pub open spec fn wait(self, phase: Phase, step: StepView) -> (KeyState, StepView) {
        (KeyState { phase, ..self }, step)
    }

    /// One unit is delivered.
    pub open spec fn deliver(self, unit: WChar) -> (KeyState, StepView) {
        self.finish(StepView::Deliver { unit, push: Seq::empty() })
    }

    /// The hint is accepted: its first unit is delivered, and the rest, where there
    /// is any, is pushed back to be read as if it had been typed.
    pub open spec fn accept_hint(self) -> (KeyState, StepView) {
        KeyState { hint: Seq::empty(), ..self }.finish(
            StepView::Deliver {
                unit: self.hint[0],
                push: if self.hint.len() > 2 {
                    self.hint.skip(1)
                } else {
                    Seq::empty()
                },
            },
        )
    }

    /// An `ESC` is delivered and the bytes read after it are queued for replay. A last
    /// byte that is not ASCII belongs to a character, and is kept for the next key.
    pub open spec fn replay(self, bytes: Seq<u8>) -> (KeyState, StepView) {
        let st = if bytes.len() > 0 && bytes.last() >= 0x80 {
            KeyState {
                pending: self.pending + bytes.drop_last(),
                held: Some(bytes.last()),
                ..self
            }
        } else {
            KeyState { pending: self.pending + bytes, ..self }
        };
        st.deliver(ESC as WChar)
    }

    /// What `event` makes of the state, and what is to be done next.
    pub open spec fn step(self, event: Event) -> (KeyState, StepView) {
        match (event, self.phase) {
            (Event::Begin, _) => if self.pending.len() > 0 {
                KeyState { pending: self.pending.skip(1), ..self }.deliver(self.pending[0] as WChar)
            } else {
                match self.held {
                    Some(b) => KeyState { held: None, ..self }.wait(
                        Phase::Lead,
                        StepView::TakeLead(b),
                    ),
                    None => self.wait(Phase::Lead, StepView::ReadLead),
                }
            },
            (Event::Lead(read), _) => match read {
                ReadByte::Eof => self.finish(StepView::End(0)),
                ReadByte::Interrupted => self.finish(StepView::End(-1)),
                ReadByte::Error => self.finish(StepView::End(-1)),
                ReadByte::Byte(b) => if b == ESC {
                    self.wait(Phase::Escape(Seq::empty()), StepView::Peek)
                } else if b == CTRL_F && self.hint_showing() {
                    self.accept_hint()
                } else if char_len(b) == 1 {
                    self.deliver(decoded_unit(seq![b]))
                } else {
                    self.wait(Phase::Char(seq![b]), StepView::ReadMore)
                },
            },
            (Event::Peek(read), Phase::Escape(seen)) => match escape_outcome(seen, read) {
                None => self.wait(Phase::Escape(seen.push(read->Some_0)), StepView::Peek),
                Some(EscView::PasteStart) => self.wait(
                    Phase::Paste(PasteState::start()),
                    StepView::ReadMore,
                ),
                Some(EscView::RightArrow(bytes)) => if self.hint_showing() {
                    self.accept_hint()
                } else {
                    self.replay(bytes)
                },
                Some(EscView::Other(bytes)) => self.replay(bytes),
            },
            (Event::More(read), Phase::Paste(paste)) => {
                let next = match read {
                    ReadByte::Byte(b) => paste.byte(b),
                    _ => paste.no_byte(),
                };
                if !next.done {
                    self.wait(Phase::Paste(next), StepView::ReadMore)
                } else if with_nul(next.text).len() == 1 {
                    self.wait(Phase::Lead, StepView::ReadLead)
                } else {
                    self.finish(StepView::Insert(with_nul(next.text)))
                }
            },
            (Event::More(read), Phase::Char(bytes)) => match read {
                ReadByte::Eof => self.finish(StepView::End(0)),
                ReadByte::Interrupted => self.finish(StepView::End(-1)),
                ReadByte::Error => self.finish(StepView::End(-1)),
                ReadByte::Byte(b) => if !is_continuation_byte(b) {
                    KeyState { held: Some(b), ..self }.deliver(REPLACEMENT)
                } else if bytes.len() + 1 < char_len(bytes[0]) {
                    self.wait(Phase::Char(bytes.push(b)), StepView::ReadMore)
                } else {
                    self.deliver(decoded_unit(bytes.push(b)))
                },
            },
            _ => (self, StepView::End(-1)),
        }
    }

    /// The units delivered by beginning again and again while there are bytes to
    /// replay.
    pub open spec fn drain(self) -> Seq<WChar>
        decreases self.pending.len(),
    {
        if self.pending.len() == 0 {
            Seq::empty()
        } else {
            let (next, step) = self.step(Event::Begin);
            seq![step->unit] + next.drain()
        }
    }

    /// What `bytes`, coming in after an `ESC`, make of the state.
    pub open spec fn peeks(self, bytes: Seq<u8>) -> (KeyState, StepView)
        decreases bytes.len(),
    {
        let (next, step) = self.step(Event::Peek(Some(bytes[0])));
        if bytes.len() > 1 && step is Peek {
            next.peeks(bytes.skip(1))
        } else {
            (next, step)
        }
    }

    /// What `bytes`, coming in while a character or a paste is read, make of the
    /// state. Those that follow its end are left unread.
    pub open spec fn mores(self, bytes: Seq<u8>) -> (KeyState, StepView)
        decreases bytes.len(),
    {
        let (next, step) = self.step(Event::More(ReadByte::Byte(bytes[0])));
        if bytes.len() > 1 && step is ReadMore {
            next.mores(bytes.skip(1))
        } else {
            (next, step)
        }
    }

    /// What `bytes`, coming in as the whole of a key that is no escape sequence,
    /// make of the state.
    pub open spec fn types(self, bytes: Seq<u8>) -> (KeyState, StepView) {
        let (next, step) = self.step(Event::Lead(ReadByte::Byte(bytes[0])));
        if bytes.len() > 1 && step is ReadMore {
            next.mores(bytes.skip(1))
        } else {
            (next, step)
        }
    }

    /// The units delivered while `text` is typed, character by character.
    pub open spec fn typing(self, text: Seq<char>) -> Seq<WChar>
        decreases text.len(),
    {
        if text.len() == 0 {
            Seq::empty()
        } else {
            let (next, step) = self.step(Event::Begin).0.types(encode_scalar(text[0] as u32));
            seq![step->unit] + next.typing(text.skip(1))
        }
    }

    /// The state after an `ESC` has come in as the first byte of a key.
    pub open spec fn escaped(self) -> KeyState {
        self.step(Event::Lead(ReadByte::Byte(ESC))).0
    }
}

// ---------------------------------------------------------------------------
// Reader
// ---------------------------------------------------------------------------

/// What is to be done next.
#[derive(Debug)]
pub enum Step {
    /// Draw the hint and read the first byte of a key.
    ReadLead,
    /// Draw the hint and take this byte, which has been read already, as the first of
    /// a key.
    TakeLead(u8),
    /// Read a byte, waiting at most [`ESC_SEQ_TIMEOUT_MS`].
    Peek,
    /// Read a byte.
    ReadMore,
    /// Insert the text, which ends in a NUL, into the line and redraw it.
    Insert(Vec<WChar>),
    /// Hand over `unit`, after pushing `push` back where it is not empty. What is
    /// pushed back ends in a NUL.
    Deliver {
        /// The unit to hand over.
        unit: WChar,
        /// What to push back.
        push: Vec<WChar>,
    },
    /// End without a character: `0` at the end of the input, `-1` on a failure.
    End(i32),
}

impl View for Step {
    type V = StepView;

    open spec fn view(&self) -> StepView {
        match self {
            Step::ReadLead => StepView::ReadLead,
            Step::TakeLead(b) => StepView::TakeLead(*b),
            Step::Peek => StepView::Peek,
            Step::ReadMore => StepView::ReadMore,
            Step::Insert(text) => StepView::Insert(text@),
            Step::Deliver { unit, push } => StepView::Deliver { unit: *unit, push: push@ },
            Step::End(code) => StepView::End(*code as int),
        }
    }
}

/// The point that the search for a character has reached, and what was read.
#[derive(Debug)]
enum Reading {
    Idle,
    Lead,
    Escape(EscapeReader),
    Paste(PasteReader),
    Char(Vec<u8>),
}

impl Reading {
    spec fn phase(&self) -> Phase {
        match self {
            Reading::Idle => Phase::Idle,
            Reading::Lead => Phase::Lead,
            Reading::Escape(reader) => Phase::Escape(reader@),
            Reading::Paste(reader) => Phase::Paste(reader@),
            Reading::Char(bytes) => Phase::Char(bytes@),
        }
    }
}

/// Turns bytes from the terminal into characters for the line editor.
#[derive(Debug)]
pub struct KeyReader {
    pending: Pending,
    held: Option<u8>,
    hint: WCString,
    reading: Reading,
}

impl View for KeyReader {
    type V = KeyState;

    closed spec fn view(&self) -> KeyState {
        KeyState {
            pending: self.pending@,
            held: self.held,
            hint: self.hint@,
            phase: self.reading.phase(),
        }
    }
}

impl KeyReader {
    /// The queue lies within its buffer.
    pub closed spec fn queue_valid(&self) -> bool {
        self.pending.valid()
    }

    /// The reader is in a state that can occur.
    pub open spec fn valid(&self) -> bool {
        self.queue_valid() && self@.valid()
    }

    /// A reader with nothing to replay, nothing kept and no hint.
    pub fn new() -> (r: Self)
        ensures
            r.valid(),
            r@ == KeyState::start(),
    {
        KeyReader {
            pending: Pending::new(),
            held: None,
            hint: WCString::new(),
            reading: Reading::Idle,
        }
    }

    /// Begins the search for a character: the next byte to replay is one, and
    /// otherwise a key is read, whose first byte may be at hand.
    pub fn begin(&mut self) -> (r: Step)
        requires
            old(self).valid(),
            old(self)@.expects(Event::Begin),
        ensures
            final(self).valid(),
            (final(self)@, r@) == old(self)@.step(Event::Begin),
    {
        match self.pending.pop() {
            Some(b) => deliver(b as WChar),
            None => {
                self.reading = Reading::Lead;
                assert(self.pending@ =~= old(self)@.pending);
                match self.held {
                    Some(b) => {
                        self.held = None;
                        Step::TakeLead(b)
                    },
                    None => Step::ReadLead,
                }
            },
        }
    }

    /// Breaks off the search for a character. What is queued for replay, what is kept
    /// for the next key, and the hint stay as they are.
    pub fn cancel(&mut self)
        requires
            old(self).valid(),
        ensures
            final(self).valid(),
            final(self)@ == (KeyState { phase: Phase::Idle, ..old(self)@ }),
    {
        self.reading = Reading::Idle;
    }

    /// Takes the first byte of a key.
    pub fn on_lead(&mut self, read: ReadByte) -> (r: Step)
        requires
            old(self).valid(),
            old(self)@.expects(Event::Lead(read)),
        ensures
            final(self).valid(),
            (final(self)@, r@) == old(self)@.step(Event::Lead(read)),
    {
        self.reading = Reading::Idle;
        let lead: u8 = match read {
            ReadByte::Byte(b) => b,
            ReadByte::Eof => {
                return Step::End(0);
            },
            ReadByte::Interrupted | ReadByte::Error => {
                return Step::End(-1);
            },
        };
        if lead == ESC {
            self.reading = Reading::Escape(EscapeReader::new());
            return Step::Peek;
        }
        if lead == CTRL_F && self.hint_showing() {
            return self.accept_hint();
        }
        let mut bytes: Vec<u8> = Vec::new();
        bytes.push(lead);
        assert(bytes@ =~= seq![lead]);
        if utf8_char_len(lead) == 1 {
            return deliver(decode_unit(bytes.as_slice()));
        }
        self.reading = Reading::Char(bytes);
        Step::ReadMore
    }

    /// Takes a byte after an `ESC`, or `None` where none came in time.
    pub fn on_peek(&mut self, read: Option<u8>) -> (r: Step)
        requires
            old(self).valid(),
            old(self)@.expects(Event::Peek(read)),
        ensures
            final(self).valid(),
            (final(self)@, r@) == old(self)@.step(Event::Peek(read)),
    {
        let mut reading = Reading::Idle;
        std::mem::swap(&mut self.reading, &mut reading);
        let mut reader: EscapeReader = match reading {
            Reading::Escape(reader) => reader,
            _ => {
                return Step::End(-1);
            },
        };
        let ghost seen = reader@;
        proof {
            lemma_unfinished(seen);
        }
        let seq: EscSeq = match reader.feed(read) {
            Some(seq) => seq,
            None => {
                self.reading = Reading::Escape(reader);
                return Step::Peek;
            },
        };
        match seq {
            EscSeq::PasteStart => {
                self.reading = Reading::Paste(PasteReader::new());
                Step::ReadMore
            },
            EscSeq::RightArrow(bytes) => {
                if self.hint_showing() {
                    self.accept_hint()
                } else {
                    self.replay(&bytes)
                }
            },
            EscSeq::Other(bytes) => self.replay(&bytes),
        }
    }

    /// Takes a further byte of a character or of a paste.
    pub fn on_more(&mut self, read: ReadByte) -> (r: Step)
        requires
            old(self).valid(),
            old(self)@.expects(Event::More(read)),
        ensures
            final(self).valid(),
            (final(self)@, r@) == old(self)@.step(Event::More(read)),
    {
        let mut reading = Reading::Idle;
        std::mem::swap(&mut self.reading, &mut reading);
        match reading {
            Reading::Paste(reader) => self.paste_more(reader, read),
            Reading::Char(bytes) => self.char_more(bytes, read),
            _ => Step::End(-1),
        }
    }

    /// Goes on with a paste.
    fn paste_more(&mut self, paste: PasteReader, read: ReadByte) -> (r: Step)
        requires
            old(self).valid(),
            old(self)@.phase is Idle,
            old(self)@.pending.len() == 0,
            old(self)@.held is None,
            paste@.valid(),
            !paste@.done,
        ensures
            final(self).valid(),
            (final(self)@, r@) == (KeyState { phase: Phase::Paste(paste@), ..old(self)@ }).step(
                Event::More(read),
            ),
    {
        let mut paste = paste;
        paste.feed(
            match read {
                ReadByte::Byte(b) => Some(b),
                _ => None,
            },
        );
        if !paste.done() {
            self.reading = Reading::Paste(paste);
            return Step::ReadMore;
        }
        let mut text: WCString = paste.into_text();
        text.terminate();
        if text.units().len() == 0 {
            self.reading = Reading::Lead;
            return Step::ReadLead;
        }
        Step::Insert(text.into_units_with_nul())
    }

    /// Goes on with a character.
    fn char_more(&mut self, bytes: Vec<u8>, read: ReadByte) -> (r: Step)
        requires
            old(self).valid(),
            old(self)@.phase is Idle,
            old(self)@.pending.len() == 0,
            old(self)@.held is None,
            unfinished_char(bytes@),
        ensures
            final(self).valid(),
            (final(self)@, r@) == (KeyState { phase: Phase::Char(bytes@), ..old(self)@ }).step(
                Event::More(read),
            ),
    {
        let mut bytes = bytes;
        let ghost before = bytes@;
        let b: u8 = match read {
            ReadByte::Byte(b) => b,
            ReadByte::Eof => {
                return Step::End(0);
            },
            ReadByte::Interrupted | ReadByte::Error => {
                return Step::End(-1);
            },
        };
        if !utf8_continues(b) {
            self.held = Some(b);
            return deliver(REPLACEMENT);
        }
        bytes.push(b);
        assert(bytes@[0] == before[0]);
        if bytes.len() < utf8_char_len(bytes[0]) {
            self.reading = Reading::Char(bytes);
            return Step::ReadMore;
        }
        deliver(decode_unit(bytes.as_slice()))
    }

    /// A hint is showing that the accept keys insert.
    pub fn hint_showing(&self) -> (r: bool)
        requires
            self.valid(),
        ensures
            r == self@.hint_showing(),
    {
        !self.hint.is_empty()
    }

    /// Accepts the hint: delivers its first unit, pushes back the rest, and forgets
    /// it.
    fn accept_hint(&mut self) -> (r: Step)
        requires
            old(self).valid(),
            old(self)@.phase is Idle,
            old(self)@.hint_showing(),
        ensures
            final(self).valid(),
            (final(self)@, r@) == old(self)@.accept_hint(),
    {
        proof {
            lemma_wcslen(self.hint@);
        }
        let units: &[WChar] = self.hint.units_with_nul();
        let unit: WChar = units[0];
        let push: Vec<WChar> = if units.len() > 2 {
            vstd::slice::slice_to_vec(vstd::slice::slice_subrange(units, 1, units.len()))
        } else {
            Vec::new()
        };
        proof {
            assert(old(self)@.hint.skip(1) =~= old(self)@.hint.subrange(
                1,
                old(self)@.hint.len() as int,
            ));
            assert(push@ =~= (if old(self)@.hint.len() > 2 {
                old(self)@.hint.skip(1)
            } else {
                Seq::empty()
            }));
        }
        self.hint.clear();
        Step::Deliver { unit, push }
    }

    /// Delivers an `ESC` and queues the bytes read after it, or keeps the last of them for
    /// the next key.
    fn replay(&mut self, bytes: &Vec<u8>) -> (r: Step)
        requires
            old(self).valid(),
            old(self)@.phase is Idle,
            old(self)@.pending.len() == 0,
            old(self)@.held is None,
            bytes@.len() <= PENDING_CAPACITY,
            forall|i: int| 0 <= i < bytes@.len() - 1 ==> #[trigger] bytes@[i] < 0x80,
        ensures
            final(self).valid(),
            (final(self)@, r@) == old(self)@.replay(bytes@),
    {
        let mut n: usize = bytes.len();
        if n > 0 && bytes[n - 1] >= 0x80 {
            n = n - 1;
            self.held = Some(bytes[n]);
            assert(bytes@.drop_last() =~= bytes@.take(n as int));
        }
        let ghost held = self.held;
        let mut i: usize = 0;
        while i < n
            invariant
                i <= n <= bytes@.len() <= PENDING_CAPACITY,
                self.pending.valid(),
                self.pending@ =~= bytes@.take(i as int),
                self@.hint == old(self)@.hint,
                self@.held == held,
                self@.phase == old(self)@.phase,
            decreases n - i,
        {
            self.pending.push(bytes[i]);
            i = i + 1;
        }
        assert(self.pending@ =~= old(self)@.pending + bytes@.take(n as int));
        assert(bytes@.take(bytes@.len() as int) =~= bytes@);
        deliver(ESC as WChar)
    }

    /// Shows `hint`, or no hint where it is `None`. Gives the text to draw, where
    /// there is any.
    pub fn set_hint(&mut self, hint: Option<&str>) -> (r: Option<String>)
        requires
            old(self).valid(),
        ensures
            final(self).valid(),
            final(self)@ == (KeyState {
                hint: match hint {
                    Some(text) => with_nul(units_of(text@)),
                    None => Seq::empty(),
                },
                ..old(self)@
            }),
            match r {
                Some(shown) => final(self)@.hint_showing() && shown@ == text_of(
                    final(self)@.hint.drop_last(),
                ),
                None => !final(self)@.hint_showing(),
            },
    {
        self.hint.clear();
        let text: &str = match hint {
            Some(text) => text,
            None => {
                return None;
            },
        };
        self.hint.push_str(text);
        assert(self.hint@ =~= units_of(text@));
        self.hint.terminate();
        if !self.hint_showing() {
            return None;
        }
        Some(self.hint.as_wcstr().to_display_string())
    }

    /// Shows `hint` where the line at `ctx` asks for a hint, and otherwise none. Gives the
    /// text to draw, where there is any.
    pub fn show_hint(&mut self, ctx: &LineContext, hint: &str) -> (r: Option<String>)
        requires
            old(self).valid(),
        ensures
            final(self).valid(),
            final(self)@ == (KeyState {
                hint: if ctx.hint_wanted() {
                    with_nul(units_of(hint@))
                } else {
                    Seq::empty()
                },
                ..old(self)@
            }),
            match r {
                Some(shown) => final(self)@.hint_showing() && shown@ == text_of(
                    final(self)@.hint.drop_last(),
                ),
                None => !final(self)@.hint_showing(),
            },
            !ctx.hint_wanted() ==> r is None,
    {
        if ctx.wants_hint() {
            self.set_hint(Some(hint))
        } else {
            self.set_hint(None)
        }
    }

    /// The hint that is showing, with a NUL at its end; empty where none is.
    pub fn hint(&self) -> (r: &[WChar])
        ensures
            r@ == self@.hint,
    {
        self.hint.units_with_nul()
    }
}

/// The step that delivers one unit.
fn deliver(unit: WChar) -> (r: Step)
    ensures
        r@ == (StepView::Deliver { unit, push: Seq::empty() }),
{
    let r = Step::Deliver { unit, push: Vec::new() };
    assert(r->push@ =~= Seq::<WChar>::empty());
    r
}

// ---------------------------------------------------------------------------
// Laws
// ---------------------------------------------------------------------------

/// No event leaves a state that cannot occur; in particular the replay queue never
/// overflows.
pub proof fn law_step_keeps_valid(st: KeyState, event: Event)
    requires
        st.valid(),
        st.expects(event),
    ensures
        st.step(event).0.valid(),
{
    match (event, st.phase) {
        (Event::Peek(read), Phase::Escape(seen)) => {
            lemma_unfinished(seen);
        },
        (Event::More(ReadByte::Byte(b)), Phase::Paste(paste)) => {
            lemma_byte_valid(paste, b);
        },
        _ => {},
    }
}

/// Queued bytes are delivered one by one, in the order in which they were read.
pub proof fn law_pending_is_replayed_in_order(st: KeyState)
    ensures
        st.drain() == Seq::new(st.pending.len(), |i: int| st.pending[i] as WChar),
    decreases st.pending.len(),
{
    if st.pending.len() > 0 {
        let next = st.step(Event::Begin).0;
        law_pending_is_replayed_in_order(next);
        assert(st.drain() =~= Seq::new(st.pending.len(), |i: int| st.pending[i] as WChar));
    } else {
        assert(st.drain() =~= Seq::new(st.pending.len(), |i: int| st.pending[i] as WChar));
    }
}

/// An escape sequence in ASCII that the editor does not act on reaches the keymap whole:
/// the `ESC` is delivered, and then, one by one, all bytes that were read after it. So
/// is a right arrow while no hint is showing.
pub proof fn law_other_sequences_pass_through(st: KeyState, bytes: Seq<u8>)
    requires
        st.valid(),
        st.phase is Lead,
        bytes.len() > 0,
        forall|n: int| 0 < n < bytes.len() ==> classify(#[trigger] bytes.take(n)) is Unfinished,
        classify(bytes) is Other || (classify(bytes) is RightArrow && !st.hint_showing()),
        bytes.last() < 0x80,
    ensures
        st.escaped().peeks(bytes) == (
            KeyState { pending: bytes, phase: Phase::Idle, ..st },
            StepView::Deliver { unit: ESC as WChar, push: Seq::empty() },
        ),
        st.escaped().peeks(bytes).0.drain() == Seq::new(
            bytes.len(),
            |i: int| bytes[i] as WChar,
        ),
{
    assert(bytes.take(0) =~= Seq::<u8>::empty());
    assert(bytes.skip(0) =~= bytes);
    lemma_peeks(st.escaped(), bytes, 0);
    assert(st.pending + bytes =~= bytes);
    law_pending_is_replayed_in_order(st.escaped().peeks(bytes).0);
}

/// A character after an `ESC` stays one: where a byte that is not ASCII follows an `ESC` or
/// the start of a sequence, the `ESC` and the start are delivered as they are, and the byte
/// then begins a key, just as if it were read then.
pub proof fn law_character_after_escape(st: KeyState, seen: Seq<u8>, b: u8)
    requires
        st.valid(),
        st.phase == Phase::Escape(seen),
        b >= 0x80,
    ensures
        ({
            let (next, step) = st.step(Event::Peek(Some(b)));
            &&& step == StepView::Deliver { unit: ESC as WChar, push: Seq::empty() }
            &&& next == (KeyState { pending: seen, held: Some(b), phase: Phase::Idle, ..st })
            &&& (KeyState { pending: Seq::empty(), ..next }).step(Event::Begin) == (
                KeyState { phase: Phase::Lead, ..st },
                StepView::TakeLead(b),
            )
        }),
{
    let bytes = seen.push(b);
    lemma_not_ascii(seen, b);
    assert(st.pending + bytes.drop_last() =~= seen);
    assert(st.pending =~= Seq::<u8>::empty());
}

/// Nothing but characters reaches the keymap: whatever comes in, a unit that is delivered is
/// that of a character. The units of an accepted hint are those that the hint holds.
pub proof fn law_only_characters_are_delivered(st: KeyState, event: Event)
    requires
        st.valid(),
        st.expects(event),
        !st.hint_showing() || !accepts_hint(st, event),
    ensures
        st.step(event).1 matches StepView::Deliver { unit, .. } ==> is_character(unit),
{
    if let StepView::Deliver { unit, .. } = st.step(event).1 {
        assert(char_unit('\u{FFFD}') == REPLACEMENT);
        assert(char_unit('\x1b') == ESC as WChar);
        match (event, st.phase) {
            (Event::Begin, _) => {
                let c = st.pending[0] as char;
                assert(unit == char_unit(c));
            },
            (Event::Lead(ReadByte::Byte(b)), _) => {
                law_only_characters_decode(seq![b]);
            },
            (Event::More(ReadByte::Byte(b)), Phase::Char(bytes)) => {
                law_only_characters_decode(bytes.push(b));
            },
            _ => {},
        }
    }
}

/// A byte that is not ASCII is part of no sequence.
proof fn lemma_not_ascii(seen: Seq<u8>, b: u8)
    requires
        b >= 0x80,
    ensures
        classify(seen.push(b)) is Other,
{
    let bytes = seen.push(b);
    let csi = seq![0x5bu8, 0x43u8];
    let ss3 = seq![0x4fu8, 0x43u8];
    let n = seen.len() as int;
    assert(bytes[n] == b);
    if bytes.is_prefix_of(csi) {
        assert(bytes[n] == csi[n]);
    }
    if bytes.is_prefix_of(ss3) {
        assert(bytes[n] == ss3[n]);
    }
    if bytes.is_prefix_of(paste_start()) {
        assert(bytes[n] == paste_start()[n]);
    }
}

/// An `ESC` after which nothing comes in time is delivered, with the bytes that did
/// come: a key pressed alone does not stall, and nothing that was read is lost.
pub proof fn law_broken_off_sequences_pass_through(st: KeyState, seen: Seq<u8>)
    requires
        st.valid(),
        st.phase == Phase::Escape(seen),
    ensures
        st.step(Event::Peek(None)) == (
            KeyState { pending: seen, phase: Phase::Idle, ..st },
            StepView::Deliver { unit: ESC as WChar, push: Seq::empty() },
        ),
{
    lemma_unfinished(seen);
    assert(st.pending + seen =~= seen);
}

/// Every key that is no escape sequence ends: a first byte and as many continuation bytes
/// as it calls for, well formed or not, deliver exactly one unit, and nothing is left open.
/// The unit is U+FFFD where the bytes encode no character, as where the first byte begins
/// none.
pub proof fn law_every_key_delivers(st: KeyState, bytes: Seq<u8>)
    requires
        st.valid(),
        st.phase is Lead,
        bytes.len() > 0,
        bytes.len() == char_len(bytes[0]),
        bytes[0] != ESC,
        bytes[0] != CTRL_F || !st.hint_showing(),
        forall|i: int| 1 <= i < bytes.len() ==> is_continuation_byte(#[trigger] bytes[i]),
    ensures
        st.types(bytes) == (
            KeyState { phase: Phase::Idle, ..st },
            StepView::Deliver { unit: decoded_unit(bytes), push: Seq::empty() },
        ),
{
    if bytes.len() > 1 {
        assert(seq![bytes[0]] =~= bytes.take(1));
        lemma_mores_char(KeyState { phase: Phase::Char(seq![bytes[0]]), ..st }, bytes, 1);
    } else {
        assert(bytes =~= seq![bytes[0]]);
    }
}

/// A character that breaks off is delivered as U+FFFD, and the byte that breaks it off is
/// not lost: the next search takes it as the first byte of a key, just as if it were read
/// then.
pub proof fn law_broken_off_characters_are_replaced(st: KeyState, bytes: Seq<u8>, b: u8)
    requires
        st.valid(),
        st.phase is Lead,
        unfinished_char(bytes),
        !is_continuation_byte(b),
    ensures
        st.types(bytes.push(b)) == (
            KeyState { held: Some(b), phase: Phase::Idle, ..st },
            StepView::Deliver { unit: REPLACEMENT, push: Seq::empty() },
        ),
        st.types(bytes.push(b)).0.step(Event::Begin) == (st, StepView::TakeLead(b)),
{
    let all = bytes.push(b);
    assert(seq![bytes[0]] =~= bytes.take(1));
    assert(bytes[0] == all[0]);
    assert(all.skip(1).len() == bytes.len());
    lemma_mores_broken_off(KeyState { phase: Phase::Char(seq![bytes[0]]), ..st }, bytes, b, 1);
}

/// A typed character is delivered as it is: for every character but `ESC`, and `^F`
/// while a hint is showing, the bytes of its encoding give its unit.
pub proof fn law_typed_character_is_delivered(st: KeyState, c: char)
    requires
        st.valid(),
        st.phase is Lead,
        c != '\x1b',
        c != '\x06' || !st.hint_showing(),
    ensures
        st.types(encode_scalar(c as u32)) == (
            KeyState { phase: Phase::Idle, ..st },
            StepView::Deliver { unit: char_unit(c), push: Seq::empty() },
        ),
{
    let bytes = encode_scalar(c as u32);
    law_decode_encoded_char(c);
    if bytes[0] < 0x80 {
        lemma_ascii_byte(c, 0);
    }
    law_every_key_delivers(st, bytes);
}

/// With nothing to replay, nothing kept and no hint showing, the reader is transparent: a text
/// without an `ESC` is delivered unit for unit as it is typed.
pub proof fn law_typed_text_is_delivered(st: KeyState, text: Seq<char>)
    requires
        st.valid(),
        st.phase is Idle,
        st.pending.len() == 0,
        st.held is None,
        !st.hint_showing(),
        forall|i: int| 0 <= i < text.len() ==> text[i] != '\x1b',
    ensures
        st.typing(text) == units_of(text),
    decreases text.len(),
{
    if text.len() > 0 {
        let lead = st.step(Event::Begin).0;
        law_typed_character_is_delivered(lead, text[0]);
        law_typed_text_is_delivered(st, text.skip(1));
        assert(lead.types(encode_scalar(text[0] as u32)).0 == st);
    }
    assert(st.typing(text) =~= units_of(text));
}

/// `^F` and both right arrows accept the hint that is showing: the unit
/// delivered and those pushed back are together the text of the hint, and it shows no
/// longer.
pub proof fn law_hint_is_accepted(st: KeyState)
    requires
        st.valid(),
        st.phase is Lead,
        st.hint_showing(),
    ensures
        st.types(seq![CTRL_F]) == st.accept_hint(),
        st.escaped().peeks(seq![0x5b, 0x43]) == st.accept_hint(),
        st.escaped().peeks(seq![0x4f, 0x43]) == st.accept_hint(),
        ({
            let (next, step) = st.accept_hint();
            &&& !next.hint_showing()
            &&& step matches StepView::Deliver { unit, push } && seq![unit] + content(push)
                == content(st.hint)
        }),
{
    lemma_peek_arrow(st, 0x5b);
    lemma_peek_arrow(st, 0x4f);
    let step = st.accept_hint().1;
    let rest = st.hint.skip(1);
    lemma_wcslen(rest);
    if st.hint.len() <= 2 {
        lemma_wcslen(st.hint);
        assert(rest.len() == 1 && rest[0] == st.hint.last());
    }
    assert(wcslen(st.hint) == 1 + wcslen(rest));
    assert(seq![step->unit] + content(step->push) =~= content(st.hint));
}

/// `event` completes a key that accepts the hint.
pub open spec fn accepts_hint(st: KeyState, event: Event) -> bool {
    match (event, st.phase) {
        (Event::Lead(ReadByte::Byte(b)), _) => b == CTRL_F,
        (Event::Peek(read), Phase::Escape(seen)) => escape_outcome(
            seen,
            read,
        ) matches Some(EscView::RightArrow(_)),
        _ => false,
    }
}

/// A hint is never part of the line unless it is accepted: what any other key does, and
/// what it delivers, is the same whatever hint is showing, and the hint stays as it is.
pub proof fn law_hint_is_only_shown(st: KeyState, event: Event, other: Seq<WChar>)
    requires
        st.expects(event),
        !accepts_hint(st, event),
    ensures
        ({
            let (next, step) = st.step(event);
            &&& next.hint == st.hint
            &&& (KeyState { hint: other, ..st }).step(event) == (
                KeyState { hint: other, ..next },
                step,
            )
        }),
{
}

/// A bracketed paste is inserted as it is: its start marker, any text without an
/// `ESC` in UTF-8 and the end marker give the units of the text to insert, and
/// nothing of it reaches the keymap. An empty paste inserts nothing.
pub proof fn law_paste_is_inserted(st: KeyState, text: Seq<char>)
    requires
        st.valid(),
        st.phase is Lead,
        forall|i: int| 0 <= i < text.len() ==> text[i] != '\x1b',
    ensures
        st.escaped().peeks(paste_start()) == (
            KeyState { phase: Phase::Paste(PasteState::start()), ..st },
            StepView::ReadMore,
        ),
        ({
            let (next, step) = st.escaped().peeks(paste_start()).0.mores(
                encode_utf8(text) + end_marker(),
            );
            let units = with_nul(units_of(text));
            if units.len() == 1 {
                next == st && step is ReadLead
            } else {
                next == (KeyState { phase: Phase::Idle, ..st }) && step == StepView::Insert(units)
            }
        }),
{
    lemma_peek_paste(st);
    let bytes = encode_utf8(text) + end_marker();
    law_paste_is_literal(text, Seq::empty());
    assert(encode_utf8(text) + end_marker() + Seq::<u8>::empty() =~= bytes);
    lemma_mores_paste(
        KeyState { phase: Phase::Paste(PasteState::start()), ..st },
        PasteState::start(),
        bytes,
    );
}

/// The end marker ends the paste that is being read, whatever has come before it: the text
/// is inserted, or where there is none the next key is read.
pub proof fn law_paste_always_ends(st: KeyState, paste: PasteState)
    requires
        st.valid(),
        st.phase == Phase::Paste(paste),
    ensures
        ({
            let units = with_nul(paste.broken_off().text);
            st.mores(end_marker()) == if units.len() == 1 {
                st.wait(Phase::Lead, StepView::ReadLead)
            } else {
                st.finish(StepView::Insert(units))
            }
        }),
{
    law_end_marker_ends_the_paste(paste, Seq::empty());
    assert(end_marker() + Seq::<u8>::empty() =~= end_marker());
    lemma_mores_paste(st, paste, end_marker());
}

/// Reading on in an escape sequence from its byte `n`.
proof fn lemma_peeks(st: KeyState, bytes: Seq<u8>, n: int)
    requires
        0 <= n < bytes.len(),
        st.phase == Phase::Escape(bytes.take(n)),
        forall|k: int| 0 < k < bytes.len() ==> classify(#[trigger] bytes.take(k)) is Unfinished,
        classify(bytes) is Other || (classify(bytes) is RightArrow && !st.hint_showing()),
    ensures
        st.peeks(bytes.skip(n)) == st.replay(bytes),
    decreases bytes.len() - n,
{
    let rest = bytes.skip(n);
    assert(rest[0] == bytes[n]);
    assert(bytes.take(n).push(bytes[n]) =~= bytes.take(n + 1));
    if n + 1 < bytes.len() {
        assert(classify(bytes.take(n + 1)) is Unfinished);
        assert(rest.skip(1) =~= bytes.skip(n + 1));
        lemma_peeks(st.step(Event::Peek(Some(bytes[n]))).0, bytes, n + 1);
    } else {
        assert(bytes.take(n + 1) =~= bytes);
    }
}

/// Reading a right arrow while a hint is showing.
proof fn lemma_peek_arrow(st: KeyState, first: u8)
    requires
        st.phase is Lead,
        st.hint_showing(),
        first == 0x5b || first == 0x4f,
    ensures
        st.escaped().peeks(seq![first, 0x43]) == st.accept_hint(),
{
    let bytes = seq![first, 0x43u8];
    let start = st.escaped();
    assert(Seq::<u8>::empty().push(first) =~= seq![first]);
    lemma_classify_first(first);
    lemma_classify_second(first, 0x43);
    let (next, step) = start.step(Event::Peek(Some(first)));
    assert(next.phase == Phase::Escape(seq![first]));
    assert(bytes.skip(1) =~= seq![0x43u8]);
    assert(seq![first].push(0x43u8) =~= bytes);
    assert(next.peeks(seq![0x43u8]) == next.step(Event::Peek(Some(0x43u8))));
    assert(start.peeks(bytes) == next.peeks(bytes.skip(1)));
}

/// Reading the start marker of a paste.
proof fn lemma_peek_paste(st: KeyState)
    requires
        st.phase is Lead,
    ensures
        st.escaped().peeks(paste_start()) == (
            KeyState { phase: Phase::Paste(PasteState::start()), ..st },
            StepView::ReadMore,
        ),
{
    let m = paste_start();
    assert(m.take(0) =~= Seq::<u8>::empty());
    assert(m.skip(0) =~= m);
    lemma_peek_paste_from(st.escaped(), 0);
}

/// Reading the start marker of a paste from its byte `n` on.
proof fn lemma_peek_paste_from(st: KeyState, n: int)
    requires
        0 <= n < paste_start().len(),
        st.phase == Phase::Escape(paste_start().take(n)),
    ensures
        st.peeks(paste_start().skip(n)) == (
            KeyState { phase: Phase::Paste(PasteState::start()), ..st },
            StepView::ReadMore,
        ),
    decreases paste_start().len() - n,
{
    let m = paste_start();
    let rest = m.skip(n);
    assert(rest[0] == m[n]);
    assert(m.take(n).push(m[n]) =~= m.take(n + 1));
    lemma_classify_start(n + 1);
    if n + 1 < m.len() {
        assert(rest.skip(1) =~= m.skip(n + 1));
        lemma_peek_paste_from(st.step(Event::Peek(Some(m[n]))).0, n + 1);
    }
}

/// Reading on in a character from its byte `n`.
proof fn lemma_mores_char(st: KeyState, bytes: Seq<u8>, n: int)
    requires
        1 <= n < bytes.len(),
        bytes.len() == char_len(bytes[0]),
        forall|i: int| 1 <= i < bytes.len() ==> is_continuation_byte(#[trigger] bytes[i]),
        st.phase == Phase::Char(bytes.take(n)),
    ensures
        st.mores(bytes.skip(n)) == st.deliver(decoded_unit(bytes)),
    decreases bytes.len() - n,
{
    let rest = bytes.skip(n);
    assert(rest[0] == bytes[n]);
    assert(bytes.take(n).push(bytes[n]) =~= bytes.take(n + 1));
    if n + 1 < bytes.len() {
        assert(rest.skip(1) =~= bytes.skip(n + 1));
        lemma_mores_char(st.step(Event::More(ReadByte::Byte(bytes[n]))).0, bytes, n + 1);
    } else {
        assert(bytes.take(n + 1) =~= bytes);
    }
}

/// Reading on, from byte `n`, in a character that `b` breaks off.
proof fn lemma_mores_broken_off(st: KeyState, bytes: Seq<u8>, b: u8, n: int)
    requires
        1 <= n <= bytes.len(),
        unfinished_char(bytes),
        !is_continuation_byte(b),
        st.phase == Phase::Char(bytes.take(n)),
    ensures
        st.mores(bytes.push(b).skip(n)) == (KeyState { held: Some(b), ..st }).deliver(REPLACEMENT),
    decreases bytes.len() - n,
{
    let all = bytes.push(b);
    let rest = all.skip(n);
    assert(rest[0] == all[n]);
    if n < bytes.len() {
        assert(bytes.take(n).push(bytes[n]) =~= bytes.take(n + 1));
        assert(is_continuation_byte(bytes[n]));
        assert(rest.skip(1) =~= all.skip(n + 1));
        lemma_mores_broken_off(st.step(Event::More(ReadByte::Byte(bytes[n]))).0, bytes, b, n + 1);
    }
}

/// Reading a paste to its end.
proof fn lemma_mores_paste(st: KeyState, paste: PasteState, bytes: Seq<u8>)
    requires
        st.phase == Phase::Paste(paste),
        !paste.done,
        paste.run(bytes).done,
    ensures
        ({
            let units = with_nul(paste.run(bytes).text);
            st.mores(bytes) == if units.len() == 1 {
                st.wait(Phase::Lead, StepView::ReadLead)
            } else {
                st.finish(StepView::Insert(units))
            }
        }),
    decreases bytes.len(),
{
    let next = paste.byte(bytes[0]);
    let rest = bytes.skip(1);
    if next.done {
        assert(next.run(rest) == next);
    } else {
        assert(rest.len() > 0) by {
            if rest.len() == 0 {
                assert(next.run(rest) == next);
            }
        }
        lemma_mores_paste(st.step(Event::More(ReadByte::Byte(bytes[0]))).0, next, rest);
    }
}

/// How a search begins: a byte that is queued for replay is delivered, the first one first; a
/// byte that was kept comes next, as the first of a key; and otherwise one is read.
pub proof fn law_how_a_search_begins(st: KeyState)
    requires
        st.phase is Idle,
    ensures
        st.pending.len() > 0 ==> st.step(Event::Begin) == (
            KeyState { pending: st.pending.skip(1), ..st },
            StepView::Deliver { unit: st.pending[0] as WChar, push: Seq::empty() },
        ),
        st.pending.len() == 0 ==> (st.held matches Some(b) ==> st.step(Event::Begin) == (
            KeyState { held: None, phase: Phase::Lead, ..st },
            StepView::TakeLead(b),
        )),
        st.pending.len() == 0 && st.held is None ==> st.step(Event::Begin) == (
            KeyState { phase: Phase::Lead, ..st },
            StepView::ReadLead,
        ),
{
}

/// What the first byte of a key means. ASCII is delivered as it is, but `ESC` begins a
/// sequence, and `^F` accepts a hint that shows. A byte that begins a longer character waits
/// for the rest of it, and one that begins none is delivered as U+FFFD.
pub proof fn law_first_byte_of_a_key(st: KeyState, b: u8)
    requires
        st.phase is Lead,
    ensures
        ({
            let r = st.step(Event::Lead(ReadByte::Byte(b)));
            let showing = st.hint.len() > 0 && st.hint[0] != 0;
            let idle = KeyState { phase: Phase::Idle, ..st };
            &&& b == 0x1b ==> r == (
                KeyState { phase: Phase::Escape(Seq::empty()), ..st },
                StepView::Peek,
            )
            &&& b == 0x06 && showing ==> r == (
                KeyState { hint: Seq::empty(), ..idle },
                StepView::Deliver {
                    unit: st.hint[0],
                    push: if st.hint.len() > 2 {
                        st.hint.skip(1)
                    } else {
                        Seq::empty()
                    },
                },
            )
            &&& b < 0x80 && b != 0x1b && !(b == 0x06 && showing) ==> r == (
                idle,
                StepView::Deliver { unit: b as WChar, push: Seq::empty() },
            )
            &&& 0x80 <= b < 0xc0 || b >= 0xf8 ==> r == (
                idle,
                StepView::Deliver { unit: 0xFFFD, push: Seq::empty() },
            )
            &&& 0xc0 <= b < 0xf8 ==> r == (
                KeyState { phase: Phase::Char(seq![b]), ..st },
                StepView::ReadMore,
            )
        }),
{
    law_hint_that_shows(st);
    crate::utf8::law_other_bytes_are_replaced(seq![b], 'a');
}

/// A hint shows where it has a character: a unit before its first NUL.
pub proof fn law_hint_that_shows(st: KeyState)
    ensures
        st.hint_showing() <==> st.hint.len() > 0 && st.hint[0] != 0,
{
    lemma_wcslen(st.hint);
}

/// Accepting a hint types it: the first unit of its text is delivered, and the rest, where
/// there is any, is pushed back with a NUL at its end. The hint is gone then, and nothing else
/// has changed.
pub proof fn law_accepted_hint_is_typed(st: KeyState, text: Seq<WChar>)
    requires
        st.valid(),
        text.len() > 0,
        forall|i: int| 0 <= i < text.len() ==> text[i] != 0,
        st.hint == text.push(0),
    ensures
        ({
            let accepted = (
                KeyState { hint: Seq::empty(), phase: Phase::Idle, ..st },
                StepView::Deliver {
                    unit: text[0],
                    push: if text.len() > 1 {
                        text.skip(1).push(0)
                    } else {
                        Seq::empty()
                    },
                },
            );
            &&& st.phase is Lead ==> st.step(Event::Lead(ReadByte::Byte(0x06))) == accepted
            &&& st.phase == Phase::Escape(seq![0x5bu8]) || st.phase == Phase::Escape(seq![0x4fu8])
                ==> st.step(Event::Peek(Some(0x43u8))) == accepted
        }),
{
    law_hint_that_shows(st);
    if text.len() > 1 {
        assert(st.hint.skip(1) =~= text.skip(1).push(0));
    }
    if st.phase == Phase::Escape(seq![0x5bu8]) {
        lemma_classify_second(0x5b, 0x43);
        assert(seq![0x5bu8].push(0x43) =~= seq![0x5bu8, 0x43]);
    } else if st.phase == Phase::Escape(seq![0x4fu8]) {
        lemma_classify_second(0x4f, 0x43);
        assert(seq![0x4fu8].push(0x43) =~= seq![0x4fu8, 0x43]);
    }
}

/// A read that gives no byte ends the search, at the beginning of a key and within a
/// character: with 0 at the end of the input, and with -1 on a failure or where a signal cut
/// it short. Nothing is delivered, and nothing else changes.
pub proof fn law_reads_without_a_byte(st: KeyState, read: ReadByte)
    requires
        !(read is Byte),
    ensures
        ({
            let ended = (
                KeyState { phase: Phase::Idle, ..st },
                StepView::End(
                    if read is Eof {
                        0int
                    } else {
                        -1int
                    },
                ),
            );
            &&& st.phase is Lead ==> st.step(Event::Lead(read)) == ended
            &&& st.phase is Char ==> st.step(Event::More(read)) == ended
        }),
{
}

/// The bytes of a longer character are collected until they are all there, and it is then
/// delivered. A byte that does not continue it is kept for the next key, and U+FFFD is
/// delivered.
pub proof fn law_further_bytes_of_a_key(st: KeyState, bytes: Seq<u8>, b: u8)
    requires
        st.valid(),
        st.phase == Phase::Char(bytes),
    ensures
        ({
            let r = st.step(Event::More(ReadByte::Byte(b)));
            let idle = KeyState { phase: Phase::Idle, ..st };
            let n: int = if bytes[0] < 0xe0 {
                2
            } else if bytes[0] < 0xf0 {
                3
            } else {
                4
            };
            &&& 0x80 <= b <= 0xbf && bytes.len() + 1 < n ==> r == (
                KeyState { phase: Phase::Char(bytes.push(b)), ..st },
                StepView::ReadMore,
            )
            &&& 0x80 <= b <= 0xbf && bytes.len() + 1 == n ==> r == (
                idle,
                StepView::Deliver { unit: decoded_unit(bytes.push(b)), push: Seq::empty() },
            )
            &&& b < 0x80 || b > 0xbf ==> r == (
                KeyState { held: Some(b), ..idle },
                StepView::Deliver { unit: 0xFFFD, push: Seq::empty() },
            )
        }),
{
}

/// What a byte after an `ESC` means. `[ C` and `O C` accept a hint that shows; `[ 2 0 0 ~`
/// begins a paste; what can still become one of them waits for the next byte. Everything else,
/// and an arrow without a hint, passes through: the `ESC` is delivered and the bytes after it
/// are queued, or, where the last is not ASCII, that one is kept for the next key.
pub proof fn law_bytes_after_an_escape(st: KeyState, seen: Seq<u8>, b: u8)
    requires
        st.valid(),
        st.phase == Phase::Escape(seen),
    ensures
        ({
            let r = st.step(Event::Peek(Some(b)));
            let bytes = seen.push(b);
            let idle = KeyState { phase: Phase::Idle, ..st };
            let showing = st.hint.len() > 0 && st.hint[0] != 0;
            let arrow = bytes == seq![0x5bu8, 0x43] || bytes == seq![0x4fu8, 0x43];
            let paste = bytes == seq![0x5bu8, 0x32, 0x30, 0x30, 0x7e];
            let open = bytes == seq![0x5bu8] || bytes == seq![0x4fu8] || bytes == seq![
                0x5bu8,
                0x32,
            ] || bytes == seq![0x5bu8, 0x32, 0x30] || bytes == seq![0x5bu8, 0x32, 0x30, 0x30];
            &&& arrow && showing ==> r == (
                KeyState { hint: Seq::empty(), ..idle },
                StepView::Deliver {
                    unit: st.hint[0],
                    push: if st.hint.len() > 2 {
                        st.hint.skip(1)
                    } else {
                        Seq::empty()
                    },
                },
            )
            &&& paste ==> r == (
                KeyState {
                    phase: Phase::Paste(
                        PasteState { text: Seq::empty(), partial: Seq::empty(), done: false },
                    ),
                    ..st
                },
                StepView::ReadMore,
            )
            &&& open ==> r == (KeyState { phase: Phase::Escape(bytes), ..st }, StepView::Peek)
            &&& !paste && !open && !(arrow && showing) && b < 0x80 ==> r == (
                KeyState { pending: bytes, ..idle },
                StepView::Deliver { unit: 0x1b, push: Seq::empty() },
            )
            &&& b >= 0x80 ==> r == (
                KeyState { pending: seen, held: Some(b), ..idle },
                StepView::Deliver { unit: 0x1b, push: Seq::empty() },
            )
        }),
{
    let bytes = seen.push(b);
    law_hint_that_shows(st);
    law_known_sequences(bytes);
    if b >= 0x80 {
        law_character_after_escape(st, seen, b);
    }
    assert(bytes.len() > 0);
    assert(bytes.last() == b);
    assert(st.pending + bytes =~= bytes);
}

/// How a paste goes on: while it is not over bytes are read, and at its end the text is
/// inserted with a NUL, or, where there is none, the next key is read.
pub proof fn law_how_a_paste_goes_on(st: KeyState, paste: PasteState, b: u8)
    requires
        st.phase == Phase::Paste(paste),
    ensures
        ({
            let next = paste.byte(b);
            let r = st.step(Event::More(ReadByte::Byte(b)));
            let idle = KeyState { phase: Phase::Idle, ..st };
            &&& !next.done ==> r == (
                KeyState { phase: Phase::Paste(next), ..st },
                StepView::ReadMore,
            )
            &&& next.done && (next.text.len() == 0 || next.text == seq![0 as WChar]) ==> r == (
                KeyState { phase: Phase::Lead, ..st },
                StepView::ReadLead,
            )
            &&& next.done && next.text.len() > 0 && next.text.last() != 0 ==> r == (
                idle,
                StepView::Insert(next.text.push(0)),
            )
            &&& next.done && next.text.len() > 1 && next.text.last() == 0 ==> r == (
                idle,
                StepView::Insert(next.text),
            )
        }),
{
}

/// A paste that the input breaks off is inserted as far as it came; but where an end marker
/// was begun that is dropped first, and the paste goes on.
pub proof fn law_paste_at_the_end_of_the_input(st: KeyState, paste: PasteState, read: ReadByte)
    requires
        st.valid(),
        st.phase == Phase::Paste(paste),
        !(read is Byte),
    ensures
        ({
            let r = st.step(Event::More(read));
            let begun = paste.partial.len() > 0 && paste.partial[0] == 0x1b;
            let idle = KeyState { phase: Phase::Idle, ..st };
            &&& begun ==> r == (
                KeyState {
                    phase: Phase::Paste(PasteState { partial: Seq::empty(), ..paste }),
                    ..st
                },
                StepView::ReadMore,
            )
            &&& !begun && (paste.text.len() == 0 || paste.text == seq![0 as WChar]) ==> r == (
                KeyState { phase: Phase::Lead, ..st },
                StepView::ReadLead,
            )
            &&& !begun && paste.text.len() > 0 && paste.text.last() != 0 ==> r == (
                idle,
                StepView::Insert(paste.text.push(0)),
            )
            &&& !begun && paste.text.len() > 1 && paste.text.last() == 0 ==> r == (
                idle,
                StepView::Insert(paste.text),
            )
        }),
{
}

/// The keys and limits that the reader goes by.
pub proof fn law_keys_and_limits()
    ensures
        CTRL_F == 0x06,
        ESC_SEQ_TIMEOUT_MS == 50,
        PENDING_CAPACITY == 8,
        REPLACEMENT == 0xFFFD,
{
}

/// What is asked for next is what the reader then waits for: the first byte of a key, a byte
/// in time, a further byte, or, once a character was delivered, a text is to be inserted or
/// the search has ended, a new search.
pub proof fn law_what_is_asked_for_is_expected(
    st: KeyState,
    event: Event,
    read: ReadByte,
    peeked: Option<u8>,
)
    requires
        st.valid(),
        st.expects(event),
    ensures
        KeyState::start().expects(Event::Begin),
        match st.step(event).1 {
            StepView::ReadLead => st.step(event).0.expects(Event::Lead(read)),
            StepView::TakeLead(_) => st.step(event).0.expects(Event::Lead(read)),
            StepView::Peek => st.step(event).0.expects(Event::Peek(peeked)),
            StepView::ReadMore => st.step(event).0.expects(Event::More(read)),
            StepView::Insert(_) => st.step(event).0.expects(Event::Begin),
            StepView::Deliver { .. } => st.step(event).0.expects(Event::Begin),
            StepView::End(_) => st.step(event).0.expects(Event::Begin),
        },
{
}

/// A new reader has nothing to replay, nothing kept and no hint, and reads no key.
pub proof fn law_reader_starts_empty()
    ensures
        KeyState::start().pending.len() == 0,
        KeyState::start().held is None,
        KeyState::start().hint.len() == 0,
        KeyState::start().phase is Idle,
        KeyState::start().valid(),
{
}

/// What is handed out means what it says.
pub proof fn law_steps_mean_what_they_say(step: Step)
    ensures
        match step {
            Step::ReadLead => step@ == StepView::ReadLead,
            Step::TakeLead(b) => step@ == StepView::TakeLead(b),
            Step::Peek => step@ == StepView::Peek,
            Step::ReadMore => step@ == StepView::ReadMore,
            Step::Insert(text) => step@ == StepView::Insert(text@),
            Step::Deliver { unit, push } => step@ == (StepView::Deliver { unit, push: push@ }),
            Step::End(code) => step@ == StepView::End(code as int),
        },
{
}

} // verus!
