//! Splitting a line into words the way `sh` does.
//!
//! Separators end a word. Single quotes take everything up to the next one
//! literally. Double quotes do the same, except that a backslash in them takes away
//! the meaning of a quote or of another backslash; before any other character it is
//! kept. Outside of quotes a backslash makes the next character literal. A newline
//! outside of quotes ends the word where it is a separator, and otherwise the line.
//!
//! A [`Tokenizer`] goes on where the last line left it, words and open quotes
//! included, until it is [`reset`](Tokenizer::reset).
//!
//! These rules are this library's own. They are modelled on those of libedit's
//! tokenizer; that the two agree on every line is not shown here.

use vstd::prelude::*;
use vstd::utf8::is_ascii_chars;

use crate::error::{Error, NulError, Result};
use crate::text::{before_nul, chars_of, cut_at_nul, lemma_before_nul, string_of};
use crate::wstr::first_nul_at;

verus! {

// ---------------------------------------------------------------------------
// Model
// ---------------------------------------------------------------------------

/// What kind of quoting is open.
#[derive(Debug, Clone, Copy, PartialEq, Eq, Structural)]
pub enum Quote {
    /// None.
    Plain,
    /// Single quotes.
    Single,
    /// Double quotes.
    Double,
    /// A backslash outside of quotes.
    Escape,
    /// A backslash in double quotes.
    DoubleEscape,
}

/// How far the splitting of a line has come.
pub struct TokState {
    /// The words that are complete.
    pub words: Seq<Seq<char>>,
    /// The characters of the word at hand.
    pub word: Seq<char>,
    /// The word at hand is one even if it is empty, for it was quoted.
    pub keep: bool,
    /// The line was continued by a backslash at its end.
    pub eat: bool,
    /// The quoting that is open.
    pub quote: Quote,
}

/// How a line ended.
pub enum TokEnd {
    /// All words are complete.
    Complete,
    /// The line does not end here. The number says why: 1 for an open single quote,
    /// 2 for an open double quote, 3 for a backslash at the end of the line.
    Open(int),
}

impl TokState {
    /// Nothing has been read.
    pub open spec fn start() -> Self {
        TokState {
            words: Seq::empty(),
            word: Seq::empty(),
            keep: false,
            eat: false,
            quote: Quote::Plain,
        }
    }

    /// `c` is part of the word at hand, and `quote` is open after it.
    pub open spec fn take(self, c: char, quote: Quote) -> Self {
        TokState { word: self.word.push(c), quote, ..self }
    }

    /// `quote` is open from here on.
    pub open spec fn open(self, quote: Quote) -> Self {
        TokState { quote, ..self }
    }

    /// The word at hand, if it is one, is complete.
    pub open spec fn finish(self) -> Self {
        TokState {
            words: if self.keep || self.word.len() > 0 {
                self.words.push(before_nul(self.word))
            } else {
                self.words
            },
            word: Seq::empty(),
            keep: false,
            ..self
        }
    }

    /// What a quote or a backslash makes of the state.
    pub open spec fn mark(self, c: char) -> Self {
        let st = TokState { keep: true, eat: false, ..self };
        match self.quote {
            Quote::Plain => if c == '\'' {
                st.open(Quote::Single)
            } else if c == '"' {
                st.open(Quote::Double)
            } else {
                st.open(Quote::Escape)
            },
            Quote::Single => if c == '\'' {
                st.open(Quote::Plain)
            } else {
                st.take(c, Quote::Single)
            },
            Quote::Double => if c == '"' {
                st.open(Quote::Plain)
            } else if c == '\\' {
                st.open(Quote::DoubleEscape)
            } else {
                st.take(c, Quote::Double)
            },
            Quote::Escape => st.take(c, Quote::Plain),
            Quote::DoubleEscape => st.take(c, Quote::Double),
        }
    }

    /// What a newline makes of the state. Outside of quotes the word at hand is
    /// complete. After a backslash the newline is left out and the line goes on.
    pub open spec fn newline(self) -> Self {
        let st = TokState { eat: false, ..self };
        match self.quote {
            Quote::Plain => st.finish(),
            Quote::Single => st.take('\n', Quote::Single),
            Quote::Double => st.take('\n', Quote::Double),
            Quote::Escape => TokState { eat: true, ..st.open(Quote::Plain) },
            Quote::DoubleEscape => TokState { eat: true, ..st.open(Quote::Double) },
        }
    }

    /// What any other character makes of the state, where `seps` are the separators.
    pub open spec fn other(self, c: char, seps: Seq<char>) -> Self {
        let st = TokState { eat: false, ..self };
        match self.quote {
            Quote::Plain => if seps.contains(c) {
                st.finish()
            } else {
                st.take(c, Quote::Plain)
            },
            Quote::Single => st.take(c, Quote::Single),
            Quote::Double => st.take(c, Quote::Double),
            Quote::Escape => st.take(c, Quote::Plain),
            Quote::DoubleEscape => st.take('\\', Quote::Double).take(c, Quote::Double),
        }
    }

    /// What one character makes of the state.
    pub open spec fn step(self, c: char, seps: Seq<char>) -> Self {
        if c == '\'' || c == '"' || c == '\\' {
            self.mark(c)
        } else if c == '\n' {
            self.newline()
        } else {
            self.other(c, seps)
        }
    }

    /// What the end of the input makes of the state, and how the line ended. A
    /// backslash at the very end stands for nothing.
    pub open spec fn end(self) -> (Self, TokEnd) {
        let st = match self.quote {
            Quote::Escape => self.take('\0', Quote::Plain),
            Quote::DoubleEscape => self.take('\0', Quote::Double),
            _ => self,
        };
        match st.quote {
            Quote::Single => (st, TokEnd::Open(1)),
            Quote::Double => (st, TokEnd::Open(2)),
            _ => if st.eat {
                (TokState { eat: false, ..st }, TokEnd::Open(3))
            } else {
                (st.finish(), TokEnd::Complete)
            },
        }
    }

    /// What the line `text` makes of the state, and how it ended. A newline outside of
    /// quotes that is no separator ends it, whatever follows.
    pub open spec fn run(self, text: Seq<char>, seps: Seq<char>) -> (Self, TokEnd)
        decreases text.len(),
    {
        if text.len() == 0 {
            self.end()
        } else if text[0] == '\n' && self.quote == Quote::Plain && !seps.contains('\n') {
            (self.newline(), TokEnd::Complete)
        } else {
            self.step(text[0], seps).run(text.skip(1), seps)
        }
    }
}

/// The separators where none are given: tab, space and newline.
pub open spec fn default_separators() -> Seq<char> {
    seq!['\t', ' ', '\n']
}

/// The texts of `words`.
pub open spec fn word_texts(words: Seq<String>) -> Seq<Seq<char>> {
    Seq::new(words.len(), |i: int| words[i]@)
}

/// The texts of borrowed words.
pub open spec fn texts_of_words(words: Seq<&str>) -> Seq<Seq<char>> {
    Seq::new(words.len(), |i: int| words[i]@)
}

// ---------------------------------------------------------------------------
// Tokenizer
// ---------------------------------------------------------------------------

/// Splits lines into words.
#[derive(Debug)]
pub struct Tokenizer {
    seps: Vec<char>,
    words: Vec<String>,
    word: Vec<char>,
    keep: bool,
    eat: bool,
    quote: Quote,
}

impl View for Tokenizer {
    type V = TokState;

    closed spec fn view(&self) -> TokState {
        TokState {
            words: word_texts(self.words@),
            word: self.word@,
            keep: self.keep,
            eat: self.eat,
            quote: self.quote,
        }
    }
}

impl Tokenizer {
    /// The separators.
    pub closed spec fn separators(&self) -> Seq<char> {
        self.seps@
    }

    /// A tokenizer with the given separators, or with tab, space and newline where
    /// `None` are given. Fails where a separator is not ASCII or is a NUL.
    pub fn new(separators: Option<&str>) -> (r: Result<Self>)
        ensures
            match r {
                Ok(t) => {
                    &&& t@ == TokState::start()
                    &&& separators is None ==> t.separators() == default_separators()
                    &&& separators matches Some(s) ==> t.separators() == s@ && is_ascii_chars(s@)
                        && !s@.contains('\0')
                },
                Err(Error::Operation { op, code }) => {
                    &&& op == 0 && code == -1
                    &&& separators matches Some(s) && !is_ascii_chars(s@)
                },
                Err(Error::Nul(e)) => {
                    &&& separators matches Some(s) && is_ascii_chars(s@) && first_nul_at(
                        s@,
                        e.position as int,
                    )
                },
                Err(_) => false,
            },
    {
        let seps: Vec<char> = match separators {
            Some(s) => {
                if !s.is_ascii() {
                    return Err(Error::operation(0, -1));
                }
                let seps: Vec<char> = chars_of(s);
                match find_nul(&seps) {
                    Some(position) => {
                        return Err(Error::Nul(NulError { position }));
                    },
                    None => {},
                }
                seps
            },
            None => {
                let mut seps: Vec<char> = Vec::new();
                seps.push('\t');
                seps.push(' ');
                seps.push('\n');
                assert(seps@ =~= default_separators());
                seps
            },
        };
        let t = Tokenizer {
            seps,
            words: Vec::new(),
            word: Vec::new(),
            keep: false,
            eat: false,
            quote: Quote::Plain,
        };
        assert(t@.words =~= Seq::<Seq<char>>::empty());
        assert(t@.word =~= Seq::<char>::empty());
        Ok(t)
    }

    /// Forgets all words and what is open.
    pub fn reset(&mut self)
        ensures
            final(self)@ == TokState::start(),
            final(self).separators() == old(self).separators(),
    {
        self.words.clear();
        self.word.clear();
        self.keep = false;
        self.eat = false;
        self.quote = Quote::Plain;
        assert(self@.words =~= Seq::<Seq<char>>::empty());
        assert(self@.word =~= Seq::<char>::empty());
    }

    /// Makes the word at hand, if it is one, complete.
    fn finish(&mut self)
        ensures
            final(self)@ == old(self)@.finish(),
            final(self).separators() == old(self).separators(),
    {
        if self.keep || self.word.len() > 0 {
            let text: Vec<char> = cut_at_nul(self.word.as_slice());
            self.words.push(string_of(&text));
            assert(word_texts(self.words@) =~= old(self)@.words.push(before_nul(old(self)@.word)));
        }
        self.word.clear();
        self.keep = false;
        assert(self@.word =~= Seq::<char>::empty());
    }

    /// Takes one character.
    fn step(&mut self, c: char)
        ensures
            final(self)@ == old(self)@.step(c, old(self).separators()),
            final(self).separators() == old(self).separators(),
    {
        self.eat = false;
        if c == '\'' || c == '"' || c == '\\' {
            self.keep = true;
            match self.quote {
                Quote::Plain => {
                    self.quote = if c == '\'' {
                        Quote::Single
                    } else if c == '"' {
                        Quote::Double
                    } else {
                        Quote::Escape
                    };
                },
                Quote::Single => {
                    if c == '\'' {
                        self.quote = Quote::Plain;
                    } else {
                        self.word.push(c);
                    }
                },
                Quote::Double => {
                    if c == '"' {
                        self.quote = Quote::Plain;
                    } else if c == '\\' {
                        self.quote = Quote::DoubleEscape;
                    } else {
                        self.word.push(c);
                    }
                },
                Quote::Escape => {
                    self.word.push(c);
                    self.quote = Quote::Plain;
                },
                Quote::DoubleEscape => {
                    self.word.push(c);
                    self.quote = Quote::Double;
                },
            }
        } else if c == '\n' {
            match self.quote {
                Quote::Plain => {
                    self.finish();
                },
                Quote::Single | Quote::Double => {
                    self.word.push(c);
                },
                Quote::Escape => {
                    self.quote = Quote::Plain;
                    self.eat = true;
                },
                Quote::DoubleEscape => {
                    self.quote = Quote::Double;
                    self.eat = true;
                },
            }
        } else {
            match self.quote {
                Quote::Plain => {
                    if contains_char(&self.seps, c) {
                        self.finish();
                    } else {
                        self.word.push(c);
                    }
                },
                Quote::Single | Quote::Double => {
                    self.word.push(c);
                },
                Quote::Escape => {
                    self.word.push(c);
                    self.quote = Quote::Plain;
                },
                Quote::DoubleEscape => {
                    self.word.push('\\');
                    self.word.push(c);
                    self.quote = Quote::Double;
                },
            }
        }
    }

    /// Takes the end of the input. Gives 0 where all words are complete, and
    /// otherwise the reason why the line does not end here.
    fn end(&mut self) -> (r: i32)
        ensures
            final(self).separators() == old(self).separators(),
            final(self)@ == old(self)@.end().0,
            match old(self)@.end().1 {
                TokEnd::Complete => r == 0,
                TokEnd::Open(code) => r == code && r != 0,
            },
    {
        if self.quote == Quote::Escape {
            self.word.push('\0');
            self.quote = Quote::Plain;
        } else if self.quote == Quote::DoubleEscape {
            self.word.push('\0');
            self.quote = Quote::Double;
        }
        match self.quote {
            Quote::Single => 1,
            Quote::Double => 2,
            _ => {
                if self.eat {
                    self.eat = false;
                    3
                } else {
                    self.finish();
                    0
                }
            },
        }
    }

    /// Takes the line `chars`. Gives 0 where all words are complete, and otherwise the
    /// reason why the line does not end here.
    fn run(&mut self, chars: &Vec<char>) -> (r: i32)
        ensures
            final(self).separators() == old(self).separators(),
            final(self)@ == old(self)@.run(chars@, old(self).separators()).0,
            match old(self)@.run(chars@, old(self).separators()).1 {
                TokEnd::Complete => r == 0,
                TokEnd::Open(code) => r == code && r != 0,
            },
    {
        let mut i: usize = 0;
        let ghost seps = self.separators();
        assert(chars@.skip(0) =~= chars@);
        while i < chars.len()
            invariant
                i <= chars@.len(),
                self.separators() == seps,
                seps == old(self).separators(),
                self@.run(chars@.skip(i as int), seps) == old(self)@.run(chars@, seps),
            decreases chars@.len() - i,
        {
            let c: char = chars[i];
            assert(chars@.skip(i as int).skip(1) =~= chars@.skip(i + 1));
            let last: bool = c == '\n' && self.quote == Quote::Plain && !contains_char(
                &self.seps,
                '\n',
            );
            self.step(c);
            if last {
                return 0;
            }
            i = i + 1;
        }
        assert(chars@.skip(i as int).len() == 0);
        self.end()
    }

    /// Splits the line `input` and gives all words since the last
    /// [`reset`](Self::reset). Fails where the line holds a NUL, and with the reason
    /// where a quote or the line itself is left open; in that case the next line goes
    /// on from there.
    pub fn tokenize<T: Into<String>>(&mut self, input: T) -> (r: Result<Vec<&str>>)
        ensures
            final(self).separators() == old(self).separators(),
            exists|s: String|
                #[trigger] call_ensures(T::into, (input,), s) && tokenized(
                    *old(self),
                    s@,
                    *final(self),
                    r,
                ),
    {
        let s: String = input.into();
        let chars: Vec<char> = chars_of(s.as_str());
        match find_nul(&chars) {
            Some(position) => {
                return Err(Error::Nul(NulError { position }));
            },
            None => {},
        }
        let code: i32 = self.run(&chars);
        if code != 0 {
            return Err(Error::operation(0, code));
        }
        Ok(borrow_words(&self.words))
    }
}

/// `after` and `r` are what splitting the line `text` gives.
pub open spec fn tokenized(
    before: Tokenizer,
    text: Seq<char>,
    after: Tokenizer,
    r: Result<Vec<&str>>,
) -> bool {
    if text.contains('\0') {
        &&& after@ == before@
        &&& r matches Err(Error::Nul(e)) && first_nul_at(text, e.position as int)
    } else {
        &&& after@ == before@.run(text, before.separators()).0
        &&& match before@.run(text, before.separators()).1 {
            TokEnd::Complete => r matches Ok(words) && texts_of_words(words@) == after@.words,
            TokEnd::Open(reason) => r matches Err(Error::Operation { op, code }) && op == 0 && code
                == reason,
        }
    }
}

/// The words, borrowed.
fn borrow_words(words: &Vec<String>) -> (r: Vec<&str>)
    ensures
        texts_of_words(r@) == word_texts(words@),
{
    let mut out: Vec<&str> = Vec::new();
    let mut i: usize = 0;
    while i < words.len()
        invariant
            i <= words@.len(),
            out@.len() == i,
            forall|j: int| 0 <= j < i ==> (#[trigger] out@[j])@ == words@[j]@,
        decreases words@.len() - i,
    {
        out.push(words[i].as_str());
        i = i + 1;
    }
    assert(texts_of_words(out@) =~= word_texts(words@));
    out
}

/// The position of the first NUL of `chars`.
fn find_nul(chars: &Vec<char>) -> (r: Option<usize>)
    ensures
        match r {
            Some(at) => first_nul_at(chars@, at as int),
            None => !chars@.contains('\0'),
        },
        r is Some ==> chars@.contains('\0'),
{
    let mut i: usize = 0;
    while i < chars.len()
        invariant
            i <= chars@.len(),
            forall|j: int| 0 <= j < i ==> chars@[j] != '\0',
        decreases chars@.len() - i,
    {
        if chars[i] == '\0' {
            return Some(i);
        }
        i = i + 1;
    }
    None
}

/// `chars` holds `c`.
fn contains_char(chars: &Vec<char>, c: char) -> (r: bool)
    ensures
        r == chars@.contains(c),
{
    let mut i: usize = 0;
    while i < chars.len()
        invariant
            i <= chars@.len(),
            forall|j: int| 0 <= j < i ==> chars@[j] != c,
        decreases chars@.len() - i,
    {
        if chars[i] == c {
            return true;
        }
        i = i + 1;
    }
    false
}

// ---------------------------------------------------------------------------
// Laws
// ---------------------------------------------------------------------------

/// The words of a line without quoting: `word`, if it is not empty, and then what
/// `text` adds to it and puts after it, cut at each separator, empty words left out.
pub open spec fn split(word: Seq<char>, text: Seq<char>, seps: Seq<char>) -> Seq<Seq<char>>
    decreases text.len(),
{
    let done = if word.len() > 0 {
        seq![word]
    } else {
        Seq::empty()
    };
    if text.len() == 0 {
        done
    } else if seps.contains(text[0]) {
        done + split(Seq::empty(), text.skip(1), seps)
    } else {
        split(word.push(text[0]), text.skip(1), seps)
    }
}

/// `c` means nothing to a tokenizer with the separators `seps` unless it is one of them.
pub open spec fn ordinary(c: char, seps: Seq<char>) -> bool {
    &&& c != '\'' && c != '"' && c != '\\' && c != '\0'
    &&& c == '\n' ==> seps.contains('\n')
}

/// A line without quotes and backslashes is cut at its separators. Newlines may be among
/// them.
pub proof fn law_plain_line_is_split(text: Seq<char>, seps: Seq<char>)
    requires
        forall|i: int| 0 <= i < text.len() ==> ordinary(#[trigger] text[i], seps),
    ensures
        TokState::start().run(text, seps) == (
            TokState { words: split(Seq::empty(), text, seps), ..TokState::start() },
            TokEnd::Complete,
        ),
{
    lemma_plain(TokState::start(), text, seps);
    assert(Seq::<Seq<char>>::empty() + split(Seq::empty(), text, seps) =~= split(
        Seq::empty(),
        text,
        seps,
    ));
}

/// What stands between single quotes is one word, taken literally, even where it is
/// empty.
pub proof fn law_single_quotes_are_literal(text: Seq<char>, seps: Seq<char>)
    requires
        !text.contains('\''),
        !text.contains('\0'),
    ensures
        TokState::start().run(seq!['\''] + text + seq!['\''], seps) == (
            TokState { words: seq![text], ..TokState::start() },
            TokEnd::Complete,
        ),
{
    let line = seq!['\''] + text + seq!['\''];
    let open = TokState::start().mark('\'');
    assert(line.skip(1) =~= text + seq!['\'']);
    lemma_single(open, text, seq!['\''], seps);
    assert(open.word + text =~= text);
    let inner = TokState { word: text, ..open };
    lemma_close(inner, '\'', seps);
}

/// What stands between double quotes is one word, even where it is empty, and it is
/// taken literally where it holds neither a double quote nor a backslash.
pub proof fn law_double_quotes_are_literal(text: Seq<char>, seps: Seq<char>)
    requires
        !text.contains('"'),
        !text.contains('\\'),
        !text.contains('\0'),
    ensures
        TokState::start().run(seq!['"'] + text + seq!['"'], seps) == (
            TokState { words: seq![text], ..TokState::start() },
            TokEnd::Complete,
        ),
{
    let line = seq!['"'] + text + seq!['"'];
    let open = TokState::start().mark('"');
    assert(line.skip(1) =~= text + seq!['"']);
    lemma_double(open, text, seq!['"'], seps);
    assert(open.word + text =~= text);
    let inner = TokState { word: text, ..open };
    lemma_close(inner, '"', seps);
}

/// A backslash outside of quotes makes the next character part of the word, whatever
/// it is; a newline alone is left out.
pub proof fn law_backslash_escapes(st: TokState, c: char, rest: Seq<char>, seps: Seq<char>)
    requires
        st.quote == Quote::Plain,
        c != '\n',
    ensures
        st.run(seq!['\\', c] + rest, seps) == (TokState {
            word: st.word.push(c),
            keep: true,
            eat: false,
            ..st
        }).run(rest, seps),
{
    let line = seq!['\\', c] + rest;
    assert(line.skip(1) =~= seq![c] + rest);
    assert(line.skip(1).skip(1) =~= rest);
    assert(st.mark('\\').run(line.skip(1), seps) == st.run(line, seps));
    assert(line.skip(1)[0] == c);
}

/// A line is refused exactly where a quote is left open or its end is escaped: the
/// reason tells which.
pub proof fn law_refusal_tells_what_is_open(st: TokState)
    ensures
        st.end().1 == TokEnd::Open(1) <==> st.quote == Quote::Single,
        st.end().1 == TokEnd::Open(2) <==> st.quote == Quote::Double || st.quote
            == Quote::DoubleEscape,
        st.end().1 == TokEnd::Open(3) <==> (st.quote == Quote::Plain || st.quote == Quote::Escape)
            && st.eat,
        st.end().1 is Complete <==> (st.quote == Quote::Plain || st.quote == Quote::Escape)
            && !st.eat,
{
}

/// `word` with each single quote in it written as `'\''`.
pub open spec fn quoted_body(word: Seq<char>) -> Seq<char>
    decreases word.len(),
{
    if word.len() == 0 {
        Seq::empty()
    } else if word[0] == '\'' {
        seq!['\'', '\\', '\'', '\''] + quoted_body(word.skip(1))
    } else {
        seq![word[0]] + quoted_body(word.skip(1))
    }
}

/// `word` in single quotes.
pub open spec fn quoted(word: Seq<char>) -> Seq<char> {
    seq!['\''] + quoted_body(word) + seq!['\'']
}

/// `words` in single quotes, with `sep` between them.
pub open spec fn quoted_line(words: Seq<Seq<char>>, sep: char) -> Seq<char>
    decreases words.len(),
{
    if words.len() == 0 {
        Seq::empty()
    } else if words.len() == 1 {
        quoted(words[0])
    } else {
        quoted(words[0]) + (seq![sep] + quoted_line(words.skip(1), sep))
    }
}

/// Any list of words can be written as a line that is split into the same words,
/// whatever characters but NUL they hold.
pub proof fn law_quoted_words_are_read_back(words: Seq<Seq<char>>, sep: char, seps: Seq<char>)
    requires
        seps.contains(sep),
        ordinary(sep, seps),
        forall|i: int| 0 <= i < words.len() ==> !(#[trigger] words[i]).contains('\0'),
    ensures
        TokState::start().run(quoted_line(words, sep), seps) == (
            TokState { words, ..TokState::start() },
            TokEnd::Complete,
        ),
{
    lemma_quoted_line(TokState::start(), words, sep, seps);
    assert(Seq::<Seq<char>>::empty() + words =~= words);
}

/// A state between two words.
spec fn between_words(st: TokState) -> bool {
    st.word.len() == 0 && !st.keep && !st.eat && st.quote == Quote::Plain
}

proof fn lemma_quoted_line(st: TokState, words: Seq<Seq<char>>, sep: char, seps: Seq<char>)
    requires
        between_words(st),
        seps.contains(sep),
        ordinary(sep, seps),
        forall|i: int| 0 <= i < words.len() ==> !(#[trigger] words[i]).contains('\0'),
    ensures
        st.run(quoted_line(words, sep), seps) == (
            TokState { words: st.words + words, ..st },
            TokEnd::Complete,
        ),
    decreases words.len(),
{
    if words.len() == 0 {
        assert(st.words + words =~= st.words);
        assert(st.word =~= Seq::<char>::empty());
        assert(st.finish() == st);
    } else {
        let first = words[0];
        let next = TokState { words: st.words.push(first), ..st };
        assert(!words[0].contains('\0'));
        if words.len() == 1 {
            lemma_quoted(st, first, Seq::empty(), seps);
            assert(quoted(first) + Seq::<char>::empty() =~= quoted(first));
            let inner = TokState { word: first, keep: true, ..st };
            lemma_before_nul(first);
            assert(st.word =~= Seq::<char>::empty());
            assert(inner.finish() == next);
            assert(st.words.push(first) =~= st.words + words);
        } else {
            let rest = words.skip(1);
            let tail = seq![sep] + quoted_line(rest, sep);
            lemma_quoted(st, first, tail, seps);
            let inner = TokState { word: first, keep: true, ..st };
            lemma_before_nul(first);
            assert(st.word =~= Seq::<char>::empty());
            assert(inner.finish() == next);
            assert(tail[0] == sep);
            assert(tail.skip(1) =~= quoted_line(rest, sep));
            assert(inner.step(sep, seps) == next);
            assert forall|i: int| 0 <= i < rest.len() implies !(#[trigger] rest[i]).contains(
                '\0',
            ) by {
                assert(rest[i] == words[i + 1]);
            }
            lemma_quoted_line(next, rest, sep, seps);
            assert(st.words.push(first) + rest =~= st.words + words);
        }
    }
}

/// A word in single quotes, between words, is the word at hand after it.
proof fn lemma_quoted(st: TokState, word: Seq<char>, rest: Seq<char>, seps: Seq<char>)
    requires
        between_words(st),
    ensures
        st.run(quoted(word) + rest, seps) == (TokState { word, keep: true, ..st }).run(rest, seps),
{
    let line = quoted(word) + rest;
    let open = st.mark('\'');
    let close = seq!['\''] + rest;
    assert(line[0] == '\'');
    assert(line.skip(1) =~= quoted_body(word) + close);
    assert(st.run(line, seps) == open.run(line.skip(1), seps));
    lemma_quoted_body(open, word, close, seps);
    let inner = TokState { word: open.word + word, ..open };
    assert(open.word + word =~= word);
    assert(close[0] == '\'');
    assert(close.skip(1) =~= rest);
    assert(inner.run(close, seps) == inner.mark('\'').run(rest, seps));
}

/// The body of a word in single quotes adds the word.
proof fn lemma_quoted_body(st: TokState, word: Seq<char>, rest: Seq<char>, seps: Seq<char>)
    requires
        st.quote == Quote::Single,
        st.keep,
        !st.eat,
    ensures
        st.run(quoted_body(word) + rest, seps) == (TokState { word: st.word + word, ..st }).run(
            rest,
            seps,
        ),
    decreases word.len(),
{
    let line = quoted_body(word) + rest;
    if word.len() == 0 {
        assert(line =~= rest);
        assert(st.word + word =~= st.word);
    } else {
        let more = quoted_body(word.skip(1)) + rest;
        let next = TokState { word: st.word.push(word[0]), ..st };
        if word[0] == '\'' {
            let l1 = line.skip(1);
            let l2 = l1.skip(1);
            let l3 = l2.skip(1);
            assert(line[0] == '\'' && l1[0] == '\\' && l2[0] == '\'' && l3[0] == '\'');
            assert(l3.skip(1) =~= more);
            let s1 = st.mark('\'');
            let s2 = s1.mark('\\');
            let s3 = s2.mark('\'');
            assert(st.run(line, seps) == s1.run(l1, seps));
            assert(s1.run(l1, seps) == s2.run(l2, seps));
            assert(s2.run(l2, seps) == s3.run(l3, seps));
            assert(s3.run(l3, seps) == s3.mark('\'').run(more, seps));
            assert(s3.mark('\'') == next);
        } else {
            assert(line[0] == word[0]);
            assert(line.skip(1) =~= more);
            assert(st.step(word[0], seps) == next);
        }
        lemma_quoted_body(next, word.skip(1), rest, seps);
        assert(st.word.push(word[0]) + word.skip(1) =~= st.word + word);
    }
}

/// Inside of single quotes everything is taken.
proof fn lemma_single(st: TokState, text: Seq<char>, rest: Seq<char>, seps: Seq<char>)
    requires
        st.quote == Quote::Single,
        st.keep,
        !st.eat,
        !text.contains('\''),
    ensures
        st.run(text + rest, seps) == (TokState { word: st.word + text, ..st }).run(rest, seps),
    decreases text.len(),
{
    let line = text + rest;
    if text.len() == 0 {
        assert(line =~= rest);
        assert(st.word + text =~= st.word);
    } else {
        assert(text.contains(text[0]));
        assert(line.skip(1) =~= text.skip(1) + rest);
        let next = TokState { word: st.word.push(text[0]), ..st };
        assert(st.step(text[0], seps) == next);
        assert forall|i: int| 0 <= i < text.skip(1).len() implies text.skip(1)[i] != '\'' by {
            assert(text.contains(text[i + 1]));
        }
        lemma_single(next, text.skip(1), rest, seps);
        assert(st.word.push(text[0]) + text.skip(1) =~= st.word + text);
    }
}

/// Inside of double quotes everything but a double quote and a backslash is taken.
proof fn lemma_double(st: TokState, text: Seq<char>, rest: Seq<char>, seps: Seq<char>)
    requires
        st.quote == Quote::Double,
        st.keep,
        !st.eat,
        !text.contains('"'),
        !text.contains('\\'),
    ensures
        st.run(text + rest, seps) == (TokState { word: st.word + text, ..st }).run(rest, seps),
    decreases text.len(),
{
    let line = text + rest;
    if text.len() == 0 {
        assert(line =~= rest);
        assert(st.word + text =~= st.word);
    } else {
        assert(text.contains(text[0]));
        assert(line.skip(1) =~= text.skip(1) + rest);
        let next = TokState { word: st.word.push(text[0]), ..st };
        assert(st.step(text[0], seps) == next);
        assert forall|i: int| 0 <= i < text.skip(1).len() implies text.skip(1)[i] != '"'
            && text.skip(1)[i] != '\\' by {
            assert(text.contains(text[i + 1]));
        }
        lemma_double(next, text.skip(1), rest, seps);
        assert(st.word.push(text[0]) + text.skip(1) =~= st.word + text);
    }
}

/// The closing quote at the end of a line completes the word.
proof fn lemma_close(st: TokState, c: char, seps: Seq<char>)
    requires
        st == (TokState {
            word: st.word,
            keep: true,
            quote: st.quote,
            ..TokState::start()
        }),
        (c == '\'' && st.quote == Quote::Single) || (c == '"' && st.quote == Quote::Double),
        !st.word.contains('\0'),
    ensures
        st.run(seq![c], seps) == (
            TokState { words: seq![st.word], ..TokState::start() },
            TokEnd::Complete,
        ),
{
    let line = seq![c];
    assert(line.skip(1).len() == 0);
    let closed = st.mark(c);
    assert(st.run(line, seps) == closed.run(line.skip(1), seps));
    lemma_before_nul(st.word);
    assert(Seq::<Seq<char>>::empty().push(st.word) =~= seq![st.word]);
}

/// A line without quoting is split.
proof fn lemma_plain(st: TokState, text: Seq<char>, seps: Seq<char>)
    requires
        !st.keep,
        !st.eat,
        st.quote == Quote::Plain,
        !st.word.contains('\0'),
        forall|i: int| 0 <= i < text.len() ==> ordinary(#[trigger] text[i], seps),
    ensures
        st.run(text, seps) == (
            TokState { words: st.words + split(st.word, text, seps), word: Seq::empty(), ..st },
            TokEnd::Complete,
        ),
    decreases text.len(),
{
    lemma_before_nul(st.word);
    let done = if st.word.len() > 0 {
        seq![st.word]
    } else {
        Seq::empty()
    };
    assert(st.finish().words =~= st.words + done);
    if text.len() > 0 {
        let c = text[0];
        let rest = text.skip(1);
        assert(ordinary(text[0], seps));
        assert forall|i: int| 0 <= i < rest.len() implies ordinary(#[trigger] rest[i], seps) by {
            assert(ordinary(text[i + 1], seps));
        }
        if seps.contains(c) {
            let next = st.finish();
            assert(st.step(c, seps) == next);
            lemma_plain(next, rest, seps);
            assert(st.words + done + split(Seq::empty(), rest, seps) =~= st.words + (done + split(
                Seq::empty(),
                rest,
                seps,
            )));
        } else {
            let next = TokState { word: st.word.push(c), ..st };
            assert(st.step(c, seps) == next);
            assert forall|i: int| 0 <= i < next.word.len() implies next.word[i] != '\0' by {
                if i < st.word.len() {
                    assert(st.word.contains(st.word[i]));
                }
            }
            lemma_plain(next, rest, seps);
        }
    }
}

/// Quoting never ends a word: double quotes outside of other quotes add what stands between
/// them to the word at hand, and the words that are complete stay as they were.
pub proof fn law_double_quotes_go_on_with_the_word(
    st: TokState,
    text: Seq<char>,
    rest: Seq<char>,
    seps: Seq<char>,
)
    requires
        st.quote == Quote::Plain,
        !text.contains('"'),
        !text.contains('\\'),
        !text.contains('\0'),
    ensures
        st.run(seq!['"'] + text + seq!['"'] + rest, seps) == (TokState {
            words: st.words,
            word: st.word + text,
            keep: true,
            eat: false,
            quote: Quote::Plain,
        }).run(rest, seps),
{
    let close = seq!['"'] + rest;
    let line = seq!['"'] + text + seq!['"'] + rest;
    let open = TokState { keep: true, eat: false, quote: Quote::Double, ..st };
    assert(line[0] == '"');
    assert(line.skip(1) =~= text + close);
    assert(st.step('"', seps) == open);
    lemma_double(open, text, close, seps);
    let inner = TokState { word: st.word + text, ..open };
    assert(close[0] == '"');
    assert(close.skip(1) =~= rest);
    assert(inner.run(close, seps) == inner.step('"', seps).run(rest, seps));
}

/// Single quotes do the same, and take everything but a single quote literally.
pub proof fn law_single_quotes_go_on_with_the_word(
    st: TokState,
    text: Seq<char>,
    rest: Seq<char>,
    seps: Seq<char>,
)
    requires
        st.quote == Quote::Plain,
        !text.contains('\''),
        !text.contains('\0'),
    ensures
        st.run(seq!['\''] + text + seq!['\''] + rest, seps) == (TokState {
            words: st.words,
            word: st.word + text,
            keep: true,
            eat: false,
            quote: Quote::Plain,
        }).run(rest, seps),
{
    let close = seq!['\''] + rest;
    let line = seq!['\''] + text + seq!['\''] + rest;
    let open = TokState { keep: true, eat: false, quote: Quote::Single, ..st };
    assert(line[0] == '\'');
    assert(line.skip(1) =~= text + close);
    assert(st.step('\'', seps) == open);
    lemma_single(open, text, close, seps);
    let inner = TokState { word: st.word + text, ..open };
    assert(close[0] == '\'');
    assert(close.skip(1) =~= rest);
    assert(inner.run(close, seps) == inner.step('\'', seps).run(rest, seps));
}

/// Outside of quotes a character that is neither a separator nor a quote, a backslash or a
/// newline is added to the word at hand, and completes none.
pub proof fn law_other_characters_go_on_with_the_word(
    st: TokState,
    c: char,
    rest: Seq<char>,
    seps: Seq<char>,
)
    requires
        st.quote == Quote::Plain,
        !seps.contains(c),
        c != '\'',
        c != '"',
        c != '\\',
        c != '\n',
    ensures
        st.run(seq![c] + rest, seps) == (TokState {
            words: st.words,
            word: st.word.push(c),
            keep: st.keep,
            eat: false,
            quote: Quote::Plain,
        }).run(rest, seps),
{
    assert((seq![c] + rest).skip(1) =~= rest);
}

/// A separator outside of quotes, which may be a newline, completes the word at hand: a word
/// with characters or with quotes is put after those that are complete, and where there is
/// neither nothing is. What follows begins a new word.
pub proof fn law_separators_complete_the_word(
    st: TokState,
    c: char,
    rest: Seq<char>,
    seps: Seq<char>,
)
    requires
        st.quote == Quote::Plain,
        seps.contains(c),
        c != '\'',
        c != '"',
        c != '\\',
        !st.word.contains('\0'),
    ensures
        st.run(seq![c] + rest, seps) == (TokState {
            words: if st.word.len() > 0 || st.keep {
                st.words.push(st.word)
            } else {
                st.words
            },
            word: Seq::empty(),
            keep: false,
            eat: false,
            quote: Quote::Plain,
        }).run(rest, seps),
{
    assert((seq![c] + rest).skip(1) =~= rest);
    lemma_before_nul(st.word);
}

/// The end of a line outside of quotes completes the word at hand and the line, and so does
/// a newline there that is no separator, whatever follows it.
pub proof fn law_line_ends_complete_the_word(st: TokState, rest: Seq<char>, seps: Seq<char>)
    requires
        st.quote == Quote::Plain,
        !st.word.contains('\0'),
    ensures
        ({
            let done = TokState {
                words: if st.word.len() > 0 || st.keep {
                    st.words.push(st.word)
                } else {
                    st.words
                },
                word: Seq::empty(),
                keep: false,
                eat: false,
                quote: Quote::Plain,
            };
            &&& !st.eat ==> st.run(Seq::empty(), seps) == (done, TokEnd::Complete)
            &&& !seps.contains('\n') ==> st.run(seq!['\n'] + rest, seps) == (
                done,
                TokEnd::Complete,
            )
        }),
{
    lemma_before_nul(st.word);
}

/// A backslash before a newline joins two lines, outside of quotes and in double quotes:
/// neither becomes part of the word, and a line that ends there is open.
pub proof fn law_backslash_joins_lines(st: TokState, rest: Seq<char>, seps: Seq<char>)
    requires
        st.quote == Quote::Plain || st.quote == Quote::Double,
    ensures
        st.run(seq!['\\', '\n'] + rest, seps) == (TokState {
            words: st.words,
            word: st.word,
            keep: true,
            eat: true,
            quote: st.quote,
        }).run(rest, seps),
        st.quote == Quote::Plain ==> st.run(seq!['\\', '\n'], seps) == (
            TokState { keep: true, eat: false, ..st },
            TokEnd::Open(3),
        ),
{
    let line = seq!['\\', '\n'] + rest;
    assert(line.skip(1) =~= seq!['\n'] + rest);
    assert(line.skip(1).skip(1) =~= rest);
    let escaped = TokState {
        keep: true,
        eat: false,
        quote: if st.quote == Quote::Plain {
            Quote::Escape
        } else {
            Quote::DoubleEscape
        },
        ..st
    };
    assert(st.step('\\', seps) == escaped);
    assert(st.run(line, seps) == escaped.run(line.skip(1), seps));
    assert(line.skip(1)[0] == '\n');
    let short = seq!['\\', '\n'];
    assert(short.skip(1) =~= seq!['\n']);
    assert(short.skip(1).skip(1) =~= Seq::<char>::empty());
    assert(st.run(short, seps) == escaped.run(short.skip(1), seps));
    assert(short.skip(1)[0] == '\n');
    let joined = TokState { keep: true, eat: true, ..st };
    if st.quote == Quote::Plain {
        assert(escaped.step('\n', seps) == joined);
        assert(escaped.run(short.skip(1), seps) == joined.run(short.skip(1).skip(1), seps));
    }
}

/// In double quotes a backslash before a quote or a backslash makes it part of the word;
/// before any other character but a newline both are.
pub proof fn law_backslash_in_double_quotes(
    st: TokState,
    c: char,
    rest: Seq<char>,
    seps: Seq<char>,
)
    requires
        st.quote == Quote::Double,
        c != '\n',
    ensures
        c == '"' || c == '\'' || c == '\\' ==> st.run(seq!['\\', c] + rest, seps) == (TokState {
            words: st.words,
            word: st.word.push(c),
            keep: true,
            eat: false,
            quote: Quote::Double,
        }).run(rest, seps),
        c != '"' && c != '\\' && c != '\'' ==> st.run(seq!['\\', c] + rest, seps) == (TokState {
            words: st.words,
            word: st.word.push('\\').push(c),
            keep: true,
            eat: false,
            quote: Quote::Double,
        }).run(rest, seps),
{
    let line = seq!['\\', c] + rest;
    assert(line.skip(1) =~= seq![c] + rest);
    assert(line.skip(1).skip(1) =~= rest);
    assert(line.skip(1)[0] == c);
    let escaped = TokState { keep: true, eat: false, quote: Quote::DoubleEscape, ..st };
    assert(st.step('\\', seps) == escaped);
    assert(st.run(line, seps) == escaped.run(line.skip(1), seps));
}

/// Inside of quotes nothing but the closing quote, and in double quotes a backslash, has a
/// meaning: every other character, a separator and a newline too, is added to the word.
pub proof fn law_quoted_characters_are_taken(
    st: TokState,
    c: char,
    rest: Seq<char>,
    seps: Seq<char>,
)
    requires
        st.keep,
        (st.quote == Quote::Single && c != '\'') || (st.quote == Quote::Double && c != '"' && c
            != '\\'),
    ensures
        st.run(seq![c] + rest, seps) == (TokState {
            words: st.words,
            word: st.word.push(c),
            keep: true,
            eat: false,
            quote: st.quote,
        }).run(rest, seps),
{
    assert((seq![c] + rest).skip(1) =~= rest);
}

/// A line that ends in quotes is refused with their kind, and what was read is kept for the
/// next line.
pub proof fn law_open_quotes_are_kept(st: TokState, seps: Seq<char>)
    ensures
        st.quote == Quote::Single ==> st.run(Seq::empty(), seps) == (st, TokEnd::Open(1)),
        st.quote == Quote::Double ==> st.run(Seq::empty(), seps) == (st, TokEnd::Open(2)),
        st.quote == Quote::Plain && st.eat ==> st.run(Seq::empty(), seps) == (
            TokState { eat: false, ..st },
            TokEnd::Open(3),
        ),
{
}

/// A backslash that is the last character of a line adds nothing to the word, which is
/// complete.
pub proof fn law_last_backslash_adds_nothing(st: TokState, seps: Seq<char>)
    requires
        st.quote == Quote::Plain,
        !st.word.contains('\0'),
    ensures
        st.run(seq!['\\'], seps) == (
            TokState {
                words: st.words.push(st.word),
                word: Seq::empty(),
                keep: false,
                eat: false,
                quote: Quote::Plain,
            },
            TokEnd::Complete,
        ),
{
    let line = seq!['\\'];
    assert(line.skip(1) =~= Seq::<char>::empty());
    let escaped = TokState { keep: true, eat: false, quote: Quote::Escape, ..st };
    assert(st.step('\\', seps) == escaped);
    assert(st.run(line, seps) == escaped.run(line.skip(1), seps));
    crate::text::law_text_before_nul(st.word, Seq::empty());
    assert(st.word.push('\0') + Seq::<char>::empty() =~= st.word.push('\0'));
}

/// The words of two lines without quotes and backslashes, joined by a separator, are those of
/// the one and then those of the other.
pub proof fn law_lines_are_split_apart(a: Seq<char>, b: Seq<char>, c: char, seps: Seq<char>)
    requires
        seps.contains(c),
        forall|i: int|
            0 <= i < a.len() ==> (#[trigger] a[i]) != '\'' && a[i] != '"' && a[i] != '\\' && a[i]
                != '\0' && (a[i] == '\n' ==> seps.contains('\n')),
        forall|i: int|
            0 <= i < b.len() ==> (#[trigger] b[i]) != '\'' && b[i] != '"' && b[i] != '\\' && b[i]
                != '\0' && (b[i] == '\n' ==> seps.contains('\n')),
        c != '\'' && c != '"' && c != '\\' && c != '\0',
    ensures
        TokState::start().run(a + seq![c] + b, seps).0.words == TokState::start().run(
            a,
            seps,
        ).0.words + TokState::start().run(b, seps).0.words,
{
    let line = a + seq![c] + b;
    assert forall|i: int| 0 <= i < line.len() implies ordinary(#[trigger] line[i], seps) by {
        if i < a.len() {
            assert(line[i] == a[i]);
        } else if i > a.len() {
            assert(line[i] == b[i - a.len() - 1]);
        }
    }
    assert forall|i: int| 0 <= i < a.len() implies ordinary(#[trigger] a[i], seps) by {}
    assert forall|i: int| 0 <= i < b.len() implies ordinary(#[trigger] b[i], seps) by {}
    law_plain_line_is_split(line, seps);
    law_plain_line_is_split(a, seps);
    law_plain_line_is_split(b, seps);
    lemma_split_apart(Seq::empty(), a, b, c, seps);
}

/// The cuts of a line around a separator.
proof fn lemma_split_apart(word: Seq<char>, a: Seq<char>, b: Seq<char>, c: char, seps: Seq<char>)
    requires
        seps.contains(c),
    ensures
        split(word, a + seq![c] + b, seps) == split(word, a, seps) + split(Seq::empty(), b, seps),
    decreases a.len(),
{
    let line = a + seq![c] + b;
    if a.len() == 0 {
        assert(line.skip(1) =~= b);
        assert(line[0] == c);
    } else {
        assert(line[0] == a[0]);
        assert(line.skip(1) =~= a.skip(1) + seq![c] + b);
        if seps.contains(a[0]) {
            lemma_split_apart(Seq::empty(), a.skip(1), b, c, seps);
            assert(split(word, line, seps) =~= split(word, a, seps) + split(
                Seq::empty(),
                b,
                seps,
            ));
        } else {
            lemma_split_apart(word.push(a[0]), a.skip(1), b, c, seps);
        }
    }
}

/// A word of ordinary characters comes out as it is.
pub proof fn law_one_word_is_kept(word: Seq<char>, seps: Seq<char>)
    requires
        word.len() > 0,
        forall|i: int|
            0 <= i < word.len() ==> (#[trigger] word[i]) != '\'' && word[i] != '"' && word[i]
                != '\\' && word[i] != '\0' && word[i] != '\n' && !seps.contains(word[i]),
    ensures
        TokState::start().run(word, seps) == (
            TokState { words: seq![word], ..TokState::start() },
            TokEnd::Complete,
        ),
{
    assert forall|i: int| 0 <= i < word.len() implies ordinary(#[trigger] word[i], seps) by {}
    law_plain_line_is_split(word, seps);
    lemma_split_one(Seq::empty(), word, seps);
    assert(Seq::<char>::empty() + word =~= word);
}

/// A text without a separator is not cut.
proof fn lemma_split_one(word: Seq<char>, text: Seq<char>, seps: Seq<char>)
    requires
        word.len() + text.len() > 0,
        forall|i: int| 0 <= i < text.len() ==> !seps.contains(#[trigger] text[i]),
    ensures
        split(word, text, seps) == seq![word + text],
    decreases text.len(),
{
    if text.len() == 0 {
        assert(word + text =~= word);
    } else {
        let rest = text.skip(1);
        assert(!seps.contains(text[0]));
        assert forall|i: int| 0 <= i < rest.len() implies !seps.contains(#[trigger] rest[i]) by {
            assert(rest[i] == text[i + 1]);
        }
        lemma_split_one(word.push(text[0]), rest, seps);
        assert(word.push(text[0]) + rest =~= word + text);
    }
}

/// A new tokenizer has no word, complete or not, and nothing is open; space, tab and newline
/// are the separators where none are given.
pub proof fn law_tokenizer_starts_empty(c: char)
    ensures
        TokState::start().words.len() == 0,
        TokState::start().word.len() == 0,
        !TokState::start().keep,
        !TokState::start().eat,
        TokState::start().quote == Quote::Plain,
        default_separators().contains(c) <==> c == ' ' || c == '\t' || c == '\n',
{
    let seps = default_separators();
    assert(seps[0] == '\t' && seps[1] == ' ' && seps[2] == '\n');
}

/// What splitting a line answers. A NUL is refused with its place and changes nothing.
/// Otherwise all words that are complete come back, in order, each as it stands, or the line
/// is refused with the reason why it is open; what was read is kept in both cases.
pub proof fn law_answers_of_tokenize(
    before: Tokenizer,
    text: Seq<char>,
    after: Tokenizer,
    r: Result<Vec<&str>>,
)
    requires
        tokenized(before, text, after, r),
    ensures
        text.contains('\0') ==> after@ == before@ && (r matches Err(Error::Nul(e)) && e.position
            < text.len() && text[e.position as int] == '\0' && forall|i: int|
            0 <= i < e.position ==> text[i] != '\0'),
        !text.contains('\0') ==> after@ == before@.run(text, before.separators()).0,
        !text.contains('\0') && before@.run(text, before.separators()).1 is Complete ==> (
        r matches Ok(words) && words@.len() == after@.words.len() && forall|i: int|
            0 <= i < words@.len() ==> (#[trigger] words@[i])@ == after@.words[i]),
        !text.contains('\0') ==> (before@.run(text, before.separators()).1 matches TokEnd::Open(
            reason,
        ) ==> (r matches Err(Error::Operation { op, code }) && op == 0 && code == reason)),
{
    if !text.contains('\0') && before@.run(text, before.separators()).1 is Complete {
        let words = r->Ok_0;
        assert forall|i: int| 0 <= i < words@.len() implies (#[trigger] words@[i])@
            == after@.words[i] by {
            assert(texts_of_words(words@)[i] == words@[i]@);
        }
    }
}

/// In double quotes a backslash that is the last character of a line leaves the quotes open,
/// with a NUL in its place that cuts the word there.
pub proof fn law_last_backslash_in_double_quotes(st: TokState, seps: Seq<char>)
    requires
        st.quote == Quote::Double,
    ensures
        st.run(seq!['\\'], seps) == (
            TokState { word: st.word.push('\0'), keep: true, eat: false, ..st },
            TokEnd::Open(2),
        ),
{
    let line = seq!['\\'];
    assert(line.skip(1) =~= Seq::<char>::empty());
    let escaped = TokState { keep: true, eat: false, quote: Quote::DoubleEscape, ..st };
    assert(st.step('\\', seps) == escaped);
    assert(st.run(line, seps) == escaped.run(line.skip(1), seps));
}

} // verus!
