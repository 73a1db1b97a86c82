//! The line editor: its settings, its prompt, its history and its keyboard, and what
//! becomes of a line that was read.
//!
//! The editing itself is libedit's. An [`EditLine`] holds everything that the editor
//! decides around it: [`EditLine::start_readline`] before a line is read,
//! [`EditLine::keys`] while it is, and [`EditLine::finish_readline`] after.

use vstd::prelude::*;

use crate::consts::{
    CC_ARGHACK, CC_CURSOR, CC_EOF, CC_ERROR, CC_FATAL, CC_NEWLINE, CC_NORM, CC_REDISPLAY,
    CC_REFRESH, CC_REFRESH_BEEP, EL_ADDFN, EL_EDITMODE, EL_EDITOR,
};
use crate::error::{check_c_string, operation_result, Error, Result};
use crate::history::{EntryView, History, HistoryState};
use crate::keys::{KeyReader, KeyState};
use crate::prompt::{prompt_units, Prompt};
use crate::term;
use crate::text::string_of;
use crate::wstr::{
    blank, content, decode_units, lemma_content_with_nul, lemma_trim_blank_end,
    lemma_trimmed_content, lemma_wcslen, terminated, text_of, trim_blank_end, units_of, with_nul,
    WCStr, WCString, WChar,
};

verus! {

/// Saves the position of the cursor.
pub const SAVE_CURSOR: &'static str = "\x1b7";

/// Restores the position of the cursor.
pub const RESTORE_CURSOR: &'static str = "\x1b8";

// ---------------------------------------------------------------------------
// Key bindings and actions
// ---------------------------------------------------------------------------

/// A style of key bindings.
#[derive(Debug, Clone, Copy, PartialEq, Eq, Structural)]
pub enum Editor {
    /// Bindings as in emacs.
    Emacs,
    /// Bindings as in vi, with modes for inserting and for commands.
    Vi,
}

impl Editor {
    /// The name that libedit knows the style by.
    pub fn name(self) -> (r: &'static str)
        ensures
            self == Editor::Emacs ==> r@ == "emacs"@,
            self == Editor::Vi ==> r@ == "vi"@,
    {
        match self {
            Editor::Emacs => "emacs",
            Editor::Vi => "vi",
        }
    }
}

/// What a key function asks the editor to do when it is done.
#[derive(Debug, Clone, Copy, PartialEq, Eq, Structural)]
pub enum Action {
    /// Nothing more.
    Norm,
    /// End the line.
    Newline,
    /// End the input.
    Eof,
    /// Wait for more input as an argument.
    Arghack,
    /// Bring the display up to date.
    Refresh,
    /// Bring the display up to date and beep.
    RefreshBeep,
    /// Follow the cursor.
    Cursor,
    /// Draw the whole line anew, as after printing something.
    Redisplay,
    /// Beep.
    Error,
    /// Reset the terminal.
    Fatal,
}

/// The code that libedit knows an action by.
pub open spec fn action_code(action: Action) -> u8 {
    match action {
        Action::Norm => CC_NORM,
        Action::Newline => CC_NEWLINE,
        Action::Eof => CC_EOF,
        Action::Arghack => CC_ARGHACK,
        Action::Refresh => CC_REFRESH,
        Action::RefreshBeep => CC_REFRESH_BEEP,
        Action::Cursor => CC_CURSOR,
        Action::Redisplay => CC_REDISPLAY,
        Action::Error => CC_ERROR,
        Action::Fatal => CC_FATAL,
    }
}

impl Action {
    /// The code that libedit knows the action by.
    pub fn to_cc(self) -> (r: u8)
        ensures
            r == action_code(self),
    {
        match self {
            Action::Norm => CC_NORM,
            Action::Newline => CC_NEWLINE,
            Action::Eof => CC_EOF,
            Action::Arghack => CC_ARGHACK,
            Action::Refresh => CC_REFRESH,
            Action::RefreshBeep => CC_REFRESH_BEEP,
            Action::Cursor => CC_CURSOR,
            Action::Redisplay => CC_REDISPLAY,
            Action::Error => CC_ERROR,
            Action::Fatal => CC_FATAL,
        }
    }
}

/// The code to return from a key function whose handler ended with `outcome`: an error
/// where there is no handler or it panicked.
pub fn handler_code(outcome: Option<Action>) -> (r: u8)
    ensures
        r == (match outcome {
            Some(action) => action_code(action),
            None => CC_ERROR,
        }),
{
    match outcome {
        Some(action) => action.to_cc(),
        None => Action::Error.to_cc(),
    }
}

/// Different actions have different codes.
pub proof fn law_action_codes_differ(a: Action, b: Action)
    ensures
        action_code(a) == action_code(b) ==> a == b,
{
}

// ---------------------------------------------------------------------------
// The line being edited
// ---------------------------------------------------------------------------

/// The line as a handler sees it: its text and where the cursor stands in it.
#[derive(Debug, Clone, Copy)]
pub struct LineContext<'a> {
    line: &'a str,
    char_count: usize,
    cursor_pos: usize,
    term_cols: u16,
}

impl<'a> LineContext<'a> {
    /// The text of the line.
    pub closed spec fn text(&self) -> Seq<char> {
        self.line@
    }

    /// The position of the cursor, in characters.
    pub closed spec fn position(&self) -> nat {
        self.cursor_pos as nat
    }

    /// The width of the terminal, in columns.
    pub closed spec fn columns(&self) -> u16 {
        self.term_cols
    }

    /// A hint is asked for: the line is not empty and the cursor stands at its end.
    pub open spec fn hint_wanted(&self) -> bool {
        self.text().len() > 0 && self.position() == self.text().len()
    }

    /// The number of characters is that of the text.
    #[verifier::type_invariant]
    pub closed spec fn counted(self) -> bool {
        self.char_count == self.line@.len()
    }

    /// The line `line`, which has `char_count` characters, with the cursor before
    /// character `cursor_pos`.
    pub fn new(line: &'a str, char_count: usize, cursor_pos: usize, term_cols: u16) -> (r:
        LineContext<'a>)
        requires
            char_count == line@.len(),
        ensures
            r.text() == line@,
            r.position() == cursor_pos,
            r.columns() == term_cols,
    {
        LineContext { line, char_count, cursor_pos, term_cols }
    }

    /// The text of the line.
    pub fn line(&self) -> (r: &'a str)
        ensures
            r@ == self.text(),
    {
        self.line
    }

    /// The number of characters of the line.
    pub fn char_count(&self) -> (r: usize)
        ensures
            r == self.text().len(),
    {
        proof {
            use_type_invariant(self);
        }
        self.char_count
    }

    /// The position of the cursor, in characters.
    pub fn cursor(&self) -> (r: usize)
        ensures
            r == self.position(),
    {
        self.cursor_pos
    }

    /// The cursor stands at the end of the line.
    pub fn cursor_at_end(&self) -> (r: bool)
        ensures
            r == (self.position() == self.text().len()),
    {
        proof {
            use_type_invariant(self);
        }
        self.cursor_pos == self.char_count
    }

    /// The width of the terminal, in columns.
    pub fn term_cols(&self) -> (r: u16)
        ensures
            r == self.columns(),
    {
        self.term_cols
    }

    /// A hint is asked for: the line is not empty and the cursor stands at its end.
    pub fn wants_hint(&self) -> (r: bool)
        ensures
            r == self.hint_wanted(),
    {
        self.char_count() > 0 && self.cursor_at_end()
    }
}

/// The text of the line that libedit holds in `units`, one character per unit.
pub fn line_text(units: &[WChar]) -> (r: String)
    ensures
        r@ == text_of(units@),
        r@.len() == units@.len(),
{
    let chars: Vec<char> = decode_units(units);
    string_of(&chars)
}

/// How many units lie between two positions in a buffer, `start` and `end`, which are
/// given in bytes: the length of a line, or the place of the cursor in it.
pub fn unit_distance(start: usize, end: usize) -> (r: usize)
    requires
        start <= end,
    ensures
        r == (end - start) / 4,
{
    (end - start) / 4
}

/// What a handler has written for the line, `text`, with a NUL at the end; `None` where
/// there is nothing to insert, since no character stands before the first NUL.
pub fn insertion(text: &str) -> (r: Option<Vec<WChar>>)
    ensures
        r is None <==> text@.len() == 0 || text@[0] == '\0',
        r matches Some(units) ==> units@ == with_nul(units_of(text@)),
{
    let mut buf: WCString = WCString::new();
    buf.push_str(text);
    assert(buf@ =~= units_of(text@));
    buf.terminate();
    proof {
        lemma_wcslen(buf@);
        if text@.len() > 0 {
            assert(units_of(text@)[0] == buf@[0]);
            crate::wstr::lemma_unit_of_char(text@[0]);
        }
    }
    if buf.is_empty() {
        return None;
    }
    Some(buf.into_units_with_nul())
}

/// How a hint is shown unless its source says otherwise: dimmed.
pub fn default_style(text: &str) -> (r: String)
    ensures
        r@ == "\x1b[2m"@ + text@ + "\x1b[0m"@,
{
    let mut out: String = String::new();
    out.append("\x1b[2m");
    out.append(text);
    out.append("\x1b[0m");
    assert(out@ =~= "\x1b[2m"@ + text@ + "\x1b[0m"@);
    out
}

// ---------------------------------------------------------------------------
// The editor
// ---------------------------------------------------------------------------

/// The state of an [`EditLine`].
pub struct EditState {
    /// The prompt.
    pub prompt: Seq<char>,
    /// The keyboard.
    pub keys: KeyState,
    /// Pasted text is taken literally.
    pub bracketed_paste: bool,
    /// Lines that are read are added to the history.
    pub auto_add_history: bool,
    /// Lines that begin with a space are not.
    pub ignore_space: bool,
    /// The width of the terminal, in columns.
    pub term_cols: u16,
    /// The history, where there is one.
    pub history: Option<HistoryState>,
}

/// What libedit handed back for a line.
pub enum Reading {
    /// A signal cut the read short.
    Interrupted,
    /// The input ended.
    Eof,
    /// The line is empty, without even a line end.
    Nothing,
    /// The line, without the spaces and newlines at its end.
    Line(Seq<WChar>),
}

/// What a line means that libedit gave as `line`, with `count` units, where
/// `interrupted` says that a signal cut the read short.
pub open spec fn reading(line: Option<Seq<WChar>>, count: i32, interrupted: bool) -> Reading {
    if line is None || count < 0 {
        if interrupted {
            Reading::Interrupted
        } else {
            Reading::Eof
        }
    } else if count == 0 {
        Reading::Nothing
    } else {
        Reading::Line(trim_blank_end(content(line->Some_0)))
    }
}

impl EditState {
    /// A new editor: no history, nothing added to it, pastes taken literally.
    pub open spec fn start() -> Self {
        EditState {
            prompt: Seq::empty(),
            keys: KeyState::start(),
            bracketed_paste: true,
            auto_add_history: false,
            ignore_space: false,
            term_cols: 0,
            history: None,
        }
    }

    /// `line` is one that is added to the history of itself: that is switched on, the
    /// line is not empty, and it does not begin with a space where such lines are left
    /// out.
    pub open spec fn adds(self, line: Seq<WChar>) -> bool {
        &&& self.auto_add_history
        &&& line.len() > 0
        &&& !(self.ignore_space && line[0] == ' ' as WChar)
    }

    /// The editor after `line` has been read.
    pub open spec fn after_line(self, line: Seq<WChar>) -> Self {
        match self.history {
            Some(history) => if self.adds(line) && (history.last_num < i32::MAX || history.repeats(
                line,
            )) {
                EditState { history: Some(history.enter(line)), ..self }
            } else {
                self
            },
            None => self,
        }
    }
}

/// A line editor.
#[derive(Debug)]
pub struct EditLine {
    prompt: Prompt,
    keys: KeyReader,
    bracketed_paste: bool,
    auto_add_history: bool,
    ignore_space: bool,
    term_cols: u16,
    history: Option<History>,
}

impl View for EditLine {
    type V = EditState;

    closed spec fn view(&self) -> EditState {
        EditState {
            prompt: self.prompt@,
            keys: self.keys@,
            bracketed_paste: self.bracketed_paste,
            auto_add_history: self.auto_add_history,
            ignore_space: self.ignore_space,
            term_cols: self.term_cols,
            history: match self.history {
                Some(h) => Some(h@),
                None => None,
            },
        }
    }
}

impl EditLine {
    /// The prompt, the keyboard and the history are in states that can occur.
    pub closed spec fn valid(&self) -> bool {
        &&& self.prompt.valid()
        &&& self.keys.valid()
        &&& self.history matches Some(h) ==> h@.valid()
    }

    /// An editor for the application `app_name`. Fails where the name holds a NUL.
    pub fn new(app_name: &str) -> (r: Result<Self>)
        ensures
            match r {
                Ok(el) => {
                    &&& !vstd::utf8::encode_utf8(app_name@).contains(0)
                    &&& el.valid()
                    &&& el@ == EditState::start()
                },
                Err(Error::Nul(e)) => {
                    let bytes = vstd::utf8::encode_utf8(app_name@);
                    &&& e.position < bytes.len()
                    &&& bytes[e.position as int] == 0
                    &&& forall|i: int| 0 <= i < e.position ==> bytes[i] != 0
                },
                Err(_) => false,
            },
    {
        match check_c_string(app_name.as_bytes()) {
            Ok(()) => {},
            Err(e) => {
                return Err(Error::Nul(e));
            },
        }
        Ok(
            EditLine {
                prompt: Prompt::new(),
                keys: KeyReader::new(),
                bracketed_paste: true,
                auto_add_history: false,
                ignore_space: false,
                term_cols: 0,
                history: None,
            },
        )
    }

    /// Gets ready to read a line with the given prompt. `rc` and `cols` are what the
    /// query for the width of the terminal returned. Gives whether the terminal is to
    /// be put into bracketed-paste mode.
    pub fn start_readline(&mut self, prompt: &str, rc: i32, cols: u16) -> (r: bool)
        requires
            old(self).valid(),
        ensures
            final(self).valid(),
            final(self)@ == (EditState {
                prompt: prompt@,
                term_cols: if rc == 0 && cols > 0 {
                    cols
                } else {
                    term::DEFAULT_COLUMNS
                },
                ..old(self)@
            }),
            r == old(self)@.bracketed_paste,
    {
        self.prompt.set(prompt);
        self.term_cols = term::width(rc, cols);
        self.bracketed_paste
    }

    /// The line that was read. `line` is what libedit gave, up to and with its NUL, or
    /// `None` for a null pointer; `count` is the number of units that it told, and
    /// `interrupted` says that a signal cut the read short.
    ///
    /// The spaces and newlines at the end of the line are left out. Where that is
    /// switched on, the line is added to the history.
    pub fn finish_readline(
        &mut self,
        line: Option<Vec<WChar>>,
        count: i32,
        interrupted: bool,
    ) -> (r: Result<String>)
        requires
            old(self).valid(),
            line matches Some(units) ==> units@.contains(0),
        ensures
            final(self).valid(),
            match reading(
                match line {
                    Some(units) => Some(units@),
                    None => None,
                },
                count,
                interrupted,
            ) {
                Reading::Interrupted => r == Err::<String, Error>(Error::Interrupted)
                    && final(self)@ == old(self)@,
                Reading::Eof => r == Err::<String, Error>(Error::Eof) && final(self)@ == old(
                    self,
                )@,
                Reading::Nothing => {
                    &&& r matches Ok(text) && text@.len() == 0
                    &&& final(self)@ == old(self)@
                },
                Reading::Line(units) => {
                    &&& r matches Ok(text) && text@ == text_of(units)
                    &&& final(self)@ == old(self)@.after_line(units)
                },
            },
    {
        let units: Vec<WChar> = match line {
            Some(units) => units,
            None => {
                return Err(no_line(interrupted));
            },
        };
        if count < 0 {
            return Err(no_line(interrupted));
        }
        if count == 0 {
            return Ok(String::new());
        }
        let ghost all = units@;
        let mut buffer: Vec<WChar> = WCString::from_wide_buf(
            units.as_slice(),
        ).into_units_with_nul();
        let ghost body = content(all);
        assert(buffer@.drop_last() =~= body);
        proof {
            lemma_wcslen(all);
        }
        WCStr::trim_end(&mut buffer);
        proof {
            lemma_trimmed_content(body.push(0));
        }
        let trimmed: WCStr<'_> = WCStr::from_units(buffer.as_slice());
        proof {
            lemma_content_with_nul(buffer@);
        }
        self.maybe_auto_add_history(&trimmed);
        Ok(trimmed.to_string_lossy())
    }

    /// Adds `line`, which was trimmed, to the history where that is switched on.
    fn maybe_auto_add_history(&mut self, line: &WCStr<'_>)
        requires
            old(self).valid(),
        ensures
            final(self).valid(),
            final(self)@ == old(self)@.after_line(content(line@)),
    {
        if !self.auto_add_history {
            return;
        }
        if line.is_empty() {
            return;
        }
        proof {
            lemma_wcslen(line@);
        }
        if self.ignore_space && line.units_with_nul()[0] == ' ' as WChar {
            return;
        }
        let mut history: Option<History> = None;
        std::mem::swap(&mut self.history, &mut history);
        match history {
            Some(mut h) => {
                h.add_wide(line);
                self.history = Some(h);
            },
            None => {},
        }
    }

    /// The prompt for libedit: its units, with what prints nothing between delimiters,
    /// and a NUL.
    pub fn prompt_wide(&self) -> (r: &[WChar])
        requires
            self.valid(),
        ensures
            r@ == prompt_units(self@.prompt).push(0),
            terminated(r@),
    {
        self.prompt.wide()
    }

    /// The keyboard.
    pub fn keys(&mut self) -> (r: &mut KeyReader)
        requires
            old(self).valid(),
        ensures
            r.valid(),
            r@ == old(self)@.keys,
            final(self)@ == (EditState { keys: final(r)@, ..old(self)@ }),
            final(r).valid() ==> final(self).valid(),
    {
        &mut self.keys
    }

    /// The width of the terminal, as it was when the last line was begun.
    pub fn term_cols(&self) -> (r: u16)
        ensures
            r == self@.term_cols,
    {
        self.term_cols
    }

    /// Says whether pasted text is taken literally.
    pub fn set_bracketed_paste(&mut self, enabled: bool)
        requires
            old(self).valid(),
        ensures
            final(self).valid(),
            final(self)@ == (EditState { bracketed_paste: enabled, ..old(self)@ }),
    {
        self.bracketed_paste = enabled;
    }

    /// Attaches a history in place of the one before.
    pub fn set_history(&mut self, history: History)
        requires
            old(self).valid(),
            history@.valid(),
        ensures
            final(self).valid(),
            final(self)@ == (EditState { history: Some(history@), ..old(self)@ }),
    {
        self.history = Some(history);
    }

    /// Says whether lines that are read are added to the history.
    pub fn set_auto_add_history(&mut self, enabled: bool)
        requires
            old(self).valid(),
        ensures
            final(self).valid(),
            final(self)@ == (EditState { auto_add_history: enabled, ..old(self)@ }),
    {
        self.auto_add_history = enabled;
    }

    /// Says whether lines that begin with a space are left out of the history.
    pub fn set_history_ignore_space(&mut self, enabled: bool)
        requires
            old(self).valid(),
        ensures
            final(self).valid(),
            final(self)@ == (EditState { ignore_space: enabled, ..old(self)@ }),
    {
        self.ignore_space = enabled;
    }

    /// The history, where there is one.
    pub fn history(&self) -> (r: Option<&History>)
        requires
            self.valid(),
        ensures
            match r {
                Some(h) => self@.history == Some(h@) && h@.valid(),
                None => self@.history is None,
            },
    {
        match &self.history {
            Some(h) => Some(h),
            None => None,
        }
    }

    /// The history, where there is one.
    pub fn history_mut(&mut self) -> (r: Option<&mut History>)
        requires
            old(self).valid(),
        ensures
            match r {
                Some(h) => {
                    &&& old(self)@.history == Some(h@)
                    &&& h@.valid()
                    &&& final(self)@ == (EditState { history: Some(final(h)@), ..old(self)@ })
                    &&& final(h)@.valid() ==> final(self).valid()
                },
                None => {
                    &&& old(self)@.history is None
                    &&& final(self)@ == old(self)@
                    &&& final(self).valid()
                },
            },
    {
        match &mut self.history {
            Some(h) => Some(h),
            None => None,
        }
    }

    /// The result of setting parameter `op`, where `rc` is what libedit returned.
    pub fn set_int(op: i32, rc: i32) -> (r: Result<()>)
        ensures
            rc == 0 ==> r is Ok,
            rc != 0 ==> r == Err::<(), Error>(Error::Operation { op, code: rc }),
    {
        operation_result(op, rc)
    }

    /// The result of asking for parameter `op`, where `rc` is what libedit returned and
    /// `value` what it stored.
    pub fn get_int(op: i32, rc: i32, value: i32) -> (r: Result<i32>)
        ensures
            rc == 0 ==> r == Ok::<i32, Error>(value),
            rc != 0 ==> r == Err::<i32, Error>(Error::Operation { op, code: -1i32 }),
    {
        if rc == 0 {
            Ok(value)
        } else {
            Err(Error::operation(op, -1))
        }
    }

    /// Editing is switched on, where `rc` is what libedit returned when it was asked and
    /// `value` what it stored.
    pub fn edit_mode(rc: i32, value: i32) -> (r: Result<bool>)
        ensures
            rc == 0 ==> r == Ok::<bool, Error>(value != 0),
            rc != 0 ==> r == Err::<bool, Error>(
                Error::Operation { op: EL_EDITMODE as i32, code: -1i32 },
            ),
    {
        match Self::get_int(EL_EDITMODE as i32, rc, value) {
            Ok(v) => Ok(v != 0),
            Err(e) => Err(e),
        }
    }

    /// The result of selecting key bindings, where `rc` is what libedit returned.
    pub fn set_editor(rc: i32) -> (r: Result<()>)
        ensures
            rc == 0 ==> r is Ok,
            rc != 0 ==> r == Err::<(), Error>(Error::Operation { op: EL_EDITOR as i32, code: rc }),
    {
        operation_result(EL_EDITOR as i32, rc)
    }

    /// The result of registering a handler, where `rc` is what libedit returned when its
    /// function was added, or, where that went well, when its key was bound.
    pub fn set_handler(rc: i32) -> (r: Result<()>)
        ensures
            rc == 0 ==> r is Ok,
            rc != 0 ==> r == Err::<(), Error>(Error::Operation { op: EL_ADDFN as i32, code: rc }),
    {
        operation_result(EL_ADDFN as i32, rc)
    }

    /// The result of reading a configuration file, where `rc` is what libedit returned.
    pub fn source_config(rc: i32) -> (r: Result<()>)
        ensures
            rc == 0 ==> r is Ok,
            rc != 0 ==> r == Err::<(), Error>(Error::Operation { op: 0, code: rc }),
    {
        operation_result(0, rc)
    }

    /// The size of the terminal to work with: `known`, or 80 columns by 24 rows where it
    /// is not known.
    pub fn terminal_size(known: Option<(usize, usize)>) -> (r: (usize, usize))
        ensures
            known matches Some(s) ==> r == s,
            known is None ==> r == (80usize, 24usize),
    {
        term::size_or_default(known)
    }
}

/// The error where no line was read.
fn no_line(interrupted: bool) -> (r: Error)
    ensures
        interrupted ==> r == Error::Interrupted,
        !interrupted ==> r == Error::Eof,
{
    if interrupted {
        Error::Interrupted
    } else {
        Error::Eof
    }
}

// ---------------------------------------------------------------------------
// Laws
// ---------------------------------------------------------------------------

/// A line that is added to the history is the one that was read: it becomes the newest
/// entry, whether or not it repeats the one before.
pub proof fn law_added_line_is_the_one_read(st: EditState, line: Seq<WChar>)
    requires
        st.history is Some,
        st.history->Some_0.valid(),
        st.history->Some_0.limit > 0,
        st.history->Some_0.last_num < i32::MAX,
        st.adds(line),
    ensures
        st.after_line(line).history matches Some(history) && history.entries.len() > 0
            && history.entries.last().units == line,
{
}

/// Nothing else is ever added: with the switch off, on an empty line, on a line that
/// begins with a space where such lines are left out, and without a history, reading a
/// line changes nothing.
pub proof fn law_other_lines_are_not_added(st: EditState, line: Seq<WChar>)
    requires
        !st.auto_add_history || line.len() == 0 || (st.ignore_space && line[0] == ' ' as WChar)
            || st.history is None,
    ensures
        st.after_line(line) == st,
{
}

/// A line comes back without the blanks at its end and otherwise as it was entered: it
/// holds no NUL, does not end in a space or a newline, and begins as it was typed.
pub proof fn law_line_is_trimmed_at_its_end(units: Seq<WChar>, count: i32)
    requires
        count > 0,
    ensures
        reading(Some(units), count, false) matches Reading::Line(line) && {
            &&& line.is_prefix_of(content(units))
            &&& !line.contains(0)
            &&& line.len() > 0 ==> !blank(line.last())
            &&& forall|i: int| line.len() <= i < content(units).len() ==> blank(
                #[trigger] content(units)[i],
            )
        },
{
    let body = content(units);
    lemma_trim_blank_end(body);
    lemma_wcslen(units);
    let line = trim_blank_end(body);
    assert forall|i: int| 0 <= i < line.len() implies line[i] != 0 by {
        assert(line[i] == body[i]);
        assert(body[i] == units[i]);
    }
}

/// With auto-adding on, every line that is read becomes the newest entry of the attached
/// history, unless it is empty, or begins with a space while such lines are left out. The
/// length of the line does not matter.
pub proof fn law_every_line_is_added(st: EditState, line: Seq<WChar>)
    requires
        st.auto_add_history,
        st.history is Some,
        st.history->Some_0.valid(),
        st.history->Some_0.limit > 0,
        st.history->Some_0.last_num < i32::MAX,
        line.len() > 0,
        !st.ignore_space || line[0] != 0x20,
    ensures
        st.after_line(line).history matches Some(history) && {
            &&& history.entries.len() > 0
            &&& history.entries[history.entries.len() - 1].units == line
        },
        st.after_line(line) == (EditState { history: st.after_line(line).history, ..st }),
{
}

/// What a line adds to the history is what adding the line itself adds: one entry where it is
/// not suppressed as a repetition, and the entries that were there stay but for the oldest
/// where there is no room.
pub proof fn law_one_line_adds_one_entry(st: EditState, line: Seq<WChar>)
    requires
        st.auto_add_history,
        st.history is Some,
        st.history->Some_0.valid(),
        st.history->Some_0.last_num < i32::MAX,
        line.len() > 0,
        !st.ignore_space || line[0] != 0x20,
    ensures
        ({
            let before = st.history->Some_0;
            let after = st.after_line(line).history->Some_0;
            let all = before.entries.push(
                EntryView { num: (before.last_num + 1) as i32, units: line },
            );
            let repeated = before.unique && before.entries.len() > 0 && before.entries.last().units
                == line;
            &&& repeated ==> after == before
            &&& !repeated && before.entries.len() < before.limit ==> after.entries == all
            &&& !repeated && before.entries.len() == before.limit ==> after.entries == all.skip(1)
        }),
{
}

/// A line is added only where auto-adding is on, a history is attached, the line is not
/// empty, and, while such lines are left out, it does not begin with a space.
pub proof fn law_added_lines_were_meant_to_be(st: EditState, line: Seq<WChar>)
    requires
        st.after_line(line) != st,
    ensures
        st.auto_add_history,
        st.history is Some,
        line.len() > 0,
        st.ignore_space ==> line[0] != 0x20,
{
}

/// A line comes back as it was typed, without the spaces and newlines at its end: what stands
/// before the first NUL, whatever the count of units says.
pub proof fn law_line_that_was_typed(
    body: Seq<WChar>,
    blanks: Seq<WChar>,
    rest: Seq<WChar>,
    count: i32,
    interrupted: bool,
)
    requires
        count > 0,
        forall|i: int| 0 <= i < body.len() ==> (#[trigger] body[i]) != 0,
        body.len() > 0 ==> body[body.len() - 1] != 0x20 && body[body.len() - 1] != 0x0a,
        forall|i: int|
            0 <= i < blanks.len() ==> (#[trigger] blanks[i]) == 0x20 || blanks[i] == 0x0a,
    ensures
        reading(Some((body + blanks).push(0) + rest), count, interrupted) == Reading::Line(body),
{
    let text = body + blanks;
    assert forall|i: int| 0 <= i < text.len() implies text[i] != 0 by {
        if i < body.len() {
            assert(text[i] == body[i]);
        } else {
            assert(text[i] == blanks[i - body.len()]);
        }
    }
    crate::wstr::law_content(text, rest);
    crate::wstr::law_trimmed_end(body, blanks);
}

/// Without a line there is an error: an interruption where a signal cut the read short, and
/// otherwise the end of the input. A count of zero gives an empty line.
pub proof fn law_no_line(line: Option<Seq<WChar>>, count: i32, interrupted: bool)
    ensures
        (line is None || count < 0) && interrupted ==> reading(line, count, interrupted)
            == Reading::Interrupted,
        (line is None || count < 0) && !interrupted ==> reading(line, count, interrupted)
            == Reading::Eof,
        line is Some && count == 0 ==> reading(line, count, interrupted) == Reading::Nothing,
{
}

/// The codes of the actions are those that libedit knows.
pub proof fn law_action_codes(action: Action)
    ensures
        action_code(action) as int == (match action {
            Action::Norm => 0int,
            Action::Newline => 1,
            Action::Eof => 2,
            Action::Arghack => 3,
            Action::Refresh => 4,
            Action::Cursor => 5,
            Action::Error => 6,
            Action::Fatal => 7,
            Action::Redisplay => 8,
            Action::RefreshBeep => 9,
        }),
{
}

/// A hint is asked for exactly on a line with characters whose cursor stands after the last.
pub proof fn law_hint_is_wanted_at_the_end(ctx: LineContext)
    ensures
        ctx.hint_wanted() <==> ctx.text().len() >= 1 && ctx.position() == ctx.text().len(),
{
}

/// A new editor takes pastes literally, adds no line to a history, has none, shows no hint,
/// and has nothing to replay.
pub proof fn law_editor_starts_plain()
    ensures
        EditState::start().prompt.len() == 0,
        EditState::start().bracketed_paste,
        !EditState::start().auto_add_history,
        !EditState::start().ignore_space,
        EditState::start().history is None,
        EditState::start().keys.pending.len() == 0,
        EditState::start().keys.held is None,
        EditState::start().keys.hint.len() == 0,
        EditState::start().keys.phase is Idle,
        EditState::start().keys.valid(),
{
}

/// The sequences that save and restore the cursor are `ESC 7` and `ESC 8`.
pub proof fn law_cursor_sequences()
    ensures
        SAVE_CURSOR@ == seq!['\x1b', '7'],
        RESTORE_CURSOR@ == seq!['\x1b', '8'],
{
    reveal_strlit("\x1b7");
    reveal_strlit("\x1b8");
    assert(SAVE_CURSOR@ =~= seq!['\x1b', '7']);
    assert(RESTORE_CURSOR@ =~= seq!['\x1b', '8']);
}

} // verus!
