//! The logic of a line editor built on libedit.
//!
//! What a line editor has to decide stands here as functions from plain values to plain
//! values, each with a contract that is proved of it: what a byte from the terminal means,
//! what becomes of a line that was read, how a line is split into words, which lines the
//! history keeps. Reading, drawing and the calls into the C library are left to the
//! program around it.
//!
//! * [`keys`] turns bytes into characters, with [`escape`], [`paste`], [`utf8`] and
//!   [`reads`] for its parts.
//! * [`editline`] holds the settings of the editor and takes in the lines that were read,
//!   with [`prompt`] for the prompt.
//! * [`history`] keeps the lines, and [`histfile`] is the form in which they are saved.
//! * [`tokenizer`] splits a line into words.
//! * [`completion`], [`suggestion`] and [`hint`] are what completers, suggesters and
//!   hinters are told and answer.
//! * [`wstr`] holds the wide strings that libedit works on.
//! * [`term`], [`trace`], [`error`], [`consts`], [`decimal`] and [`text`] are small things
//!   that the others need.
//! * [`ext`] states what is taken on trust of the standard library.

pub mod completion;
pub mod consts;
pub mod decimal;
pub mod editline;
pub mod error;
pub mod escape;
pub mod ext;
pub mod hint;
pub mod histfile;
pub mod history;
pub mod keys;
pub mod paste;
pub mod prompt;
pub mod reads;
pub mod suggestion;
pub mod term;
pub mod text;
pub mod tokenizer;
pub mod trace;
pub mod utf8;
pub mod wstr;

pub use editline::{Action, EditLine, Editor, LineContext};
pub use error::{Error, Result};
pub use history::{History, DEFAULT_HISTORY_SIZE};
pub use tokenizer::Tokenizer;
