//! The operation codes of libedit, for use with
//! [`EditLine::set_int`](crate::editline::EditLine::set_int) and
//! [`EditLine::get_int`](crate::editline::EditLine::get_int), and the codes that its
//! key functions return.

use vstd::prelude::*;

verus! {

/// Sets the prompt function.
pub const EL_PROMPT: u32 = 0;

/// Selects the key bindings.
pub const EL_EDITOR: u32 = 2;

/// Turns signal handling on or off.
pub const EL_SIGNAL: u32 = 3;

/// Adds a key function.
pub const EL_ADDFN: u32 = 9;

/// Sets the history function.
pub const EL_HIST: u32 = 10;

/// Turns editing on or off.
pub const EL_EDITMODE: u32 = 11;

/// Sets the function for the prompt at the right edge.
pub const EL_RPROMPT: u32 = 12;

/// Sets the data that key functions find the editor by.
pub const EL_CLIENTDATA: u32 = 14;

/// Turns unbuffered input on or off.
pub const EL_UNBUFFERED: u32 = 15;

/// Draws the line anew.
pub const EL_REFRESH: u32 = 20;

/// Nothing more is to be done.
pub const CC_NORM: u8 = 0;

/// The line is complete.
pub const CC_NEWLINE: u8 = 1;

/// The input has ended.
pub const CC_EOF: u8 = 2;

/// More input is expected as an argument.
pub const CC_ARGHACK: u8 = 3;

/// The display is to be brought up to date.
pub const CC_REFRESH: u8 = 4;

/// The cursor has moved.
pub const CC_CURSOR: u8 = 5;

/// Something failed: beep.
pub const CC_ERROR: u8 = 6;

/// Something failed beyond repair: reset the terminal.
pub const CC_FATAL: u8 = 7;

/// The whole line is to be drawn anew.
pub const CC_REDISPLAY: u8 = 8;

/// The display is to be brought up to date, with a beep.
pub const CC_REFRESH_BEEP: u8 = 9;

/// Sets the number of history entries that are kept.
pub const H_SETSIZE: u32 = 1;

/// Enters a line into the history.
pub const H_ENTER: u32 = 10;

/// Removes all history entries.
pub const H_CLEAR: u32 = 19;

/// The codes are those of libedit.
pub proof fn law_codes()
    ensures
        EL_PROMPT == 0,
        EL_EDITOR == 2,
        EL_SIGNAL == 3,
        EL_ADDFN == 9,
        EL_HIST == 10,
        EL_EDITMODE == 11,
        EL_RPROMPT == 12,
        EL_CLIENTDATA == 14,
        EL_UNBUFFERED == 15,
        EL_REFRESH == 20,
        H_SETSIZE == 1,
        H_ENTER == 10,
        H_CLEAR == 19,
{
}

} // verus!
