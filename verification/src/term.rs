//! What the terminal can do: whether it is one, how large it is, and whether it
//! should be sent color.
//!
//! The functions take what the system and the environment answer and give what it
//! means.

use vstd::prelude::*;

use crate::text::same_text;

verus! {

/// The width assumed of a terminal that does not tell, in columns.
pub const DEFAULT_COLUMNS: u16 = 80;

/// The height assumed of a terminal that does not tell, in rows.
pub const DEFAULT_ROWS: u16 = 24;

/// A file is a terminal. `rc` is what `isatty` returned.
pub fn is_tty(rc: i32) -> (r: bool)
    ensures
        r == (rc != 0),
{
    rc != 0
}

/// The terminal is likely to show ANSI colors. `no_color` says that `NO_COLOR` is set
/// to anything, `stdout_tty` that standard output is a terminal, and `term` is the
/// value of `TERM` where it is set to text.
pub fn supports_color(no_color: bool, stdout_tty: bool, term: Option<&str>) -> (r: bool)
    ensures
        r == (!no_color && stdout_tty && !(term matches Some(t) && t@ == "dumb"@)),
{
    if no_color {
        return false;
    }
    if !stdout_tty {
        return false;
    }
    match term {
        Some(t) => !same_text(t, "dumb"),
        None => true,
    }
}

/// The size of a terminal in columns and rows. `rc` is what the query returned, 0
/// where it succeeded. `None` where it failed or told no size.
pub fn size(rc: i32, cols: u16, rows: u16) -> (r: Option<(usize, usize)>)
    ensures
        rc == 0 && cols > 0 && rows > 0 ==> r == Some((cols as usize, rows as usize)),
        !(rc == 0 && cols > 0 && rows > 0) ==> r is None,
{
    if rc == 0 && cols > 0 && rows > 0 {
        Some((cols as usize, rows as usize))
    } else {
        None
    }
}

/// The size to work with: `known`, or 80 columns by 24 rows where it is not known.
pub fn size_or_default(known: Option<(usize, usize)>) -> (r: (usize, usize))
    ensures
        known matches Some(s) ==> r == s,
        known is None ==> r == (DEFAULT_COLUMNS as usize, DEFAULT_ROWS as usize),
{
    match known {
        Some(s) => s,
        None => (DEFAULT_COLUMNS as usize, DEFAULT_ROWS as usize),
    }
}

/// The width to work with. `rc` is what the query returned, 0 where it succeeded; 80
/// columns where it failed or told no width.
pub fn width(rc: i32, cols: u16) -> (r: u16)
    ensures
        r == (if rc == 0 && cols > 0 {
            cols
        } else {
            DEFAULT_COLUMNS
        }),
        r > 0,
{
    if rc == 0 && cols > 0 {
        cols
    } else {
        DEFAULT_COLUMNS
    }
}

/// The size that is assumed of a terminal that does not tell.
pub proof fn law_default_size()
    ensures
        DEFAULT_COLUMNS == 80,
        DEFAULT_ROWS == 24,
{
}

} // verus!
