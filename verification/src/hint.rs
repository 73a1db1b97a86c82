//! Hints: a short text shown at the right edge of the line as it is typed, such as
//! the description of a command.
//!
//! A [`Hinter`] is asked for one on every key.

use vstd::prelude::*;
use vstd::std_specs::convert::FromSpecImpl;

use crate::completion::LineContext;
use crate::text::{chars_of, string_of};

verus! {

/// The text of a hint made from `text`: all of it but its NULs, for a hint is handed
/// on as a C string.
pub open spec fn hint_text(text: Seq<char>) -> Seq<char> {
    text.filter(|c: char| c != '\0')
}

/// A text to show to the right of the line.
#[derive(Debug)]
pub struct Hint {
    text: String,
}

impl View for Hint {
    type V = Seq<char>;

    closed spec fn view(&self) -> Seq<char> {
        self.text@
    }
}

impl Clone for Hint {
    fn clone(&self) -> (r: Self)
        ensures
            r@ == self@,
    {
        Hint { text: self.text.clone() }
    }
}

impl Hint {
    /// The hint that shows `text`, without its NULs.
    pub fn new<T: Into<String>>(text: T) -> (r: Self)
        ensures
            exists|s: String|
                #[trigger] call_ensures(T::into, (text,), s) && r@ == hint_text(s@),
    {
        let s: String = text.into();
        Self::strip(s.as_str())
    }

    /// The hint that shows `text`, without its NULs.
    fn strip(text: &str) -> (r: Self)
        ensures
            r@ == hint_text(text@),
    {
        let chars: Vec<char> = chars_of(text);
        let mut kept: Vec<char> = Vec::new();
        let mut i: usize = 0;
        proof {
            reveal(Seq::filter);
        }
        while i < chars.len()
            invariant
                i <= chars@.len(),
                kept@ == hint_text(chars@.take(i as int)),
            decreases chars@.len() - i,
        {
            proof {
                reveal(Seq::filter);
                assert(chars@.take(i + 1).drop_last() =~= chars@.take(i as int));
            }
            let c: char = chars[i];
            if c != '\0' {
                kept.push(c);
            }
            i = i + 1;
        }
        assert(chars@.take(i as int) =~= chars@);
        Hint { text: string_of(&kept) }
    }

    /// The text to show.
    pub fn text(&self) -> (r: &str)
        ensures
            r@ == self@,
    {
        self.text.as_str()
    }
}

impl From<&str> for Hint {
    fn from(s: &str) -> (r: Self)
        ensures
            r@ == hint_text(s@),
    {
        Hint::new(s)
    }
}

impl FromSpecImpl<&str> for Hint {
    open spec fn obeys_from_spec() -> bool {
        false
    }

    open spec fn from_spec(s: &str) -> Self {
        arbitrary()
    }
}

impl From<String> for Hint {
    fn from(s: String) -> (r: Self)
        ensures
            r@ == hint_text(s@),
    {
        Hint::new(s)
    }
}

impl FromSpecImpl<String> for Hint {
    open spec fn obeys_from_spec() -> bool {
        false
    }

    open spec fn from_spec(s: String) -> Self {
        arbitrary()
    }
}

/// A source of hints.
pub trait Hinter {
    /// The hint for the current line, or `None` for no hint.
    fn hint(&mut self, ctx: &LineContext) -> Option<Hint>;
}

/// A hint holds no NUL, and a text without NULs is shown whole.
pub proof fn law_hint_text(text: Seq<char>)
    ensures
        !hint_text(text).contains('\0'),
        !text.contains('\0') ==> hint_text(text) == text,
    decreases text.len(),
{
    reveal(Seq::filter);
    if text.len() > 0 {
        let shorter = text.drop_last();
        law_hint_text(shorter);
        if !text.contains('\0') {
            assert(text[text.len() - 1] != '\0');
            assert forall|i: int| 0 <= i < shorter.len() implies shorter[i] != '\0' by {
                assert(text[i] != '\0');
            }
            assert(shorter.push(text.last()) =~= text);
        }
        assert forall|i: int| 0 <= i < hint_text(text).len() implies hint_text(text)[i] != '\0' by {
            if i < hint_text(shorter).len() {
                assert(hint_text(text)[i] == hint_text(shorter)[i]);
            }
        }
    }
}

/// A hint is made character by character: NULs are left out, and every other character is
/// kept in its place.
pub proof fn law_what_a_hint_keeps(text: Seq<char>, c: char)
    ensures
        hint_text(Seq::empty()) == Seq::<char>::empty(),
        hint_text(text.push('\0')) == hint_text(text),
        c != '\0' ==> hint_text(text.push(c)) == hint_text(text).push(c),
{
    reveal(Seq::filter);
    assert(text.push(c).drop_last() =~= text);
    assert(text.push('\0').drop_last() =~= text);
}

} // verus!
