//! Inline suggestions: dimmed text after the cursor that continues the line.
//!
//! A [`Suggester`] proposes the part of the line that has not been typed yet. The
//! suggestion is never part of the line itself; only the accept key inserts it.

use vstd::prelude::*;
use vstd::std_specs::convert::FromSpecImpl;

use crate::completion::LineContext;
use crate::text::{chars_of, string_of};

verus! {

/// `c` may stand in a suggestion, which is one line of a C string.
pub open spec fn shown_in_suggestion(c: char) -> bool {
    c != '\0' && c != '\n' && c != '\r'
}

/// The text of a suggestion made from `text`: what may be shown of it, in order.
pub open spec fn suggestion_text(text: Seq<char>) -> Seq<char> {
    text.filter(|c: char| shown_in_suggestion(c))
}

/// The proposed rest of the current line: the part that has not been typed yet.
#[derive(Debug)]
pub struct Suggestion {
    text: String,
}

impl View for Suggestion {
    type V = Seq<char>;

    closed spec fn view(&self) -> Seq<char> {
        self.text@
    }
}

impl Clone for Suggestion {
    fn clone(&self) -> (r: Self)
        ensures
            r@ == self@,
    {
        Suggestion { text: self.text.clone() }
    }
}

impl Suggestion {
    /// The suggestion that shows `text`, without its NULs and line ends.
    pub fn new<T: Into<String>>(text: T) -> (r: Self)
        ensures
            exists|s: String|
                #[trigger] call_ensures(T::into, (text,), s) && r@ == suggestion_text(s@),
    {
        let s: String = text.into();
        Self::strip(s.as_str())
    }

    /// The suggestion that shows `text`, without its NULs and line ends.
    fn strip(text: &str) -> (r: Self)
        ensures
            r@ == suggestion_text(text@),
    {
        let chars: Vec<char> = chars_of(text);
        let mut kept: Vec<char> = Vec::new();
        let mut i: usize = 0;
        proof {
            reveal(Seq::filter);
        }
        while i < chars.len()
            invariant
                i <= chars@.len(),
                kept@ == suggestion_text(chars@.take(i as int)),
            decreases chars@.len() - i,
        {
            proof {
                reveal(Seq::filter);
                assert(chars@.take(i + 1).drop_last() =~= chars@.take(i as int));
            }
            let c: char = chars[i];
            if c != '\0' && c != '\n' && c != '\r' {
                kept.push(c);
            }
            i = i + 1;
        }
        assert(chars@.take(i as int) =~= chars@);
        Suggestion { text: string_of(&kept) }
    }

    /// The text to show after the cursor.
    pub fn text(&self) -> (r: &str)
        ensures
            r@ == self@,
    {
        self.text.as_str()
    }

    /// There is nothing to show.
    pub fn is_empty(&self) -> (r: bool)
        ensures
            r == (self@.len() == 0),
    {
        self.text.as_str().is_empty()
    }
}

impl From<&str> for Suggestion {
    fn from(s: &str) -> (r: Self)
        ensures
            r@ == suggestion_text(s@),
    {
        Suggestion::new(s)
    }
}

impl FromSpecImpl<&str> for Suggestion {
    open spec fn obeys_from_spec() -> bool {
        false
    }

    open spec fn from_spec(s: &str) -> Self {
        arbitrary()
    }
}

impl From<String> for Suggestion {
    fn from(s: String) -> (r: Self)
        ensures
            r@ == suggestion_text(s@),
    {
        Suggestion::new(s)
    }
}

impl FromSpecImpl<String> for Suggestion {
    open spec fn obeys_from_spec() -> bool {
        false
    }

    open spec fn from_spec(s: String) -> Self {
        arbitrary()
    }
}

/// A source of suggestions.
pub trait Suggester {
    /// The proposed rest of the current line, or `None` for no suggestion.
    fn suggest(&mut self, ctx: &LineContext) -> Option<Suggestion>;
}

/// What a suggestion keeps and what it drops: it holds no NUL and no line end, and
/// a text without them is shown whole.
pub proof fn law_suggestion_text(text: Seq<char>)
    ensures
        forall|i: int|
            0 <= i < suggestion_text(text).len() ==> shown_in_suggestion(
                #[trigger] suggestion_text(text)[i],
            ),
        (forall|i: int| 0 <= i < text.len() ==> shown_in_suggestion(#[trigger] text[i]))
            ==> suggestion_text(text) == text,
    decreases text.len(),
{
    reveal(Seq::filter);
    if text.len() > 0 {
        law_suggestion_text(text.drop_last());
        let keep = |c: char| shown_in_suggestion(c);
        assert(keep(text.last()) == shown_in_suggestion(text.last()));
        if forall|i: int| 0 <= i < text.len() ==> shown_in_suggestion(#[trigger] text[i]) {
            assert forall|i: int| 0 <= i < text.len() - 1 implies shown_in_suggestion(
                #[trigger] text.drop_last()[i],
            ) by {
                assert(shown_in_suggestion(text[i]));
            }
            assert(text.drop_last().push(text.last()) =~= text);
        }
        let shorter = suggestion_text(text.drop_last());
        assert forall|i: int| 0 <= i < suggestion_text(text).len() implies shown_in_suggestion(
            #[trigger] suggestion_text(text)[i],
        ) by {
            if i < shorter.len() {
                assert(suggestion_text(text)[i] == shorter[i]);
            }
        }
    }
}

/// A suggestion is made character by character: NULs, newlines and carriage returns are left
/// out, and every other character is kept in its place.
pub proof fn law_what_a_suggestion_keeps(text: Seq<char>, c: char)
    ensures
        suggestion_text(Seq::empty()) == Seq::<char>::empty(),
        c == '\0' || c == '\n' || c == '\r' ==> suggestion_text(text.push(c)) == suggestion_text(
            text,
        ),
        c != '\0' && c != '\n' && c != '\r' ==> suggestion_text(text.push(c)) == suggestion_text(
            text,
        ).push(c),
{
    reveal(Seq::filter);
    assert(text.push(c).drop_last() =~= text);
}

} // verus!
