//! Wide-character strings: the buffers that libedit's wide interface reads and
//! writes.
//!
//! A wide string is an array of [`WChar`] units that ends in a NUL (`0`) unit.
//! Each unit holds one Unicode scalar value, so one `char` is always one unit.
//!
//! * [`WCString`] is an owned buffer. While it is being assembled it may lack its
//!   terminator; [`WCString::terminate`] adds it.
//! * [`WCStr`] is a borrowed view of a buffer that ends in a NUL.

use vstd::prelude::*;
use vstd::std_specs::cmp::{PartialEqSpec, PartialEqSpecImpl};
use vstd::std_specs::convert::TryFromSpecImpl;

use crate::decimal::{decimal, push_u64};
use crate::ext::{debug_escape, escape_debug};
use crate::text::{chars_of, string_of};

verus! {

/// One unit of a wide string: the platform's `wchar_t`.
pub type WChar = libc::wchar_t;

// ---------------------------------------------------------------------------
// Model
// ---------------------------------------------------------------------------

/// The character that a wide unit denotes: the scalar value it holds, or the
/// replacement character where it holds none.
pub open spec fn unit_char(unit: WChar) -> char {
    if 0 <= unit <= 0xD7FF || 0xE000 <= unit <= 0x10FFFF {
        unit as char
    } else {
        '\u{FFFD}'
    }
}

/// The wide unit of a character: its scalar value.
pub open spec fn char_unit(c: char) -> WChar {
    c as WChar
}

/// `unit` is that of a character.
pub open spec fn is_character(unit: WChar) -> bool {
    exists|c: char| unit == #[trigger] char_unit(c)
}

/// The wide units of a text, one per character.
pub open spec fn units_of(text: Seq<char>) -> Seq<WChar> {
    Seq::new(text.len(), |i: int| char_unit(text[i]))
}

/// The text that wide units denote, one character per unit.
pub open spec fn text_of(units: Seq<WChar>) -> Seq<char> {
    Seq::new(units.len(), |i: int| unit_char(units[i]))
}

/// The buffer ends in a NUL unit.
pub open spec fn terminated(units: Seq<WChar>) -> bool {
    units.len() > 0 && units.last() == 0
}

/// `units` with a NUL at the end: the one they end in, or one more.
pub open spec fn with_nul(units: Seq<WChar>) -> Seq<WChar> {
    if terminated(units) {
        units
    } else {
        units.push(0)
    }
}

/// The number of units before the first NUL, or all of them where there is none.
pub open spec fn wcslen(units: Seq<WChar>) -> nat
    decreases units.len(),
{
    if units.len() == 0 || units[0] == 0 {
        0
    } else {
        1 + wcslen(units.skip(1))
    }
}

/// The units before the first NUL: the string that the buffer stands for.
pub open spec fn content(units: Seq<WChar>) -> Seq<WChar> {
    units.take(wcslen(units) as int)
}

/// A unit that trimming removes: a space or a newline.
pub open spec fn blank(unit: WChar) -> bool {
    unit == char_unit(' ') || unit == char_unit('\n')
}

/// `units` without the blanks at its end.
pub open spec fn trim_blank_end(units: Seq<WChar>) -> Seq<WChar>
    decreases units.len(),
{
    if units.len() > 0 && blank(units.last()) {
        trim_blank_end(units.drop_last())
    } else {
        units
    }
}

/// `units` without the blanks and NULs at its end.
pub open spec fn trim_blank_nul_end(units: Seq<WChar>) -> Seq<WChar>
    decreases units.len(),
{
    if units.len() > 0 && (blank(units.last()) || units.last() == 0) {
        trim_blank_nul_end(units.drop_last())
    } else {
        units
    }
}

/// `units` without the blanks at its start.
pub open spec fn trim_blank_start(units: Seq<WChar>) -> Seq<WChar>
    decreases units.len(),
{
    if units.len() > 0 && blank(units[0]) {
        trim_blank_start(units.skip(1))
    } else {
        units
    }
}

/// What trimming the end of a terminated buffer in place leaves: the same number
/// of units, with every blank that ends the text replaced by NUL.
pub open spec fn blanked_end(units: Seq<WChar>) -> Seq<WChar> {
    let kept = trim_blank_end(units.drop_last());
    Seq::new(units.len(), |i: int| if i < kept.len() { units[i] } else { 0 })
}

/// `at` is the position of the first NUL character of a text.
pub open spec fn first_nul_at(text: Seq<char>, at: int) -> bool {
    &&& 0 <= at < text.len()
    &&& text[at] == '\0'
    &&& forall|i: int| 0 <= i < at ==> text[i] != '\0'
}

// ---------------------------------------------------------------------------
// Conversions of one unit
// ---------------------------------------------------------------------------

/// The character that unit `c` denotes; U+FFFD where it is no scalar value.
pub fn char_from_c(c: WChar) -> (r: char)
    ensures
        r == unit_char(c),
{
    assert(c < 0 ==> (c as u32) >= 0x8000_0000) by (bit_vector);
    assert(c >= 0 ==> (c as u32) == c) by (bit_vector);
    match char::from_u32(c as u32) {
        Some(ch) => ch,
        None => '\u{FFFD}',
    }
}

/// The wide unit of `c`.
pub fn char_to_c(c: char) -> (r: WChar)
    ensures
        r == char_unit(c),
{
    c as WChar
}

// ---------------------------------------------------------------------------
// Interior NUL
// ---------------------------------------------------------------------------

/// A text could not become a wide string because it holds a NUL character.
#[derive(Debug, Clone, Copy, PartialEq, Eq, Structural)]
pub struct WNulError {
    /// The index, in characters, of the first NUL.
    pub index: usize,
}

impl WNulError {
    /// The position of the first NUL, counted in characters.
    pub fn nul_position(&self) -> (r: usize)
        ensures
            r == self.index,
    {
        self.index
    }

    /// What the error says, in words.
    pub fn message(&self) -> (r: String)
        ensures
            r@ == "interior NUL scalar found in wide string at position "@ + decimal(
                self.index as int,
            ),
    {
        let mut out: String = String::new();
        out.append("interior NUL scalar found in wide string at position ");
        push_u64(&mut out, self.index as u64);
        assert(out@ =~= "interior NUL scalar found in wide string at position "@ + decimal(
            self.index as int,
        ));
        out
    }
}

// ---------------------------------------------------------------------------
// Owned buffers
// ---------------------------------------------------------------------------

/// An owned wide-character buffer.
///
/// The checked constructors give a buffer that ends in a NUL and holds no other.
/// The builder functions ([`new`](Self::new), [`push`](Self::push), ...) may leave
/// it without a terminator; [`terminate`](Self::terminate) adds one. The view is
/// the whole buffer, terminator and all.
#[derive(Debug, Eq, Hash)]
pub struct WCString {
    inner: Vec<WChar>,
}

impl View for WCString {
    type V = Seq<WChar>;

    closed spec fn view(&self) -> Seq<WChar> {
        self.inner@
    }
}

impl Clone for WCString {
    fn clone(&self) -> (r: Self)
        ensures
            r@ == self@,
    {
        WCString { inner: vstd::slice::slice_to_vec(self.inner.as_slice()) }
    }
}

impl PartialEq for WCString {
    fn eq(&self, other: &Self) -> (r: bool) {
        units_equal(self.inner.as_slice(), other.inner.as_slice())
    }
}

impl PartialEqSpecImpl for WCString {
    open spec fn obeys_eq_spec() -> bool {
        true
    }

    open spec fn eq_spec(&self, other: &Self) -> bool {
        self@ == other@
    }
}

impl TryFrom<&str> for WCString {
    type Error = WNulError;

    fn try_from(s: &str) -> (r: Result<Self, WNulError>)
        ensures
            match r {
                Ok(w) => w@ == units_of(s@).push(0) && !s@.contains('\0'),
                Err(e) => first_nul_at(s@, e.index as int),
            },
    {
        Self::from_str(s)
    }
}

impl TryFromSpecImpl<&str> for WCString {
    open spec fn obeys_try_from_spec() -> bool {
        false
    }

    open spec fn try_from_spec(s: &str) -> Result<Self, WNulError> {
        arbitrary()
    }
}

impl TryFrom<String> for WCString {
    type Error = WNulError;

    fn try_from(s: String) -> (r: Result<Self, WNulError>)
        ensures
            match r {
                Ok(w) => w@ == units_of(s@).push(0) && !s@.contains('\0'),
                Err(e) => first_nul_at(s@, e.index as int),
            },
    {
        Self::from_str(s.as_str())
    }
}

impl TryFromSpecImpl<String> for WCString {
    open spec fn obeys_try_from_spec() -> bool {
        false
    }

    open spec fn try_from_spec(s: String) -> Result<Self, WNulError> {
        arbitrary()
    }
}

impl TryFrom<&[char]> for WCString {
    type Error = WNulError;

    fn try_from(chars: &[char]) -> (r: Result<Self, WNulError>)
        ensures
            match r {
                Ok(w) => w@ == units_of(chars@).push(0) && !chars@.contains('\0'),
                Err(e) => first_nul_at(chars@, e.index as int),
            },
    {
        Self::from_chars(chars)
    }
}

impl TryFromSpecImpl<&[char]> for WCString {
    open spec fn obeys_try_from_spec() -> bool {
        false
    }

    open spec fn try_from_spec(chars: &[char]) -> Result<Self, WNulError> {
        arbitrary()
    }
}

impl Default for WCString {
    fn default() -> (r: Self)
        ensures
            r@ == Seq::<WChar>::empty(),
    {
        WCString { inner: Vec::new() }
    }
}

impl WCString {
    /// An empty buffer, without a terminator.
    pub fn new() -> (r: Self)
        ensures
            r@ == Seq::<WChar>::empty(),
    {
        WCString { inner: Vec::new() }
    }

    /// An empty buffer, without a terminator, with room for `capacity` units.
    pub fn with_capacity(capacity: usize) -> (r: Self)
        requires
            capacity * 4 <= isize::MAX,
        ensures
            r@ == Seq::<WChar>::empty(),
    {
        WCString { inner: Vec::with_capacity(capacity) }
    }

    /// The units of `scalars` followed by a terminator, or the position of the
    /// first NUL among them.
    pub fn from_scalars(scalars: &[WChar]) -> (r: Result<Self, WNulError>)
        ensures
            match r {
                Ok(s) => s@ == scalars@.push(0) && !scalars@.contains(0),
                Err(e) => {
                    &&& e.index < scalars@.len()
                    &&& scalars@[e.index as int] == 0
                    &&& forall|i: int| 0 <= i < e.index ==> scalars@[i] != 0
                },
            },
    {
        let mut inner: Vec<WChar> = Vec::new();
        let mut index: usize = 0;
        while index < scalars.len()
            invariant
                index <= scalars@.len(),
                inner@ =~= scalars@.take(index as int),
                forall|i: int| 0 <= i < index ==> scalars@[i] != 0,
            decreases scalars@.len() - index,
        {
            let scalar: WChar = scalars[index];
            if scalar == 0 {
                return Err(WNulError { index });
            }
            inner.push(scalar);
            index = index + 1;
        }
        inner.push(0);
        Ok(WCString { inner })
    }

    /// Appends one character. A NUL is appended like any other.
    pub fn push(&mut self, c: char)
        ensures
            final(self)@ == old(self)@.push(char_unit(c)),
    {
        self.inner.push(char_to_c(c));
    }

    /// Appends one unit as it stands.
    pub fn push_scalar(&mut self, unit: WChar)
        ensures
            final(self)@ == old(self)@.push(unit),
    {
        self.inner.push(unit);
    }

    /// Appends each of `chars`.
    pub fn push_chars(&mut self, chars: &[char])
        ensures
            final(self)@ == old(self)@ + units_of(chars@),
    {
        let mut i: usize = 0;
        while i < chars.len()
            invariant
                i <= chars@.len(),
                self@ =~= old(self)@ + units_of(chars@.take(i as int)),
            decreases chars@.len() - i,
        {
            self.inner.push(char_to_c(chars[i]));
            i = i + 1;
        }
        assert(chars@.take(i as int) =~= chars@);
    }

    /// Appends each character of `s`.
    pub fn push_str(&mut self, s: &str)
        ensures
            final(self)@ == old(self)@ + units_of(s@),
    {
        let chars: Vec<char> = chars_of(s);
        self.push_chars(&chars);
    }

    /// Appends each of `units` as it stands.
    pub fn push_units(&mut self, units: &[WChar])
        ensures
            final(self)@ == old(self)@ + units@,
    {
        let mut i: usize = 0;
        while i < units.len()
            invariant
                i <= units@.len(),
                self@ =~= old(self)@ + units@.take(i as int),
            decreases units@.len() - i,
        {
            self.inner.push(units[i]);
            i = i + 1;
        }
        assert(units@.take(i as int) =~= units@);
    }

    /// Appends a NUL, whatever the buffer ends in.
    pub fn push_nul(&mut self)
        ensures
            final(self)@ == old(self)@.push(0),
    {
        self.inner.push(0);
    }

    /// Appends a NUL unless the buffer ends in one.
    pub fn terminate(&mut self)
        ensures
            final(self)@ == with_nul(old(self)@),
    {
        let n: usize = self.inner.len();
        if n == 0 || self.inner[n - 1] != 0 {
            self.inner.push(0);
        }
    }

    /// The wide string of `s`: one unit per character, then the terminator. Fails
    /// with the position of the first NUL where `s` holds one.
    pub fn from_str(s: &str) -> (r: Result<Self, WNulError>)
        ensures
            match r {
                Ok(w) => w@ == units_of(s@).push(0) && !s@.contains('\0'),
                Err(e) => first_nul_at(s@, e.index as int),
            },
    {
        let chars: Vec<char> = chars_of(s);
        Self::from_chars(&chars)
    }

    /// The wide string of `chars`: one unit per character, then the terminator.
    /// Fails with the position of the first NUL where there is one.
    pub fn from_chars(chars: &[char]) -> (r: Result<Self, WNulError>)
        ensures
            match r {
                Ok(w) => w@ == units_of(chars@).push(0) && !chars@.contains('\0'),
                Err(e) => first_nul_at(chars@, e.index as int),
            },
    {
        let mut units: WCString = WCString::new();
        units.push_chars(chars);
        assert(units@ =~= units_of(chars@));
        let r = Self::from_scalars(&units.inner);
        proof {
            if r is Ok {
                assert forall|i: int| 0 <= i < chars@.len() implies chars@[i] != '\0' by {
                    assert(units@.contains(units@[i]));
                }
            } else {
                assert forall|i: int| 0 <= i < r->Err_0.index implies chars@[i] != '\0' by {
                    assert(units@[i] != 0);
                }
                lemma_unit_of_char(chars@[r->Err_0.index as int]);
            }
        }
        r
    }

    /// Borrows the buffer as a wide string.
    pub fn as_wcstr(&self) -> (r: WCStr<'_>)
        requires
            terminated(self@),
        ensures
            r@ == self@,
    {
        WCStr { inner: self.inner.as_slice() }
    }

    /// The buffer itself.
    pub fn into_units_with_nul(self) -> (r: Vec<WChar>)
        ensures
            r@ == self@,
    {
        self.inner
    }

    /// Removes every unit, the terminator too.
    pub fn clear(&mut self)
        ensures
            final(self)@ == Seq::<WChar>::empty(),
    {
        self.inner.clear();
    }

    /// The buffer holds no unit before its first NUL: with a terminator, it is empty where
    /// [`WCStr::is_empty`] says so. A buffer without any unit is empty too.
    pub fn is_empty(&self) -> (r: bool)
        ensures
            r == (content(self@).len() == 0),
    {
        proof {
            lemma_wcslen(self@);
        }
        self.inner.len() == 0 || self.inner[0] == 0
    }

    /// Makes room for `additional` more units.
    pub fn reserve(&mut self, additional: usize)
        requires
            (old(self)@.len() + additional) * 4 <= isize::MAX,
        ensures
            final(self)@ == old(self)@,
    {
        self.inner.reserve(additional);
    }

    /// Copies the wide string at the start of `buffer`: its units up to the first
    /// NUL, and that NUL.
    pub fn from_wide_buf(buffer: &[WChar]) -> (r: Self)
        requires
            buffer@.contains(0),
        ensures
            r@ == content(buffer@).push(0),
    {
        WCStr::from_units(buffer).to_owned()
    }

    /// Removes the spaces, newlines and NULs at the end, then terminates.
    pub fn trim_end(&mut self)
        ensures
            final(self)@ == trim_blank_nul_end(old(self)@).push(0),
    {
        let mut n: usize = self.inner.len();
        while n > 0 && is_blank_or_nul(self.inner[n - 1])
            invariant
                n == self@.len(),
                trim_blank_nul_end(self@) == trim_blank_nul_end(old(self)@),
            decreases n,
        {
            let ghost before = self@;
            let _ = self.inner.pop();
            n = n - 1;
            assert(self@ =~= before.drop_last());
        }
        self.inner.push(0);
    }

    /// Removes the spaces and newlines at the start.
    pub fn trim_start(&mut self)
        ensures
            final(self)@ == trim_blank_start(old(self)@),
    {
        let n: usize = self.inner.len();
        let mut start: usize = 0;
        assert(self@.skip(0) =~= self@);
        while start < n && is_blank(self.inner[start])
            invariant
                start <= n == self@.len(),
                self@ == old(self)@,
                trim_blank_start(self@.skip(start as int)) == trim_blank_start(self@),
            decreases n - start,
        {
            assert(self@.skip(start as int).skip(1) =~= self@.skip(start + 1));
            start = start + 1;
        }
        if start > 0 {
            let rest: Vec<WChar> = self.inner.split_off(start);
            self.inner = rest;
            assert(self@ =~= old(self)@.skip(start as int));
        }
    }

    /// Removes the spaces and newlines at both ends.
    pub fn trim(&mut self)
        ensures
            final(self)@ == trim_blank_start(trim_blank_nul_end(old(self)@).push(0)),
    {
        self.trim_end();
        self.trim_start();
    }

    /// The number of units before the first NUL.
    pub fn len(&self) -> (r: usize)
        requires
            terminated(self@),
        ensures
            r == wcslen(self@),
    {
        self.as_wcstr().len()
    }

    /// The units without the terminator.
    pub fn units(&self) -> (r: &[WChar])
        requires
            terminated(self@),
        ensures
            r@ == self@.drop_last(),
    {
        self.as_wcstr().units()
    }

    /// The units, terminator and all.
    pub fn units_with_nul(&self) -> (r: &[WChar])
        ensures
            r@ == self@,
    {
        self.inner.as_slice()
    }

    /// The text before the first NUL, U+FFFD standing for each unit that is no
    /// scalar value.
    pub fn to_string_lossy(&self) -> (r: String)
        requires
            terminated(self@),
        ensures
            r@ == text_of(content(self@)),
    {
        self.as_wcstr().to_string_lossy()
    }
}

/// `unit` is a space or a newline.
fn is_blank(unit: WChar) -> (r: bool)
    ensures
        r == blank(unit),
{
    unit == char_to_c(' ') || unit == char_to_c('\n')
}

/// `unit` is a space, a newline or NUL.
fn is_blank_or_nul(unit: WChar) -> (r: bool)
    ensures
        r == (blank(unit) || unit == 0),
{
    is_blank(unit) || unit == 0
}

// ---------------------------------------------------------------------------
// Borrowed strings
// ---------------------------------------------------------------------------

/// A borrowed wide string: units that end in a NUL. The view is all of them.
#[derive(Debug, Clone, Copy, Eq)]
pub struct WCStr<'a> {
    inner: &'a [WChar],
}

impl<'a> View for WCStr<'a> {
    type V = Seq<WChar>;

    closed spec fn view(&self) -> Seq<WChar> {
        self.inner@
    }
}

impl<'a> WCStr<'a> {
    /// The last unit is NUL.
    #[verifier::type_invariant]
    pub closed spec fn ends_in_nul(self) -> bool {
        terminated(self.inner@)
    }

    /// Borrows the wide string at the start of `buffer`: its units up to the first
    /// NUL, and that NUL.
    pub fn from_units(buffer: &'a [WChar]) -> (r: WCStr<'a>)
        requires
            buffer@.contains(0),
        ensures
            r@ == content(buffer@).push(0),
    {
        let n: usize = scan_len(buffer);
        proof {
            lemma_wcslen(buffer@);
            assert(n < buffer.len());
        }
        let units: &'a [WChar] = vstd::slice::slice_subrange(buffer, 0, n + 1);
        assert(units@ =~= content(buffer@).push(0));
        WCStr { inner: units }
    }

    /// Replaces the spaces and newlines that end the text in `buffer` by NUL. The
    /// buffer keeps its length.
    pub fn trim_end(buffer: &mut Vec<WChar>)
        requires
            terminated(old(buffer)@),
        ensures
            final(buffer)@ == blanked_end(old(buffer)@),
    {
        let len: usize = buffer.len();
        let ghost body = buffer@.drop_last();
        let mut end: usize = len - 1;
        assert(body.take(end as int) =~= body);
        while end > 0 && is_blank(buffer[end - 1])
            invariant
                0 <= end < len == buffer@.len() == old(buffer)@.len(),
                terminated(old(buffer)@),
                body == old(buffer)@.drop_last(),
                trim_blank_end(body.take(end as int)) == trim_blank_end(body),
                forall|i: int| 0 <= i < end ==> buffer@[i] == old(buffer)@[i],
                forall|i: int| end <= i < len ==> buffer@[i] == 0,
            decreases end,
        {
            assert(body.take(end as int).drop_last() =~= body.take(end - 1));
            assert(body.take(end as int).last() == buffer@[end - 1]);
            end = end - 1;
            buffer.set(end, 0);
        }
        assert(end > 0 ==> body.take(end as int).last() == buffer@[end - 1]);
        assert(trim_blank_end(body) == body.take(end as int));
        assert(buffer@ =~= blanked_end(old(buffer)@));
    }

    /// The string without the spaces and newlines at its start.
    pub fn trim_start(&self) -> (r: WCStr<'a>)
        ensures
            r@ == trim_blank_start(self@),
    {
        proof {
            use_type_invariant(self);
        }
        let n: usize = self.inner.len() - 1;
        let mut start: usize = 0;
        assert(self@.skip(0) =~= self@);
        while start < n && is_blank(self.inner[start])
            invariant
                start <= n,
                n + 1 == self@.len(),
                self@.last() == 0,
                self@ == self.inner@,
                trim_blank_start(self@.skip(start as int)) == trim_blank_start(self@),
            decreases n - start,
        {
            assert(self@.skip(start as int).skip(1) =~= self@.skip(start + 1));
            start = start + 1;
        }
        let rest: &'a [WChar] = vstd::slice::slice_subrange(self.inner, start, self.inner.len());
        assert(rest@ =~= self@.skip(start as int));
        WCStr { inner: rest }
    }

    /// Trims the end of the text in `buffer` in place, then borrows it without the
    /// spaces and newlines at its start.
    pub fn trim(buffer: &mut Vec<WChar>) -> (r: WCStr<'_>)
        requires
            terminated(old(buffer)@),
        ensures
            final(buffer)@ == blanked_end(old(buffer)@),
            r@ == trim_blank_start(blanked_end(old(buffer)@)),
    {
        Self::trim_end(buffer);
        let whole = WCStr { inner: buffer.as_slice() };
        whole.trim_start()
    }

    /// The units without the terminator.
    pub fn units(&self) -> (r: &'a [WChar])
        ensures
            r@ == self@.drop_last(),
    {
        proof {
            use_type_invariant(self);
        }
        vstd::slice::slice_subrange(self.inner, 0, self.inner.len() - 1)
    }

    /// The units, terminator and all.
    pub fn units_with_nul(&self) -> (r: &'a [WChar])
        ensures
            r@ == self@,
            terminated(r@),
    {
        proof {
            use_type_invariant(self);
        }
        self.inner
    }

    /// The number of units before the first NUL.
    pub fn len(&self) -> (r: usize)
        ensures
            r == wcslen(self@),
            r < self@.len(),
    {
        proof {
            use_type_invariant(self);
            assert(self@.contains(self@.last()));
            lemma_wcslen(self@);
        }
        scan_len(self.inner)
    }

    /// The text before the first NUL is empty.
    pub fn is_empty(&self) -> (r: bool)
        ensures
            r == (content(self@).len() == 0),
    {
        self.len() == 0
    }

    /// The characters of the units without the terminator.
    pub fn chars(&self) -> (r: Vec<char>)
        ensures
            r@ == text_of(self@.drop_last()),
    {
        decode_units(self.units())
    }

    /// The text before the first NUL, U+FFFD standing for each unit that is no
    /// scalar value.
    pub fn to_string_lossy(&self) -> (r: String)
        ensures
            r@ == text_of(content(self@)),
    {
        let n: usize = self.len();
        let chars: Vec<char> = decode_units(vstd::slice::slice_subrange(self.inner, 0, n));
        string_of(&chars)
    }

    /// The text of all units but the terminator.
    pub fn to_display_string(&self) -> (r: String)
        ensures
            r@ == text_of(self@.drop_last()),
    {
        let chars: Vec<char> = self.chars();
        string_of(&chars)
    }

    /// An owned copy, terminator and all.
    pub fn to_owned(&self) -> (r: WCString)
        ensures
            r@ == self@,
    {
        WCString { inner: vstd::slice::slice_to_vec(self.inner) }
    }

    /// The text of all units but the terminator, in double quotes and with what cannot
    /// be shown escaped.
    pub fn to_debug_string(&self) -> (r: String)
        ensures
            r@ == seq!['"'] + escaped_text(text_of(self@.drop_last())) + seq!['"'],
    {
        let chars: Vec<char> = self.chars();
        let mut out: String = String::new();
        out.push('"');
        let mut i: usize = 0;
        assert(out@ =~= seq!['"'] + escaped_text(chars@.take(0)));
        while i < chars.len()
            invariant
                i <= chars@.len(),
                out@ == seq!['"'] + escaped_text(chars@.take(i as int)),
            decreases chars@.len() - i,
        {
            let escaped: String = escape_debug(chars[i]);
            out.append(escaped.as_str());
            proof {
                assert(chars@.take(i + 1).drop_last() =~= chars@.take(i as int));
                assert(out@ =~= seq!['"'] + escaped_text(chars@.take(i + 1)));
            }
            i = i + 1;
        }
        assert(chars@.take(i as int) =~= chars@);
        out.push('"');
        assert(out@ =~= seq!['"'] + escaped_text(chars@) + seq!['"']);
        out
    }
}

impl<'a> PartialEq for WCStr<'a> {
    fn eq(&self, other: &Self) -> (r: bool) {
        units_equal(self.inner, other.inner)
    }
}

impl<'a> PartialEqSpecImpl for WCStr<'a> {
    open spec fn obeys_eq_spec() -> bool {
        true
    }

    open spec fn eq_spec(&self, other: &Self) -> bool {
        self@ == other@
    }
}

/// `text` with each character escaped as it is for debugging.
pub open spec fn escaped_text(text: Seq<char>) -> Seq<char>
    decreases text.len(),
{
    if text.len() == 0 {
        Seq::empty()
    } else {
        escaped_text(text.drop_last()) + debug_escape(text.last())
    }
}

/// The characters that `units` denote.
pub fn decode_units(units: &[WChar]) -> (r: Vec<char>)
    ensures
        r@ == text_of(units@),
{
    let mut out: Vec<char> = Vec::new();
    let mut i: usize = 0;
    while i < units.len()
        invariant
            i <= units@.len(),
            out@ =~= text_of(units@.take(i as int)),
        decreases units@.len() - i,
    {
        out.push(char_from_c(units[i]));
        i = i + 1;
    }
    assert(units@.take(i as int) =~= units@);
    out
}

/// The two slices hold the same units.
pub fn units_equal(a: &[WChar], b: &[WChar]) -> (r: bool)
    ensures
        r == (a@ == b@),
{
    if a.len() != b.len() {
        return false;
    }
    let mut i: usize = 0;
    while i < a.len()
        invariant
            i <= a@.len() == b@.len(),
            forall|j: int| 0 <= j < i ==> a@[j] == b@[j],
        decreases a@.len() - i,
    {
        if a[i] != b[i] {
            return false;
        }
        i = i + 1;
    }
    assert(a@ =~= b@);
    true
}

/// The number of units before the first NUL of `buffer`, or all of them where it
/// holds none.
fn scan_len(buffer: &[WChar]) -> (r: usize)
    ensures
        r == wcslen(buffer@),
{
    let mut n: usize = 0;
    assert(buffer@.skip(0) =~= buffer@);
    while n < buffer.len() && buffer[n] != 0
        invariant
            n <= buffer@.len(),
            n + wcslen(buffer@.skip(n as int)) == wcslen(buffer@),
        decreases buffer@.len() - n,
    {
        assert(buffer@.skip(n as int).skip(1) =~= buffer@.skip(n + 1));
        n = n + 1;
    }
    n
}

// ---------------------------------------------------------------------------
// Facts about the model
// ---------------------------------------------------------------------------

/// The unit of a character is its scalar value, and denotes that character.
pub proof fn lemma_unit_of_char(c: char)
    ensures
        char_unit(c) == c as int,
        unit_char(char_unit(c)) == c,
{
}

/// Where the first NUL of a buffer stands.
pub proof fn lemma_wcslen(units: Seq<WChar>)
    ensures
        wcslen(units) <= units.len(),
        forall|i: int| 0 <= i < wcslen(units) ==> units[i] != 0,
        wcslen(units) < units.len() ==> units[wcslen(units) as int] == 0,
        units.contains(0) ==> wcslen(units) < units.len(),
    decreases units.len(),
{
    if units.len() > 0 && units[0] != 0 {
        let rest = units.skip(1);
        lemma_wcslen(rest);
        assert forall|i: int| 0 <= i < wcslen(units) implies units[i] != 0 by {
            if i > 0 {
                assert(rest[i - 1] == units[i]);
            }
        }
        if units.contains(0) {
            let k = units.index_of(0);
            assert(rest[k - 1] == 0);
            assert(rest.contains(0));
        }
    }
}

/// The end of a text without its blanks: a start of the text, after which all is blank,
/// and which is empty or ends in something else.
pub proof fn lemma_trim_blank_end(units: Seq<WChar>)
    ensures
        trim_blank_end(units).is_prefix_of(units),
        forall|i: int|
            trim_blank_end(units).len() <= i < units.len() ==> blank(#[trigger] units[i]),
        trim_blank_end(units).len() > 0 ==> !blank(trim_blank_end(units).last()),
    decreases units.len(),
{
    if units.len() > 0 && blank(units.last()) {
        lemma_trim_blank_end(units.drop_last());
        assert forall|i: int| trim_blank_end(units).len() <= i < units.len() implies blank(
            #[trigger] units[i],
        ) by {
            if i < units.len() - 1 {
                assert(blank(units.drop_last()[i]));
            }
        }
    }
}

/// Where a buffer holds its only NUL at the end, trimming it in place leaves the trimmed
/// text before its first NUL.
pub proof fn lemma_trimmed_content(units: Seq<WChar>)
    requires
        terminated(units),
        !units.drop_last().contains(0),
    ensures
        content(blanked_end(units)) == trim_blank_end(units.drop_last()),
        blanked_end(units).contains(0),
{
    let body = units.drop_last();
    let kept = trim_blank_end(body);
    let after = blanked_end(units);
    lemma_trim_blank_end(body);
    assert(after.last() == 0);
    lemma_wcslen(after);
    assert(after[kept.len() as int] == 0);
    assert forall|i: int| 0 <= i < kept.len() implies after[i] != 0 by {
        assert(after[i] == body[i]);
        assert(body.contains(body[i]));
    }
    assert(wcslen(after) == kept.len());
    assert(content(after) =~= kept);
}

/// The content of a buffer, with a NUL after it, has the same content.
pub proof fn lemma_content_with_nul(units: Seq<WChar>)
    ensures
        content(content(units).push(0)) == content(units),
{
    let body = content(units);
    lemma_wcslen(units);
    lemma_wcslen(body.push(0));
    assert(body.push(0).last() == 0);
    assert(body.push(0).contains(0));
    let n = wcslen(body.push(0)) as int;
    if n < body.len() {
        assert(body.push(0)[n] == units[n]);
    }
    assert(content(body.push(0)) =~= body);
}

// ---------------------------------------------------------------------------
// Laws
// ---------------------------------------------------------------------------

/// A text survives the conversion to a wide string and back: it has one unit per
/// character, its units denote it, and without a NUL it is all that stands before the
/// terminator.
pub proof fn law_text_round_trips(text: Seq<char>)
    ensures
        units_of(text).len() == text.len(),
        text_of(units_of(text)) == text,
        !text.contains('\0') ==> content(units_of(text).push(0)) == units_of(text),
{
    assert forall|i: int| 0 <= i < text.len() implies text_of(units_of(text))[i] == text[i] by {
        lemma_unit_of_char(text[i]);
    }
    assert(text_of(units_of(text)) =~= text);
    if !text.contains('\0') {
        lemma_no_nul_units(text);
        lemma_content_of(units_of(text));
    }
}

/// Units that are scalar values survive the conversion to a text and back.
pub proof fn law_units_round_trip(units: Seq<WChar>)
    requires
        forall|i: int|
            0 <= i < units.len() ==> 0 <= #[trigger] units[i] <= 0xD7FF || 0xE000 <= units[i]
                <= 0x10FFFF,
    ensures
        units_of(text_of(units)) == units,
{
    assert forall|i: int| 0 <= i < units.len() implies units_of(text_of(units))[i]
        == units[i] by {
        lemma_unit_of_char(unit_char(units[i]));
    }
    assert(units_of(text_of(units)) =~= units);
}

/// Terminating a buffer twice is terminating it once.
pub proof fn law_terminate_is_idempotent(units: Seq<WChar>)
    ensures
        terminated(with_nul(units)),
        with_nul(with_nul(units)) == with_nul(units),
{
}

/// Trimming the end of a wide string in place and trimming that of an owned one leave
/// the same text: the string without the blanks at its end.
pub proof fn law_trims_agree(body: Seq<WChar>)
    requires
        !body.contains(0),
    ensures
        content(blanked_end(body.push(0))) == trim_blank_end(body),
        trim_blank_nul_end(body.push(0)) == trim_blank_end(body),
{
    assert(body.push(0).drop_last() =~= body);
    lemma_trimmed_content(body.push(0));
    lemma_trim_without_nul(body);
}

/// What trimming leaves at each end: nothing blank.
pub proof fn law_trimmed_ends(units: Seq<WChar>)
    ensures
        trim_blank_end(units).len() > 0 ==> !blank(trim_blank_end(units).last()),
        trim_blank_start(units).len() > 0 ==> !blank(trim_blank_start(units)[0]),
        trim_blank_end(trim_blank_end(units)) == trim_blank_end(units),
        trim_blank_start(trim_blank_start(units)) == trim_blank_start(units),
    decreases units.len(),
{
    lemma_trim_blank_end(units);
    if units.len() > 0 && blank(units[0]) {
        law_trimmed_ends(units.skip(1));
    }
}

/// The units of a text without a NUL hold none.
proof fn lemma_no_nul_units(text: Seq<char>)
    requires
        !text.contains('\0'),
    ensures
        !units_of(text).contains(0),
{
    assert forall|i: int| 0 <= i < text.len() implies units_of(text)[i] != 0 by {
        lemma_unit_of_char(text[i]);
        assert(text.contains(text[i]));
    }
}

/// Units without a NUL are the content of the string that they begin.
proof fn lemma_content_of(body: Seq<WChar>)
    requires
        !body.contains(0),
    ensures
        content(body.push(0)) == body,
{
    let units = body.push(0);
    lemma_wcslen(units);
    assert(units.last() == 0);
    assert(units.contains(0));
    let n = wcslen(units) as int;
    if n < body.len() {
        assert(body.contains(body[n]));
    }
    assert(content(units) =~= body);
}

/// Trimming blanks and NULs is trimming blanks where there is no NUL.
proof fn lemma_trim_without_nul(body: Seq<WChar>)
    requires
        !body.contains(0),
    ensures
        trim_blank_nul_end(body) == trim_blank_end(body),
        trim_blank_nul_end(body.push(0)) == trim_blank_end(body),
    decreases body.len(),
{
    assert(body.push(0).drop_last() =~= body);
    if body.len() > 0 {
        assert(body.contains(body.last()));
        if blank(body.last()) {
            assert forall|i: int| 0 <= i < body.len() - 1 implies body.drop_last()[i] != 0 by {
                assert(body.contains(body[i]));
            }
            lemma_trim_without_nul(body.drop_last());
        }
    }
}

/// The unit of a character is its scalar value. A unit denotes the character with its value,
/// and U+FFFD where there is no such character.
pub proof fn law_units_are_scalar_values(c: char, unit: WChar)
    ensures
        char_unit(c) as int == c as int,
        0 <= unit <= 0xD7FF || 0xE000 <= unit <= 0x10FFFF ==> unit_char(unit) as int
            == unit as int,
        unit < 0 || 0xD800 <= unit <= 0xDFFF || unit > 0x10FFFF ==> unit_char(unit) as int
            == 0xFFFD,
{
}

/// A text and its units have the same length, and agree in every place.
pub proof fn law_one_unit_per_character(text: Seq<char>, units: Seq<WChar>)
    ensures
        units_of(text).len() == text.len(),
        forall|i: int|
            0 <= i < text.len() ==> (#[trigger] units_of(text)[i]) as int == text[i] as int,
        text_of(units).len() == units.len(),
        forall|i: int|
            0 <= i < units.len() && (0 <= units[i] <= 0xD7FF || 0xE000 <= units[i] <= 0x10FFFF)
                ==> (#[trigger] text_of(units)[i]) as int == units[i] as int,
        forall|i: int|
            0 <= i < units.len() && (units[i] < 0 || 0xD800 <= units[i] <= 0xDFFF || units[i]
                > 0x10FFFF) ==> (#[trigger] text_of(units)[i]) as int == 0xFFFD,
{
    assert forall|i: int| 0 <= i < text.len() implies (#[trigger] units_of(text)[i]) as int
        == text[i] as int by {
        lemma_unit_of_char(text[i]);
    }
}

/// A NUL is added at the end where there is none, and only there.
pub proof fn law_with_nul(units: Seq<WChar>)
    ensures
        terminated(units) <==> units.len() > 0 && units[units.len() - 1] == 0,
        units.len() == 0 || units[units.len() - 1] != 0 ==> with_nul(units) == units.push(0),
        units.len() > 0 && units[units.len() - 1] == 0 ==> with_nul(units) == units,
{
}

/// The string of a buffer is what stands before its first NUL, or all of it.
pub proof fn law_content(body: Seq<WChar>, rest: Seq<WChar>)
    requires
        forall|i: int| 0 <= i < body.len() ==> body[i] != 0,
    ensures
        content(body.push(0) + rest) == body,
        wcslen(body.push(0) + rest) == body.len(),
        content(body) == body,
        wcslen(body) == body.len(),
{
    let units = body.push(0) + rest;
    lemma_wcslen(units);
    assert(units[body.len() as int] == 0);
    let n = wcslen(units) as int;
    if n < body.len() {
        assert(units[n] == body[n]);
    }
    if n > body.len() {
        assert(units[body.len() as int] != 0);
    }
    assert(content(units) =~= body);
    lemma_wcslen(body);
    assert(content(body) =~= body);
}

/// Trimming the end takes away the spaces and newlines there, and nothing else; in place, NULs
/// take their places.
pub proof fn law_trimmed_end(body: Seq<WChar>, blanks: Seq<WChar>)
    requires
        body.len() > 0 ==> body[body.len() - 1] != 0x20 && body[body.len() - 1] != 0x0a,
        forall|i: int|
            0 <= i < blanks.len() ==> (#[trigger] blanks[i]) == 0x20 || blanks[i] == 0x0a,
    ensures
        trim_blank_end(body + blanks) == body,
        blanked_end((body + blanks).push(0)).len() == body.len() + blanks.len() + 1,
        forall|i: int|
            0 <= i < body.len() + blanks.len() + 1 ==> (#[trigger] blanked_end(
                (body + blanks).push(0),
            )[i]) == (if i < body.len() {
                body[i]
            } else {
                0
            }),
    decreases blanks.len(),
{
    let all = body + blanks;
    if blanks.len() == 0 {
        assert(all =~= body);
    } else {
        let fewer = blanks.drop_last();
        assert(all.last() == blanks.last());
        assert(all.drop_last() =~= body + fewer);
        assert forall|i: int| 0 <= i < fewer.len() implies (#[trigger] fewer[i]) == 0x20 || fewer[i]
            == 0x0a by {
            assert(fewer[i] == blanks[i]);
        }
        law_trimmed_end(body, fewer);
    }
    assert(all.push(0).drop_last() =~= all);
}

/// Trimming the end of an owned buffer takes away the NULs there too.
pub proof fn law_trimmed_end_of_a_buffer(body: Seq<WChar>, blanks: Seq<WChar>)
    requires
        body.len() > 0 ==> body[body.len() - 1] != 0x20 && body[body.len() - 1] != 0x0a
            && body[body.len() - 1] != 0,
        forall|i: int|
            0 <= i < blanks.len() ==> (#[trigger] blanks[i]) == 0x20 || blanks[i] == 0x0a
                || blanks[i] == 0,
    ensures
        trim_blank_nul_end(body + blanks) == body,
    decreases blanks.len(),
{
    let all = body + blanks;
    if blanks.len() == 0 {
        assert(all =~= body);
    } else {
        let fewer = blanks.drop_last();
        assert(all.last() == blanks.last());
        assert(all.drop_last() =~= body + fewer);
        assert forall|i: int| 0 <= i < fewer.len() implies (#[trigger] fewer[i]) == 0x20 || fewer[i]
            == 0x0a || fewer[i] == 0 by {
            assert(fewer[i] == blanks[i]);
        }
        law_trimmed_end_of_a_buffer(body, fewer);
    }
}

/// Trimming the start takes away the spaces and newlines there, and nothing else.
pub proof fn law_trimmed_start(blanks: Seq<WChar>, body: Seq<WChar>)
    requires
        body.len() > 0 ==> body[0] != 0x20 && body[0] != 0x0a,
        forall|i: int|
            0 <= i < blanks.len() ==> (#[trigger] blanks[i]) == 0x20 || blanks[i] == 0x0a,
    ensures
        trim_blank_start(blanks + body) == body,
    decreases blanks.len(),
{
    let all = blanks + body;
    if blanks.len() == 0 {
        assert(all =~= body);
    } else {
        let fewer = blanks.skip(1);
        assert(all[0] == blanks[0]);
        assert(all.skip(1) =~= fewer + body);
        assert forall|i: int| 0 <= i < fewer.len() implies (#[trigger] fewer[i]) == 0x20 || fewer[i]
            == 0x0a by {
            assert(fewer[i] == blanks[i + 1]);
        }
        law_trimmed_start(fewer, body);
    }
}

/// The place of the first NUL of a text: after all that stands before it, and nowhere in a
/// text without one.
pub proof fn law_place_of_the_first_nul(body: Seq<char>, rest: Seq<char>, at: int)
    requires
        forall|i: int| 0 <= i < body.len() ==> body[i] != '\0',
    ensures
        first_nul_at(body.push('\0') + rest, at) <==> at == body.len(),
        !first_nul_at(body, at),
{
    let text = body.push('\0') + rest;
    assert(text[body.len() as int] == '\0');
    assert forall|i: int| 0 <= i < body.len() implies text[i] != '\0' by {
        assert(text[i] == body[i]);
    }
}

/// Debugging output is made character by character.
pub proof fn law_debugging_output(text: Seq<char>, c: char)
    ensures
        escaped_text(Seq::empty()) == Seq::<char>::empty(),
        escaped_text(text.push(c)) == escaped_text(text) + debug_escape(c),
{
    assert(text.push(c).drop_last() =~= text);
}

/// Two wide strings are equal exactly where they have the same units, terminators and all.
pub proof fn law_equal_strings(a: WCString, b: WCString)
    ensures
        <WCString as PartialEqSpec>::obeys_eq_spec(),
        PartialEqSpec::eq_spec(&a, &b) <==> a@.len() == b@.len() && forall|i: int|
            0 <= i < a@.len() ==> a@[i] == b@[i],
{
    if a@.len() == b@.len() && forall|i: int| 0 <= i < a@.len() ==> a@[i] == b@[i] {
        assert(a@ =~= b@);
    }
}

/// So are two borrowed ones.
pub proof fn law_equal_borrowed_strings<'a>(a: WCStr<'a>, b: WCStr<'a>)
    ensures
        <WCStr<'a> as PartialEqSpec>::obeys_eq_spec(),
        PartialEqSpec::eq_spec(&a, &b) <==> a@.len() == b@.len() && forall|i: int|
            0 <= i < a@.len() ==> a@[i] == b@[i],
{
    if a@.len() == b@.len() && forall|i: int| 0 <= i < a@.len() ==> a@[i] == b@[i] {
        assert(a@ =~= b@);
    }
}

} // verus!
