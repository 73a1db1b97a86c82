//! Strings taken apart into characters and put together again.

use vstd::prelude::*;

verus! {

/// The start of `text` before its first NUL.
pub open spec fn before_nul(text: Seq<char>) -> Seq<char>
    decreases text.len(),
{
    if text.len() == 0 || text[0] == '\0' {
        Seq::empty()
    } else {
        seq![text[0]] + before_nul(text.skip(1))
    }
}

/// The characters of `s`, in order.
pub fn chars_of(s: &str) -> (r: Vec<char>)
    ensures
        r@ == s@,
{
    let mut out: Vec<char> = Vec::new();
    for c in it: s.chars()
        invariant
            it.seq() == s@,
            out@ =~= s@.take(it.index() as int),
    {
        out.push(c);
    }
    assert(s@.take(s@.len() as int) =~= s@);
    out
}

/// The string made of `chars`, in order.
pub fn string_of(chars: &[char]) -> (r: String)
    ensures
        r@ == chars@,
{
    let mut out: String = String::new();
    let mut i: usize = 0;
    while i < chars.len()
        invariant
            i <= chars@.len(),
            out@ =~= chars@.take(i as int),
        decreases chars@.len() - i,
    {
        out.push(chars[i]);
        i = i + 1;
    }
    assert(chars@.take(i as int) =~= chars@);
    out
}

/// The two strings hold the same text.
pub fn same_text(a: &str, b: &str) -> (r: bool)
    ensures
        r == (a@ == b@),
{
    let left: Vec<char> = chars_of(a);
    let right: Vec<char> = chars_of(b);
    if left.len() != right.len() {
        return false;
    }
    let mut i: usize = 0;
    while i < left.len()
        invariant
            left@ == a@,
            right@ == b@,
            i <= left@.len() == right@.len(),
            forall|j: int| 0 <= j < i ==> left@[j] == right@[j],
        decreases left@.len() - i,
    {
        if left[i] != right[i] {
            return false;
        }
        i = i + 1;
    }
    assert(left@ =~= right@);
    true
}

/// The start of `chars` before its first NUL.
pub fn cut_at_nul(chars: &[char]) -> (r: Vec<char>)
    ensures
        r@ == before_nul(chars@),
{
    let mut out: Vec<char> = Vec::new();
    let mut i: usize = 0;
    assert(chars@.skip(0) =~= chars@);
    assert(out@ + before_nul(chars@) =~= before_nul(chars@));
    while i < chars.len() && chars[i] != '\0'
        invariant
            i <= chars@.len(),
            out@ + before_nul(chars@.skip(i as int)) == before_nul(chars@),
        decreases chars@.len() - i,
    {
        let ghost before = out@;
        out.push(chars[i]);
        proof {
            let rest = chars@.skip(i as int);
            assert(rest.skip(1) =~= chars@.skip(i + 1));
            assert(before + (seq![chars@[i as int]] + before_nul(chars@.skip(i + 1))) =~= out@
                + before_nul(chars@.skip(i + 1)));
        }
        i = i + 1;
    }
    assert(before_nul(chars@.skip(i as int)) =~= Seq::<char>::empty());
    assert(out@ + Seq::<char>::empty() =~= out@);
    out
}

/// A text without a NUL is kept whole.
pub proof fn lemma_before_nul(text: Seq<char>)
    requires
        !text.contains('\0'),
    ensures
        before_nul(text) == text,
    decreases text.len(),
{
    if text.len() > 0 {
        assert(text[0] != '\0');
        let rest = text.skip(1);
        assert forall|i: int| 0 <= i < rest.len() implies rest[i] != '\0' by {
            assert(rest[i] == text[i + 1]);
        }
        lemma_before_nul(rest);
        assert(seq![text[0]] + rest =~= text);
    } else {
        assert(before_nul(text) =~= text);
    }
}

/// What stands before the first NUL holds none.
pub proof fn lemma_before_nul_has_none(text: Seq<char>)
    ensures
        !before_nul(text).contains('\0'),
    decreases text.len(),
{
    if text.len() > 0 && text[0] != '\0' {
        lemma_before_nul_has_none(text.skip(1));
        let rest = before_nul(text.skip(1));
        assert forall|i: int| 0 <= i < before_nul(text).len() implies before_nul(text)[i]
            != '\0' by {
            if i > 0 {
                assert(before_nul(text)[i] == rest[i - 1]);
                assert(rest.contains(rest[i - 1]));
            }
        }
    }
}

/// The encoding of a concatenation is the concatenation of the encodings, and the
/// place where they meet is a character boundary.
pub proof fn lemma_encode_concat(a: Seq<char>, b: Seq<char>)
    ensures
        vstd::utf8::encode_utf8(a + b) == vstd::utf8::encode_utf8(a) + vstd::utf8::encode_utf8(b),
        vstd::utf8::is_char_boundary(
            vstd::utf8::encode_utf8(a + b),
            vstd::utf8::encode_utf8(a).len() as int,
        ),
    decreases a.len(),
{
    broadcast use vstd::utf8::encode_utf8_valid_utf8;

    if a.len() == 0 {
        assert(a + b =~= b);
        assert(vstd::utf8::encode_utf8(a) + vstd::utf8::encode_utf8(b) =~= vstd::utf8::encode_utf8(
            b,
        ));
    } else {
        let first = vstd::utf8::encode_scalar(a[0] as u32);
        let rest = a.drop_first();
        lemma_encode_concat(rest, b);
        assert((a + b).drop_first() =~= rest + b);
        assert(vstd::utf8::encode_utf8(a + b) =~= vstd::utf8::encode_utf8(a)
            + vstd::utf8::encode_utf8(b));
        vstd::utf8::encode_utf8_first_scalar(a + b);
        assert(vstd::utf8::pop_first_scalar(vstd::utf8::encode_utf8(a + b))
            =~= vstd::utf8::encode_utf8(rest + b));
    }
}

/// Two texts with the same encoding are the same.
pub proof fn lemma_encode_injective(a: Seq<char>, b: Seq<char>)
    requires
        vstd::utf8::encode_utf8(a) == vstd::utf8::encode_utf8(b),
    ensures
        a == b,
{
    vstd::utf8::encode_utf8_decode_utf8(a);
    vstd::utf8::encode_utf8_decode_utf8(b);
}

/// What stands before the first NUL: all of a text without one, and otherwise the part that
/// it ends.
pub proof fn law_text_before_nul(body: Seq<char>, rest: Seq<char>)
    requires
        !body.contains('\0'),
    ensures
        before_nul(body) == body,
        before_nul(body.push('\0') + rest) == body,
    decreases body.len(),
{
    lemma_before_nul(body);
    let text = body.push('\0') + rest;
    if body.len() == 0 {
        assert(text[0] == '\0');
        assert(before_nul(text) =~= body);
    } else {
        let more = body.skip(1);
        assert(body.contains(body[0]));
        assert forall|i: int| 0 <= i < more.len() implies more[i] != '\0' by {
            assert(body.contains(body[i + 1]));
        }
        law_text_before_nul(more, rest);
        assert(text[0] == body[0]);
        assert(text.skip(1) =~= more.push('\0') + rest);
        assert(seq![body[0]] + more =~= body);
    }
}

} // verus!
