use libedit::wstr::{
    char_from_c, char_to_c, decode_units, units_equal, WCStr, WCString, WChar,
};

#[test]
fn from_str_roundtrips() {
    let ws = WCString::from_str("hello").unwrap();
    assert_eq!(ws.len(), 5);
    assert_eq!(ws.to_string_lossy(), "hello");
}

#[test]
fn non_ascii_is_one_unit_per_char() {
    let ws = WCString::from_str("héllo😀").unwrap();
    // h é l l o 😀 == 6 scalars, one wide unit each.
    assert_eq!(ws.len(), 6);
    assert_eq!(ws.to_string_lossy(), "héllo😀");
    // The emoji is a single unit, not a surrogate pair.
    assert_eq!(*ws.units().last().unwrap(), '😀' as WChar);
}

#[test]
fn empty_string() {
    let ws = WCString::from_str("").unwrap();
    assert!(ws.is_empty());
    assert_eq!(ws.len(), 0);
    // Just the terminator.
    assert_eq!(ws.units_with_nul(), &[0]);
}

#[test]
fn always_nul_terminated() {
    let ws = WCString::from_str("abc").unwrap();
    assert_eq!(*ws.units_with_nul().last().unwrap(), 0);
}

#[test]
fn interior_nul_is_rejected() {
    let err = WCString::from_str("ab\0cd").unwrap_err();
    assert_eq!(err.nul_position(), 2);
}

#[test]
fn from_chars_works() {
    let chars = ['w', 'i', 'd', 'e'];
    let ws = WCString::from_chars(&chars).unwrap();
    assert_eq!(ws.to_string_lossy(), "wide");
}

#[test]
fn try_from_impls() {
    let a = WCString::try_from("x").unwrap();
    let b = WCString::try_from(String::from("x")).unwrap();
    let chars: &[char] = &['x'];
    let c = WCString::try_from(chars).unwrap();
    assert_eq!(a, b);
    assert_eq!(b, c);
}

#[test]
fn from_ptr_borrows_until_nul() {
    let ws = WCString::from_str("ptr").unwrap();
    let borrowed = WCStr::from_units(ws.units_with_nul());
    assert_eq!(borrowed.len(), 3);
    assert_eq!(borrowed.to_string_lossy(), "ptr");
    assert_eq!(borrowed, ws.as_wcstr());
}

#[test]
fn deref_to_wcstr() {
    let ws = WCString::from_str("deref").unwrap();
    assert_eq!(ws.len(), 5);
    assert_eq!(ws.to_string_lossy(), "deref");
}

#[test]
fn to_owned_roundtrips() {
    let ws = WCString::from_str("own").unwrap();
    let borrowed: WCStr<'_> = ws.as_wcstr();
    let owned = borrowed.to_owned();
    assert_eq!(owned, ws);
}

#[test]
fn debug_escapes() {
    let ws = WCString::from_str("a\tb").unwrap();
    assert_eq!(ws.as_wcstr().to_debug_string(), r#""a\tb""#);
}

#[test]
fn builder_new_push_and_terminate() {
    let mut ws = WCString::new();
    ws.push('h');
    ws.push('i');
    ws.push_str("!!");
    ws.terminate();
    assert_eq!(ws.to_string_lossy(), "hi!!");
    assert_eq!(*ws.units_with_nul().last().unwrap(), 0);
}

#[test]
fn builder_with_capacity_reserves() {
    let ws = WCString::with_capacity(16);
    // Empty and un-terminated until we add content.
    assert!(ws.units_with_nul().is_empty());
}

#[test]
fn terminate_is_idempotent() {
    let mut ws = WCString::new();
    ws.push('x');
    ws.terminate();
    let len_after_first = ws.units_with_nul().len();
    ws.terminate();
    assert_eq!(ws.units_with_nul().len(), len_after_first);
}

#[test]
fn extend_with_chars_and_units() {
    let mut ws = WCString::new();
    ws.push_chars(&['a', 'b']);
    ws.push_units(&[0x63u32 as WChar, 0x64 as WChar]); // c, d
    ws.terminate();
    assert_eq!(ws.to_string_lossy(), "abcd");
}

#[test]
fn push_scalar_allows_control_units() {
    let mut ws = WCString::with_capacity(4);
    ws.push_scalar(0x01);
    ws.push('>');
    ws.push_scalar(0x01);
    ws.terminate();
    assert_eq!(ws.len(), 3);
    assert_eq!(ws.units()[0], 0x01);
    assert_eq!(ws.units()[2], 0x01);
}

#[test]
fn wcstring_trim_end_removes_trailing_whitespace() {
    let mut ws = WCString::from_str("hello  \n").unwrap();
    ws.trim_end();
    assert_eq!(ws.to_string_lossy(), "hello");
    assert_eq!(*ws.units_with_nul().last().unwrap(), 0);
}

#[test]
fn wcstring_trim_end_all_whitespace() {
    let mut ws = WCString::from_str("  \n\n").unwrap();
    ws.trim_end();
    assert_eq!(ws.to_string_lossy(), "");
    assert_eq!(ws.units_with_nul(), &[0]);
}

#[test]
fn wcstring_trim_end_no_trailing_whitespace() {
    let mut ws = WCString::from_str("abc").unwrap();
    ws.trim_end();
    assert_eq!(ws.to_string_lossy(), "abc");
}

#[test]
fn wcstring_trim_start_removes_leading_whitespace() {
    let mut ws = WCString::from_str("  \nhello").unwrap();
    ws.trim_start();
    assert_eq!(ws.to_string_lossy(), "hello");
}

#[test]
fn wcstring_trim_start_all_whitespace() {
    let mut ws = WCString::from_str("   ").unwrap();
    ws.trim_start();
    // Everything drained; only the NUL remains.
    assert_eq!(ws.units_with_nul(), &[0]);
}

#[test]
fn wcstring_trim_start_no_leading_whitespace() {
    let mut ws = WCString::from_str("abc").unwrap();
    ws.trim_start();
    assert_eq!(ws.to_string_lossy(), "abc");
}

#[test]
fn wcstring_trim_both_sides() {
    let mut ws = WCString::from_str(" \n hi \n ").unwrap();
    ws.trim();
    assert_eq!(ws.to_string_lossy(), "hi");
}

#[test]
fn wcstr_trim_end_writes_nuls() {
    let mut buf = WCString::from_str("foo \n").unwrap().into_units_with_nul();
    let len = buf.len();
    WCStr::trim_end(&mut buf);
    // The buffer keeps its length, but the text stops at the first NUL.
    assert_eq!(buf.len(), len);
    let wcstr = WCStr::from_units(&buf);
    assert_eq!(wcstr.to_string_lossy(), "foo");
    assert_eq!(wcstr.len(), 3);
    assert!(!wcstr.is_empty());
}

#[test]
fn wcstr_trim_end_all_whitespace_becomes_empty() {
    let mut buf = WCString::from_str(" \n").unwrap().into_units_with_nul();
    WCStr::trim_end(&mut buf);
    let wcstr = WCStr::from_units(&buf);
    assert!(wcstr.is_empty());
    assert_eq!(wcstr.len(), 0);
    assert_eq!(wcstr.to_string_lossy(), "");
}

#[test]
fn wcstr_trim_start_shifts_content() {
    let ws = WCString::from_str("  hi").unwrap();
    let trimmed = ws.as_wcstr().trim_start();
    assert_eq!(trimmed.to_string_lossy(), "hi");
}

#[test]
fn wcstr_trim_start_all_whitespace() {
    let ws = WCString::from_str("   ").unwrap();
    let trimmed = ws.as_wcstr().trim_start();
    assert!(trimmed.is_empty());
}

#[test]
fn wcstr_trim_both() {
    let mut buf = WCString::from_str(" x ").unwrap().into_units_with_nul();
    let trimmed = WCStr::trim(&mut buf);
    assert_eq!(trimmed.to_string_lossy(), "x");
}

#[test]
fn from_ptr_mut_and_trim() {
    let mut buf: Vec<WChar> = "hello\n".chars().map(char_to_c).collect();
    buf.push(0);
    WCStr::trim_end(&mut buf);
    assert_eq!(WCStr::from_units(&buf).to_string_lossy(), "hello");
}

#[test]
fn display_impl() {
    let ws = WCString::from_str("hi!").unwrap();
    assert_eq!(ws.as_wcstr().to_display_string(), "hi!");
}

#[test]
fn wnul_error_display() {
    let err = WCString::from_str("a\0b").unwrap_err();
    let msg = err.message();
    assert!(msg.contains("position 1"));
    assert_eq!(msg, "interior NUL scalar found in wide string at position 1");
}

#[test]
fn from_wide_buf_copies() {
    let src = WCString::from_str("copy").unwrap();
    let copy = WCString::from_wide_buf(src.units_with_nul());
    assert_eq!(copy.to_string_lossy(), "copy");
}

#[test]
fn wide_buf_stops_at_the_first_nul() {
    let copy = WCString::from_wide_buf(&[0x61, 0, 0x62, 0]);
    assert_eq!(copy.units_with_nul(), &[0x61, 0]);
    let borrowed = WCStr::from_units(&[0x61, 0, 0x62, 0]);
    assert_eq!(borrowed.units_with_nul(), &[0x61, 0]);
}

#[test]
fn units_that_are_no_scalars_become_the_replacement_character() {
    assert_eq!(char_from_c(0xD800), '\u{FFFD}');
    assert_eq!(char_from_c(-1), '\u{FFFD}');
    assert_eq!(char_from_c(0x110000), '\u{FFFD}');
    assert_eq!(char_from_c(0x10FFFF), '\u{10FFFF}');
    assert_eq!(char_from_c(char_to_c('é')), 'é');
    assert_eq!(decode_units(&[0x61, 0xDFFF, 0xE9]), vec!['a', '\u{FFFD}', 'é']);
}

#[test]
fn raw_buffers_and_copies() {
    let mut ws = WCString::default();
    ws.push_nul();
    ws.push_nul();
    assert_eq!(ws.units_with_nul(), &[0, 0]);
    assert!(ws.is_empty());
    assert!(ws.as_wcstr().is_empty());
    let copy = ws.clone();
    ws.clear();
    assert!(ws.is_empty());
    assert_eq!(copy.into_units_with_nul(), vec![0, 0]);
    ws.reserve(3);
    assert!(ws.units_with_nul().is_empty());
    assert!(WCString::from_scalars(&[1, 0, 2]).is_err());
    assert_eq!(WCString::from_scalars(&[1, 2]).unwrap().units_with_nul(), &[1, 2, 0]);
    assert!(units_equal(&[1, 2], &[1, 2]));
    assert!(!units_equal(&[1, 2], &[1, 3]));
    assert!(!units_equal(&[1, 2], &[1]));
}

#[test]
fn owned_and_borrowed_trims_agree() {
    for text in ["a b \n ", "", " \n", "x", " lead", "tab\t"] {
        let mut owned = WCString::from_str(text).unwrap();
        let mut buf = owned.clone().into_units_with_nul();
        owned.trim_end();
        WCStr::trim_end(&mut buf);
        assert_eq!(owned.to_string_lossy(), WCStr::from_units(&buf).to_string_lossy());
        assert_eq!(owned.to_string_lossy(), text.trim_end_matches(&[' ', '\n'][..]));
    }
}

#[test]
fn debug_string_escapes_quotes() {
    let ws = WCString::from_str("a\"b\\\n").unwrap();
    assert_eq!(ws.as_wcstr().to_debug_string(), "\"a\\\"b\\\\\\n\"");
    assert_eq!(ws.as_wcstr().chars(), vec!['a', '"', 'b', '\\', '\n']);
}

#[test]
fn emptiness_is_that_of_the_text() {
    assert!(WCString::new().is_empty());
    let mut ws = WCString::new();
    ws.push_nul();
    ws.push_str("ab");
    ws.push_nul();
    assert_eq!(ws.units_with_nul(), &[0, 0x61, 0x62, 0]);
    assert!(ws.is_empty());
    assert!(ws.as_wcstr().is_empty());
    let mut ws = WCString::new();
    ws.push_str("a");
    assert!(!ws.is_empty());
    ws.push_nul();
    assert!(!ws.is_empty());
    assert!(!ws.as_wcstr().is_empty());
}
