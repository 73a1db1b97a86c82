use libedit::hint::Hint;
use libedit::suggestion::Suggestion;

#[test]
fn strips_control_chars() {
    let s = Suggestion::new("ab\0c\nd\re");
    assert_eq!(s.text(), "abcde");
}

#[test]
fn empty_is_reported() {
    assert!(Suggestion::new("").is_empty());
    assert!(!Suggestion::new("x").is_empty());
}

#[test]
fn from_conversions() {
    let a: Suggestion = "hi".into();
    let b: Suggestion = String::from("hi").into();
    assert_eq!(a.text(), "hi");
    assert_eq!(b.text(), "hi");
}

#[test]
fn suggestion_of_line_ends_is_empty() {
    assert!(Suggestion::new("\r\n\0").is_empty());
    assert_eq!(Suggestion::new("a\u{e9}b").clone().text(), "a\u{e9}b");
}

#[test]
fn hint_strips_only_nul() {
    assert_eq!(Hint::new("a\0b\nc").text(), "ab\nc");
    let a: Hint = "x\0".into();
    let b: Hint = String::from("\0y").into();
    assert_eq!(a.text(), "x");
    assert_eq!(b.clone().text(), "y");
}
