use libedit::completion::{byte_offset, longest_common_prefix, Completion, LineContext};

#[test]
fn lcp_basic() {
    let v = vec!["show".to_string(), "shutdown".to_string()];
    assert_eq!(longest_common_prefix(&v), "sh");
}

#[test]
fn lcp_single() {
    let v = vec!["show".to_string()];
    assert_eq!(longest_common_prefix(&v), "show");
}

#[test]
fn lcp_none() {
    let v = vec!["show".to_string(), "abort".to_string()];
    assert_eq!(longest_common_prefix(&v), "");
}

#[test]
fn lcp_empty() {
    assert_eq!(longest_common_prefix(&[]), "");
}

#[test]
fn lcp_unicode() {
    let v = vec!["café".to_string(), "cafétière".to_string()];
    assert_eq!(longest_common_prefix(&v), "café");
}

#[test]
fn word_extraction() {
    let ctx = LineContext::new("show ip ro".to_string(), 10);
    assert_eq!(ctx.word(), "ro");
    assert_eq!(ctx.line(), "show ip ro");
}

#[test]
fn word_at_start() {
    let ctx = LineContext::new("sh".to_string(), 2);
    assert_eq!(ctx.word(), "sh");
    assert_eq!(ctx.word_start(), 0);
}

#[test]
fn word_empty_after_space() {
    let ctx = LineContext::new("show ".to_string(), 5);
    assert_eq!(ctx.word(), "");
    assert_eq!(ctx.word_start(), 5);
}

#[test]
fn lcp_stops_at_the_shortest() {
    let v = vec!["ab".to_string(), "abc".to_string(), "abd".to_string()];
    assert_eq!(longest_common_prefix(&v), "ab");
    let w = vec!["abc".to_string(), "abd".to_string(), "".to_string()];
    assert_eq!(longest_common_prefix(&w), "");
}

#[test]
fn cursor_moves_back_to_a_boundary() {
    let ctx = LineContext::new("caf\u{e9}".to_string(), 4);
    assert_eq!(ctx.cursor(), 3);
    assert_eq!(ctx.word(), "caf");
    let past = LineContext::new("caf\u{e9}".to_string(), 99);
    assert_eq!(past.cursor(), 5);
    assert_eq!(past.word(), "caf\u{e9}");
    assert_eq!(past.word_start(), 0);
}

#[test]
fn word_splits_on_ascii_whitespace_only() {
    let ctx = LineContext::new("a\u{a0}b\tc\u{e9}d".to_string(), 9);
    assert_eq!(ctx.word(), "c\u{e9}d");
    assert_eq!(ctx.word_start(), 5);
    let nbsp = LineContext::new("a\u{a0}b".to_string(), 4);
    assert_eq!(nbsp.word(), "a\u{a0}b");
    let copy = nbsp.clone();
    assert_eq!(copy.line(), "a\u{a0}b");
    assert_eq!(copy.cursor(), 4);
}

#[test]
fn completion_parts() {
    let none = Completion::none();
    assert!(none.is_empty());
    assert!(Completion::default().is_empty());
    let some = Completion::new(vec!["show".to_string()]);
    assert!(!some.is_empty());
    assert_eq!(some.candidates(), &["show".to_string()][..]);
    assert_eq!(some.insertion(), None);
    let given = Completion::with_insertion("ow ", vec![]);
    assert!(!given.is_empty());
    assert!(given.candidates().is_empty());
    assert_eq!(given.insertion(), Some("ow "));
    let owned = Completion::with_insertion(String::from("x"), vec!["xy".to_string()]).clone();
    assert_eq!(owned.insertion(), Some("x"));
    assert_eq!(owned.candidates(), &["xy".to_string()][..]);
}

#[test]
fn character_positions_are_found_in_bytes() {
    for (chars, at) in [(0, 0), (1, 1), (2, 3), (3, 6), (4, 10), (5, 11), (6, 11), (usize::MAX, 11)] {
        assert_eq!(byte_offset("a\u{e9}\u{20ac}\u{1f600}b", chars), at);
    }
    assert_eq!(byte_offset("", 3), 0);
    let line = "caf\u{e9} sh";
    let ctx = LineContext::new(line.to_string(), byte_offset(line, 7));
    assert_eq!(ctx.word(), "sh");
    let ctx = LineContext::new(line.to_string(), byte_offset(line, 4));
    assert_eq!(ctx.word(), "caf\u{e9}");
}
