use libedit::error::Error;
use libedit::tokenizer::Tokenizer;

#[test]
fn tokenizer_basic() {
    let mut t = Tokenizer::new(None).unwrap();
    let words = t.tokenize("one two three").unwrap();
    assert_eq!(words, vec!["one", "two", "three"]);
}

#[test]
fn tokenizer_empty() {
    let mut t = Tokenizer::new(None).unwrap();
    let words = t.tokenize("").unwrap();
    assert!(words.is_empty());
}

#[test]
fn tokenizer_reset_and_reuse() {
    let mut t = Tokenizer::new(None).unwrap();
    let words = t.tokenize("a b").unwrap();
    assert_eq!(words, vec!["a", "b"]);
    t.reset();
    let words = t.tokenize("x y z").unwrap();
    assert_eq!(words, vec!["x", "y", "z"]);
}

#[test]
fn tokenizer_double_quotes_group_words() {
    let mut t = Tokenizer::new(None).unwrap();
    let words = t.tokenize(r#"deploy "my server" now"#).unwrap();
    assert_eq!(words, vec!["deploy", "my server", "now"]);
}

#[test]
fn tokenizer_single_quotes_group_words() {
    let mut t = Tokenizer::new(None).unwrap();
    let words = t.tokenize("set tag='v1 rc'").unwrap();
    assert_eq!(words, vec!["set", "tag=v1 rc"]);
}

#[test]
fn tokenizer_backslash_escapes_space() {
    let mut t = Tokenizer::new(None).unwrap();
    let words = t.tokenize(r"a\ b c").unwrap();
    assert_eq!(words, vec!["a b", "c"]);
}

#[test]
fn tokenizer_backslash_in_double_quotes_is_kept() {
    let mut t = Tokenizer::new(None).unwrap();
    // Inside double quotes a backslash before an ordinary char is literal, so
    // both the backslash and the char are kept.
    let words = t.tokenize(r#""a\b""#).unwrap();
    assert_eq!(words, vec![r"a\b"]);
}

#[test]
fn tokenizer_empty_quotes_produce_empty_token() {
    let mut t = Tokenizer::new(None).unwrap();
    let words = t.tokenize(r#"'' x"#).unwrap();
    assert_eq!(words, vec!["", "x"]);
}

#[test]
fn tokenizer_unterminated_quote_errors() {
    let mut t = Tokenizer::new(None).unwrap();
    assert!(t.tokenize(r#"open "unfinished"#).is_err());
}

#[test]
fn tokenizer_preserves_multibyte_tokens() {
    let mut t = Tokenizer::new(None).unwrap();
    // Non-ASCII content must round-trip intact (no lossy conversion).
    let words = t.tokenize("café \"naïve über\"").unwrap();
    assert_eq!(words, vec!["café", "naïve über"]);
}

#[test]
fn tokenizer_rejects_non_ascii_separators() {
    assert!(Tokenizer::new(Some("\u{2003}")).is_err());
}

#[test]
fn tokenizer_accepts_owned_string_input() {
    let mut t = Tokenizer::new(None).unwrap();
    let owned = String::from("one two");
    let words = t.tokenize(owned).unwrap();
    assert_eq!(words, vec!["one", "two"]);
}

#[test]
fn separators_are_checked() {
    match Tokenizer::new(Some("\u{2003}\0")) {
        Err(Error::Operation { op: 0, code: -1 }) => {}
        other => panic!("unexpected {other:?}"),
    }
    match Tokenizer::new(Some(",\0")) {
        Err(Error::Nul(e)) => assert_eq!(e.nul_position(), 1),
        other => panic!("unexpected {other:?}"),
    }
    let mut t = Tokenizer::new(Some(",;")).unwrap();
    assert_eq!(t.tokenize("a b,,c;d").unwrap(), vec!["a b", "c", "d"]);
}

#[test]
fn reasons_for_refusal() {
    let mut t = Tokenizer::new(None).unwrap();
    for (line, reason) in [("a 'b", 1), ("a \"b", 2), ("a \"b\\", 2), ("a \\\n", 3)] {
        match t.tokenize(line) {
            Err(Error::Operation { op: 0, code }) => assert_eq!(code, reason, "{line:?}"),
            other => panic!("unexpected {other:?}"),
        }
        t.reset();
    }
    match t.tokenize("a\0b") {
        Err(Error::Nul(e)) => assert_eq!(e.nul_position(), 1),
        other => panic!("unexpected {other:?}"),
    }
}

#[test]
fn an_open_line_goes_on() {
    let mut t = Tokenizer::new(None).unwrap();
    assert!(t.tokenize("a 'b c").is_err());
    assert_eq!(t.tokenize(" d' e").unwrap(), vec!["a", "b c d", "e"]);
    assert_eq!(t.tokenize("f").unwrap(), vec!["a", "b c d", "e", "f"]);
    t.reset();
    assert!(t.tokenize("x\\\n").is_err());
    assert_eq!(t.tokenize("y").unwrap(), vec!["xy"]);
}

#[test]
fn newlines() {
    let mut t = Tokenizer::new(None).unwrap();
    assert_eq!(t.tokenize("a b\nc d").unwrap(), vec!["a", "b", "c", "d"]);
    t.reset();
    assert_eq!(t.tokenize("\na\n\n'b\n'\nc\n").unwrap(), vec!["a", "b\n", "c"]);
    t.reset();
    assert_eq!(t.tokenize("x\\\n\ny").unwrap(), vec!["x", "y"]);
    t.reset();
    assert_eq!(t.tokenize("'a\nb'").unwrap(), vec!["a\nb"]);
    t.reset();
    assert_eq!(t.tokenize("a\\\nb").unwrap(), vec!["ab"]);
    t.reset();
    assert_eq!(t.tokenize("\"a\\\nb\"").unwrap(), vec!["ab"]);
}

#[test]
fn newline_that_is_no_separator_ends_the_line() {
    let mut t = Tokenizer::new(Some(" ")).unwrap();
    assert_eq!(t.tokenize("a b\nc d").unwrap(), vec!["a", "b"]);
    t.reset();
    assert_eq!(t.tokenize("'a\nb'").unwrap(), vec!["a\nb"]);
}

#[test]
fn backslashes() {
    let mut t = Tokenizer::new(None).unwrap();
    assert_eq!(t.tokenize(r#""a\"b" \' \\ 'c\d' e\"#).unwrap(), vec!["a\"b", "'", "\\", "c\\d", "e"]);
    t.reset();
    assert_eq!(t.tokenize(r"\").unwrap(), vec![""]);
    t.reset();
    assert_eq!(t.tokenize(r#"'"' "'""#).unwrap(), vec!["\"", "'"]);
}

#[test]
fn quoted_words_are_read_back() {
    let words = ["it's", "", "a b", "\"x\"", "back\\slash", "two\nlines", "\u{e9}"];
    let line: Vec<String> = words.iter().map(|w| format!("'{}'", w.replace('\'', "'\\''"))).collect();
    let mut t = Tokenizer::new(None).unwrap();
    assert_eq!(t.tokenize(line.join(" ")).unwrap(), words.to_vec());
}
