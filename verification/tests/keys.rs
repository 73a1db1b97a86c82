use libedit::editline::LineContext;
use libedit::escape::{EscSeq, EscapeReader, Pending, PENDING_CAPACITY};
use libedit::keys::{KeyReader, ReadByte, Step, CTRL_F, ESC_SEQ_TIMEOUT_MS};
use libedit::paste::{PasteReader, BRACKETED_PASTE_OFF, BRACKETED_PASTE_ON, ESC};
use libedit::utf8::{decode_unit, decode_utf8, utf8_char_len, utf8_continues, REPLACEMENT};
use libedit::wstr::WChar;

fn begin_key(keys: &mut KeyReader) {
    assert!(matches!(keys.begin(), Step::ReadLead));
}

fn delivered(step: Step) -> (WChar, Vec<WChar>) {
    match step {
        Step::Deliver { unit, push } => (unit, push),
        other => panic!("unexpected {other:?}"),
    }
}

/// Feeds the bytes of one key that is no escape sequence.
fn type_key(keys: &mut KeyReader, bytes: &[u8]) -> WChar {
    begin_key(keys);
    let mut step = keys.on_lead(ReadByte::Byte(bytes[0]));
    for &b in &bytes[1..] {
        assert!(matches!(step, Step::ReadMore));
        step = keys.on_more(ReadByte::Byte(b));
    }
    let (unit, push) = delivered(step);
    assert!(push.is_empty());
    unit
}

/// Feeds an `ESC` and the bytes after it, up to a step that is no peek.
fn type_escape(keys: &mut KeyReader, bytes: &[u8]) -> Step {
    begin_key(keys);
    let mut step = keys.on_lead(ReadByte::Byte(ESC));
    for &b in bytes {
        assert!(matches!(step, Step::Peek));
        step = keys.on_peek(Some(b));
    }
    step
}

/// Pastes `bytes`, which come after the start marker.
fn paste(keys: &mut KeyReader, bytes: &[u8]) -> Step {
    let mut step = type_escape(keys, b"[200~");
    for &b in bytes {
        assert!(matches!(step, Step::ReadMore));
        step = keys.on_more(ReadByte::Byte(b));
    }
    step
}

/// Types `bytes`, which hold no `ESC`, and gives the units delivered.
fn type_bytes(keys: &mut KeyReader, bytes: &[u8]) -> Vec<WChar> {
    let mut reads = bytes.iter().map(|&b| ReadByte::Byte(b));
    let mut next = move || reads.next().unwrap_or(ReadByte::Eof);
    let mut units = Vec::new();
    let mut step = keys.begin();
    loop {
        step = match step {
            Step::ReadLead => keys.on_lead(next()),
            Step::TakeLead(b) => keys.on_lead(ReadByte::Byte(b)),
            Step::ReadMore => keys.on_more(next()),
            Step::Deliver { unit, push } => {
                assert!(push.is_empty());
                units.push(unit);
                keys.begin()
            }
            Step::End(code) => {
                assert_eq!(code, 0);
                return units;
            }
            other => panic!("unexpected {other:?}"),
        };
    }
}

/// What pasting `bytes` and then the end marker inserts.
fn pasted(bytes: &[u8]) -> Vec<WChar> {
    let mut keys = KeyReader::new();
    let mut all = bytes.to_vec();
    all.extend_from_slice(b"\x1b[201~");
    match paste(&mut keys, &all) {
        Step::Insert(units) => units,
        other => panic!("unexpected {other:?}"),
    }
}

fn wide(text: &str) -> Vec<WChar> {
    let mut units: Vec<WChar> = text.chars().map(|c| c as WChar).collect();
    units.push(0);
    units
}

#[test]
fn typed_characters_are_delivered() {
    let mut keys = KeyReader::new();
    for c in ['a', '\t', '\n', '\u{7f}', 'é', '€', '😀', '\u{10FFFF}', '\u{6}'] {
        let mut buf = [0u8; 4];
        let unit = type_key(&mut keys, c.encode_utf8(&mut buf).as_bytes());
        assert_eq!(unit, c as WChar);
    }
}

#[test]
fn malformed_input_is_replaced() {
    let mut keys = KeyReader::new();
    for b in (0x80..=0xbf).chain(0xf8..=0xff) {
        assert_eq!(type_key(&mut keys, &[b]), 0xFFFD);
    }
    assert_eq!(type_key(&mut keys, &[0xc0, 0x80]), 0xFFFD);
    assert_eq!(type_key(&mut keys, &[0xc1, 0xbf]), 0xFFFD);
    assert_eq!(type_key(&mut keys, &[0xe0, 0x80, 0x80]), 0xFFFD);
    assert_eq!(type_key(&mut keys, &[0xed, 0xa0, 0x80]), 0xFFFD);
    assert_eq!(type_key(&mut keys, &[0xf0, 0x80, 0x80, 0x80]), 0xFFFD);
    assert_eq!(type_key(&mut keys, &[0xf4, 0x90, 0x80, 0x80]), 0xFFFD);
    assert_eq!(type_key(&mut keys, &[0xf7, 0xbf, 0xbf, 0xbf]), 0xFFFD);
}

#[test]
fn a_byte_that_breaks_a_character_off_is_not_lost() {
    let unit = |c: char| c as WChar;
    let mut keys = KeyReader::new();
    assert_eq!(type_bytes(&mut keys, &[0xc3, 0x41]), vec![0xFFFD, unit('A')]);
    assert_eq!(type_bytes(&mut keys, &[0xe2, 0x82, b'\n']), vec![0xFFFD, unit('\n')]);
    assert_eq!(type_bytes(&mut keys, &[0xc3, 0xc3, 0xa9]), vec![0xFFFD, unit('é')]);
    assert_eq!(type_bytes(&mut keys, &[0xf0, 0xe2, 0xc3, 0x41]), vec![0xFFFD, 0xFFFD, 0xFFFD, unit('A')]);
    assert_eq!(type_bytes(&mut keys, &[0xff, b'\n']), vec![0xFFFD, unit('\n')]);
    assert_eq!(type_bytes(&mut keys, &[0xc3]), vec![]);

    begin_key(&mut keys);
    assert!(matches!(keys.on_lead(ReadByte::Byte(0xc3)), Step::ReadMore));
    assert_eq!(delivered(keys.on_more(ReadByte::Byte(ESC))).0, 0xFFFD);
    assert!(matches!(keys.begin(), Step::TakeLead(ESC)));
    assert!(matches!(keys.on_lead(ReadByte::Byte(ESC)), Step::Peek));
    assert!(matches!(keys.on_peek(Some(b'[')), Step::Peek));
    assert_eq!(delivered(keys.on_peek(Some(b'A'))).0, ESC as WChar);
    assert_eq!(delivered(keys.begin()).0, unit('['));
    assert_eq!(delivered(keys.begin()).0, unit('A'));
    begin_key(&mut keys);
}

#[test]
fn a_character_after_an_escape_stays_whole() {
    for (seen, bytes, c) in [(&b""[..], &[0xc3, 0xa9][..], 'é'), (&b"["[..], &[0xff][..], '\u{FFFD}'), (&b"[20"[..], "€".as_bytes(), '€')] {
        let mut keys = KeyReader::new();
        let mut all = seen.to_vec();
        all.push(bytes[0]);
        assert_eq!(delivered(type_escape(&mut keys, &all)).0, ESC as WChar);
        for &b in seen {
            assert_eq!(delivered(keys.begin()).0, b as WChar);
        }
        assert_eq!(type_bytes(&mut keys, &bytes[1..]), vec![c as WChar]);
    }
}

#[test]
fn malformed_bytes_of_a_paste_are_replaced() {
    assert_eq!(pasted(&[0xff, b'a', 0x80]), wide("\u{FFFD}a\u{FFFD}"));
    assert_eq!(pasted(&[0xc0, 0x80, b'a']), wide("\u{FFFD}a"));
    assert_eq!(pasted(&[0xc3, b'A', 0xe2, 0x82, b'B']), wide("\u{FFFD}A\u{FFFD}B"));
    assert_eq!(pasted(&[0xe2, 0x82, 0xc3, 0xa9]), wide("\u{FFFD}é"));
    assert_eq!(pasted(&[b'a', 0xc3]), wide("a\u{FFFD}"));
}

#[test]
fn ends_of_input() {
    let mut keys = KeyReader::new();
    for (read, code) in [(ReadByte::Eof, 0), (ReadByte::Interrupted, -1), (ReadByte::Error, -1)] {
        begin_key(&mut keys);
        assert!(matches!(keys.on_lead(read), Step::End(c) if c == code));
        begin_key(&mut keys);
        assert!(matches!(keys.on_lead(ReadByte::Byte(0xc3)), Step::ReadMore));
        assert!(matches!(keys.on_more(read), Step::End(c) if c == code));
    }
}

#[test]
fn other_escape_sequences_are_replayed() {
    for seq in [&b"[A"[..], &b"b"[..], &b"OA"[..], &b"[C"[..], &b"OC"[..], &b"[2x"[..], &b"[201"[..]] {
        let mut keys = KeyReader::new();
        let (unit, push) = delivered(type_escape(&mut keys, seq));
        assert_eq!(unit, ESC as WChar);
        assert!(push.is_empty());
        for &b in seq {
            assert_eq!(delivered(keys.begin()).0, b as WChar);
        }
        begin_key(&mut keys);
    }
}

#[test]
fn lone_escape_does_not_stall() {
    assert_eq!(ESC_SEQ_TIMEOUT_MS, 50);
    for seen in [&b""[..], &b"["[..], &b"[20"[..]] {
        let mut keys = KeyReader::new();
        let step = type_escape(&mut keys, seen);
        assert!(matches!(step, Step::Peek));
        assert_eq!(delivered(keys.on_peek(None)).0, ESC as WChar);
        for &b in seen {
            assert_eq!(delivered(keys.begin()).0, b as WChar);
        }
        begin_key(&mut keys);
    }
}

#[test]
fn hint_is_accepted_by_each_key() {
    for key in [&[CTRL_F][..], &b"\x1b[C"[..], &b"\x1bOC"[..]] {
        let mut keys = KeyReader::new();
        assert_eq!(keys.set_hint(Some("lp me")).unwrap(), "lp me");
        assert!(keys.hint_showing());
        let step = if key[0] == CTRL_F {
            begin_key(&mut keys);
            keys.on_lead(ReadByte::Byte(CTRL_F))
        } else {
            type_escape(&mut keys, &key[1..])
        };
        let (unit, push) = delivered(step);
        assert_eq!(unit, 'l' as WChar);
        assert_eq!(push, wide("p me"));
        assert!(!keys.hint_showing());
        assert!(keys.hint().is_empty());
    }
}

#[test]
fn hint_of_one_character() {
    let mut keys = KeyReader::new();
    keys.set_hint(Some("x"));
    begin_key(&mut keys);
    let (unit, push) = delivered(keys.on_lead(ReadByte::Byte(CTRL_F)));
    assert_eq!(unit, 'x' as WChar);
    assert!(push.is_empty());
}

#[test]
fn hint_is_not_taken_by_other_keys() {
    let mut keys = KeyReader::new();
    keys.set_hint(Some("lp"));
    assert_eq!(type_key(&mut keys, b"q"), 'q' as WChar);
    assert_eq!(keys.hint(), &wide("lp")[..]);
    assert_eq!(keys.set_hint(None), None);
    assert!(!keys.hint_showing());
    assert_eq!(type_key(&mut keys, &[CTRL_F]), CTRL_F as WChar);
    assert_eq!(keys.set_hint(Some("")), None);
    assert!(!keys.hint_showing());
}

#[test]
fn hint_ends_at_its_first_nul() {
    let mut keys = KeyReader::new();
    assert_eq!(keys.set_hint(Some("\0x")), None);
    assert!(!keys.hint_showing());
    assert_eq!(type_key(&mut keys, &[CTRL_F]), CTRL_F as WChar);
    keys.set_hint(Some("ab\0x"));
    begin_key(&mut keys);
    let (unit, push) = delivered(keys.on_lead(ReadByte::Byte(CTRL_F)));
    assert_eq!(unit, 'a' as WChar);
    assert_eq!(&push[..2], &['b' as WChar, 0]);
}

#[test]
fn hint_shows_only_where_one_is_wanted() {
    let mut keys = KeyReader::new();
    let end = LineContext::new("he", 2, 2, 80);
    assert_eq!(keys.show_hint(&end, "lp").unwrap(), "lp");
    assert!(keys.hint_showing());
    assert_eq!(keys.hint(), &wide("lp")[..]);
    let inside = LineContext::new("he", 2, 1, 80);
    assert_eq!(keys.show_hint(&inside, "lp"), None);
    assert!(!keys.hint_showing());
    assert!(keys.hint().is_empty());
    keys.set_hint(Some("lp"));
    let empty = LineContext::new("", 0, 0, 80);
    assert_eq!(keys.show_hint(&empty, "lp"), None);
    assert!(keys.hint().is_empty());
    assert_eq!(keys.show_hint(&end, ""), None);
    assert!(!keys.hint_showing());
}

#[test]
fn paste_is_inserted_literally() {
    let mut keys = KeyReader::new();
    match paste(&mut keys, "a\tb\ncaf\u{e9}\u{6}\x1b[201~".as_bytes()) {
        Step::Insert(units) => assert_eq!(units, wide("a\tb\ncaf\u{e9}\u{6}")),
        other => panic!("unexpected {other:?}"),
    }
    begin_key(&mut keys);
}

#[test]
fn stray_escapes_in_a_paste_are_dropped() {
    let mut keys = KeyReader::new();
    match paste(&mut keys, b"a\x1b[31mb\x1bxc\x1b[201~") {
        Step::Insert(units) => assert_eq!(units, wide("a1mbc")),
        other => panic!("unexpected {other:?}"),
    }
}

#[test]
fn stray_escapes_do_not_hold_the_end_of_a_paste() {
    assert_eq!(pasted(b"a\x1b"), wide("a"));
    assert_eq!(pasted(b"a\x1b\x1b\x1b"), wide("a"));
    for n in 1..6 {
        let mut body = b"a".to_vec();
        body.extend_from_slice(&b"\x1b[201~"[..n]);
        assert_eq!(pasted(&body), wide("a"));
    }
    let mut reader = PasteReader::new();
    let bytes = b"a\x1b\x1b[201~Z";
    let mut read = 0;
    while !reader.done() {
        reader.feed(Some(bytes[read]));
        read += 1;
    }
    assert_eq!(&bytes[read..], b"Z");
    assert_eq!(reader.into_text().units_with_nul(), &['a' as WChar]);
}

#[test]
fn empty_paste_inserts_nothing() {
    let mut keys = KeyReader::new();
    assert!(matches!(paste(&mut keys, b"\x1b[201~"), Step::ReadLead));
    assert_eq!(delivered(keys.on_lead(ReadByte::Byte(b'x'))).0, 'x' as WChar);
}

#[test]
fn paste_ends_with_the_input() {
    let mut keys = KeyReader::new();
    assert!(matches!(paste(&mut keys, b"ab"), Step::ReadMore));
    match keys.on_more(ReadByte::Eof) {
        Step::Insert(units) => assert_eq!(units, wide("ab")),
        other => panic!("unexpected {other:?}"),
    }
}

#[test]
fn paste_reader_states() {
    let mut reader = PasteReader::new();
    for b in "é\x1b[20".bytes() {
        reader.feed(Some(b));
    }
    assert!(!reader.done());
    reader.feed(None);
    assert!(!reader.done());
    reader.feed(Some(0xc3));
    reader.feed(None);
    assert!(reader.done());
    assert_eq!(reader.into_text().units_with_nul(), &['é' as WChar]);
    assert_eq!(BRACKETED_PASTE_ON, "\x1b[?2004h");
    assert_eq!(BRACKETED_PASTE_OFF, "\x1b[?2004l");
}

#[test]
fn escape_sequences_are_classified() {
    let mut reader = EscapeReader::new();
    for &b in b"[200" {
        assert!(reader.feed(Some(b)).is_none());
    }
    let seq = reader.feed(Some(b'~')).unwrap();
    assert!(matches!(seq, EscSeq::PasteStart));
    assert!(seq.trailing().is_empty());
    let mut reader = EscapeReader::new();
    assert!(reader.feed(Some(b'O')).is_none());
    let seq = reader.feed(Some(b'C')).unwrap();
    assert!(matches!(&seq, EscSeq::RightArrow(_)));
    assert_eq!(seq.trailing(), b"OC".to_vec());
    let mut reader = EscapeReader::new();
    assert!(reader.feed(Some(b'O')).is_none());
    let seq = reader.feed(Some(b'2')).unwrap();
    assert!(matches!(&seq, EscSeq::Other(_)));
    assert_eq!(seq.trailing(), b"O2".to_vec());
}

#[test]
fn a_broken_off_search_starts_anew() {
    let mut keys = KeyReader::new();
    keys.set_hint(Some("x"));
    begin_key(&mut keys);
    assert!(matches!(keys.on_lead(ReadByte::Byte(0xe2)), Step::ReadMore));
    keys.cancel();
    assert!(keys.hint_showing());
    assert_eq!(type_key(&mut keys, b"a"), 'a' as WChar);
}

#[test]
fn pending_is_a_queue() {
    let mut q = Pending::default();
    assert_eq!(q.pop(), None);
    for round in 0..5u8 {
        for i in 0..6 {
            q.push(round * 10 + i);
        }
        for i in 0..6 {
            assert_eq!(q.pop(), Some(round * 10 + i));
        }
    }
    for i in 0..10 {
        q.push(i);
    }
    for i in 0..PENDING_CAPACITY as u8 {
        assert_eq!(q.pop(), Some(i));
    }
    assert_eq!(q.pop(), None);
}

#[test]
fn utf8_lengths_and_values() {
    for (b, n) in [(0x00, 1), (0x7f, 1), (0x80, 1), (0xbf, 1), (0xc0, 2), (0xdf, 2), (0xe0, 3), (0xef, 3), (0xf0, 4), (0xf7, 4), (0xf8, 1), (0xff, 1)] {
        assert_eq!(utf8_char_len(b), n);
    }
    for c in ['a', 'é', '€', '😀'] {
        let mut buf = [0u8; 4];
        let bytes = c.encode_utf8(&mut buf).as_bytes();
        assert_eq!(decode_utf8(bytes), c as u32);
        assert_eq!(decode_unit(bytes), c as WChar);
    }
    assert_eq!(decode_unit(&[0xed, 0xa0, 0x80]), 0xFFFD);
    assert_eq!(decode_unit(&[0x80]), 0xFFFD);
    assert_eq!(decode_unit(&[0xc3, 0x41]), 0xFFFD);
    assert_eq!(decode_unit(&[0xc0, 0x80]), 0xFFFD);
    assert_eq!(decode_unit(&[0x41, 0x42]), 0xFFFD);
    assert_eq!(REPLACEMENT, 0xFFFD);
    for (b, r) in [(0x00, false), (0x7f, false), (0x80, true), (0xbf, true), (0xc0, false), (0xff, false)] {
        assert_eq!(utf8_continues(b), r);
    }
}
