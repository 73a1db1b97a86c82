use libedit::error::Error;
use libedit::history::{History, DEFAULT_HISTORY_SIZE};
use libedit::wstr::{WCStr, WCString};

#[test]
fn first_is_newest() {
    let mut h = History::new();
    h.add("alpha").unwrap();
    h.add("bravo").unwrap();
    h.add("charlie").unwrap();
    assert_eq!(h.first().unwrap().value, "charlie");
}

#[test]
fn last_is_oldest() {
    let mut h = History::new();
    h.add("alpha").unwrap();
    h.add("bravo").unwrap();
    h.add("charlie").unwrap();
    assert_eq!(h.last().unwrap().value, "alpha");
}

#[test]
fn next_walks_toward_older_entries() {
    let mut h = History::new();
    h.add("alpha").unwrap();
    h.add("bravo").unwrap();
    h.add("charlie").unwrap();

    assert_eq!(h.first().unwrap().value, "charlie");
    assert_eq!(h.next().unwrap().value, "bravo");
    assert_eq!(h.next().unwrap().value, "alpha");
    assert!(h.next().is_none(), "end of history");
}

#[test]
fn prev_walks_toward_newer_entries() {
    let mut h = History::new();
    h.add("alpha").unwrap();
    h.add("bravo").unwrap();
    h.add("charlie").unwrap();

    assert_eq!(h.last().unwrap().value, "alpha");
    assert_eq!(h.prev().unwrap().value, "bravo");
    assert_eq!(h.prev().unwrap().value, "charlie");
    assert!(h.prev().is_none(), "start of history");
}

#[test]
fn event_numbers_are_monotonic() {
    let mut h = History::new();
    h.add("one").unwrap();
    h.add("two").unwrap();
    h.add("three").unwrap();

    // Walk oldest to newest: event numbers should increase.
    let mut nums = Vec::new();
    let mut entry = h.last();
    while let Some(e) = entry {
        nums.push(e.num);
        entry = h.prev();
    }
    assert_eq!(nums.len(), 3);
    assert!(nums.windows(2).all(|w| w[0] < w[1]), "event numbers must be increasing");
}

#[test]
fn empty_history_returns_none() {
    let mut h = History::new();
    assert!(h.first().is_none());
    assert!(h.last().is_none());
    assert!(h.next().is_none());
    assert!(h.prev().is_none());
    assert!(h.curr().is_none());
}

#[test]
fn next_event_seeks_by_event_number_toward_older() {
    let mut h = History::new();
    h.add("alpha").unwrap();
    h.add("bravo").unwrap();
    h.add("charlie").unwrap();

    let newest = h.first().unwrap();
    assert_eq!(h.next_event(newest.num).unwrap().value, "charlie");

    // Move one step older: the event that was passed is out of reach.
    let _ = h.next();
    assert!(h.next_event(newest.num).is_none());
}

#[test]
fn prev_event_seeks_by_event_number_toward_newer() {
    let mut h = History::new();
    h.add("alpha").unwrap();
    h.add("bravo").unwrap();
    h.add("charlie").unwrap();

    let oldest = h.last().unwrap();
    assert_eq!(h.prev_event(oldest.num).unwrap().value, "alpha");

    // Move one step newer: the event that was passed is out of reach.
    let _ = h.prev();
    assert!(h.prev_event(oldest.num).is_none());
}

#[test]
fn event_seek_missing_number_returns_none() {
    let mut h = History::new();
    h.add("one").unwrap();
    h.add("two").unwrap();
    h.add("three").unwrap();

    let first = h.first().unwrap();
    assert!(h.next_event(first.num + 100).is_none());
    assert!(h.prev_event(first.num + 100).is_none());
}

#[test]
fn next_n_moves_n_steps() {
    let mut h = History::new();
    h.add("a").unwrap();
    h.add("b").unwrap();
    h.add("c").unwrap();
    h.add("d").unwrap();
    h.add("e").unwrap();

    let _ = h.first();
    assert_eq!(h.next_n(2).unwrap().value, "c");
}

#[test]
fn next_n_hits_end_returns_none() {
    let mut h = History::new();
    h.add("a").unwrap();
    h.add("b").unwrap();

    let _ = h.first();
    assert!(h.next_n(2).is_none());
}

#[test]
fn prev_n_moves_n_steps() {
    let mut h = History::new();
    h.add("a").unwrap();
    h.add("b").unwrap();
    h.add("c").unwrap();
    h.add("d").unwrap();
    h.add("e").unwrap();

    let _ = h.last();
    assert_eq!(h.prev_n(2).unwrap().value, "c");
}

#[test]
fn prev_n_hits_start_returns_none() {
    let mut h = History::new();
    h.add("a").unwrap();
    h.add("b").unwrap();

    let _ = h.last();
    assert!(h.prev_n(2).is_none());
}

#[test]
fn next_n_zero_returns_none() {
    let mut h = History::new();
    h.add("x").unwrap();

    let _ = h.first();
    assert!(h.next_n(0).is_none());
    assert!(h.prev_n(0).is_none());
}

#[test]
fn curr_does_not_move_cursor() {
    let mut h = History::new();
    h.add("alpha").unwrap();
    h.add("bravo").unwrap();

    let _ = h.first();
    assert_eq!(h.curr().unwrap().value, "bravo");
    assert_eq!(h.curr().unwrap().value, "bravo");
}

#[test]
fn curr_after_clear_returns_none() {
    let mut h = History::new();
    h.add("temp").unwrap();
    let _ = h.first();
    assert!(h.curr().is_some());

    h.clear();
    assert!(h.curr().is_none());
}

#[test]
fn history_init_and_drop() {
    let h = History::new();
    assert!(h.is_empty());
    drop(h);
}

#[test]
fn history_add_and_retrieve() {
    let mut h = History::new();
    h.add("first command").unwrap();
    assert_eq!(h.len(), 1);
    assert!(!h.is_empty());
    let first = h.first().unwrap();
    assert_eq!(first.value, "first command");
}

#[test]
fn history_clear() {
    let mut h = History::new();
    h.add("temp").unwrap();
    assert_eq!(h.len(), 1);
    h.clear();
    assert!(h.is_empty());
    assert_eq!(h.len(), 0);
    assert!(h.first().is_none());
}

#[test]
fn history_empty_first_error() {
    let mut h = History::new();
    assert!(h.first().is_none());
}

#[test]
fn history_with_size_eviction() {
    let mut h = History::with_size(2);
    h.add("one").unwrap();
    h.add("two").unwrap();
    h.add("three").unwrap();
    // Capped at 2 entries; oldest ("one") evicted.
    assert_eq!(h.len(), 2);
    assert_eq!(h.first().unwrap().value, "three");
}

#[test]
fn history_unique_suppresses_consecutive_duplicates() {
    let mut h = History::with_size(100);
    h.set_unique(true);
    h.add("same").unwrap();
    h.add("same").unwrap();
    h.add("same").unwrap();
    // Consecutive duplicates collapse to a single entry.
    assert_eq!(h.len(), 1);
    assert_eq!(h.first().unwrap().value, "same");
}

#[test]
fn history_unique_keeps_nonadjacent_duplicates() {
    let mut h = History::with_size(100);
    h.set_unique(true);
    h.add("a").unwrap();
    h.add("b").unwrap();
    h.add("a").unwrap();
    // Only consecutive duplicates are suppressed; "a" reappears after "b".
    assert_eq!(h.len(), 3);
    assert_eq!(h.first().unwrap().value, "a");
}

#[test]
fn history_without_unique_keeps_all_duplicates() {
    let mut h = History::with_size(100);
    // Unique disabled: every add is retained.
    h.add("dup").unwrap();
    h.add("dup").unwrap();
    assert_eq!(h.len(), 2);
}

#[test]
fn history_save_and_load_roundtrip() {
    let mut h = History::with_size(100);
    h.add("alpha").unwrap();
    h.add("bravo").unwrap();
    h.add("charlie").unwrap();
    let contents = h.save();

    let mut h = History::with_size(100);
    assert!(h.is_empty());
    h.load(&contents).expect("load");
    assert_eq!(h.len(), 3, "all entries should be restored");
    assert_eq!(h.first().unwrap().value, "charlie");
}

#[test]
fn file_contents() {
    let mut h = History::new();
    h.add("ls -l\tx").unwrap();
    h.add("a\\b\x01\x7f").unwrap();
    h.add("caf\u{e9}").unwrap();
    h.add("two\nlines").unwrap();
    let contents = h.save();
    assert_eq!(
        contents,
        b"_HiStOrY_V2_\nls\\040-l\\011x\na\\134b\\^A\\^?\ncaf\xc3\xa9\ntwo\\012lines\n".to_vec()
    );
    let mut back = History::new();
    back.load(&contents).unwrap();
    assert_eq!(back.first().unwrap().value, "two\nlines");
    assert_eq!(back.next().unwrap().value, "caf\u{e9}");
    assert_eq!(back.next().unwrap().value, "a\\b\x01\x7f");
    assert_eq!(back.next().unwrap().value, "ls -l\tx");
}

#[test]
fn other_notations_are_read() {
    let mut h = History::new();
    h.load(b"_HiStOrY_V2_\na\\\\b\ncaf\\M-C\\M-)\n\\^?\\7x\nlast").unwrap();
    assert_eq!(h.last().unwrap().value, "a\\b");
    assert_eq!(h.prev().unwrap().value, "caf\u{e9}");
    assert_eq!(h.prev().unwrap().value, "\x7f\x07x");
    assert_eq!(h.prev().unwrap().value, "last");
}

#[test]
fn malformed_files_are_refused() {
    let mut h = History::new();
    h.add("kept").unwrap();
    for contents in [
        &b""[..],
        &b"ls\n"[..],
        &b"_HiStOrY_V2_\na\\"[..],
        &b"_HiStOrY_V2_\n\\x\n"[..],
        &b"_HiStOrY_V2_\n\xff\n"[..],
    ] {
        match h.load(contents) {
            Err(Error::Operation { op: 0, code: -1 }) => {}
            other => panic!("unexpected {other:?}"),
        }
        assert_eq!(h.len(), 1);
        assert_eq!(h.curr().unwrap().value, "kept");
    }
}

#[test]
fn load_appends_and_respects_the_limit() {
    let mut h = History::with_size(2);
    h.add("old").unwrap();
    h.load(b"_HiStOrY_V2_\nx\ny\n").unwrap();
    assert_eq!(h.len(), 2);
    assert_eq!(h.last().unwrap().value, "x");
    assert_eq!(h.first().unwrap().value, "y");
    assert_eq!(h.first().unwrap().num, 3);
}

#[test]
fn default_size_is_kept() {
    let mut h = History::default();
    for i in 0..(DEFAULT_HISTORY_SIZE + 5) {
        assert!(h.add(&format!("line {i}")).unwrap());
    }
    assert_eq!(h.len(), DEFAULT_HISTORY_SIZE);
    assert_eq!(h.size(), DEFAULT_HISTORY_SIZE);
    assert_eq!(h.oldest().unwrap().value, "line 5");
    assert_eq!(h.newest().unwrap().value, "line 104");
}

#[test]
fn shrinking_drops_the_oldest() {
    let mut h = History::with_size(10);
    for line in ["a", "b", "c", "d"] {
        h.add(line).unwrap();
    }
    let _ = h.last();
    assert_eq!(h.newer().unwrap().value, "b");
    h.set_size(2);
    assert_eq!(h.len(), 2);
    assert_eq!(h.curr().unwrap().value, "c");
    assert_eq!(h.newer_n(1).unwrap().value, "d");
    assert_eq!(h.older_n(1).unwrap().value, "c");
    assert!(h.older().is_none());
    h.set_size(0);
    assert!(h.is_empty());
    assert!(h.curr().is_none());
    assert!(h.add("gone").unwrap());
    assert!(h.is_empty());
}

#[test]
fn numbers_go_on_after_clear() {
    let mut h = History::new();
    h.add("a").unwrap();
    let before = h.first().unwrap().num;
    h.clear();
    h.add("b").unwrap();
    assert!(h.first().unwrap().num > before);
}

#[test]
fn nul_is_refused() {
    let mut h = History::new();
    match h.add("ab\0c") {
        Err(Error::Nul(e)) => assert_eq!(e.nul_position(), 2),
        other => panic!("unexpected {other:?}"),
    }
    assert!(h.is_empty());
    h.set_unique(true);
    assert!(h.add("x").unwrap());
    assert!(!h.add("x").unwrap());
}

#[test]
fn wide_lines_are_cut_at_nul() {
    let mut h = History::new();
    let mut buf = WCString::from_str("run \n").unwrap().into_units_with_nul();
    WCStr::trim_end(&mut buf);
    h.add_wide(&WCStr::from_units(&buf));
    assert_eq!(h.curr().unwrap().value, "run");
    assert_eq!(h.units(0), &[0x72, 0x75, 0x6e]);
    let copy = h.curr().unwrap().clone();
    assert_eq!(copy, h.curr().unwrap());
}

#[test]
fn going_back_and_forth_returns() {
    let mut h = History::new();
    for line in ["a", "b", "c", "d", "e"] {
        h.add(line).unwrap();
    }
    assert_eq!(h.older_n(3).unwrap().value, "b");
    assert_eq!(h.newer_n(3).unwrap().value, "e");
    assert!(h.older_n(9).is_none());
    assert_eq!(h.curr().unwrap().value, "a");
    let num = h.newest().unwrap().num;
    let _ = h.oldest();
    assert_eq!(h.prev_event(num).unwrap().value, "e");
    let num = h.oldest().unwrap().num;
    let _ = h.newest();
    assert_eq!(h.next_event(num).unwrap().value, "a");
}
