use libedit::completion::{Completion, LineContext as Line};
use libedit::consts;
use libedit::editline::{
    default_style, handler_code, insertion, line_text, unit_distance, Action, EditLine, Editor,
    LineContext, RESTORE_CURSOR, SAVE_CURSOR,
};
use libedit::error::{check_c_string, operation_result, Error, NulError};
use libedit::history::History;
use libedit::keys::{ReadByte, Step};
use libedit::prompt::{prompt_to_wide, Prompt, PROMPT_ESC_DELIM};
use libedit::reads::{
    after_plain_read, after_poll, after_read, after_timed_read, after_unblock, blocking_flags,
    Failure, PollStep, ReadStep,
};
use libedit::term;
use libedit::trace::{bytes_line, note_line, visualize};
use libedit::wstr::{WCString, WChar, WNulError};

/// The delimiter as a `char` for building expected strings.
fn d() -> char {
    PROMPT_ESC_DELIM as u8 as char
}

fn wide(text: &str) -> Vec<WChar> {
    let mut units: Vec<WChar> = text.chars().map(|c| c as WChar).collect();
    units.push(0);
    units
}

#[test]
fn prompt_to_wide_wraps_sequences() {
    // Bold green "> " with a reset after it.
    let input = "\x1b[1;32mcaf\u{00e9}>\x1b[0m ";
    let expected = format!("{d}\x1b[1;32m{d}caf\u{00e9}>{d}\x1b[0m{d} ", d = d());
    let mut buf = WCString::new();
    prompt_to_wide(input, &mut buf);
    assert_eq!(buf.to_string_lossy(), expected);
}

#[test]
fn plain_prompts_end_in_nul() {
    let mut buf = WCString::new();
    prompt_to_wide("h\u{e9}> ", &mut buf);
    assert_eq!(buf.units_with_nul(), &wide("h\u{e9}> ")[..]);
}

#[test]
fn unusual_escape_sequences() {
    for (input, inner, rest) in [
        ("\x1bM>", "\x1bM", ">"),
        ("\x1b[", "\x1b[", ""),
        ("\x1b[12", "\x1b[12", ""),
        ("\x1b", "\x1b", ""),
        ("\x1b[?25l$", "\x1b[?25l", "$"),
    ] {
        let mut buf = WCString::new();
        prompt_to_wide(input, &mut buf);
        assert_eq!(buf.to_string_lossy(), format!("{d}{inner}{d}{rest}", d = d()));
    }
    let mut buf = WCString::new();
    prompt_to_wide("\x1b[\u{e9}m", &mut buf);
    assert_eq!(buf.units_with_nul(), &[1, 0x1b, 0x5b, 0xc3, 0xa9, 0x6d, 1, 0]);
}

#[test]
fn prompt_is_kept_until_it_changes() {
    let mut prompt = Prompt::new();
    assert_eq!(prompt.wide(), &[0]);
    prompt.set("a> ");
    assert_eq!(prompt.wide(), &wide("a> ")[..]);
    prompt.set("a> ");
    assert_eq!(prompt.wide(), &wide("a> ")[..]);
    prompt.set("");
    assert_eq!(prompt.wide(), &[0]);
}

#[test]
fn readline_results() {
    let mut el = EditLine::new("test").unwrap();
    assert!(el.start_readline("> ", 0, 132));
    assert_eq!(el.prompt_wide(), &wide("> ")[..]);
    assert_eq!(el.term_cols(), 132);
    assert!(matches!(el.finish_readline(None, 0, false), Err(Error::Eof)));
    assert!(matches!(el.finish_readline(None, -1, true), Err(Error::Interrupted)));
    assert!(matches!(el.finish_readline(Some(wide("x\n")), -1, false), Err(Error::Eof)));
    assert_eq!(el.finish_readline(Some(wide("")), 0, true).unwrap(), "");
    assert_eq!(el.finish_readline(Some(wide("  ls -l \n")), 9, false).unwrap(), "  ls -l");
    assert_eq!(el.finish_readline(Some(wide("\n")), 1, false).unwrap(), "");
    assert_eq!(
        el.finish_readline(Some(vec![0x61, 0xD800, 0xa, 0]), 3, false).unwrap(),
        "a\u{FFFD}"
    );
    el.set_bracketed_paste(false);
    assert!(!el.start_readline("> ", -1, 132));
    assert_eq!(el.term_cols(), 80);
}

#[test]
fn lines_are_added_to_the_history() {
    let mut el = EditLine::new("test").unwrap();
    assert!(el.history().is_none());
    assert!(el.history_mut().is_none());
    el.set_auto_add_history(true);
    assert_eq!(el.finish_readline(Some(wide("lost\n")), 5, false).unwrap(), "lost");
    el.set_history(History::new());
    el.finish_readline(Some(wide("one \n")), 5, false).unwrap();
    el.finish_readline(Some(wide(" \n")), 2, false).unwrap();
    el.finish_readline(Some(wide(" two\n")), 5, false).unwrap();
    assert_eq!(el.history().unwrap().len(), 2);
    el.set_history_ignore_space(true);
    el.finish_readline(Some(wide(" three\n")), 7, false).unwrap();
    assert_eq!(el.history().unwrap().len(), 2);
    assert_eq!(el.history_mut().unwrap().first().unwrap().value, " two");
    assert_eq!(el.history_mut().unwrap().next().unwrap().value, "one");
    el.set_auto_add_history(false);
    el.finish_readline(Some(wide("four\n")), 5, false).unwrap();
    assert_eq!(el.history().unwrap().len(), 2);
}

#[test]
fn names_with_nul_are_refused() {
    match EditLine::new("caf\u{e9}\0x") {
        Err(Error::Nul(e)) => assert_eq!(e.nul_position(), 5),
        other => panic!("unexpected {other:?}"),
    }
}

#[test]
fn keys_of_the_editor() {
    let mut el = EditLine::new("test").unwrap();
    assert!(matches!(el.keys().begin(), Step::ReadLead));
    match el.keys().on_lead(ReadByte::Byte(b'a')) {
        Step::Deliver { unit, .. } => assert_eq!(unit, 'a' as WChar),
        other => panic!("unexpected {other:?}"),
    }
}

#[test]
fn parameters() {
    assert!(EditLine::set_int(consts::EL_SIGNAL as i32, 0).is_ok());
    match EditLine::set_int(consts::EL_SIGNAL as i32, -1) {
        Err(Error::Operation { op: 3, code: -1 }) => {}
        other => panic!("unexpected {other:?}"),
    }
    assert_eq!(EditLine::get_int(consts::EL_EDITMODE as i32, 0, 1).unwrap(), 1);
    assert!(EditLine::get_int(consts::EL_EDITMODE as i32, -1, 1).is_err());
    assert!(EditLine::edit_mode(0, 1).unwrap());
    assert!(!EditLine::edit_mode(0, 0).unwrap());
    match EditLine::edit_mode(-1, 0) {
        Err(Error::Operation { op: 11, code: -1 }) => {}
        other => panic!("unexpected {other:?}"),
    }
    match EditLine::set_editor(-1) {
        Err(Error::Operation { op: 2, code: -1 }) => {}
        other => panic!("unexpected {other:?}"),
    }
    match EditLine::set_handler(5) {
        Err(Error::Operation { op: 9, code: 5 }) => {}
        other => panic!("unexpected {other:?}"),
    }
    match EditLine::source_config(-1) {
        Err(Error::Operation { op: 0, code: -1 }) => {}
        other => panic!("unexpected {other:?}"),
    }
    assert!(EditLine::set_editor(0).is_ok());
    assert!(EditLine::set_handler(0).is_ok());
    assert!(EditLine::source_config(0).is_ok());
    assert_eq!(Editor::Emacs.name(), "emacs");
    assert_eq!(Editor::Vi.name(), "vi");
    assert_eq!(EditLine::terminal_size(None), (80, 24));
    assert_eq!(EditLine::terminal_size(Some((132, 43))), (132, 43));
}

#[test]
fn action_codes() {
    let all = [
        (Action::Norm, 0),
        (Action::Newline, 1),
        (Action::Eof, 2),
        (Action::Arghack, 3),
        (Action::Refresh, 4),
        (Action::Cursor, 5),
        (Action::Error, 6),
        (Action::Fatal, 7),
        (Action::Redisplay, 8),
        (Action::RefreshBeep, 9),
    ];
    for (action, code) in all {
        assert_eq!(action.to_cc(), code);
        assert_eq!(handler_code(Some(action)), code);
    }
    assert_eq!(handler_code(None), 6);
}

#[test]
fn line_context() {
    let text = line_text(&[0x61, 0xe9, 0xD800]);
    assert_eq!(text, "a\u{e9}\u{FFFD}");
    let ctx = LineContext::new(&text, 3, 2, 80);
    assert_eq!(ctx.line(), text);
    assert_eq!(ctx.char_count(), 3);
    assert_eq!(ctx.cursor(), 2);
    assert_eq!(ctx.term_cols(), 80);
    assert!(!ctx.cursor_at_end());
    assert!(!ctx.wants_hint());
    assert!(LineContext::new(&text, 3, 3, 80).wants_hint());
    assert!(!LineContext::new("", 0, 0, 80).wants_hint());
    assert_eq!(unit_distance(1000, 1000), 0);
    assert_eq!(unit_distance(1000, 1012), 3);
}

#[test]
fn handler_output() {
    assert_eq!(insertion(""), None);
    assert_eq!(insertion("\0"), None);
    assert_eq!(insertion("\0x"), None);
    assert_eq!(insertion("ow").unwrap(), wide("ow"));
    assert_eq!(default_style("lp"), "\x1b[2mlp\x1b[0m");
    assert_eq!(format!("{SAVE_CURSOR}{RESTORE_CURSOR}"), "\x1b7\x1b8");
}

#[test]
fn completions_are_resolved() {
    let list = |words: &[&str]| words.iter().map(|w| w.to_string()).collect::<Vec<_>>();
    let ctx = Line::new("se".to_string(), 2);
    let one = Completion::new(list(&["set"])).resolve(ctx.word());
    assert_eq!(one.insert, "t ");
    assert!(!one.list);
    assert_eq!(one.action(), Action::Refresh);
    let several = Completion::new(list(&["show", "shutdown"])).resolve("s");
    assert_eq!(several.insert, "h");
    assert!(!several.list);
    let ambiguous = Completion::new(list(&["show", "set"])).resolve("s");
    assert_eq!(ambiguous.insert, "");
    assert!(ambiguous.list);
    assert_eq!(ambiguous.action(), Action::Redisplay);
    let chosen = Completion::with_insertion("ow ", vec![]).resolve("sh");
    assert_eq!(chosen.insert, "ow ");
    assert!(!chosen.list);
    let both = Completion::with_insertion("h", list(&["show", "shut"])).resolve("s");
    assert_eq!(both.insert, "h");
    assert!(both.list);
    let none = Completion::none().resolve("x");
    assert_eq!(none.insert, "");
    assert_eq!(none.action(), Action::Error);
}

#[test]
fn results_of_reads() {
    assert_eq!(after_read(1, 7, Failure::Other, true), ReadStep::Done(ReadByte::Byte(7)));
    assert_eq!(after_read(0, 7, Failure::Other, true), ReadStep::Done(ReadByte::Eof));
    assert_eq!(after_read(-1, 7, Failure::Signal, true), ReadStep::Done(ReadByte::Interrupted));
    assert_eq!(after_read(-1, 7, Failure::Signal, false), ReadStep::Retry);
    assert_eq!(after_read(-1, 7, Failure::WouldBlock, false), ReadStep::Unblock);
    assert_eq!(after_read(-1, 7, Failure::Other, true), ReadStep::Done(ReadByte::Error));
    assert_eq!(after_unblock(true), ReadStep::Retry);
    assert_eq!(after_unblock(false), ReadStep::Done(ReadByte::Error));
    assert_eq!(blocking_flags(-1, 0o4000), None);
    assert_eq!(blocking_flags(0o4002, 0o4000), Some(2));
    assert_eq!(after_poll(1, Failure::Signal), PollStep::Read);
    assert_eq!(after_poll(0, Failure::Signal), PollStep::Nothing);
    assert_eq!(after_poll(-1, Failure::Signal), PollStep::Retry);
    assert_eq!(after_poll(-1, Failure::Other), PollStep::Nothing);
    assert_eq!(after_timed_read(1, 9), Some(9));
    assert_eq!(after_timed_read(0, 9), None);
    assert_eq!(after_plain_read(1, 9), ReadByte::Byte(9));
    assert_eq!(after_plain_read(0, 9), ReadByte::Eof);
    assert_eq!(after_plain_read(-1, 9), ReadByte::Error);
}

#[test]
fn terminal_queries() {
    assert!(term::is_tty(1));
    assert!(!term::is_tty(0));
    assert!(term::supports_color(false, true, None));
    assert!(term::supports_color(false, true, Some("xterm")));
    assert!(!term::supports_color(false, true, Some("dumb")));
    assert!(!term::supports_color(true, true, Some("xterm")));
    assert!(!term::supports_color(false, false, Some("xterm")));
    assert_eq!(term::size(0, 80, 24), Some((80, 24)));
    assert_eq!(term::size(0, 0, 24), None);
    assert_eq!(term::size(0, 80, 0), None);
    assert_eq!(term::size(-1, 80, 24), None);
    assert_eq!(term::width(0, 0), 80);
    assert_eq!(term::width(0, 40), 40);
    assert_eq!(term::size_or_default(None), (80, 24));
}

#[test]
fn error_messages() {
    assert_eq!(Error::Io("broken pipe".to_string()).message(), "I/O error: broken pipe");
    assert_eq!(
        NulError { position: 17 }.message(),
        "nul byte found in provided data at position: 17"
    );
    assert_eq!(
        Error::from(NulError { position: 17 }).message(),
        "interior NUL byte in string: nul byte found in provided data at position: 17"
    );
    match Error::from(WNulError { index: 3 }) {
        Error::Nul(e) => assert_eq!(e.nul_position(), 3),
        other => panic!("unexpected {other:?}"),
    }
    assert_eq!(Error::Null.message(), "libedit returned an unexpected null pointer");
    assert_eq!(
        Error::operation(11, -2147483648).message(),
        "libedit operation 11 failed with code -2147483648"
    );
    assert_eq!(Error::operation(0, -1).message(), "libedit operation 0 failed with code -1");
    assert_eq!(Error::NotFound.message(), "history entry not found");
    assert_eq!(Error::Interrupted.message(), "read interrupted by signal");
    assert_eq!(Error::Eof.message(), "end of file");
    assert!(check_c_string(b"abc").is_ok());
    assert_eq!(check_c_string(b"ab\0c\0").unwrap_err().position, 2);
    assert!(operation_result(4, 0).is_ok());
}

#[test]
fn trace_lines() {
    assert_eq!(
        visualize(b"a\x1b[0m\r\n\t\x01\x7f\xe9"),
        "a<ESC>[0m\\r\\n\\t<\\x01><\\x7f><\\xe9>"
    );
    assert_eq!(bytes_line("out", b"\x1b7"), "[out] <ESC>7\n");
    assert_eq!(note_line("skip"), "* skip\n");
}

/// Types `input` into an editor that suggests "lp" for the line "he", and returns the line.
fn line_with_suggestion(input: &[u8]) -> String {
    let mut el = EditLine::new("test").unwrap();
    el.start_readline("> ", 0, 80);
    let mut line: Vec<WChar> = Vec::new();
    for &b in input {
        let text = line_text(&line);
        let ctx = LineContext::new(&text, line.len(), line.len(), el.term_cols());
        let hint = if ctx.line() == "he" { "lp" } else { "" };
        assert!(matches!(el.keys().begin(), Step::ReadLead));
        let shown = el.keys().show_hint(&ctx, hint);
        assert_eq!(shown.unwrap_or_default(), hint);
        match el.keys().on_lead(ReadByte::Byte(b)) {
            Step::Deliver { unit, push } => {
                line.push(unit);
                line.extend(push.iter().take_while(|&&u| u != 0));
            }
            other => panic!("unexpected {other:?}"),
        }
    }
    let count = line.len() as i32;
    line.push(0);
    el.finish_readline(Some(line), count, false).unwrap()
}

#[test]
fn invalid_input_is_replaced_in_the_line() {
    let mut el = EditLine::new("test").unwrap();
    for (input, text) in [
        (&[0xff, b'\n'][..], "\u{FFFD}"),
        (&[b'a', 0xc3, b'b', b'\n'][..], "a\u{FFFD}b"),
        (&[0xe2, 0x82, b'\n'][..], "\u{FFFD}"),
        (&[0xc0, 0x80, 0xc3, 0xa9, b'\n'][..], "\u{FFFD}é"),
    ] {
        el.start_readline("> ", 0, 80);
        let mut line: Vec<WChar> = Vec::new();
        let mut bytes = input.iter().copied();
        let mut step = el.keys().begin();
        while line.last() != Some(&('\n' as WChar)) {
            step = match step {
                Step::ReadLead => el.keys().on_lead(ReadByte::Byte(bytes.next().unwrap())),
                Step::TakeLead(b) => el.keys().on_lead(ReadByte::Byte(b)),
                Step::ReadMore => el.keys().on_more(ReadByte::Byte(bytes.next().unwrap())),
                Step::Deliver { unit, .. } => {
                    line.push(unit);
                    el.keys().begin()
                }
                other => panic!("unexpected {other:?}"),
            };
        }
        el.keys().cancel();
        let count = line.len() as i32;
        line.push(0);
        assert_eq!(el.finish_readline(Some(line), count, false).unwrap(), text);
    }
}

#[test]
fn suggestion_accept_commits_suffix() {
    // "he" + Ctrl-F (accept) + Enter
    assert_eq!(line_with_suggestion(b"he\x06\n").trim(), "help");
}

#[test]
fn suggestion_not_in_line_without_accept() {
    // "he" + Enter (no accept)
    assert_eq!(line_with_suggestion(b"he\n").trim(), "he");
}

/// Types `input` into an editor whose Tab key completes over `words`, and returns the line
/// and how often candidates were listed.
fn line_with_completion(input: &str, words: &[&str]) -> (String, usize) {
    let mut el = EditLine::new("test").unwrap();
    let mut line = String::new();
    let mut lists = 0;
    for c in input.chars() {
        if c == '\t' {
            let ctx = Line::new(line.clone(), line.len());
            let matches: Vec<String> =
                words.iter().filter(|w| w.starts_with(ctx.word())).map(|w| w.to_string()).collect();
            let done = Completion::new(matches).resolve(ctx.word());
            if let Some(units) = insertion(&done.insert) {
                line.push_str(&line_text(&units[..units.len() - 1]));
            }
            lists += done.list as usize;
        } else {
            line.push(c);
        }
    }
    let units = wide(&line);
    let count = units.len() as i32 - 1;
    (el.finish_readline(Some(units), count, false).unwrap(), lists)
}

#[test]
fn completion_inserts_unambiguous_match() {
    // "se" + Tab + Enter
    let (line, lists) = line_with_completion("se\t\n", &["show", "set"]);
    assert!(line.trim_start().starts_with("set"));
    assert_eq!(lists, 0);
}

#[test]
fn completion_lists_styled_candidates() {
    // "s" + Tab (list show/set) + "et" + Enter
    let (line, lists) = line_with_completion("s\tet\n", &["show", "set"]);
    assert_eq!(line.trim(), "set");
    assert_eq!(lists, 1);
}
