//! A readable log of what is sent to the terminal.

use vstd::prelude::*;

verus! {

/// The digit of a number below sixteen, in lower case.
pub open spec fn hex_digit(d: nat) -> char {
    if d < 10 {
        (d + '0' as nat) as char
    } else {
        (d - 10 + 'a' as nat) as char
    }
}

/// How byte `b` is shown: control characters by a name, everything that is not
/// printable ASCII in hexadecimal.
pub open spec fn shown_byte(b: u8) -> Seq<char> {
    if b == 0x1b {
        "<ESC>"@
    } else if b == 0x0a {
        "\\n"@
    } else if b == 0x0d {
        "\\r"@
    } else if b == 0x09 {
        "\\t"@
    } else if 0x20 <= b <= 0x7e {
        seq![b as char]
    } else {
        "<\\x"@ + seq![hex_digit(b as nat / 16), hex_digit(b as nat % 16)] + ">"@
    }
}

/// How `bytes` are shown.
pub open spec fn shown(bytes: Seq<u8>) -> Seq<char>
    decreases bytes.len(),
{
    if bytes.len() == 0 {
        Seq::empty()
    } else {
        shown(bytes.drop_last()) + shown_byte(bytes.last())
    }
}

/// The digit of a number below sixteen.
fn hex(d: u8) -> (r: char)
    requires
        d < 16,
    ensures
        r == hex_digit(d as nat),
{
    if d < 10 {
        (0x30 + d) as char
    } else {
        (0x61 + (d - 10)) as char
    }
}

/// `bytes` with control characters made visible.
pub fn visualize(bytes: &[u8]) -> (r: String)
    ensures
        r@ == shown(bytes@),
{
    let mut out: String = String::new();
    let mut i: usize = 0;
    assert(out@ =~= shown(bytes@.take(0)));
    while i < bytes.len()
        invariant
            i <= bytes@.len(),
            out@ == shown(bytes@.take(i as int)),
        decreases bytes@.len() - i,
    {
        let b: u8 = bytes[i];
        let ghost before = out@;
        match b {
            0x1b => {
                out.append("<ESC>");
            },
            0x0a => {
                out.append("\\n");
            },
            0x0d => {
                out.append("\\r");
            },
            0x09 => {
                out.append("\\t");
            },
            0x20..=0x7e => {
                out.push(b as char);
            },
            _ => {
                out.append("<\\x");
                out.push(hex(b / 16));
                out.push(hex(b % 16));
                out.append(">");
            },
        }
        proof {
            assert(out@ =~= before + shown_byte(b));
            assert(bytes@.take(i + 1).drop_last() =~= bytes@.take(i as int));
        }
        i = i + 1;
    }
    assert(bytes@.take(i as int) =~= bytes@);
    out
}

/// The log line for `data` sent under `tag`.
pub fn bytes_line(tag: &str, data: &[u8]) -> (r: String)
    ensures
        r@ == seq!['['] + tag@ + "] "@ + shown(data@) + seq!['\n'],
{
    let mut out: String = String::new();
    out.push('[');
    out.append(tag);
    out.append("] ");
    out.append(visualize(data).as_str());
    out.push('\n');
    assert(out@ =~= seq!['['] + tag@ + "] "@ + shown(data@) + seq!['\n']);
    out
}

/// The log line for a note.
pub fn note_line(msg: &str) -> (r: String)
    ensures
        r@ == "* "@ + msg@ + seq!['\n'],
{
    let mut out: String = String::new();
    out.append("* ");
    out.append(msg);
    out.push('\n');
    assert(out@ =~= "* "@ + msg@ + seq!['\n']);
    out
}

/// A printable ASCII character.
pub open spec fn printable(c: char) -> bool {
    ' ' <= c <= '~'
}

/// What is shown can be read: it holds printable ASCII only, whatever the bytes are.
pub proof fn law_shown_is_printable(bytes: Seq<u8>)
    ensures
        forall|i: int| 0 <= i < shown(bytes).len() ==> printable(#[trigger] shown(bytes)[i]),
    decreases bytes.len(),
{
    if bytes.len() > 0 {
        law_shown_is_printable(bytes.drop_last());
        lemma_shown_byte(bytes.last());
        let head = shown(bytes.drop_last());
        let tail = shown_byte(bytes.last());
        assert forall|i: int| 0 <= i < shown(bytes).len() implies printable(
            #[trigger] shown(bytes)[i],
        ) by {
            if i < head.len() {
                assert(shown(bytes)[i] == head[i]);
            } else {
                assert(shown(bytes)[i] == tail[i - head.len()]);
            }
        }
    }
}

/// How a byte is shown is printable.
proof fn lemma_shown_byte(b: u8)
    ensures
        forall|i: int| 0 <= i < shown_byte(b).len() ==> printable(#[trigger] shown_byte(b)[i]),
{
    reveal_strlit("<ESC>");
    reveal_strlit("\\n");
    reveal_strlit("\\r");
    reveal_strlit("\\t");
    reveal_strlit("<\\x");
    reveal_strlit(">");
    let hex = seq![hex_digit(b as nat / 16), hex_digit(b as nat % 16)];
    assert(hex[0] == hex_digit(b as nat / 16) && hex[1] == hex_digit(b as nat % 16));
}

/// How bytes are shown, one after the other: printable ASCII as it is, `ESC`, newline,
/// carriage return and tab by a name, and every other byte by its two hexadecimal digits.
pub proof fn law_how_bytes_are_shown(bytes: Seq<u8>, b: u8)
    ensures
        shown(Seq::empty()) == Seq::<char>::empty(),
        shown(bytes.push(b)) == shown(bytes) + (if 0x20 <= b <= 0x7e {
            seq![b as char]
        } else if b == 0x1b {
            seq!['<', 'E', 'S', 'C', '>']
        } else if b == 0x0a {
            seq!['\\', 'n']
        } else if b == 0x0d {
            seq!['\\', 'r']
        } else if b == 0x09 {
            seq!['\\', 't']
        } else {
            seq![
                '<',
                '\\',
                'x',
                (if b / 16 < 10 {
                    0x30 + b / 16
                } else {
                    0x57 + b / 16
                }) as char,
                (if b % 16 < 10 {
                    0x30 + b % 16
                } else {
                    0x57 + b % 16
                }) as char,
                '>',
            ]
        }),
{
    reveal_strlit("<ESC>");
    reveal_strlit("\\n");
    reveal_strlit("\\r");
    reveal_strlit("\\t");
    reveal_strlit("<\\x");
    reveal_strlit(">");
    assert(bytes.push(b).drop_last() =~= bytes);
    assert("<ESC>"@ =~= seq!['<', 'E', 'S', 'C', '>']);
    assert("\\n"@ =~= seq!['\\', 'n']);
    assert("\\r"@ =~= seq!['\\', 'r']);
    assert("\\t"@ =~= seq!['\\', 't']);
    let (h, l) = (hex_digit(b as nat / 16), hex_digit(b as nat % 16));
    assert("<\\x"@ + seq![h, l] + ">"@ =~= seq!['<', '\\', 'x', h, l, '>']);
}

} // verus!
