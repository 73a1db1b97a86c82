//! What follows an `ESC` on the terminal: the sequences that the editor acts on
//! itself, and the queue that replays all others.

use vstd::prelude::*;

verus! {

// ---------------------------------------------------------------------------
// Replay queue
// ---------------------------------------------------------------------------

/// The number of bytes that a [`Pending`] queue holds.
pub const PENDING_CAPACITY: usize = 8;

/// A short queue of bytes that were read ahead and turned out to belong to some
/// other key; they are handed on in order before anything else is read.
#[derive(Debug)]
pub struct Pending {
    buf: [u8; 8],
    head: u8,
    len: u8,
}

impl View for Pending {
    type V = Seq<u8>;

    closed spec fn view(&self) -> Seq<u8> {
        Seq::new(self.len as nat, |i: int| self.buf@[(self.head + i) % 8])
    }
}

impl Pending {
    /// The queue lies within its buffer.
    pub closed spec fn valid(&self) -> bool {
        self.head < 8 && self.len <= 8
    }

    /// An empty queue.
    pub fn new() -> (r: Self)
        ensures
            r.valid(),
            r@ == Seq::<u8>::empty(),
    {
        Pending { buf: [0, 0, 0, 0, 0, 0, 0, 0], head: 0, len: 0 }
    }

    /// Appends `b`. A full queue is left as it is.
    pub fn push(&mut self, b: u8)
        requires
            old(self).valid(),
        ensures
            final(self).valid(),
            final(self)@ == (if old(self)@.len() < PENDING_CAPACITY {
                old(self)@.push(b)
            } else {
                old(self)@
            }),
    {
        if self.len >= 8 {
            return;
        }
        let tail: usize = (self.head as usize + self.len as usize) % 8;
        self.buf[tail] = b;
        self.len = self.len + 1;
        assert forall|i: int| 0 <= i < old(self).len implies #[trigger] self@[i] == old(self)@[i] by {
            lemma_ring(old(self).head as int, i, old(self).len as int);
        }
        assert(self@ =~= old(self)@.push(b));
    }

    /// Takes the byte at the front, or gives `None` where there is none.
    pub fn pop(&mut self) -> (r: Option<u8>)
        requires
            old(self).valid(),
        ensures
            final(self).valid(),
            old(self)@.len() == 0 ==> r is None && final(self)@ == old(self)@,
            old(self)@.len() > 0 ==> r == Some(old(self)@[0]) && final(self)@ == old(self)@.skip(1),
    {
        if self.len == 0 {
            return None;
        }
        let b: u8 = self.buf[self.head as usize];
        self.head = (self.head + 1) % 8;
        self.len = self.len - 1;
        assert forall|i: int| 0 <= i < self.len implies #[trigger] self@[i] == old(self)@[i + 1] by {
            lemma_ring_next(old(self).head as int, i);
        }
        assert(self@ =~= old(self)@.skip(1));
        Some(b)
    }
}

impl Default for Pending {
    fn default() -> (r: Self)
        ensures
            r.valid(),
            r@ == Seq::<u8>::empty(),
    {
        Pending::new()
    }
}

/// Two places of the ring that are less than its size apart are different.
proof fn lemma_ring(head: int, i: int, j: int)
    requires
        0 <= head < 8,
        0 <= i < j < 8,
    ensures
        (head + i) % 8 != (head + j) % 8,
{
}

/// One place on from the head of the ring.
proof fn lemma_ring_next(head: int, i: int)
    requires
        0 <= head < 8,
        0 <= i < 8,
    ensures
        ((head + 1) % 8 + i) % 8 == (head + (i + 1)) % 8,
{
}

// ---------------------------------------------------------------------------
// Classification
// ---------------------------------------------------------------------------

/// What the bytes after an `ESC` are.
pub enum EscClass {
    /// The start of a sequence that the editor acts on; the next byte decides.
    Unfinished,
    /// A right arrow, `[ C` or `O C`.
    RightArrow,
    /// The start of a bracketed paste, `[ 200 ~`.
    PasteStart,
    /// Anything else.
    Other,
}

/// The bytes of `[ 200 ~`.
pub open spec fn paste_start() -> Seq<u8> {
    seq![0x5b, 0x32, 0x30, 0x30, 0x7e]
}

/// What `bytes`, read after an `ESC`, are.
pub open spec fn classify(bytes: Seq<u8>) -> EscClass {
    let csi = seq![0x5bu8, 0x43u8];
    let ss3 = seq![0x4fu8, 0x43u8];
    if bytes == csi || bytes == ss3 {
        EscClass::RightArrow
    } else if bytes == paste_start() {
        EscClass::PasteStart
    } else if bytes.is_prefix_of(csi) || bytes.is_prefix_of(ss3) || bytes.is_prefix_of(
        paste_start(),
    ) {
        EscClass::Unfinished
    } else {
        EscClass::Other
    }
}

/// The outcome of reading what follows an `ESC`, with the bytes that were read.
pub enum EscView {
    RightArrow(Seq<u8>),
    PasteStart,
    Other(Seq<u8>),
}

/// What one more read makes of the bytes `seen` after an `ESC`: `None` where the
/// next byte decides. A read that gives no byte in time ends the sequence.
pub open spec fn escape_outcome(seen: Seq<u8>, read: Option<u8>) -> Option<EscView> {
    match read {
        None => Some(EscView::Other(seen)),
        Some(b) => match classify(seen.push(b)) {
            EscClass::Unfinished => None,
            EscClass::RightArrow => Some(EscView::RightArrow(seen.push(b))),
            EscClass::PasteStart => Some(EscView::PasteStart),
            EscClass::Other => Some(EscView::Other(seen.push(b))),
        },
    }
}

/// The outcome of reading what follows an `ESC`.
#[derive(Debug)]
pub enum EscSeq {
    /// A right arrow, with its bytes for the case that there is no hint to accept.
    RightArrow(Vec<u8>),
    /// The start of a bracketed paste.
    PasteStart,
    /// Anything else, with the bytes that were read.
    Other(Vec<u8>),
}

impl View for EscSeq {
    type V = EscView;

    open spec fn view(&self) -> EscView {
        match self {
            EscSeq::RightArrow(bytes) => EscView::RightArrow(bytes@),
            EscSeq::PasteStart => EscView::PasteStart,
            EscSeq::Other(bytes) => EscView::Other(bytes@),
        }
    }
}

impl EscView {
    /// The bytes to replay where the sequence is not acted on: all that were read,
    /// but none for a paste.
    pub open spec fn trailing(self) -> Seq<u8> {
        match self {
            EscView::RightArrow(bytes) => bytes,
            EscView::PasteStart => Seq::empty(),
            EscView::Other(bytes) => bytes,
        }
    }
}

impl EscSeq {
    /// The bytes to replay where the sequence is not acted on.
    pub fn trailing(&self) -> (r: Vec<u8>)
        ensures
            r@ == self@.trailing(),
    {
        match self {
            EscSeq::RightArrow(bytes) => vstd::slice::slice_to_vec(bytes.as_slice()),
            EscSeq::PasteStart => Vec::new(),
            EscSeq::Other(bytes) => vstd::slice::slice_to_vec(bytes.as_slice()),
        }
    }
}

/// Reads and classifies what follows an `ESC`, one byte at a time.
#[derive(Debug)]
pub struct EscapeReader {
    seen: Vec<u8>,
}

impl View for EscapeReader {
    type V = Seq<u8>;

    closed spec fn view(&self) -> Seq<u8> {
        self.seen@
    }
}

impl EscapeReader {
    /// A reader that has read nothing after the `ESC`.
    pub fn new() -> (r: Self)
        ensures
            r@ == Seq::<u8>::empty(),
            classify(r@) is Unfinished,
    {
        let r = EscapeReader { seen: Vec::new() };
        assert(r@.is_prefix_of(paste_start()));
        r
    }

    /// Takes the result of one read, a byte or `None` where none came in time.
    /// Gives the outcome, or `None` where another read is needed.
    pub fn feed(&mut self, read: Option<u8>) -> (r: Option<EscSeq>)
        requires
            classify(old(self)@) is Unfinished,
        ensures
            match r {
                Some(seq) => escape_outcome(old(self)@, read) == Some(seq@),
                None => escape_outcome(old(self)@, read) is None,
            },
            r is None ==> read is Some && final(self)@ == old(self)@.push(read->Some_0) && classify(
                final(self)@,
            ) is Unfinished,
    {
        let b: u8 = match read {
            Some(b) => b,
            None => {
                return Some(EscSeq::Other(self.take()));
            },
        };
        let at: usize = self.seen.len();
        self.seen.push(b);
        let ghost bytes = self.seen@;
        proof {
            lemma_unfinished(old(self)@);
        }
        let first: u8 = self.seen[0];
        if at == 0 {
            if b == 0x5b || b == 0x4f {
                proof {
                    lemma_classify_first(b);
                    assert(bytes =~= seq![b]);
                }
                return None;
            }
            proof {
                lemma_classify_first(b);
                assert(bytes =~= seq![b]);
            }
            return Some(EscSeq::Other(self.take()));
        }
        if at == 1 {
            proof {
                lemma_classify_second(first, b);
                assert(bytes =~= seq![first, b]);
            }
            if b == 0x43 {
                return Some(EscSeq::RightArrow(self.take()));
            }
            if b == 0x32 && first == 0x5b {
                return None;
            }
            return Some(EscSeq::Other(self.take()));
        }
        proof {
            lemma_classify_paste(old(self)@, b);
        }
        let expected: u8 = if at == 4 {
            0x7e
        } else {
            0x30
        };
        if b != expected {
            return Some(EscSeq::Other(self.take()));
        }
        if at == 4 {
            return Some(EscSeq::PasteStart);
        }
        None
    }

    /// The bytes read so far.
    fn take(&self) -> (r: Vec<u8>)
        ensures
            r@ == self@,
    {
        vstd::slice::slice_to_vec(self.seen.as_slice())
    }
}

/// A sequence that the next byte decides is short: empty, one introducer byte, or a
/// proper start of the paste marker.
pub proof fn lemma_unfinished(bytes: Seq<u8>)
    requires
        classify(bytes) is Unfinished,
    ensures
        bytes.len() <= 4,
        bytes.len() == 1 ==> bytes[0] == 0x5b || bytes[0] == 0x4f,
        bytes.len() >= 2 ==> bytes.is_prefix_of(paste_start()),
        forall|i: int| 0 <= i < bytes.len() ==> #[trigger] bytes[i] < 0x80,
{
    let csi = seq![0x5bu8, 0x43u8];
    let ss3 = seq![0x4fu8, 0x43u8];
    if bytes.is_prefix_of(csi) && bytes.len() == 2 {
        assert(bytes =~= csi);
    }
    if bytes.is_prefix_of(ss3) && bytes.len() == 2 {
        assert(bytes =~= ss3);
    }
    if bytes.is_prefix_of(paste_start()) && bytes.len() == 5 {
        assert(bytes =~= paste_start());
    }
    assert forall|i: int| 0 <= i < bytes.len() implies #[trigger] bytes[i] < 0x80 by {
        if bytes.is_prefix_of(csi) {
            assert(bytes[i] == csi[i]);
        } else if bytes.is_prefix_of(ss3) {
            assert(bytes[i] == ss3[i]);
        } else {
            assert(bytes[i] == paste_start()[i]);
        }
    }
}

/// The class of one byte.
pub proof fn lemma_classify_first(b: u8)
    ensures
        b == 0x5b || b == 0x4f ==> classify(seq![b]) is Unfinished,
        b != 0x5b && b != 0x4f ==> classify(seq![b]) is Other,
{
    let csi = seq![0x5bu8, 0x43u8];
    let ss3 = seq![0x4fu8, 0x43u8];
    assert(seq![b].len() == 1);
    assert(seq![b][0] == b);
    assert(seq![b] != csi && seq![b] != ss3 && seq![b] != paste_start()) by {
        assert(csi.len() == 2 && ss3.len() == 2 && paste_start().len() == 5);
    }
}

/// The class of an introducer byte and the byte after it.
pub proof fn lemma_classify_second(a: u8, b: u8)
    requires
        a == 0x5b || a == 0x4f,
    ensures
        b == 0x43 ==> classify(seq![a, b]) is RightArrow,
        b == 0x32 && a == 0x5b ==> classify(seq![a, b]) is Unfinished,
        b != 0x43 && !(b == 0x32 && a == 0x5b) ==> classify(seq![a, b]) is Other,
{
    let s = seq![a, b];
    let csi = seq![0x5bu8, 0x43u8];
    let ss3 = seq![0x4fu8, 0x43u8];
    assert(s.len() == 2 && s[0] == a && s[1] == b);
    assert(s != paste_start()) by {
        assert(paste_start().len() == 5);
    }
    if b == 0x43 {
        if a == 0x5b {
            assert(s =~= csi);
        } else {
            assert(s =~= ss3);
        }
    } else {
        assert(csi[1] == 0x43 && ss3[1] == 0x43);
        assert(s != csi && s != ss3);
        assert(!s.is_prefix_of(csi) && !s.is_prefix_of(ss3));
        assert(paste_start()[0] == 0x5b && paste_start()[1] == 0x32);
        if b == 0x32 && a == 0x5b {
            assert(s.is_prefix_of(paste_start()));
        } else {
            assert(!s.is_prefix_of(paste_start()));
        }
    }
}

/// The class of a start of the paste marker and the byte after it.
proof fn lemma_classify_paste(seen: Seq<u8>, b: u8)
    requires
        2 <= seen.len() <= 4,
        seen.is_prefix_of(paste_start()),
    ensures
        b != paste_start()[seen.len() as int] ==> classify(seen.push(b)) is Other,
        b == paste_start()[seen.len() as int] && seen.len() < 4 ==> classify(
            seen.push(b),
        ) is Unfinished,
        b == paste_start()[seen.len() as int] && seen.len() == 4 ==> classify(
            seen.push(b),
        ) is PasteStart,
        seen.len() < 4 ==> paste_start()[seen.len() as int] == 0x30,
        seen.len() == 4 ==> paste_start()[seen.len() as int] == 0x7e,
{
    let s = seen.push(b);
    let csi = seq![0x5bu8, 0x43u8];
    let ss3 = seq![0x4fu8, 0x43u8];
    assert(csi.len() == 2 && ss3.len() == 2 && s.len() >= 3);
    assert(s[seen.len() as int] == b);
    if b == paste_start()[seen.len() as int] {
        assert forall|i: int| 0 <= i < s.len() implies s[i] == paste_start()[i] by {
            if i < seen.len() {
                assert(seen[i] == paste_start()[i]);
            }
        }
        assert(s.is_prefix_of(paste_start()));
        if seen.len() == 4 {
            assert(s =~= paste_start());
        } else {
            assert(s != paste_start());
        }
    } else {
        assert(s != paste_start());
        assert(!s.is_prefix_of(paste_start()));
    }
}

/// The classes of the starts of the paste marker.
pub proof fn lemma_classify_start(n: int)
    requires
        1 <= n <= paste_start().len(),
    ensures
        n < paste_start().len() ==> classify(paste_start().take(n)) is Unfinished,
        n == paste_start().len() ==> classify(paste_start().take(n)) is PasteStart,
{
    let m = paste_start();
    if n == 1 {
        assert(m.take(1) =~= seq![0x5bu8]);
        lemma_classify_first(0x5b);
    } else if n == 2 {
        assert(m.take(2) =~= seq![0x5bu8, 0x32u8]);
        lemma_classify_second(0x5b, 0x32);
    } else {
        assert(m.take(n - 1).push(m[n - 1]) =~= m.take(n));
        lemma_classify_paste(m.take(n - 1), m[n - 1]);
    }
}

/// Which sequences after an `ESC` are known: `[ C` and `O C` are the right arrow, and
/// `[ 2 0 0 ~` begins a paste. What can still become one of them is unfinished, and everything
/// else is none of them.
pub proof fn law_known_sequences(bytes: Seq<u8>)
    ensures
        classify(bytes) is RightArrow <==> bytes == seq![0x5bu8, 0x43] || bytes == seq![
            0x4fu8,
            0x43,
        ],
        classify(bytes) is PasteStart <==> bytes == seq![0x5bu8, 0x32, 0x30, 0x30, 0x7e],
        classify(bytes) is Unfinished <==> bytes == Seq::<u8>::empty() || bytes == seq![0x5bu8]
            || bytes == seq![0x4fu8] || bytes == seq![0x5bu8, 0x32] || bytes == seq![
            0x5bu8,
            0x32,
            0x30,
        ] || bytes == seq![0x5bu8, 0x32, 0x30, 0x30],
{
    let csi = seq![0x5bu8, 0x43];
    let ss3 = seq![0x4fu8, 0x43];
    let paste = paste_start();
    assert(csi.len() == 2 && ss3.len() == 2 && paste.len() == 5);
    assert(paste =~= seq![0x5bu8, 0x32, 0x30, 0x30, 0x7e]);
    if classify(bytes) is Unfinished {
        lemma_unfinished(bytes);
        if bytes.len() == 0 {
            assert(bytes =~= Seq::<u8>::empty());
        } else if bytes.len() == 1 {
            assert(bytes =~= seq![bytes[0]]);
        } else {
            assert(bytes =~= paste.take(bytes.len() as int));
            assert(paste.take(2) =~= seq![0x5bu8, 0x32]);
            assert(paste.take(3) =~= seq![0x5bu8, 0x32, 0x30]);
            assert(paste.take(4) =~= seq![0x5bu8, 0x32, 0x30, 0x30]);
        }
    }
    assert(Seq::<u8>::empty().is_prefix_of(paste));
    assert(paste.take(1) =~= seq![0x5bu8]);
    assert(paste.take(2) =~= seq![0x5bu8, 0x32]);
    assert(paste.take(3) =~= seq![0x5bu8, 0x32, 0x30]);
    assert(paste.take(4) =~= seq![0x5bu8, 0x32, 0x30, 0x30]);
    assert(ss3.take(1) =~= seq![0x4fu8]);
    assert(seq![0x5bu8, 0x32][1] == 0x32 && csi[1] == 0x43);
    assert(seq![0x5bu8].len() == 1 && seq![0x4fu8].len() == 1);
    assert(seq![0x5bu8, 0x32, 0x30].len() == 3 && seq![0x5bu8, 0x32, 0x30, 0x30].len() == 4);
}

/// What a read after an `ESC` comes to: the sequence that the byte completes, with all bytes
/// that were read, or nothing yet. A read that gives none in time ends the sequence where it
/// stands.
pub proof fn law_outcome_of_a_read(seen: Seq<u8>, b: u8)
    ensures
        escape_outcome(seen, None) == Some(EscView::Other(seen)),
        classify(seen.push(b)) is Unfinished <==> escape_outcome(seen, Some(b)) is None,
        classify(seen.push(b)) is RightArrow <==> escape_outcome(seen, Some(b)) == Some(
            EscView::RightArrow(seen.push(b)),
        ),
        classify(seen.push(b)) is PasteStart <==> escape_outcome(seen, Some(b)) == Some(
            EscView::PasteStart,
        ),
        classify(seen.push(b)) is Other <==> escape_outcome(seen, Some(b)) == Some(
            EscView::Other(seen.push(b)),
        ),
{
}

/// The bytes of a sequence that is not acted on are all that were read; a paste leaves none.
/// What is handed out means what it says.
pub proof fn law_bytes_of_a_sequence(bytes: Seq<u8>, seq: EscSeq)
    ensures
        EscView::RightArrow(bytes).trailing() == bytes,
        EscView::Other(bytes).trailing() == bytes,
        EscView::PasteStart.trailing().len() == 0,
        match seq {
            EscSeq::RightArrow(read) => seq@ == EscView::RightArrow(read@),
            EscSeq::PasteStart => seq@ == EscView::PasteStart,
            EscSeq::Other(read) => seq@ == EscView::Other(read@),
        },
{
}

} // verus!
