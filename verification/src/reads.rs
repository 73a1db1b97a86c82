//! What the results of the system calls behind a read mean.
//!
//! A read of one byte can be cut short by a signal or fail because the terminal was
//! left in non-blocking mode. These functions say, for each result of `read`,
//! `poll` and `fcntl`, whether the byte is there, whether to try again, or what to
//! mend first.

use vstd::prelude::*;

use crate::keys::ReadByte;

verus! {

/// Why a system call failed.
#[derive(Debug, Clone, Copy, PartialEq, Eq, Structural)]
pub enum Failure {
    /// A signal came in (`EINTR`).
    Signal,
    /// There is nothing to read and the file is in non-blocking mode (`EAGAIN`).
    WouldBlock,
    /// Any other reason.
    Other,
}

/// What to do after one attempt to read the first byte of a key.
#[derive(Debug, Clone, Copy, PartialEq, Eq, Structural)]
pub enum ReadStep {
    /// The read is over.
    Done(ReadByte),
    /// Try again.
    Retry,
    /// Take the file out of non-blocking mode, then see [`after_unblock`].
    Unblock,
}

/// What one attempt means.
pub open spec fn attempt_step(
    n: isize,
    byte: u8,
    failure: Failure,
    terminating: bool,
) -> ReadStep {
    if n == 1 {
        ReadStep::Done(ReadByte::Byte(byte))
    } else if n == 0 {
        ReadStep::Done(ReadByte::Eof)
    } else {
        match failure {
            Failure::Signal => if terminating {
                ReadStep::Done(ReadByte::Interrupted)
            } else {
                ReadStep::Retry
            },
            Failure::WouldBlock => ReadStep::Unblock,
            Failure::Other => ReadStep::Done(ReadByte::Error),
        }
    }
}

/// What one attempt to read a byte means. `n` is what `read` returned, `byte` what it
/// stored, `failure` why it failed where it did, and `terminating` says that a signal
/// that ends the line came in during the attempt.
///
/// A signal that does not end the line, such as a change of the window size, only
/// means that the read is tried again.
pub fn after_read(n: isize, byte: u8, failure: Failure, terminating: bool) -> (r: ReadStep)
    ensures
        r == attempt_step(n, byte, failure, terminating),
{
    if n == 1 {
        return ReadStep::Done(ReadByte::Byte(byte));
    }
    if n == 0 {
        return ReadStep::Done(ReadByte::Eof);
    }
    match failure {
        Failure::Signal => {
            if terminating {
                ReadStep::Done(ReadByte::Interrupted)
            } else {
                ReadStep::Retry
            }
        },
        Failure::WouldBlock => ReadStep::Unblock,
        Failure::Other => ReadStep::Done(ReadByte::Error),
    }
}

/// What to do once the file has been taken out of non-blocking mode, or could not
/// be.
pub fn after_unblock(cleared: bool) -> (r: ReadStep)
    ensures
        r == (if cleared {
            ReadStep::Retry
        } else {
            ReadStep::Done(ReadByte::Error)
        }),
{
    if cleared {
        ReadStep::Retry
    } else {
        ReadStep::Done(ReadByte::Error)
    }
}

/// The flags that take a file out of non-blocking mode: `flags`, as `fcntl` returned
/// them, without `nonblock`. `None` where `fcntl` returned -1.
pub fn blocking_flags(flags: i32, nonblock: i32) -> (r: Option<i32>)
    ensures
        flags == -1 ==> r is None,
        flags != -1 ==> r == Some(flags & !nonblock),
{
    if flags == -1 {
        None
    } else {
        Some(flags & !nonblock)
    }
}

/// What to do after `poll` has waited for a byte.
#[derive(Debug, Clone, Copy, PartialEq, Eq, Structural)]
pub enum PollStep {
    /// Read the byte.
    Read,
    /// No byte came in time.
    Nothing,
    /// Wait again.
    Retry,
}

/// What one wait means. `ready` is what `poll` returned and `failure` why it failed
/// where it did. A signal only means that the wait begins anew.
pub fn after_poll(ready: i32, failure: Failure) -> (r: PollStep)
    ensures
        ready > 0 ==> r == PollStep::Read,
        ready == 0 ==> r == PollStep::Nothing,
        ready < 0 ==> r == (if failure == Failure::Signal {
            PollStep::Retry
        } else {
            PollStep::Nothing
        }),
{
    if ready < 0 && failure == Failure::Signal {
        PollStep::Retry
    } else if ready <= 0 {
        PollStep::Nothing
    } else {
        PollStep::Read
    }
}

/// The byte that a read after a wait gave. `n` is what `read` returned and `byte`
/// what it stored.
pub fn after_timed_read(n: isize, byte: u8) -> (r: Option<u8>)
    ensures
        n == 1 ==> r == Some(byte),
        n != 1 ==> r is None,
{
    if n == 1 {
        Some(byte)
    } else {
        None
    }
}

/// The result of a read in the middle of a character or of a paste, which is not
/// tried again.
pub fn after_plain_read(n: isize, byte: u8) -> (r: ReadByte)
    ensures
        n > 0 ==> r == ReadByte::Byte(byte),
        n == 0 ==> r == ReadByte::Eof,
        n < 0 ==> r == ReadByte::Error,
{
    if n > 0 {
        ReadByte::Byte(byte)
    } else if n == 0 {
        ReadByte::Eof
    } else {
        ReadByte::Error
    }
}

// ---------------------------------------------------------------------------
// Laws
// ---------------------------------------------------------------------------

/// The results of one attempt to read a byte, and, where the file had to be taken out of
/// non-blocking mode, whether that went well.
pub struct Attempt {
    pub n: isize,
    pub byte: u8,
    pub failure: Failure,
    pub terminating: bool,
    pub cleared: bool,
}

/// The attempt that a signal cuts short which does not end the line.
pub open spec fn disturbed(a: Attempt) -> bool {
    a.n < 0 && a.failure == Failure::Signal && !a.terminating
}

/// What trying again as long as is asked for comes to; `None` where the attempts do not
/// suffice.
pub open spec fn read_result(attempts: Seq<Attempt>) -> Option<ReadByte>
    decreases attempts.len(),
{
    if attempts.len() == 0 {
        None
    } else {
        let a = attempts[0];
        match attempt_step(a.n, a.byte, a.failure, a.terminating) {
            ReadStep::Done(read) => Some(read),
            ReadStep::Retry => read_result(attempts.skip(1)),
            ReadStep::Unblock => if a.cleared {
                read_result(attempts.skip(1))
            } else {
                Some(ReadByte::Error)
            },
        }
    }
}

/// Signals that do not end the line go unnoticed: however many come in first, the read
/// gives what it would have given without them.
pub proof fn law_disturbances_go_unnoticed(signals: Seq<Attempt>, rest: Seq<Attempt>)
    requires
        forall|i: int| 0 <= i < signals.len() ==> disturbed(#[trigger] signals[i]),
    ensures
        read_result(signals + rest) == read_result(rest),
    decreases signals.len(),
{
    if signals.len() == 0 {
        assert(signals + rest =~= rest);
    } else {
        assert(disturbed(signals[0]));
        let more = signals.skip(1);
        assert((signals + rest).skip(1) =~= more + rest);
        assert forall|i: int| 0 <= i < more.len() implies disturbed(#[trigger] more[i]) by {
            assert(more[i] == signals[i + 1]);
        }
        law_disturbances_go_unnoticed(more, rest);
    }
}

/// What one attempt means: a byte that came in is given, the end of the input is told, a
/// signal ends the read only where it ends the line, a file in non-blocking mode is mended
/// first, and any other failure is one of the read.
pub proof fn law_what_an_attempt_means(n: isize, byte: u8, failure: Failure, terminating: bool)
    ensures
        n == 1 ==> attempt_step(n, byte, failure, terminating) == ReadStep::Done(
            ReadByte::Byte(byte),
        ),
        n == 0 ==> attempt_step(n, byte, failure, terminating) == ReadStep::Done(ReadByte::Eof),
        n < 0 && failure == Failure::Signal && terminating ==> attempt_step(
            n,
            byte,
            failure,
            terminating,
        ) == ReadStep::Done(ReadByte::Interrupted),
        n < 0 && failure == Failure::Signal && !terminating ==> attempt_step(
            n,
            byte,
            failure,
            terminating,
        ) == ReadStep::Retry,
        n < 0 && failure == Failure::WouldBlock ==> attempt_step(n, byte, failure, terminating)
            == ReadStep::Unblock,
        n < 0 && failure == Failure::Other ==> attempt_step(n, byte, failure, terminating)
            == ReadStep::Done(ReadByte::Error),
{
}

/// However many signals that do not end the line and however often the file is found in
/// non-blocking mode, the byte that comes in at last is the result.
pub proof fn law_byte_comes_through(disturbances: Seq<Attempt>, last: Attempt)
    requires
        forall|i: int|
            0 <= i < disturbances.len() ==> (#[trigger] disturbances[i]).n < 0 && ((
            disturbances[i].failure == Failure::Signal && !disturbances[i].terminating) || (
            disturbances[i].failure == Failure::WouldBlock && disturbances[i].cleared)),
        last.n == 1,
    ensures
        read_result(disturbances.push(last)) == Some(ReadByte::Byte(last.byte)),
    decreases disturbances.len(),
{
    let all = disturbances.push(last);
    if disturbances.len() > 0 {
        assert(all[0] == disturbances[0]);
        let more = disturbances.skip(1);
        assert(all.skip(1) =~= more.push(last));
        assert forall|i: int| 0 <= i < more.len() implies (#[trigger] more[i]).n < 0 && ((
        more[i].failure == Failure::Signal && !more[i].terminating) || (more[i].failure
            == Failure::WouldBlock && more[i].cleared)) by {
            assert(more[i] == disturbances[i + 1]);
        }
        law_byte_comes_through(more, last);
    } else {
        assert(all[0] == last);
    }
}

} // verus!
