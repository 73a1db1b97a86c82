//! The errors of the library.

use vstd::prelude::*;
use vstd::std_specs::convert::{FromSpec, FromSpecImpl};

use crate::decimal::{decimal, push_i32, push_u64};
use crate::wstr::WNulError;

verus! {

/// A text handed to the library holds a NUL, which cannot stand inside a C string.
#[derive(Debug, Clone, Copy, PartialEq, Eq, Structural)]
pub struct NulError {
    /// The position of the first NUL.
    pub position: usize,
}

impl NulError {
    /// The position of the first NUL.
    pub fn nul_position(&self) -> (r: usize)
        ensures
            r == self.position,
    {
        self.position
    }

    /// What the error says, in words.
    pub fn message(&self) -> (r: String)
        ensures
            r@ == nul_text(*self),
    {
        let mut out: String = String::new();
        out.append("nul byte found in provided data at position: ");
        push_u64(&mut out, self.position as u64);
        assert(out@ =~= nul_text(*self));
        out
    }
}

/// What a NUL error says.
pub open spec fn nul_text(e: NulError) -> Seq<char> {
    "nul byte found in provided data at position: "@ + decimal(e.position as int)
}

/// What went wrong. One type serves the editor, the history and the tokenizer.
#[non_exhaustive]
#[derive(Debug)]
pub enum Error {
    /// Reading or writing failed, with the reason given.
    Io(String),
    /// A text holds a NUL.
    Nul(NulError),
    /// libedit gave a null pointer where it should not.
    Null,
    /// A libedit operation failed.
    Operation {
        /// The code of the operation, or `0` where there is none.
        op: i32,
        /// What libedit returned.
        code: i32,
    },
    /// There is no such history entry.
    NotFound,
    /// A signal such as Ctrl-C cut the read short.
    Interrupted,
    /// The input ended, as with Ctrl-D on an empty line.
    Eof,
}

/// The result of an operation of the library.
pub type Result<T> = std::result::Result<T, Error>;

/// What an error says.
pub open spec fn error_text(e: Error) -> Seq<char> {
    match e {
        Error::Io(reason) => "I/O error: "@ + reason@,
        Error::Nul(nul) => "interior NUL byte in string: "@ + nul_text(nul),
        Error::Null => "libedit returned an unexpected null pointer"@,
        Error::Operation { op, code } => "libedit operation "@ + decimal(op as int)
            + " failed with code "@ + decimal(code as int),
        Error::NotFound => "history entry not found"@,
        Error::Interrupted => "read interrupted by signal"@,
        Error::Eof => "end of file"@,
    }
}

impl Error {
    /// The failure of operation `op` with return value `code`.
    pub fn operation(op: i32, code: i32) -> (r: Self)
        ensures
            r == (Error::Operation { op, code }),
    {
        Error::Operation { op, code }
    }

    /// What the error says, in words.
    pub fn message(&self) -> (r: String)
        ensures
            r@ == error_text(*self),
    {
        let mut out: String = String::new();
        match self {
            Error::Io(reason) => {
                out.append("I/O error: ");
                out.append(reason.as_str());
            },
            Error::Nul(nul) => {
                out.append("interior NUL byte in string: ");
                let reason: String = nul.message();
                out.append(reason.as_str());
            },
            Error::Null => {
                out.append("libedit returned an unexpected null pointer");
            },
            Error::Operation { op, code } => {
                out.append("libedit operation ");
                push_i32(&mut out, *op);
                out.append(" failed with code ");
                push_i32(&mut out, *code);
            },
            Error::NotFound => {
                out.append("history entry not found");
            },
            Error::Interrupted => {
                out.append("read interrupted by signal");
            },
            Error::Eof => {
                out.append("end of file");
            },
        }
        assert(out@ =~= error_text(*self));
        out
    }
}

impl From<NulError> for Error {
    fn from(e: NulError) -> (r: Self) {
        Error::Nul(e)
    }
}

impl FromSpecImpl<NulError> for Error {
    open spec fn obeys_from_spec() -> bool {
        true
    }

    open spec fn from_spec(e: NulError) -> Self {
        Error::Nul(e)
    }
}

impl From<WNulError> for Error {
    fn from(e: WNulError) -> (r: Self) {
        Error::Nul(NulError { position: e.nul_position() })
    }
}

impl FromSpecImpl<WNulError> for Error {
    open spec fn obeys_from_spec() -> bool {
        true
    }

    open spec fn from_spec(e: WNulError) -> Self {
        Error::Nul(NulError { position: e.index })
    }
}

/// Checks that `bytes` can become a C string: gives the position of the first NUL
/// where they hold one.
pub fn check_c_string(bytes: &[u8]) -> (r: std::result::Result<(), NulError>)
    ensures
        match r {
            Ok(()) => !bytes@.contains(0),
            Err(e) => {
                &&& e.position < bytes@.len()
                &&& bytes@[e.position as int] == 0
                &&& forall|i: int| 0 <= i < e.position ==> bytes@[i] != 0
            },
        },
{
    let mut i: usize = 0;
    while i < bytes.len()
        invariant
            i <= bytes@.len(),
            forall|j: int| 0 <= j < i ==> bytes@[j] != 0,
        decreases bytes@.len() - i,
    {
        if bytes[i] == 0 {
            return Err(NulError { position: i });
        }
        i = i + 1;
    }
    Ok(())
}

/// `Ok` where a libedit operation returned 0, and its failure otherwise.
pub fn operation_result(op: i32, rc: i32) -> (r: Result<()>)
    ensures
        rc == 0 ==> r is Ok,
        rc != 0 ==> r == Err::<(), Error>(Error::Operation { op, code: rc }),
{
    if rc != 0 {
        return Err(Error::operation(op, rc));
    }
    Ok(())
}

/// What the errors say.
pub proof fn law_error_texts(e: Error)
    ensures
        match e {
            Error::Io(reason) => error_text(e) == "I/O error: "@ + reason@,
            Error::Nul(nul) => error_text(e) == "interior NUL byte in string: "@ + (
            "nul byte found in provided data at position: "@ + decimal(nul.position as int)),
            Error::Null => error_text(e) == "libedit returned an unexpected null pointer"@,
            Error::Operation { op, code } => error_text(e) == "libedit operation "@ + decimal(
                op as int,
            ) + " failed with code "@ + decimal(code as int),
            Error::NotFound => error_text(e) == "history entry not found"@,
            Error::Interrupted => error_text(e) == "read interrupted by signal"@,
            Error::Eof => error_text(e) == "end of file"@,
        },
{
}

/// A NUL error keeps its position as an error of the library, whichever string it is of.
pub proof fn law_nul_errors_keep_their_position(e: NulError, w: WNulError)
    ensures
        <Error as FromSpec<NulError>>::obeys_from_spec(),
        <Error as FromSpec<NulError>>::from_spec(e) == Error::Nul(e),
        <Error as FromSpec<WNulError>>::obeys_from_spec(),
        <Error as FromSpec<WNulError>>::from_spec(w) == Error::Nul(NulError { position: w.index }),
{
}

} // verus!
