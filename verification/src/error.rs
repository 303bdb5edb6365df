//! Errors.

use vstd::prelude::*;
use vstd::string::*;

use crate::bytes::views;
use crate::text::{decimal, push_decimal};

verus! {

/// What sort of failure a device or a stream reported.
#[derive(Debug, Clone, Copy, PartialEq, Eq, Structural)]
pub enum IoKind {
    /// Something was not found.
    NotFound,
    /// What was asked is not permitted.
    PermissionDenied,
    /// A connection was refused.
    ConnectionRefused,
    /// A connection was reset.
    ConnectionReset,
    /// A connection was ended.
    ConnectionAborted,
    /// There is no connection.
    NotConnected,
    /// An address is in use.
    AddrInUse,
    /// An address is not available.
    AddrNotAvailable,
    /// A pipe was closed.
    BrokenPipe,
    /// Something is there already.
    AlreadyExists,
    /// It would have to wait.
    WouldBlock,
    /// What was asked makes no sense.
    InvalidInput,
    /// What was read makes no sense.
    InvalidData,
    /// It took too long.
    TimedOut,
    /// Nothing could be written.
    WriteZero,
    /// It was interrupted.
    Interrupted,
    /// It cannot be done here.
    Unsupported,
    /// Fewer bytes were there than were asked for.
    UnexpectedEof,
    /// There is not enough memory.
    OutOfMemory,
    /// Anything else.
    Other,
}

/// A failure of a device or a stream.
#[derive(Debug)]
pub struct IoError {
    /// What sort of failure it was.
    pub kind: IoKind,
    /// What happened, in words.
    pub message: String,
}

/// Anything that can go wrong reading a filesystem.
#[derive(Debug)]
pub enum Error {
    /// The device, or a stream being written to, failed.
    Io(IoError),
    /// The device does not hold an XFS filesystem.
    NotXfs(String),
    /// A structure failed its magic number, its checksum or a bounds check.
    Corrupt(String),
    /// The filesystem uses something this implementation cannot read.
    Unsupported(String),
    /// No such file or directory.
    NotFound(String),
    /// A path component that should have been a directory was not.
    NotADirectory(String),
    /// The target is a directory and the operation wanted a file.
    IsADirectory(String),
    /// The target is not a symbolic link.
    NotASymlink(String),
    /// Symbolic links nested too deeply, or in a loop.
    SymlinkLoop(String),
    /// The path was malformed.
    InvalidPath(String),
}

/// An [`Error`] as contracts speak of it: its variant and its text.
pub enum Fault {
    /// See [`Error::Io`].
    Io(IoKind, Seq<char>),
    /// See [`Error::NotXfs`].
    NotXfs(Seq<char>),
    /// See [`Error::Corrupt`].
    Corrupt(Seq<char>),
    /// See [`Error::Unsupported`].
    Unsupported(Seq<char>),
    /// See [`Error::NotFound`].
    NotFound(Seq<char>),
    /// See [`Error::NotADirectory`].
    NotADirectory(Seq<char>),
    /// See [`Error::IsADirectory`].
    IsADirectory(Seq<char>),
    /// See [`Error::NotASymlink`].
    NotASymlink(Seq<char>),
    /// See [`Error::SymlinkLoop`].
    SymlinkLoop(Seq<char>),
    /// See [`Error::InvalidPath`].
    InvalidPath(Seq<char>),
}

impl View for Error {
    type V = Fault;

    open spec fn view(&self) -> Fault {
        match *self {
            Error::Io(e) => Fault::Io(e.kind, e.message@),
            Error::NotXfs(s) => Fault::NotXfs(s@),
            Error::Corrupt(s) => Fault::Corrupt(s@),
            Error::Unsupported(s) => Fault::Unsupported(s@),
            Error::NotFound(s) => Fault::NotFound(s@),
            Error::NotADirectory(s) => Fault::NotADirectory(s@),
            Error::IsADirectory(s) => Fault::IsADirectory(s@),
            Error::NotASymlink(s) => Fault::NotASymlink(s@),
            Error::SymlinkLoop(s) => Fault::SymlinkLoop(s@),
            Error::InvalidPath(s) => Fault::InvalidPath(s@),
        }
    }
}

/// Result alias.
pub type Result<T> = core::result::Result<T, Error>;

/// A result as contracts speak of it: the views of the value or the error.
pub open spec fn outcome<T: View>(r: core::result::Result<T, Error>) -> core::result::Result<T::V, Fault> {
    match r {
        Ok(v) => Ok(v@),
        Err(e) => Err(e@),
    }
}

/// A result holding a list as contracts speak of it: the views of the items
/// or the error.
pub open spec fn list_outcome<T: View>(r: core::result::Result<Vec<T>, Error>) -> core::result::Result<
    Seq<T::V>,
    Fault,
> {
    match r {
        Ok(v) => Ok(views(v@)),
        Err(e) => Err(e@),
    }
}

/// `rest`, with `front` before it where it is a list at all.
pub open spec fn prefixed<A>(front: Seq<A>, rest: core::result::Result<Seq<A>, Fault>) -> core::result::Result<
    Seq<A>,
    Fault,
> {
    match rest {
        Ok(s) => Ok(front + s),
        Err(f) => Err(f),
    }
}

/// Prefixing twice is prefixing once with both; with nothing, not at all.
pub proof fn lemma_prefixed<A>(a: Seq<A>, b: Seq<A>, rest: core::result::Result<Seq<A>, Fault>)
    ensures
        prefixed(a, prefixed(b, rest)) == prefixed(a + b, rest),
        prefixed(Seq::<A>::empty(), rest) == rest,
{
    if let Ok(s) = rest {
        assert(a + (b + s) =~= a + b + s);
        assert(Seq::<A>::empty() + s =~= s);
    }
}

/// A result as contracts speak of it where the value stands for itself.
pub open spec fn verdict<T>(r: core::result::Result<T, Error>) -> core::result::Result<T, Fault> {
    match r {
        Ok(v) => Ok(v),
        Err(e) => Err(e@),
    }
}

/// A `Corrupt` error saying `what`.
pub fn corrupt(what: &str) -> (r: Error)
    ensures
        r@ == Fault::Corrupt(what@),
{
    Error::Corrupt(String::from_str(what))
}

/// The text "`before``n``after`".
pub open spec fn around(before: Seq<char>, n: nat, after: Seq<char>) -> Seq<char> {
    before + decimal(n) + after
}

/// The text "`before``n``after`".
pub fn numbered(before: &str, n: u64, after: &str) -> (s: String)
    ensures
        s@ == around(before@, n as nat, after@),
{
    let mut s = String::from_str(before);
    push_decimal(&mut s, n);
    s.append(after);
    s
}

impl Error {
    /// The sentence that explains this error to a person.
    pub open spec fn sentence(self) -> Seq<char> {
        match self@ {
            Fault::Io(_, s) => s,
            Fault::NotXfs(s) => "not an XFS filesystem: "@ + s,
            Fault::Corrupt(s) => "corrupt filesystem: "@ + s,
            Fault::Unsupported(s) => "unsupported: "@ + s,
            Fault::NotFound(s) => "no such file or directory: "@ + s,
            Fault::NotADirectory(s) => "not a directory: "@ + s,
            Fault::IsADirectory(s) => "is a directory: "@ + s,
            Fault::NotASymlink(s) => "not a symbolic link: "@ + s,
            Fault::SymlinkLoop(s) => "too many levels of symbolic links: "@ + s,
            Fault::InvalidPath(s) => "invalid path: "@ + s,
        }
    }

    /// The sentence that explains this error to a person.
    pub fn message(&self) -> (r: String)
        ensures
            r@ == self.sentence(),
    {
        match self {
            Error::Io(e) => String::from_str(e.message.as_str()),
            Error::NotXfs(s) => String::from_str("not an XFS filesystem: ").concat(s.as_str()),
            Error::Corrupt(s) => String::from_str("corrupt filesystem: ").concat(s.as_str()),
            Error::Unsupported(s) => String::from_str("unsupported: ").concat(s.as_str()),
            Error::NotFound(s) => String::from_str("no such file or directory: ").concat(s.as_str()),
            Error::NotADirectory(s) => String::from_str("not a directory: ").concat(s.as_str()),
            Error::IsADirectory(s) => String::from_str("is a directory: ").concat(s.as_str()),
            Error::NotASymlink(s) => String::from_str("not a symbolic link: ").concat(s.as_str()),
            Error::SymlinkLoop(s) => String::from_str("too many levels of symbolic links: ").concat(s.as_str()),
            Error::InvalidPath(s) => String::from_str("invalid path: ").concat(s.as_str()),
        }
    }
}

} // verus!
