use vstd::prelude::*;
use vstd::string::StringExecFns;

verus! {

/// The kinds of failure the engine and its server report.
#[derive(Clone, Copy, Debug, PartialEq, Eq, Structural)]
pub enum ErrorKind {
    /// `remove` of a key that has no live value.
    NotFound,
    /// The index points at a record that is not a `Set`.
    UnexpectedCommandType,
    /// An underlying read, write, seek or open failed, or a log offset left
    /// the range of `u64`.
    Io,
    /// Command bytes that do not decode.
    Serialization,
    /// The storage directory was made by another backend.
    EngineMismatch,
}

/// An error of the store: its kind and a message for people.
#[derive(Debug)]
pub struct KvsError {
    pub kind: ErrorKind,
    pub message: String,
}

pub type Result<T> = core::result::Result<T, KvsError>;

impl KvsError {
    pub fn new(kind: ErrorKind, message: String) -> (e: KvsError)
        ensures
            e.kind == kind,
            e.message@ == message@,
    {
        KvsError { kind, message }
    }

    /// The error of `remove` on a key that is not there.
    pub fn not_found() -> (e: KvsError)
        ensures
            e.kind == ErrorKind::NotFound,
            e.message@ == "Key not found"@,
    {
        KvsError { kind: ErrorKind::NotFound, message: String::from_str("Key not found") }
    }

    /// The error of a read that found something other than a `Set`.
    pub fn unexpected_command() -> (e: KvsError)
        ensures
            e.kind == ErrorKind::UnexpectedCommandType,
            e.message@ == "Unexpected command type"@,
    {
        KvsError {
            kind: ErrorKind::UnexpectedCommandType,
            message: String::from_str("Unexpected command type"),
        }
    }

    /// The error of a log offset or generation number that would leave `u64`.
    pub fn offset_overflow() -> (e: KvsError)
        ensures
            e.kind == ErrorKind::Io,
            e.message@ == "Log offset out of range"@,
    {
        KvsError { kind: ErrorKind::Io, message: String::from_str("Log offset out of range") }
    }

    pub fn kind(&self) -> (k: ErrorKind)
        ensures
            k == self.kind,
    {
        self.kind
    }

    /// The text of the error, as the server sends it to clients.
    pub fn to_string(&self) -> (s: String)
        ensures
            s@ == self.message@,
    {
        self.message.clone()
    }
}

} // verus!
