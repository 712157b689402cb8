use vstd::prelude::*;

verus! {

/// What went wrong in an I/O step, as far as the storage engine tells errors apart.
#[derive(Debug, Clone, Copy, PartialEq, Eq, Structural)]
pub enum IoErrorKind {
    /// The data ended before the value being read was complete.
    UnexpectedEof,
    /// The bytes do not encode what they should (bad UTF-8, a bad column type,
    /// a malformed page or file size).
    InvalidData,
    NotFound,
    AlreadyExists,
    Other,
}

/// The four kinds of error that the engine surfaces to its caller.
#[derive(Debug)]
pub enum DBError {
    Parse(String),
    Execution(String),
    Integrity(String),
    IO(IoErrorKind, String),
}

pub type Result<T> = core::result::Result<T, DBError>;

/// The result is an integrity error.
pub open spec fn fails_integrity<T>(r: Result<T>) -> bool {
    r matches Err(e) && e is Integrity
}

/// The result is an execution error.
pub open spec fn fails_execution<T>(r: Result<T>) -> bool {
    r matches Err(e) && e is Execution
}

/// `e` is an I/O error of kind `kind`.
pub open spec fn is_io_kind(e: DBError, kind: IoErrorKind) -> bool {
    e matches DBError::IO(k, _) && k == kind
}

/// The result is an I/O error of kind `kind`.
pub open spec fn fails_with<T>(r: Result<T>, kind: IoErrorKind) -> bool {
    r matches Err(e) && is_io_kind(e, kind)
}

/// The result is an execution error with message `m`.
pub open spec fn fails_execution_with<T>(r: Result<T>, m: Seq<char>) -> bool {
    r matches Err(e) && e is Execution && e->Execution_0@ == m
}

/// The result is an I/O error.
pub open spec fn fails_io<T>(r: Result<T>) -> bool {
    r matches Err(e) && e is IO
}

/// An I/O error of the given kind.
pub fn io_error(kind: IoErrorKind, msg: &str) -> (e: DBError)
    ensures
        e matches DBError::IO(k, m) && k == kind && m@ == msg@,
{
    DBError::IO(kind, String::from_str(msg))
}

/// An integrity error (a storage invariant violated or misused).
pub fn integrity_error(msg: &str) -> (e: DBError)
    ensures
        e is Integrity,
        e->Integrity_0@ == msg@,
{
    DBError::Integrity(String::from_str(msg))
}

/// An execution error (schema mismatch, unknown table, and the like).
pub fn execution_error(msg: &str) -> (e: DBError)
    ensures
        e is Execution,
        e->Execution_0@ == msg@,
{
    DBError::Execution(String::from_str(msg))
}

impl DBError {
    /// The human-readable message, prefixed by the kind of error.
    pub fn message(&self) -> (r: String)
        ensures
            r@ == self.spec_message(),
    {
        let (prefix, msg) = match self {
            DBError::Parse(m) => ("Failed to parse the query: ", m),
            DBError::Execution(m) => ("Failed to execute the query: ", m),
            DBError::Integrity(m) => ("Integrity error: ", m),
            DBError::IO(_, m) => ("IO Error: ", m),
        };
        let mut r = String::from_str(prefix);
        r.append(msg.as_str());
        r
    }

    pub open spec fn spec_message(&self) -> Seq<char> {
        match self {
            DBError::Parse(m) => "Failed to parse the query: "@ + m@,
            DBError::Execution(m) => "Failed to execute the query: "@ + m@,
            DBError::Integrity(m) => "Integrity error: "@ + m@,
            DBError::IO(_, m) => "IO Error: "@ + m@,
        }
    }
}

} // verus!
