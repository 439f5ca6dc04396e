use vstd::prelude::*;
use vstd::string::StringExecFns;

verus! {

/// What went wrong, as a closed set of kinds.
#[derive(Debug, Clone, Copy, PartialEq, Eq, Structural)]
pub enum ErrorKind {
    Success,
    NotYetImplemented,
    PackageNotFound,
    Unknown,
}

/// The text shown for each kind of error.
pub open spec fn kind_text(kind: ErrorKind) -> Seq<char> {
    match kind {
        ErrorKind::Success => "Ok"@,
        ErrorKind::NotYetImplemented => "Not yet implemented"@,
        ErrorKind::PackageNotFound => "Package not found"@,
        ErrorKind::Unknown => "Unknown error"@,
    }
}

impl ErrorKind {
    /// The human-readable text of this kind.
    pub fn to_string(&self) -> (s: String)
        ensures
            s@ == kind_text(*self),
    {
        match self {
            ErrorKind::Success => String::from_str("Ok"),
            ErrorKind::NotYetImplemented => String::from_str("Not yet implemented"),
            ErrorKind::PackageNotFound => String::from_str("Package not found"),
            ErrorKind::Unknown => String::from_str("Unknown error"),
        }
    }
}

/// An error of the library: its kind, and the message of the error that caused it, if any.
#[derive(Debug)]
pub struct Error {
    pub kind: ErrorKind,
    pub parent: Option<String>,
}

/// The text shown for an error: the kind's text, then the cause's message after a colon.
pub open spec fn error_text(kind: ErrorKind, parent: Option<Seq<char>>) -> Seq<char> {
    match parent {
        Some(p) => kind_text(kind) + ": "@ + p,
        None => kind_text(kind),
    }
}

/// The view of an optional string.
pub open spec fn opt_string_view(s: Option<String>) -> Option<Seq<char>> {
    match s {
        Some(t) => Some(t@),
        None => None,
    }
}

impl Error {
    /// The human-readable text of this error.
    pub fn to_string(&self) -> (s: String)
        ensures
            s@ == error_text(self.kind, opt_string_view(self.parent)),
    {
        let mut s = self.kind.to_string();
        match &self.parent {
            Some(p) => {
                s.append(": ");
                s.append(p.as_str());
            },
            None => {},
        }
        s
    }
}

impl From<ErrorKind> for Error {
    fn from(kind: ErrorKind) -> (e: Self) {
        Error { kind, parent: None }
    }
}

impl vstd::std_specs::convert::FromSpecImpl<ErrorKind> for Error {
    open spec fn obeys_from_spec() -> bool {
        true
    }

    open spec fn from_spec(kind: ErrorKind) -> Error {
        Error { kind, parent: None }
    }
}

/// An error of the given kind, with no cause.
pub fn error_of(kind: ErrorKind) -> (e: Error)
    ensures
        e.kind == kind,
        e.parent is None,
{
    Error { kind, parent: None }
}

} // verus!
