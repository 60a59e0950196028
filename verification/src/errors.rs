use vstd::prelude::*;

verus! {

/// The kinds of failure the library and its callers distinguish.
#[derive(Clone, Copy, Debug, PartialEq, Eq, Structural)]
pub enum AppErrorKind {
    Io,
    Image,
    MissingExtension,
    UnsupportedExtension,
    DataOverflow,
    UnsupportedMethod,
    NotImplemented,
    CRCMismatch,
    UserStopped,
}

/// An error with a kind and a human-readable message.
#[derive(Debug)]
pub struct AppError {
    kind: AppErrorKind,
    message: String,
}

impl AppError {
    pub fn new(kind: AppErrorKind, message: String) -> (r: Self)
        ensures
            r.kind() == kind,
            r.message() == message@,
    {
        AppError { kind, message }
    }

    pub closed spec fn kind(self) -> AppErrorKind {
        self.kind
    }

    pub closed spec fn message(self) -> Seq<char> {
        self.message@
    }

    /// The kind of this error.
    pub fn get_kind(&self) -> (k: AppErrorKind)
        ensures
            k == self.kind(),
    {
        self.kind
    }

    /// The message of this error, for user-facing reporting.
    pub fn get_message(&self) -> (m: &str)
        ensures
            m@ == self.message(),
    {
        self.message.as_str()
    }
}

} // verus!
