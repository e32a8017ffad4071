//! Error kinds of the library, each optionally carrying an underlying OS error.
use vstd::prelude::*;

verus! {

#[verifier::external_type_specification]
#[verifier::external_body]
pub struct ExIoError(std::io::Error);

/// What went wrong.
#[derive(Debug, Clone, Copy, PartialEq, Eq, Structural)]
pub enum ErrorKind {
    OpenFile,
    ReadFile,
    WriteFile,
    SeekFile,
    TruncateFile,
    FileGetFlags,
    FileSetFlags,
    FileNotEncryptedProperly,
    GetFileMetadata,
    FileTooBig,
    MacError,
    WrongPassword,
    EncryptionError,
    RevertToBackup,
    PromptPasswordIOError,
    EncodingError,
    CorruptedFile,
    HomeDir,
    CopyToClipboard,
    EmptyPasswordDict,
    PasswordLengthZero,
}

/// An error kind and, where the failure came from the OS, its error.
#[derive(Debug)]
pub struct Error {
    kind: ErrorKind,
    source_error: Option<std::io::Error>,
}

pub type Result<T> = std::result::Result<T, Error>;

impl ErrorKind {
    pub fn without_source_error(self) -> (r: Error)
        ensures
            r.kind_of() == self,
            !r.has_source(),
            r.source() is None,
    {
        Error { kind: self, source_error: None }
    }

    pub fn with_source_error(self, source_error: std::io::Error) -> (r: Error)
        ensures
            r.kind_of() == self,
            r.has_source(),
            r.source() == Some(source_error),
    {
        Error { kind: self, source_error: Some(source_error) }
    }
}

impl Error {
    pub closed spec fn kind_of(&self) -> ErrorKind {
        self.kind
    }

    pub closed spec fn has_source(&self) -> bool {
        self.source_error is Some
    }

    /// The OS error carried, if any.
    pub closed spec fn source(&self) -> Option<std::io::Error> {
        self.source_error
    }

    pub fn kind(&self) -> (r: &ErrorKind)
        ensures
            *r == self.kind_of(),
    {
        &self.kind
    }

    /// The same error under another kind; the OS error stays.
    pub fn with_kind(self, kind: ErrorKind) -> (r: Error)
        ensures
            r.kind_of() == kind,
            r.has_source() == self.has_source(),
            r.source() == self.source(),
    {
        Error { kind, source_error: self.source_error }
    }

    /// The OS error, if any.
    pub fn source_error(&self) -> (r: &Option<std::io::Error>)
        ensures
            r is Some == self.has_source(),
            *r == self.source(),
    {
        &self.source_error
    }
}

/// Keeps the value of an I/O result, or turns its error into one of `error_kind`.
pub fn io_to_locker_error<T>(result: std::io::Result<T>, error_kind: ErrorKind) -> (r: Result<T>)
    ensures
        result is Ok <==> r is Ok,
        result is Ok ==> r == Ok::<T, Error>(result->Ok_0),
        r is Err ==> r->Err_0.kind_of() == error_kind && r->Err_0.has_source(),
        result is Err ==> r is Err && r->Err_0.source() == Some(result->Err_0),
{
    match result {
        Ok(v) => Ok(v),
        Err(e) => Err(Error { kind: error_kind, source_error: Some(e) }),
    }
}

/// Keeps the value of a result, or replaces its error by one of `error_kind`.
pub fn to_locker_error<T, E>(result: std::result::Result<T, E>, error_kind: ErrorKind) -> (r: Result<T>)
    ensures
        result is Ok <==> r is Ok,
        result is Ok ==> r == Ok::<T, Error>(result->Ok_0),
        r is Err ==> r->Err_0.kind_of() == error_kind && !r->Err_0.has_source() && r->Err_0.source() is None,
{
    match result {
        Ok(v) => Ok(v),
        Err(_) => Err(Error { kind: error_kind, source_error: None }),
    }
}

} // verus!
