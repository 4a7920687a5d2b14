//! The errors that the reader and the writer report.
use vstd::prelude::*;

verus! {

/// What went wrong with the underlying bytes.
#[derive(Debug, Clone, Copy, PartialEq, Eq, Structural)]
pub enum IoFault {
    /// A read asked for bytes past the end of the database.
    UnexpectedEof,
    /// A write would grow the database past what 32-bit offsets can address.
    FileTooLarge,
    /// A write came after the hash tables had been written.
    WriterClosed,
}

/// An error in the interaction with the CDB.
#[derive(Debug, Clone, Copy, PartialEq, Eq, Structural)]
pub enum Error {
    /// The CDB is under 2048 bytes, so it cannot hold a header.
    CDBTooSmall,
    /// The `key` being fetched isn't in the CDB.
    KeyNotInCDB,
    /// There was an error accessing the bytes of the database.
    IOError(IoFault),
}

impl IoFault {
    /// A short description of the fault.
    pub fn description(&self) -> (text: &'static str)
        ensures
            text@ == match *self {
                IoFault::UnexpectedEof => "unexpected end of file"@,
                IoFault::FileTooLarge => "file too large"@,
                IoFault::WriterClosed => "writer closed"@,
            },
    {
        match *self {
            IoFault::UnexpectedEof => "unexpected end of file",
            IoFault::FileTooLarge => "file too large",
            IoFault::WriterClosed => "writer closed",
        }
    }
}

impl Error {
    /// The text that this error is shown as.
    pub open spec fn spec_to_string(self) -> Seq<char> {
        match self {
            Error::CDBTooSmall => "File too small to be a CDB"@,
            Error::KeyNotInCDB => "The key is not in the CDB"@,
            Error::IOError(IoFault::UnexpectedEof) => "IO Error: unexpected end of file"@,
            Error::IOError(IoFault::FileTooLarge) => "IO Error: file too large"@,
            Error::IOError(IoFault::WriterClosed) => "IO Error: writer closed"@,
        }
    }

    /// The text that this error is shown as.
    pub fn to_string(&self) -> (text: String)
        ensures
            text@ == self.spec_to_string(),
    {
        match *self {
            Error::CDBTooSmall => "File too small to be a CDB".to_owned(),
            Error::KeyNotInCDB => "The key is not in the CDB".to_owned(),
            Error::IOError(IoFault::UnexpectedEof) => "IO Error: unexpected end of file".to_owned(),
            Error::IOError(IoFault::FileTooLarge) => "IO Error: file too large".to_owned(),
            Error::IOError(IoFault::WriterClosed) => "IO Error: writer closed".to_owned(),
        }
    }

    /// A short description of the error; an I/O error defers to its fault.
    pub fn description(&self) -> (text: &'static str)
        ensures
            text@ == match *self {
                Error::CDBTooSmall => "The file is too small to be a valid CDB"@,
                Error::KeyNotInCDB => "The key is not in the CDB"@,
                Error::IOError(IoFault::UnexpectedEof) => "unexpected end of file"@,
                Error::IOError(IoFault::FileTooLarge) => "file too large"@,
                Error::IOError(IoFault::WriterClosed) => "writer closed"@,
            },
    {
        match *self {
            Error::CDBTooSmall => "The file is too small to be a valid CDB",
            Error::KeyNotInCDB => "The key is not in the CDB",
            Error::IOError(fault) => fault.description(),
        }
    }

    /// The lower-level fault behind this error, if there is one.
    pub fn cause(&self) -> (fault: Option<IoFault>)
        ensures
            fault == match *self {
                Error::IOError(f) => Some(f),
                _ => None::<IoFault>,
            },
    {
        match *self {
            Error::CDBTooSmall => None,
            Error::KeyNotInCDB => None,
            Error::IOError(fault) => Some(fault),
        }
    }
}

impl From<IoFault> for Error {
    fn from(fault: IoFault) -> (e: Error) {
        Error::IOError(fault)
    }
}

impl vstd::std_specs::convert::FromSpecImpl<IoFault> for Error {
    open spec fn obeys_from_spec() -> bool {
        true
    }

    open spec fn from_spec(fault: IoFault) -> Error {
        Error::IOError(fault)
    }
}

} // verus!
