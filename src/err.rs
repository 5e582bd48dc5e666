//! Errors that can occur while accessing an HDFS cluster.
use std::io::ErrorKind;
use vstd::prelude::*;

verus! {

#[verifier::external_type_specification]
pub struct ExErrorKind(std::io::ErrorKind);

#[verifier::external_type_specification]
#[verifier::external_body]
pub struct ExIoError(std::io::Error);

/// Errors which can occur while accessing an HDFS cluster.
#[derive(Debug)]
pub enum HdfsErr {
    Unknown,
    /// An I/O error of the operating system or of the native library.
    IoError(std::io::Error),
    /// The path that was not found.
    FileNotFound(String),
    /// The path that already exists.
    FileAlreadyExists(String),
    /// The address of the name node that could not be reached.
    CannotConnectToNameNode(String),
    /// The URL that could not be used.
    InvalidUrl(String),
}

/// The I/O error kind that stands for each error. `IoError` carries its own
/// kind, so it is given `Other` here.
pub open spec fn error_kind_of(e: &HdfsErr) -> ErrorKind {
    match e {
        HdfsErr::Unknown => ErrorKind::Other,
        HdfsErr::IoError(_) => ErrorKind::Other,
        HdfsErr::FileNotFound(_) => ErrorKind::NotFound,
        HdfsErr::FileAlreadyExists(_) => ErrorKind::AlreadyExists,
        HdfsErr::CannotConnectToNameNode(_) => ErrorKind::ConnectionRefused,
        HdfsErr::InvalidUrl(_) => ErrorKind::AddrNotAvailable,
    }
}

/// The I/O error kind an error converts to.
pub fn get_error_kind(e: &HdfsErr) -> (r: ErrorKind)
    ensures
        r == error_kind_of(e),
{
    match e {
        HdfsErr::Unknown => ErrorKind::Other,
        HdfsErr::FileNotFound(_) => ErrorKind::NotFound,
        HdfsErr::FileAlreadyExists(_) => ErrorKind::AlreadyExists,
        HdfsErr::CannotConnectToNameNode(_) => ErrorKind::ConnectionRefused,
        HdfsErr::InvalidUrl(_) => ErrorKind::AddrNotAvailable,
        HdfsErr::IoError(_) => ErrorKind::Other,
    }
}

/// Relies on errno::errno: the value of the calling thread's `errno`. It
/// depends on what ran before, so nothing is stated of it.
#[verifier::external_body]
fn last_errno() -> (r: i32) {
    errno::errno().0
}

/// Relies on std::io::Error::from_raw_os_error: the I/O error for an OS
/// error number.
#[verifier::external_body]
fn os_error(code: i32) -> (r: std::io::Error) {
    std::io::Error::from_raw_os_error(code)
}

impl HdfsErr {
    /// The error that the native library left in `errno`, as an I/O error.
    pub fn from_errno() -> (r: HdfsErr)
        ensures
            r is IoError,
    {
        HdfsErr::IoError(os_error(last_errno()))
    }
}

} // verus!
