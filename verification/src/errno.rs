//! The error numbers that a mounted archive answers with.
use vstd::prelude::*;
use crate::error::ErrorKind;

verus! {

/// Why a request to a mounted archive failed.
#[derive(Debug, Clone, Copy, PartialEq, Eq, Structural)]
pub enum Errno {
    /// `EACCES`
    Access,
    /// `EEXIST`
    Exists,
    /// `EINVAL`
    Invalid,
    /// `EIO`
    Io,
    /// `EISDIR`
    IsDirectory,
    /// `ENOENT`
    NoEntry,
    /// `ENOTDIR`
    NotDirectory,
    /// `ENOTEMPTY`
    NotEmpty,
    /// `EOPNOTSUPP`
    NotSupported,
    /// A number that the operating system gave.
    Raw(i32),
}

/// The error number for a failure of the given class.
pub open spec fn errno_of_kind(kind: ErrorKind) -> Errno {
    match kind {
        ErrorKind::NotFound => Errno::NoEntry,
        ErrorKind::PermissionDenied => Errno::Access,
        ErrorKind::AlreadyExists => Errno::Exists,
        ErrorKind::InvalidInput => Errno::Invalid,
        ErrorKind::InvalidData => Errno::Invalid,
        ErrorKind::Unsupported => Errno::NotSupported,
        ErrorKind::UnexpectedEof => Errno::Io,
        ErrorKind::Other => Errno::Io,
    }
}

/// The error number for a failure: the one that the operating system gave, where it gave one, and
/// otherwise the one for its class.
pub fn io_error_to_errno(raw: Option<i32>, kind: ErrorKind) -> (r: Errno)
    ensures
        r == match raw {
            Some(number) => Errno::Raw(number),
            None => errno_of_kind(kind),
        },
{
    if let Some(number) = raw {
        return Errno::Raw(number);
    }
    match kind {
        ErrorKind::NotFound => Errno::NoEntry,
        ErrorKind::PermissionDenied => Errno::Access,
        ErrorKind::AlreadyExists => Errno::Exists,
        ErrorKind::InvalidInput | ErrorKind::InvalidData => Errno::Invalid,
        ErrorKind::Unsupported => Errno::NotSupported,
        ErrorKind::UnexpectedEof | ErrorKind::Other => Errno::Io,
    }
}

} // verus!
