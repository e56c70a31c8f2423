//! What can go wrong with an archive.
use vstd::prelude::*;
use crate::number::{decimal, push_decimal};
use crate::text::push_text;

verus! {

/// A failed archive operation.
#[derive(Debug, Clone, Copy, PartialEq, Eq, Structural)]
pub enum StorageError {
    /// A virtual path holds a `..` component.
    ParentTraversal,
    /// A virtual path holds a NUL.
    NulByte,
    /// A virtual path names the root.
    RootPath,
    /// A virtual path is too long to be written to an index.
    PathTooLong,
    /// No entry has the given path.
    NotFound,
    /// A directory was to be read as a file.
    ReadDirectory,
    /// File data was to replace a directory.
    ReplaceDirectory,
    /// A directory was to be moved below itself.
    MoveIntoItself,
    /// A new entry claims a payload that was not given.
    MissingPayload,
    /// An entry is larger than memory can address.
    EntryTooLarge,
    /// The live payloads are too large for one archive.
    ArchiveTooLarge,
    /// The archive is shorter than its header.
    HeaderTooSmall,
    /// The archive does not begin with its signature.
    BadSignature,
    /// The archive has a version that is not understood.
    UnsupportedVersion(u16),
    /// The index pointer lies outside the archive.
    PointerOutOfRange,
    /// The index does not begin with its signature.
    BadIndexSignature,
    /// The index announces too many entries.
    TooManyEntries,
    /// An index entry announces an empty or an oversized path.
    BadPathLength,
    /// An index entry's path is not UTF-8.
    PathNotUtf8,
    /// An index entry has an unknown type.
    BadKind,
    /// An index entry has a timestamp of a full second or more of nanoseconds.
    BadTimestamp,
    /// The end of an index entry's payload cannot be represented.
    RangeOverflow,
    /// An index entry's payload reaches past the index pointer.
    PayloadOutOfRange,
    /// Two index entries have one path.
    DuplicatePath,
    /// The data ends too early.
    UnexpectedEnd,
    /// A legacy index ends inside a path length.
    LegacyTruncated,
    /// A legacy index entry is malformed or cut off.
    LegacyBadEntry,
    /// A legacy path is not UTF-8.
    LegacyPathNotUtf8,
    /// The end of a legacy entry's payload cannot be represented.
    LegacyRangeOverflow,
    /// A legacy entry's payload reaches past the index pointer.
    LegacyOutOfRange,
    /// A cursor into an index cannot be advanced.
    CursorOverflow,
    /// An index ends inside an integer.
    TruncatedInteger,
}

/// The class of a failure.
#[derive(Debug, Clone, Copy, PartialEq, Eq, Structural)]
pub enum ErrorKind {
    NotFound,
    PermissionDenied,
    AlreadyExists,
    InvalidInput,
    InvalidData,
    UnexpectedEof,
    Unsupported,
    Other,
}

/// The text of a message that stands for a failure.
pub open spec fn message_text(error: StorageError) -> Seq<char> {
    match error {
        StorageError::ParentTraversal => "Parent traversal is not allowed in virtual paths"@,
        StorageError::NulByte => "Virtual paths cannot contain NUL bytes"@,
        StorageError::RootPath => "The storage root cannot be used as an entry path"@,
        StorageError::PathTooLong => "Virtual path is too long"@,
        StorageError::NotFound => "Storage entry not found"@,
        StorageError::ReadDirectory => "Cannot read a directory as a file"@,
        StorageError::ReplaceDirectory => "Cannot replace a directory with file data"@,
        StorageError::MoveIntoItself => "Cannot move a directory into itself"@,
        StorageError::MissingPayload => "A new non-empty entry must include payload data"@,
        StorageError::EntryTooLarge => "Storage entry is too large for this platform"@,
        StorageError::ArchiveTooLarge => "Storage payloads are too large for one archive"@,
        StorageError::HeaderTooSmall => "Moss file is smaller than its header"@,
        StorageError::BadSignature => "Invalid Moss file signature"@,
        StorageError::UnsupportedVersion(version) => "Unsupported Moss version: "@ + decimal(
            version as nat,
        ),
        StorageError::PointerOutOfRange => "Moss index pointer is out of range"@,
        StorageError::BadIndexSignature => "Invalid Moss index signature"@,
        StorageError::TooManyEntries => "Moss index contains too many entries"@,
        StorageError::BadPathLength => "Invalid virtual path length"@,
        StorageError::PathNotUtf8 => "Virtual path is not valid UTF-8"@,
        StorageError::BadKind => "Invalid entry type in Moss index"@,
        StorageError::BadTimestamp => "Invalid timestamp nanosecond value"@,
        StorageError::RangeOverflow => "Storage entry range overflow"@,
        StorageError::PayloadOutOfRange => "Storage payload overlaps or exceeds the active index"@,
        StorageError::DuplicatePath => "Duplicate path in Moss index"@,
        StorageError::UnexpectedEnd => "failed to fill whole buffer"@,
        StorageError::LegacyTruncated => "Truncated legacy index"@,
        StorageError::LegacyBadEntry => "Invalid legacy index entry"@,
        StorageError::LegacyPathNotUtf8 => "Legacy path is not valid UTF-8"@,
        StorageError::LegacyRangeOverflow => "Legacy entry range overflow"@,
        StorageError::LegacyOutOfRange => "Legacy entry points outside payload data"@,
        StorageError::CursorOverflow => "Index cursor overflow"@,
        StorageError::TruncatedInteger => "Truncated index integer"@,
    }
}

/// The class to which a failure belongs.
pub open spec fn kind_of(error: StorageError) -> ErrorKind {
    match error {
        StorageError::NotFound => ErrorKind::NotFound,
        StorageError::ParentTraversal
        | StorageError::NulByte
        | StorageError::RootPath
        | StorageError::PathTooLong
        | StorageError::ReadDirectory
        | StorageError::ReplaceDirectory
        | StorageError::MoveIntoItself => ErrorKind::InvalidInput,
        StorageError::UnexpectedEnd => ErrorKind::UnexpectedEof,
        StorageError::ArchiveTooLarge => ErrorKind::Other,
        _ => ErrorKind::InvalidData,
    }
}

impl StorageError {
    /// The class of this failure.
    pub fn kind(self) -> (r: ErrorKind)
        ensures
            r == kind_of(self),
    {
        match self {
            StorageError::NotFound => ErrorKind::NotFound,
            StorageError::ParentTraversal
            | StorageError::NulByte
            | StorageError::RootPath
            | StorageError::PathTooLong
            | StorageError::ReadDirectory
            | StorageError::ReplaceDirectory
            | StorageError::MoveIntoItself => ErrorKind::InvalidInput,
            StorageError::UnexpectedEnd => ErrorKind::UnexpectedEof,
            StorageError::ArchiveTooLarge => ErrorKind::Other,
            _ => ErrorKind::InvalidData,
        }
    }

    /// The message for this failure.
    pub fn message(self) -> (r: String)
        ensures
            r@ == message_text(self),
    {
        let mut out: String = String::new();
        let text: &str = match self {
            StorageError::ParentTraversal => "Parent traversal is not allowed in virtual paths",
            StorageError::NulByte => "Virtual paths cannot contain NUL bytes",
            StorageError::RootPath => "The storage root cannot be used as an entry path",
            StorageError::PathTooLong => "Virtual path is too long",
            StorageError::NotFound => "Storage entry not found",
            StorageError::ReadDirectory => "Cannot read a directory as a file",
            StorageError::ReplaceDirectory => "Cannot replace a directory with file data",
            StorageError::MoveIntoItself => "Cannot move a directory into itself",
            StorageError::MissingPayload => "A new non-empty entry must include payload data",
            StorageError::EntryTooLarge => "Storage entry is too large for this platform",
            StorageError::ArchiveTooLarge => "Storage payloads are too large for one archive",
            StorageError::HeaderTooSmall => "Moss file is smaller than its header",
            StorageError::BadSignature => "Invalid Moss file signature",
            StorageError::UnsupportedVersion(_) => "Unsupported Moss version: ",
            StorageError::PointerOutOfRange => "Moss index pointer is out of range",
            StorageError::BadIndexSignature => "Invalid Moss index signature",
            StorageError::TooManyEntries => "Moss index contains too many entries",
            StorageError::BadPathLength => "Invalid virtual path length",
            StorageError::PathNotUtf8 => "Virtual path is not valid UTF-8",
            StorageError::BadKind => "Invalid entry type in Moss index",
            StorageError::BadTimestamp => "Invalid timestamp nanosecond value",
            StorageError::RangeOverflow => "Storage entry range overflow",
            StorageError::PayloadOutOfRange => "Storage payload overlaps or exceeds the active index",
            StorageError::DuplicatePath => "Duplicate path in Moss index",
            StorageError::UnexpectedEnd => "failed to fill whole buffer",
            StorageError::LegacyTruncated => "Truncated legacy index",
            StorageError::LegacyBadEntry => "Invalid legacy index entry",
            StorageError::LegacyPathNotUtf8 => "Legacy path is not valid UTF-8",
            StorageError::LegacyRangeOverflow => "Legacy entry range overflow",
            StorageError::LegacyOutOfRange => "Legacy entry points outside payload data",
            StorageError::CursorOverflow => "Index cursor overflow",
            StorageError::TruncatedInteger => "Truncated index integer",
        };
        push_text(&mut out, text);
        if let StorageError::UnsupportedVersion(version) = self {
            push_decimal(&mut out, version as u64);
        }
        assert(out@ =~= message_text(self));
        out
    }
}

} // verus!
