//! What an archive records of each file, directory and symbolic link.
use vstd::prelude::*;
use crate::error::StorageError;
use crate::time::Timestamp;

verus! {

/// What an entry is.
#[derive(Debug, Clone, Copy, PartialEq, Eq, Structural)]
pub enum EntryKind {
    File,
    Directory,
    Symlink,
}

/// The byte that stands for `kind` in an index.
pub open spec fn kind_byte(kind: EntryKind) -> u8 {
    match kind {
        EntryKind::File => 0,
        EntryKind::Directory => 1,
        EntryKind::Symlink => 2,
    }
}

/// The kind that `byte` stands for in an index.
pub open spec fn kind_from(byte: u8) -> Option<EntryKind> {
    if byte == 0 {
        Some(EntryKind::File)
    } else if byte == 1 {
        Some(EntryKind::Directory)
    } else if byte == 2 {
        Some(EntryKind::Symlink)
    } else {
        None
    }
}

impl EntryKind {
    /// The byte that stands for this kind in an index.
    pub fn to_byte(self) -> (r: u8)
        ensures
            r == kind_byte(self),
            kind_from(r) == Some(self),
    {
        match self {
            EntryKind::File => 0,
            EntryKind::Directory => 1,
            EntryKind::Symlink => 2,
        }
    }

    /// The kind that `value` stands for in an index.
    pub fn from_byte(value: u8) -> (r: Result<Self, StorageError>)
        ensures
            r == match kind_from(value) {
                Some(kind) => Ok::<EntryKind, StorageError>(kind),
                None => Err::<EntryKind, StorageError>(StorageError::BadKind),
            },
    {
        match value {
            0 => Ok(EntryKind::File),
            1 => Ok(EntryKind::Directory),
            2 => Ok(EntryKind::Symlink),
            _ => Err(StorageError::BadKind),
        }
    }
}

/// All that an archive records of an entry besides its path.
pub struct Meta {
    pub kind: EntryKind,
    pub start_byte: u64,
    pub block_length: u64,
    pub mode: u16,
    pub uid: u32,
    pub gid: u32,
    pub atime: Timestamp,
    pub mtime: Timestamp,
    pub ctime: Timestamp,
}

/// An entry as a mathematical value.
#[verifier::ext_equal]
pub struct EntryView {
    pub path: Seq<char>,
    pub meta: Meta,
}

/// An entry of an archive: a path, where its payload lies, and its attributes.
#[derive(Debug)]
pub struct IndexEntry {
    pub virtual_path: String,
    pub kind: EntryKind,
    pub start_byte: u64,
    pub block_length: u64,
    pub mode: u16,
    pub uid: u32,
    pub gid: u32,
    pub atime: Timestamp,
    pub mtime: Timestamp,
    pub ctime: Timestamp,
}

/// A fresh entry without payload.
pub open spec fn fresh(kind: EntryKind, mode: u16, uid: u32, gid: u32, now: Timestamp) -> Meta {
    Meta {
        kind,
        start_byte: 0,
        block_length: 0,
        mode,
        uid,
        gid,
        atime: now,
        mtime: now,
        ctime: now,
    }
}

impl IndexEntry {
    /// All but the path.
    pub open spec fn meta(self) -> Meta {
        Meta {
            kind: self.kind,
            start_byte: self.start_byte,
            block_length: self.block_length,
            mode: self.mode,
            uid: self.uid,
            gid: self.gid,
            atime: self.atime,
            mtime: self.mtime,
            ctime: self.ctime,
        }
    }

    pub open spec fn view(self) -> EntryView {
        EntryView { path: self.virtual_path@, meta: self.meta() }
    }

    /// An entry without payload whose three times are `now`.
    pub fn fresh_at(
        path: String,
        kind: EntryKind,
        mode: u16,
        uid: u32,
        gid: u32,
        now: Timestamp,
    ) -> (r: Self)
        ensures
            r@.path == path@,
            r@.meta == fresh(kind, mode, uid, gid, now),
    {
        IndexEntry {
            virtual_path: path,
            kind,
            start_byte: 0,
            block_length: 0,
            mode,
            uid,
            gid,
            atime: now,
            mtime: now,
            ctime: now,
        }
    }

    /// An empty file, made now.
    pub fn new_file(path: String, mode: u16, uid: u32, gid: u32) -> (r: Self)
        ensures
            r@.path == path@,
            r@.meta == fresh(EntryKind::File, mode, uid, gid, r.atime),
            r.atime.is_valid(),
    {
        Self::fresh_at(path, EntryKind::File, mode, uid, gid, Timestamp::now())
    }

    /// A directory, made now.
    pub fn new_directory(path: String, mode: u16, uid: u32, gid: u32) -> (r: Self)
        ensures
            r@.path == path@,
            r@.meta == fresh(EntryKind::Directory, mode, uid, gid, r.atime),
            r.atime.is_valid(),
    {
        Self::fresh_at(path, EntryKind::Directory, mode, uid, gid, Timestamp::now())
    }

    /// A symbolic link without a target, made now and open to all.
    pub fn new_symlink(path: String, uid: u32, gid: u32) -> (r: Self)
        ensures
            r@.path == path@,
            r@.meta == fresh(EntryKind::Symlink, 0o777, uid, gid, r.atime),
            r.atime.is_valid(),
    {
        Self::fresh_at(path, EntryKind::Symlink, 0o777, uid, gid, Timestamp::now())
    }
}

impl Clone for IndexEntry {
    fn clone(&self) -> (r: Self)
        ensures
            r@ == self@,
    {
        IndexEntry {
            virtual_path: self.virtual_path.clone(),
            kind: self.kind,
            start_byte: self.start_byte,
            block_length: self.block_length,
            mode: self.mode,
            uid: self.uid,
            gid: self.gid,
            atime: self.atime,
            mtime: self.mtime,
            ctime: self.ctime,
        }
    }
}

} // verus!
