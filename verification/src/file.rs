//! What is done to the file that holds an archive, and the header at its beginning.
use vstd::prelude::*;
use crate::bytes::{get_le, law_le_round_trip, le_bytes, le_value, lemma_byte_range,
    lemma_le_bytes_len, push_le};
use crate::error::StorageError;

verus! {

/// The version that is written.
pub const VERSION: u16 = 2;

/// The version before that, which is still read.
pub const LEGACY_VERSION: u16 = 1;

/// The size of the header in bytes.
pub const HEADER_SIZE: u64 = 64;

/// One step that changes or secures a file.
#[derive(Debug)]
pub enum FileOp {
    /// Write at the end.
    Append(Vec<u8>),
    /// Write over what is at the position.
    Patch { position: u64, bytes: Vec<u8> },
    /// Wait until the contents are on the device.
    SyncData,
    /// Wait until contents and metadata are on the device.
    SyncAll,
}

/// A step as a mathematical value.
pub enum OpView {
    Append(Seq<u8>),
    Patch { position: int, bytes: Seq<u8> },
    SyncData,
    SyncAll,
}

impl FileOp {
    pub open spec fn view(self) -> OpView {
        match self {
            FileOp::Append(bytes) => OpView::Append(bytes@),
            FileOp::Patch { position, bytes } => OpView::Patch {
                position: position as int,
                bytes: bytes@,
            },
            FileOp::SyncData => OpView::SyncData,
            FileOp::SyncAll => OpView::SyncAll,
        }
    }
}

/// Steps as mathematical values.
pub open spec fn ops_view(ops: Seq<FileOp>) -> Seq<OpView> {
    ops.map_values(|op: FileOp| op@)
}

/// `image` with `bytes` written over what is at `position`.
pub open spec fn patched(image: Seq<u8>, position: int, bytes: Seq<u8>) -> Seq<u8> {
    image.take(position) + bytes + image.skip(position + bytes.len())
}

/// The contents of a file after a step.
pub open spec fn after_op(image: Seq<u8>, op: OpView) -> Seq<u8> {
    match op {
        OpView::Append(bytes) => image + bytes,
        OpView::Patch { position, bytes } => patched(image, position, bytes),
        OpView::SyncData => image,
        OpView::SyncAll => image,
    }
}

/// The contents of a file after some steps.
pub open spec fn after_ops(image: Seq<u8>, ops: Seq<OpView>) -> Seq<u8>
    decreases ops.len(),
{
    if ops.len() == 0 {
        image
    } else {
        after_op(after_ops(image, ops.drop_last()), ops.last())
    }
}

/// Steps one after the other.
pub proof fn lemma_after_concat(image: Seq<u8>, a: Seq<OpView>, b: Seq<OpView>)
    ensures
        after_ops(image, a + b) == after_ops(after_ops(image, a), b),
    decreases b.len(),
{
    if b.len() == 0 {
        assert(a + b =~= a);
    } else {
        lemma_after_concat(image, a, b.drop_last());
        assert((a + b).drop_last() =~= a + b.drop_last());
    }
}

/// The bytes that an archive begins with: `MOSS`.
pub open spec fn magic() -> Seq<u8> {
    seq![77u8, 79u8, 83u8, 83u8]
}

/// The part of the header that says where the index is: version and pointer.
pub open spec fn locator_bytes(pointer: u64) -> Seq<u8> {
    le_bytes(VERSION as nat, 2) + le_bytes(pointer as nat, 8)
}

/// The header of an archive whose index begins at `pointer`.
pub open spec fn header_bytes(pointer: u64) -> Seq<u8> {
    magic() + locator_bytes(pointer) + Seq::new(50, |i: int| 0u8)
}

/// What a header says.
#[derive(Debug, Clone, Copy, PartialEq, Eq, Structural)]
pub struct Header {
    pub version: u16,
    pub index_pointer: u64,
}

/// What the header at the beginning of a file of `file_length` bytes says, or what is wrong with
/// it.
pub open spec fn decoded_header(image: Seq<u8>, file_length: u64) -> Result<Header, StorageError> {
    let version = le_value(image.subrange(4, 6)) as u16;
    let index_pointer = le_value(image.subrange(6, 14)) as u64;
    if file_length < HEADER_SIZE {
        Err(StorageError::HeaderTooSmall)
    } else if image.len() < 4 {
        Err(StorageError::UnexpectedEnd)
    } else if image.take(4) != magic() {
        Err(StorageError::BadSignature)
    } else if image.len() < 6 {
        Err(StorageError::UnexpectedEnd)
    } else if version != VERSION && version != LEGACY_VERSION {
        Err(StorageError::UnsupportedVersion(version))
    } else if image.len() < 14 {
        Err(StorageError::UnexpectedEnd)
    } else if index_pointer < HEADER_SIZE || index_pointer > file_length {
        Err(StorageError::PointerOutOfRange)
    } else {
        Ok(Header { version, index_pointer })
    }
}

/// Reads the header from the beginning of a file of `file_length` bytes.
pub fn read_header(image: &[u8], file_length: u64) -> (r: Result<Header, StorageError>)
    ensures
        r == decoded_header(image@, file_length),
{
    if file_length < HEADER_SIZE {
        return Err(StorageError::HeaderTooSmall);
    }
    if image.len() < 4 {
        return Err(StorageError::UnexpectedEnd);
    }
    proof {
        lemma_byte_range();
        let start = image@.take(4);
        assert(start == magic() <==> start[0] == 77 && start[1] == 79 && start[2] == 83 && start[3]
            == 83) by {
            if start[0] == 77 && start[1] == 79 && start[2] == 83 && start[3] == 83 {
                assert(start =~= magic());
            }
        }
    }
    if image[0] != 77 || image[1] != 79 || image[2] != 83 || image[3] != 83 {
        return Err(StorageError::BadSignature);
    }
    if image.len() < 6 {
        return Err(StorageError::UnexpectedEnd);
    }
    let version: u16 = get_le(image, 4, 2) as u16;
    if version != VERSION && version != LEGACY_VERSION {
        return Err(StorageError::UnsupportedVersion(version));
    }
    if image.len() < 14 {
        return Err(StorageError::UnexpectedEnd);
    }
    let index_pointer: u64 = get_le(image, 6, 8);
    if index_pointer < HEADER_SIZE || index_pointer > file_length {
        return Err(StorageError::PointerOutOfRange);
    }
    Ok(Header { version, index_pointer })
}

/// The version and the index pointer as bytes.
pub fn locator(pointer: u64) -> (r: Vec<u8>)
    ensures
        r@ == locator_bytes(pointer),
{
    let mut r: Vec<u8> = Vec::new();
    push_le(&mut r, VERSION as u64, 2);
    push_le(&mut r, pointer, 8);
    assert(r@ =~= locator_bytes(pointer));
    r
}

/// The header of an archive whose index begins at `pointer`.
pub fn header(pointer: u64) -> (r: Vec<u8>)
    ensures
        r@ == header_bytes(pointer),
{
    let mut r: Vec<u8> = Vec::new();
    r.push(77);
    r.push(79);
    r.push(83);
    r.push(83);
    let mut place: Vec<u8> = locator(pointer);
    r.append(&mut place);
    let ghost start = r@;
    let mut i: usize = 0;
    while i < 50
        invariant
            i <= 50,
            r@ == start + Seq::new(i as nat, |k: int| 0u8),
        decreases 50 - i,
    {
        r.push(0);
        i += 1;
        assert(r@ =~= start + Seq::new(i as nat, |k: int| 0u8));
    }
    assert(r@ =~= header_bytes(pointer));
    r
}

pub proof fn lemma_locator_len(pointer: u64)
    ensures
        locator_bytes(pointer).len() == 10,
        header_bytes(pointer).len() == HEADER_SIZE,
{
    lemma_le_bytes_len(VERSION as nat, 2);
    lemma_le_bytes_len(pointer as nat, 8);
}

/// A file that begins with the signature and has a locator behind it is read as an archive with
/// the located index.
pub proof fn law_header_round_trip(image: Seq<u8>, pointer: u64)
    requires
        HEADER_SIZE <= pointer <= image.len() <= u64::MAX,
        image.take(4) == magic(),
        image.subrange(4, 14) == locator_bytes(pointer),
    ensures
        decoded_header(image, image.len() as u64) == Ok::<Header, StorageError>(
            Header { version: VERSION, index_pointer: pointer },
        ),
{
    lemma_byte_range();
    lemma_locator_len(pointer);
    law_le_round_trip(VERSION as nat, 2);
    law_le_round_trip(pointer as nat, 8);
    let part = image.subrange(4, 14);
    assert(image.subrange(4, 6) =~= part.take(2));
    assert(part.take(2) =~= le_bytes(VERSION as nat, 2));
    assert(image.subrange(6, 14) =~= part.skip(2));
    assert(part.skip(2) =~= le_bytes(pointer as nat, 8));
}

} // verus!
