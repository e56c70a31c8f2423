use moss::error::{ErrorKind, StorageError};
use moss::file::{read_header, FileOp, Header};
use moss::storage::{EntryKind, IndexEntry, Moss, Timestamp};

const NOW: Timestamp = Timestamp { seconds: 1_700_000_000, nanoseconds: 5 };
const LATER: Timestamp = Timestamp { seconds: 1_700_000_100, nanoseconds: 0 };

fn perform(image: &mut Vec<u8>, steps: &[FileOp]) {
    for step in steps {
        match step {
            FileOp::Append(bytes) => image.extend_from_slice(bytes),
            FileOp::Patch { position, bytes } => {
                let start = *position as usize;
                image[start..start + bytes.len()].copy_from_slice(bytes);
            }
            FileOp::SyncData | FileOp::SyncAll => {}
        }
    }
}

fn open(image: &[u8]) -> Result<(Moss, bool), StorageError> {
    let header = read_header(image, image.len() as u64)?;
    Moss::open(header, &image[header.index_pointer as usize..], 7, 8, NOW)
}

fn write(moss: &mut Moss, image: &mut Vec<u8>, path: &str, data: &[u8]) {
    let pending = moss.write_file(path, data, image.len() as u64, 1, 2, NOW).ok().unwrap();
    perform(image, pending.ops());
    moss.record(pending, 0);
}

fn flush(moss: &mut Moss, image: &mut Vec<u8>) {
    let end = image.len() as u64;
    let steps = moss.flush_index(end).ok().unwrap();
    perform(image, &steps);
    moss.flushed(end);
}

fn paths(moss: &Moss) -> Vec<String> {
    moss.entries().iter().map(|entry| entry.virtual_path.clone()).collect()
}

fn sample() -> (Moss, Vec<u8>) {
    let (mut moss, steps) = Moss::create();
    let mut image = Vec::new();
    perform(&mut image, &steps);
    write(&mut moss, &mut image, "docs/a.txt", b"alpha");
    write(&mut moss, &mut image, "docs/sub/b.txt", b"beta");
    write(&mut moss, &mut image, "docs2", b"other");
    (moss, image)
}

#[test]
fn created_archive_opens_empty() {
    let (_, steps) = Moss::create();
    let mut image = Vec::new();
    perform(&mut image, &steps);
    assert_eq!(image.len(), 64 + 12);
    assert_eq!(&image[0..4], b"MOSS");
    assert_eq!(&image[4..6], &[2, 0]);
    assert_eq!(&image[6..14], &[64, 0, 0, 0, 0, 0, 0, 0]);
    assert_eq!(&image[64..68], b"MOSI");
    let (moss, legacy) = open(&image).ok().unwrap();
    assert!(!legacy);
    assert_eq!(moss.entries().len(), 0);
}

#[test]
fn written_files_are_read_back_after_reopening() {
    let (mut moss, mut image) = sample();
    write(&mut moss, &mut image, "/docs\\a.txt", b"alpha, again");
    flush(&mut moss, &mut image);
    let (again, _) = open(&image).ok().unwrap();
    assert_eq!(paths(&again), vec!["docs/a.txt", "docs/sub/b.txt", "docs2"]);
    let extent = again.read_file("docs/a.txt").ok().unwrap();
    let start = extent.start as usize;
    assert_eq!(&image[start..start + extent.length as usize], b"alpha, again");
    let entry = again.get_entry("docs/a.txt").unwrap();
    assert_eq!(entry.kind, EntryKind::File);
    assert_eq!((entry.mode, entry.uid, entry.gid), (0o644, 1, 2));
    assert_eq!(entry.mtime, NOW);
    assert!(again.contains_path("docs2"));
    assert!(!again.contains_path("docs"));
}

#[test]
fn renaming_moves_a_whole_tree_and_back() {
    let (mut moss, _) = sample();
    let before = moss.read_file("docs/sub/b.txt").ok().unwrap();
    assert!(moss.rename_prefix("docs", "x/y", LATER, 0).is_ok());
    assert_eq!(paths(&moss), vec!["docs2", "x/y/a.txt", "x/y/sub/b.txt"]);
    assert_eq!(moss.read_file("x/y/sub/b.txt").ok().unwrap(), before);
    assert_eq!(moss.get_entry("x/y/a.txt").unwrap().ctime, LATER);
    assert_eq!(moss.get_entry("x/y/a.txt").unwrap().mtime, NOW);
    assert!(moss.rename_prefix("x/y", "docs", LATER, 0).is_ok());
    assert_eq!(paths(&moss), vec!["docs/a.txt", "docs/sub/b.txt", "docs2"]);
}

#[test]
fn renaming_replaces_what_is_there() {
    let (mut moss, _) = sample();
    let source = moss.read_file("docs/a.txt").ok().unwrap();
    assert!(moss.rename_prefix("docs/a.txt", "docs2", LATER, 0).is_ok());
    assert_eq!(paths(&moss), vec!["docs/sub/b.txt", "docs2"]);
    assert_eq!(moss.read_file("docs2").ok().unwrap(), source);
}

#[test]
fn removing_takes_a_tree_and_nothing_else() {
    let (mut moss, _) = sample();
    assert_eq!(moss.remove_prefix("docs", 0).ok().unwrap().0, 2);
    assert_eq!(paths(&moss), vec!["docs2"]);
    assert_eq!(moss.remove_prefix("docs", 0).ok().unwrap().0, 0);
}

#[test]
fn metadata_changes_only_what_is_asked() {
    let (mut moss, _) = sample();
    let before = moss.get_entry("docs2").unwrap().clone();
    assert!(moss.update_metadata("docs2", Some(0o600), None, Some(LATER), LATER, 0).is_ok());
    let after = moss.get_entry("docs2").unwrap();
    assert_eq!(after.mode, 0o600);
    assert_eq!(after.atime, before.atime);
    assert_eq!(after.mtime, LATER);
    assert_eq!(after.ctime, LATER);
    assert_eq!(after.start_byte, before.start_byte);
    assert_eq!(after.block_length, before.block_length);
}

#[test]
fn upserting_without_data_keeps_the_payload() {
    let (mut moss, image) = sample();
    let before = moss.read_file("docs2").ok().unwrap();
    let entry = IndexEntry::new_file("docs2".to_string(), 0o755, 3, 4);
    let pending = moss.upsert_entry(entry, None, image.len() as u64).ok().unwrap();
    assert_eq!(pending.ops().len(), 0);
    moss.record(pending, 0);
    assert_eq!(moss.read_file("docs2").ok().unwrap(), before);
    assert_eq!(moss.get_entry("docs2").unwrap().mode, 0o755);
}

#[test]
fn index_is_due_after_many_changes_or_seconds() {
    let (mut moss, mut image) = sample();
    assert!(!moss.remove_prefix("docs2", 4).ok().unwrap().1);
    write(&mut moss, &mut image, "docs2", b"x");
    assert!(moss.remove_prefix("docs2", 5).ok().unwrap().1);

    let (mut moss, _) = Moss::create();
    let mut due = 0;
    for i in 0..4096u32 {
        let entry = IndexEntry::new_directory(format!("d{}", i), 0o755, 0, 0);
        let pending = moss.upsert_entry(entry, None, 76).ok().unwrap();
        if moss.record(pending, 0) {
            due += 1;
            assert_eq!(i, 4095);
        }
    }
    assert_eq!(due, 1);
}

#[test]
fn checkpoint_writes_only_changes() {
    let (mut moss, mut image) = sample();
    assert!(moss.checkpoint(image.len() as u64).ok().unwrap().is_some());
    flush(&mut moss, &mut image);
    assert!(moss.checkpoint(image.len() as u64).ok().unwrap().is_none());
}

#[test]
fn syncing_without_changes_keeps_the_index() {
    let (mut moss, mut image) = sample();
    let end = image.len() as u64;
    perform(&mut image, &moss.sync(end).ok().unwrap());
    moss.synced(end);
    let length = image.len();
    let steps = moss.sync(length as u64).ok().unwrap();
    assert_eq!(steps.len(), 1);
    perform(&mut image, &steps);
    moss.synced(length as u64);
    assert_eq!(image.len(), length);
    assert_eq!(paths(&open(&image).ok().unwrap().0), paths(&moss));
}

#[test]
fn refused_requests_name_their_reason() {
    let (mut moss, image) = sample();
    let end = image.len() as u64;
    assert_eq!(moss.read_file("nothing").err(), Some(StorageError::NotFound));
    assert_eq!(moss.remove_prefix("a/../b", 0).err(), Some(StorageError::ParentTraversal));
    assert_eq!(moss.remove_prefix("a\0b", 0).err(), Some(StorageError::NulByte));
    assert_eq!(moss.remove_prefix("/./", 0).err(), Some(StorageError::RootPath));
    assert_eq!(
        moss.rename_prefix("docs", "docs/sub/c", NOW, 0).err(),
        Some(StorageError::MoveIntoItself)
    );
    assert_eq!(moss.rename_prefix("nothing", "c", NOW, 0).err(), Some(StorageError::NotFound));
    assert_eq!(
        moss.update_metadata("nothing", None, None, None, NOW, 0).err(),
        Some(StorageError::NotFound)
    );
    let mut entry = IndexEntry::new_file("new".to_string(), 0o644, 0, 0);
    entry.block_length = 1;
    assert_eq!(
        moss.upsert_entry(entry, None, end).err(),
        Some(StorageError::MissingPayload)
    );
    let directory = IndexEntry::new_directory("dir".to_string(), 0o755, 0, 0);
    let pending = moss.upsert_entry(directory, None, end).ok().unwrap();
    moss.record(pending, 0);
    assert_eq!(moss.read_file("dir").err(), Some(StorageError::ReadDirectory));
    assert_eq!(
        moss.write_file("dir", b"x", end, 0, 0, NOW).err(),
        Some(StorageError::ReplaceDirectory)
    );
    let long = "x".repeat(1_048_577);
    write(&mut moss, &mut image.clone(), &long, b"");
    assert_eq!(moss.flush_index(end).err(), Some(StorageError::PathTooLong));
}

#[test]
fn damaged_files_are_refused() {
    let (mut moss, mut image) = sample();
    flush(&mut moss, &mut image);
    let pointer = read_header(&image, image.len() as u64).ok().unwrap().index_pointer as usize;
    let refused = |change: &dyn Fn(&mut Vec<u8>)| {
        let mut damaged = image.clone();
        change(&mut damaged);
        open(&damaged).err()
    };
    assert_eq!(refused(&|i| i.truncate(63)), Some(StorageError::HeaderTooSmall));
    assert_eq!(refused(&|i| i[0] = 0), Some(StorageError::BadSignature));
    assert_eq!(refused(&|i| i[4] = 9), Some(StorageError::UnsupportedVersion(9)));
    assert_eq!(
        refused(&|i| i[6..14].copy_from_slice(&[63, 0, 0, 0, 0, 0, 0, 0])),
        Some(StorageError::PointerOutOfRange)
    );
    assert_eq!(refused(&|i| i[13] = 255), Some(StorageError::PointerOutOfRange));
    assert_eq!(refused(&|i| i[pointer] = 0), Some(StorageError::BadIndexSignature));
    assert_eq!(refused(&|i| i[pointer + 11] = 1), Some(StorageError::TooManyEntries));
    assert_eq!(refused(&|i| i[pointer + 4] = 4), Some(StorageError::UnexpectedEnd));
    // The first entry: its path length, its path, its kind, the end of its payload, its times.
    assert_eq!(refused(&|i| i[pointer + 12] = 0), Some(StorageError::BadPathLength));
    assert_eq!(refused(&|i| i[pointer + 15] = 1), Some(StorageError::BadPathLength));
    assert_eq!(refused(&|i| i[pointer + 16] = 255), Some(StorageError::PathNotUtf8));
    let fields = pointer + 16 + "docs/a.txt".len();
    assert_eq!(refused(&|i| i[fields] = 3), Some(StorageError::BadKind));
    assert_eq!(refused(&|i| i[fields + 8] = 1), Some(StorageError::PayloadOutOfRange));
    assert_eq!(
        refused(&|i| i[fields + 1..fields + 17].copy_from_slice(&[255; 16])),
        Some(StorageError::RangeOverflow)
    );
    assert_eq!(refused(&|i| i[fields + 38] = 255), Some(StorageError::BadTimestamp));
    // The second entry gets the path of the third.
    let second = fields + 63;
    let third = second + 4 + "docs/sub/b.txt".len() + 63;
    assert_eq!(&image[third + 4..third + 9], b"docs2");
    assert_eq!(
        refused(&|i| {
            let tail = i.split_off(third);
            i.extend_from_slice(&tail);
            i.extend_from_slice(&tail);
            i[pointer + 4] = 4;
        }),
        Some(StorageError::DuplicatePath)
    );
}

fn legacy_entry(path: &[u8], start: u64, length: u64) -> Vec<u8> {
    let mut entry = Vec::new();
    entry.extend_from_slice(&(path.len() as u16).to_le_bytes());
    entry.extend_from_slice(path);
    entry.extend_from_slice(&start.to_le_bytes());
    entry.extend_from_slice(&length.to_le_bytes());
    entry.extend_from_slice(&[0; 8]);
    entry
}

fn legacy(entries: &[Vec<u8>]) -> Result<(Moss, bool), StorageError> {
    let header = Header { version: 1, index_pointer: 100 };
    Moss::open(header, &entries.concat(), 7, 8, NOW)
}

#[test]
fn legacy_archives_open() {
    let (moss, due) = legacy(&[
        legacy_entry(b"/a\\b", 64, 10),
        legacy_entry(b"c", 74, 26),
        legacy_entry(b"c", 74, 25),
    ])
    .ok()
    .unwrap();
    assert!(due);
    assert_eq!(paths(&moss), vec!["a/b", "c"]);
    let entry = moss.get_entry("c").unwrap();
    assert_eq!((entry.start_byte, entry.block_length), (74, 25));
    assert_eq!((entry.mode, entry.uid, entry.gid, entry.mtime), (0o644, 7, 8, NOW));
}

#[test]
fn damaged_legacy_archives_are_refused() {
    assert_eq!(legacy(&[vec![1]]).err(), Some(StorageError::LegacyTruncated));
    assert_eq!(legacy(&[vec![0, 0]]).err(), Some(StorageError::LegacyBadEntry));
    assert_eq!(legacy(&[vec![1, 0, 65]]).err(), Some(StorageError::LegacyBadEntry));
    assert_eq!(
        legacy(&[legacy_entry(&[255], 0, 0)]).err(),
        Some(StorageError::LegacyPathNotUtf8)
    );
    assert_eq!(
        legacy(&[legacy_entry(b"a", u64::MAX, 1)]).err(),
        Some(StorageError::LegacyRangeOverflow)
    );
    assert_eq!(
        legacy(&[legacy_entry(b"a", 100, 1)]).err(),
        Some(StorageError::LegacyOutOfRange)
    );
}

#[test]
fn errors_have_kinds_and_messages() {
    assert_eq!(StorageError::NotFound.kind(), ErrorKind::NotFound);
    assert_eq!(StorageError::ParentTraversal.kind(), ErrorKind::InvalidInput);
    assert_eq!(StorageError::UnexpectedEnd.kind(), ErrorKind::UnexpectedEof);
    assert_eq!(StorageError::BadKind.kind(), ErrorKind::InvalidData);
    assert!(StorageError::UnsupportedVersion(9).message().contains('9'));
}
