use moss::errno::{io_error_to_errno, Errno};
use moss::error::ErrorKind;
use moss::fuse_driver::{overwrite, slice_of, validate_name, Changes, MossFS, Source};
use moss::storage::{EntryKind, IndexEntry, Moss, Timestamp};

const ROOT: u64 = 1;
const NOW: Timestamp = Timestamp { seconds: 100, nanoseconds: 0 };
const LATER: Timestamp = Timestamp { seconds: 200, nanoseconds: 0 };

fn archive() -> Moss {
    let (mut moss, _) = Moss::create();
    for path in ["docs/a.txt", "docs/sub/b.txt", "z.txt"] {
        let pending = moss.write_file(path, b"12345", 76, 1, 2, NOW).ok().unwrap();
        moss.record(pending, 0);
    }
    moss
}

fn mounted() -> MossFS {
    MossFS::new(&archive(), 500, 600, NOW)
}

fn find(fs: &MossFS, path: &str) -> Option<u64> {
    let mut ino = ROOT;
    for name in path.split('/') {
        ino = fs.lookup(ino, Some(name)).ok()?.ino;
    }
    Some(ino)
}

fn names(fs: &MossFS, ino: u64) -> Vec<String> {
    fs.readdir(ino, 0).ok().unwrap().into_iter().map(|line| line.name).collect()
}

fn create(fs: &mut MossFS, parent: u64, name: &str, kind: EntryKind) -> u64 {
    let creation =
        fs.create_node(parent, Some(name), kind, 0o100640, 7, 8, LATER).ok().unwrap();
    fs.create_done(creation.ino, creation.parent, Ok(()), LATER).ok().unwrap();
    creation.ino
}

#[test]
fn a_mounted_archive_shows_its_tree() {
    let fs = mounted();
    assert_eq!(names(&fs, ROOT), vec![".", "..", "docs", "z.txt"]);
    let docs = find(&fs, "docs").unwrap();
    assert_eq!(names(&fs, docs), vec![".", "..", "a.txt", "sub"]);
    let attr = fs.getattr(docs).ok().unwrap();
    assert_eq!(attr.kind, EntryKind::Directory);
    assert_eq!((attr.perm, attr.nlink, attr.uid, attr.gid), (0o755, 3, 500, 600));
    let file = fs.getattr(find(&fs, "docs/a.txt").unwrap()).ok().unwrap();
    assert_eq!(file.kind, EntryKind::File);
    assert_eq!((file.size, file.blocks, file.nlink), (5, 1, 1));
    assert_eq!((file.perm, file.uid, file.gid), (0o644, 1, 2));
    assert_eq!(fs.lookup(ROOT, Some("nothing")).err(), Some(Errno::NoEntry));
    assert_eq!(fs.lookup(find(&fs, "z.txt").unwrap(), Some("x")).err(), Some(Errno::NotDirectory));
    assert_eq!(fs.lookup(99, Some("x")).err(), Some(Errno::NoEntry));
    assert_eq!(fs.getattr(99).err(), Some(Errno::NoEntry));
    assert_eq!(fs.access(99).err(), Some(Errno::NoEntry));
    assert!(fs.access(ROOT).is_ok());
}

#[test]
fn names_are_checked() {
    assert_eq!(validate_name(Some("ok")).ok().unwrap(), "ok");
    for name in ["", ".", "..", "a/b", "a\\b", "a\0b"] {
        assert_eq!(validate_name(Some(name)).err(), Some(Errno::Invalid));
    }
    assert_eq!(validate_name(None).err(), Some(Errno::Invalid));
}

#[test]
fn created_nodes_are_found_in_order() {
    let mut fs = mounted();
    let ino = create(&mut fs, ROOT, "m.txt", EntryKind::File);
    assert_eq!(find(&fs, "m.txt"), Some(ino));
    assert_eq!(names(&fs, ROOT), vec![".", "..", "docs", "m.txt", "z.txt"]);
    let attr = fs.getattr(ino).ok().unwrap();
    assert_eq!((attr.perm, attr.uid, attr.gid, attr.size), (0o640, 7, 8, 0));
    assert_eq!(fs.getattr(ROOT).ok().unwrap().mtime, LATER);
    assert_eq!(
        fs.create_node(ROOT, Some("m.txt"), EntryKind::File, 0, 0, 0, NOW).err(),
        Some(Errno::Exists)
    );
    assert_eq!(
        fs.create_node(ino, Some("x"), EntryKind::File, 0, 0, 0, NOW).err(),
        Some(Errno::NotDirectory)
    );
    let creation =
        fs.create_node(ROOT, Some("n"), EntryKind::Directory, 0o755, 0, 0, NOW).ok().unwrap();
    assert!(!creation.has_payload);
    assert_eq!(creation.entry.virtual_path, "n");
    assert_eq!(
        fs.create_done(creation.ino, creation.parent, Err(Errno::Io), NOW).err(),
        Some(Errno::Io)
    );
    assert_eq!(find(&fs, "n"), None);
}

#[test]
fn what_is_written_is_read_and_committed() {
    let mut fs = mounted();
    let ino = find(&fs, "docs/a.txt").unwrap();
    match fs.read(ino, 0, 10).ok().unwrap() {
        Source::Stored(path) => assert_eq!(path, "docs/a.txt"),
        Source::Cached(_) => panic!("nothing was written yet"),
    }
    assert_eq!(fs.prepare_write(ino, 7).ok().unwrap(), Some("docs/a.txt".to_string()));
    fs.fill_cache(ino, b"12345".to_vec());
    assert_eq!(fs.write(ino, 7, b"abc", false, LATER).ok().unwrap(), 3);
    assert_eq!(fs.write(ino, 0, b"Z", true, LATER).ok().unwrap(), 1);
    match fs.read(ino, 3, 100).ok().unwrap() {
        Source::Cached(data) => assert_eq!(data, b"45\0\0abcZ".to_vec()),
        Source::Stored(_) => panic!("the contents are at hand"),
    }
    assert_eq!(fs.getattr(ino).ok().unwrap().size, 11);
    assert_eq!(fs.pending(), vec![ino]);
    let commit = fs.commit_inode(ino, LATER).ok().unwrap().unwrap();
    assert_eq!(commit.entry.virtual_path, "docs/a.txt");
    assert_eq!(commit.entry.block_length, 11);
    assert_eq!(fs.commit_done(commit, Err(Errno::Io)).err(), Some(Errno::Io));
    assert!(fs.is_cached(ino));
    let commit = fs.commit_inode(ino, LATER).ok().unwrap().unwrap();
    assert_eq!(commit.data, b"12345\0\0abcZ".to_vec());
    assert!(fs.commit_done(commit, Ok(())).is_ok());
    assert!(!fs.is_cached(ino));
    assert!(fs.commit_inode(ino, LATER).ok().unwrap().is_none());
}

#[test]
fn sizes_are_set() {
    let mut fs = mounted();
    let ino = find(&fs, "z.txt").unwrap();
    assert_eq!(fs.prepare_resize(ino, 3).ok().unwrap(), Some("z.txt".to_string()));
    fs.fill_cache(ino, b"12345".to_vec());
    assert!(fs.set_file_size(ino, 3, LATER).is_ok());
    assert!(fs.set_file_size(ino, 6, LATER).is_ok());
    match fs.read(ino, 0, 10).ok().unwrap() {
        Source::Cached(data) => assert_eq!(data, b"123\0\0\0".to_vec()),
        Source::Stored(_) => panic!("the contents are at hand"),
    }
    assert_eq!(fs.getattr(ino).ok().unwrap().size, 6);
}

#[test]
fn requests_on_the_wrong_kind_are_refused() {
    let mut fs = mounted();
    let docs = find(&fs, "docs").unwrap();
    let file = find(&fs, "z.txt").unwrap();
    let link = create(&mut fs, ROOT, "link", EntryKind::Symlink);
    assert_eq!(fs.read(docs, 0, 1).err(), Some(Errno::IsDirectory));
    assert_eq!(fs.read(file, -1, 1).err(), Some(Errno::Invalid));
    assert_eq!(fs.read(99, 0, 1).err(), Some(Errno::NoEntry));
    assert_eq!(fs.prepare_write(docs, 0).err(), Some(Errno::IsDirectory));
    assert_eq!(fs.prepare_write(link, 0).err(), Some(Errno::Invalid));
    assert_eq!(fs.prepare_write(file, -1).err(), Some(Errno::Invalid));
    assert_eq!(fs.readlink(file).err(), Some(Errno::Invalid));
    assert!(fs.readlink(link).is_ok());
    assert_eq!(fs.open(docs).err(), Some(Errno::IsDirectory));
    assert_eq!(fs.readdir(file, 0).err(), Some(Errno::NotDirectory));
    assert_eq!(fs.readdir(docs, -1).err(), Some(Errno::Invalid));
    assert_eq!(fs.check_setattr(docs, true).err(), Some(Errno::IsDirectory));
    assert_eq!(fs.unlink(ROOT, Some("docs")).err(), Some(Errno::IsDirectory));
    assert_eq!(fs.rmdir(ROOT, Some("z.txt")).err(), Some(Errno::NotDirectory));
    assert_eq!(fs.rmdir(ROOT, Some("docs")).err(), Some(Errno::NotEmpty));
}

#[test]
fn removed_nodes_are_gone() {
    let mut fs = mounted();
    let removal = fs.unlink(ROOT, Some("z.txt")).ok().unwrap();
    assert_eq!(removal.path, "z.txt");
    assert!(fs.removed(ROOT, removal.ino, LATER).is_none());
    assert_eq!(find(&fs, "z.txt"), None);
    let docs = find(&fs, "docs").unwrap();
    let removal = fs.unlink(docs, Some("a.txt")).ok().unwrap();
    let touched = fs.removed(docs, removal.ino, LATER).unwrap();
    assert_eq!(touched.virtual_path, "docs");
    assert_eq!(touched.mtime, LATER);
}

#[test]
fn renamed_nodes_take_everything_along() {
    let mut fs = mounted();
    let docs = find(&fs, "docs").unwrap();
    let b = find(&fs, "docs/sub/b.txt").unwrap();
    let plan = fs.rename(docs, Some("sub"), ROOT, Some("moved"), 0).ok().unwrap().unwrap();
    assert_eq!(plan.old_path, "docs/sub");
    assert_eq!(fs.rename_target(&plan).ok().unwrap(), "moved");
    let touched: Vec<IndexEntry> = fs.renamed(plan, LATER);
    assert_eq!(touched.len(), 1);
    assert_eq!(touched[0].virtual_path, "docs");
    assert_eq!(find(&fs, "moved/b.txt"), Some(b));
    assert_eq!(find(&fs, "docs/sub"), None);
    assert_eq!(names(&fs, ROOT), vec![".", "..", "docs", "moved", "z.txt"]);
}

#[test]
fn renames_are_checked() {
    let mut fs = mounted();
    let docs = find(&fs, "docs").unwrap();
    let sub = find(&fs, "docs/sub").unwrap();
    let empty = create(&mut fs, ROOT, "empty", EntryKind::Directory);
    let rename = |from: u64, name: &str, to: u64, new: &str, flags: u32| {
        fs.rename(from, Some(name), to, Some(new), flags)
    };
    assert_eq!(rename(ROOT, "docs", sub, "x", 0).err(), Some(Errno::Invalid));
    assert_eq!(rename(ROOT, "docs", ROOT, "x", 4).err(), Some(Errno::Invalid));
    assert_eq!(rename(ROOT, "docs", ROOT, "x", 2).err(), Some(Errno::NotSupported));
    assert_eq!(rename(ROOT, "docs", ROOT, "z.txt", 1).err(), Some(Errno::Exists));
    assert_eq!(rename(ROOT, "docs", ROOT, "z.txt", 0).err(), Some(Errno::NotDirectory));
    assert_eq!(rename(ROOT, "z.txt", ROOT, "docs", 0).err(), Some(Errno::IsDirectory));
    assert_eq!(rename(ROOT, "empty", ROOT, "docs", 0).err(), Some(Errno::NotEmpty));
    assert_eq!(rename(ROOT, "nothing", ROOT, "x", 0).err(), Some(Errno::NoEntry));
    assert!(rename(ROOT, "docs", ROOT, "docs", 0).ok().unwrap().is_none());
    let plan = rename(docs, "sub", ROOT, "empty", 0).ok().unwrap().unwrap();
    let replaced = plan.replaced.as_ref().unwrap();
    assert_eq!((replaced.ino, replaced.path.as_str()), (empty, "empty"));
}

#[test]
fn attributes_are_set() {
    let mut fs = mounted();
    let ino = find(&fs, "z.txt").unwrap();
    let changes =
        Changes { mode: Some(0o107600), uid: Some(9), gid: None, atime: Some(LATER), mtime: None };
    assert!(fs.check_setattr(ino, false).is_ok());
    fs.set_attributes(ino, changes, LATER);
    let attr = fs.getattr(ino).ok().unwrap();
    assert_eq!((attr.perm, attr.uid, attr.gid), (0o7600, 9, 2));
    assert_eq!((attr.atime, attr.mtime, attr.ctime), (LATER, NOW, LATER));
    let entry = fs.persist_metadata(ino).ok().unwrap().unwrap();
    assert_eq!((entry.virtual_path.as_str(), entry.mode), ("z.txt", 0o7600));
    assert!(fs.persist_metadata(ROOT).ok().unwrap().is_none());
}

#[test]
fn symlinks_hold_their_target() {
    let mut fs = mounted();
    let ino = create(&mut fs, ROOT, "link", EntryKind::Symlink);
    let entry = fs.symlink_entry(ino, 4).ok().unwrap();
    assert_eq!((entry.virtual_path.as_str(), entry.block_length), ("link", 4));
    assert!(fs.symlink_done(ino, 4, Ok(())).is_ok());
    assert_eq!(fs.getattr(ino).ok().unwrap().size, 4);
    assert_eq!(fs.symlink_done(ino, 4, Err(Errno::Io)).err(), Some(Errno::Io));
    assert_eq!(find(&fs, "link"), None);
}

#[test]
fn listings_go_on_where_they_stopped() {
    let fs = mounted();
    let lines = fs.readdir(ROOT, 2).ok().unwrap();
    assert_eq!(lines.len(), 2);
    assert_eq!((lines[0].name.as_str(), lines[0].next_offset), ("docs", 3));
    assert_eq!((lines[1].name.as_str(), lines[1].next_offset), ("z.txt", 4));
    assert_eq!(fs.readdir(ROOT, 4).ok().unwrap().len(), 0);
    assert_eq!(fs.readdir(ROOT, i64::MAX).ok().unwrap().len(), 0);
}

#[test]
fn statistics_count_nodes_and_blocks() {
    let mut fs = mounted();
    let statistics = fs.statfs();
    assert_eq!(statistics.blocks, 1 + (1 << 30));
    assert_eq!(statistics.free_blocks, 1 << 30);
    assert_eq!(statistics.files, 6 + (1 << 20));
    assert_eq!(statistics.free_files, 1 << 20);
    assert_eq!((fs.allocate_handle(), fs.allocate_handle()), (1, 2));
    assert!(fs.has_free_inode());
}

#[test]
fn parts_of_contents() {
    assert_eq!(slice_of(b"12345", 1, 3), b"234".to_vec());
    assert_eq!(slice_of(b"12345", 9, 3), b"".to_vec());
    assert_eq!(overwrite(b"123".to_vec(), 5, b"x"), b"123\0\0x".to_vec());
    assert_eq!(overwrite(b"12345".to_vec(), 1, b"xy"), b"1xy45".to_vec());
}

#[test]
fn errors_become_numbers() {
    assert_eq!(io_error_to_errno(Some(28), ErrorKind::NotFound), Errno::Raw(28));
    assert_eq!(io_error_to_errno(None, ErrorKind::NotFound), Errno::NoEntry);
    assert_eq!(io_error_to_errno(None, ErrorKind::PermissionDenied), Errno::Access);
    assert_eq!(io_error_to_errno(None, ErrorKind::AlreadyExists), Errno::Exists);
    assert_eq!(io_error_to_errno(None, ErrorKind::InvalidInput), Errno::Invalid);
    assert_eq!(io_error_to_errno(None, ErrorKind::InvalidData), Errno::Invalid);
    assert_eq!(io_error_to_errno(None, ErrorKind::Unsupported), Errno::NotSupported);
    assert_eq!(io_error_to_errno(None, ErrorKind::UnexpectedEof), Errno::Io);
}
