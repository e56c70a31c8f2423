use moss::fuse_driver::Source;
use moss::storage::{EntryKind, Moss, Timestamp};
use moss::windows_driver::{
    file_name_from_path, mode_to_win_attrs, normalize_pons_path, parent_path, part_of,
    win_attrs_to_mode, CreateFileInfo, HandleContext, MossDokan, NtStatus,
};

const NOW: Timestamp = Timestamp { seconds: 100, nanoseconds: 0 };
const LATER: Timestamp = Timestamp { seconds: 200, nanoseconds: 0 };

const SUPERSEDE: u32 = 0;
const OPEN: u32 = 1;
const CREATE: u32 = 2;
const OPEN_IF: u32 = 3;
const OVERWRITE: u32 = 4;
const DIRECTORY: u32 = 0x1;
const NON_DIRECTORY: u32 = 0x40;
const DELETE_ON_CLOSE: u32 = 0x1000;

fn mounted() -> MossDokan {
    let (mut moss, _) = Moss::create();
    for path in ["docs/a.txt", "docs/sub/b.txt", "z.txt"] {
        let pending = moss.write_file(path, b"12345", 76, 1, 2, NOW).ok().unwrap();
        moss.record(pending, 0);
    }
    MossDokan::new(&moss, NOW)
}

fn units(text: &str) -> Vec<u16> {
    text.encode_utf16().collect()
}

fn request(
    drive: &mut MossDokan,
    path: &str,
    disposition: u32,
    options: u32,
) -> Result<CreateFileInfo, NtStatus> {
    drive.create_file(path.to_string(), 0, disposition, options, LATER)
}

fn names(drive: &MossDokan, path: &str) -> Vec<String> {
    drive.find_files(path).ok().unwrap().into_iter().map(|line| line.file_name).collect()
}

fn contents(drive: &MossDokan, path: &str) -> Option<Vec<u8>> {
    match drive.read_file(path, 0, 1000).ok()? {
        Source::Cached(data) => Some(data),
        Source::Stored(_) => None,
    }
}

#[test]
fn names_from_the_driver() {
    assert_eq!(normalize_pons_path(&units("\\docs\\a.txt")).ok().unwrap(), "docs/a.txt");
    assert_eq!(normalize_pons_path(&units("\\")).ok().unwrap(), "");
    assert_eq!(
        normalize_pons_path(&units("\\\u{1f600}\\\u{e9}")).ok().unwrap(),
        "\u{1f600}/\u{e9}"
    );
    assert_eq!(normalize_pons_path(&[0x61, 0xd800]).err(), Some(NtStatus::ObjectNameInvalid));
    assert_eq!(normalize_pons_path(&units("a\\..")).err(), Some(NtStatus::ObjectPathNotFound));
    assert_eq!(normalize_pons_path(&units("a\0")).err(), Some(NtStatus::ObjectNameInvalid));
}

#[test]
fn directories_and_names_of_paths() {
    assert_eq!(parent_path("a/b/c"), "a/b");
    assert_eq!(parent_path("a"), "");
    assert_eq!(parent_path(""), "");
    assert_eq!(file_name_from_path("a/b/c"), "c");
    assert_eq!(file_name_from_path("c"), "c");
}

#[test]
fn attributes_and_modes() {
    assert_eq!(mode_to_win_attrs(0o644, EntryKind::File), 0x80);
    assert_eq!(mode_to_win_attrs(0o444, EntryKind::File), 0x1);
    assert_eq!(mode_to_win_attrs(0o444, EntryKind::Directory), 0x10);
    assert_eq!(win_attrs_to_mode(0x1, EntryKind::File), 0o444);
    assert_eq!(win_attrs_to_mode(0x80, EntryKind::File), 0o644);
    assert_eq!(win_attrs_to_mode(0x1, EntryKind::Directory), 0o555);
    assert_eq!(win_attrs_to_mode(0, EntryKind::Directory), 0o755);
    assert_eq!(win_attrs_to_mode(1, EntryKind::Symlink), 0o777);
}

#[test]
fn a_mounted_drive_shows_its_tree() {
    let drive = mounted();
    assert_eq!(names(&drive, ""), vec!["docs", "z.txt"]);
    assert_eq!(names(&drive, "docs"), vec!["a.txt", "sub"]);
    assert_eq!(drive.find_files("z.txt").err(), Some(NtStatus::InvalidDeviceRequest));
    assert_eq!(drive.find_files("x").err(), Some(NtStatus::ObjectNameNotFound));
    let info = drive.get_file_information("docs/a.txt").ok().unwrap();
    assert_eq!((info.attributes, info.file_size), (0x80, 5));
    assert_eq!(drive.get_file_information("docs").ok().unwrap().attributes, 0x10);
    assert_eq!(drive.get_file_information("x").err(), Some(NtStatus::ObjectNameNotFound));
    let space = drive.get_disk_free_space();
    assert_eq!((space.total, space.free), (15 + (1 << 30), 1 << 30));
}

#[test]
fn opening_and_creating() {
    let mut drive = mounted();
    let root = request(&mut drive, "", OPEN, DELETE_ON_CLOSE).ok().unwrap();
    assert!(root.is_dir && !root.context.delete_on_close);
    let opened = request(&mut drive, "docs/a.txt", OPEN_IF, 0).ok().unwrap();
    assert!(!opened.is_dir && !opened.new_file_created && opened.record.is_none());
    let made = request(&mut drive, "docs/new", CREATE, DIRECTORY).ok().unwrap();
    assert!(made.is_dir && made.new_file_created);
    assert_eq!(made.record.unwrap().virtual_path, "docs/new");
    assert_eq!(names(&drive, "docs"), vec!["a.txt", "sub", "new"]);
    assert_eq!(names(&drive, "docs/new"), Vec::<String>::new());
    let refused = |drive: &mut MossDokan, path: &str, disposition: u32, options: u32| {
        request(drive, path, disposition, options).err()
    };
    assert_eq!(refused(&mut drive, "q/x", CREATE, 0), Some(NtStatus::ObjectPathNotFound));
    assert_eq!(refused(&mut drive, "z.txt", OPEN, DIRECTORY), Some(NtStatus::NotADirectory));
    assert_eq!(refused(&mut drive, "docs", OPEN, NON_DIRECTORY), Some(NtStatus::FileIsADirectory));
    assert_eq!(refused(&mut drive, "docs", SUPERSEDE, 0), Some(NtStatus::AccessDenied));
    assert_eq!(refused(&mut drive, "z.txt", CREATE, 0), Some(NtStatus::ObjectNameCollision));
    assert_eq!(refused(&mut drive, "x", OVERWRITE, 0), Some(NtStatus::ObjectNameNotFound));
    assert_eq!(refused(&mut drive, "x", 9, 0), Some(NtStatus::InvalidParameter));
    assert_eq!(refused(&mut drive, "z.txt", 9, 0), Some(NtStatus::InvalidParameter));
    assert!(request(&mut drive, "z.txt", OVERWRITE, 0).is_ok());
    assert_eq!(contents(&drive, "z.txt"), Some(Vec::new()));
}

#[test]
fn deleting_on_close() {
    let mut drive = mounted();
    let file = request(&mut drive, "z.txt", OPEN, DELETE_ON_CLOSE).ok().unwrap();
    assert!(drive.cleanup(&file.context));
    assert_eq!(names(&drive, ""), vec!["docs"]);
    let full = request(&mut drive, "docs", OPEN, DELETE_ON_CLOSE).ok().unwrap();
    assert!(!drive.cleanup(&full.context));
    assert_eq!(names(&drive, ""), vec!["docs"]);
    let kept = HandleContext { path: "docs/a.txt".to_string(), delete_on_close: false };
    assert!(!drive.cleanup(&kept));
    assert_eq!(drive.delete_file("docs").err(), Some(NtStatus::FileIsADirectory));
    assert!(drive.delete_file("docs/a.txt").is_ok());
    assert_eq!(drive.delete_directory("docs/a.txt").err(), Some(NtStatus::NotADirectory));
    assert_eq!(drive.delete_directory("docs").err(), Some(NtStatus::DirectoryNotEmpty));
    assert_eq!(drive.delete_directory("").err(), Some(NtStatus::AccessDenied));
    assert!(drive.set_file_attributes("docs/a.txt", 1, LATER).is_ok());
    assert_eq!(drive.delete_file("docs/a.txt").err(), Some(NtStatus::AccessDenied));
}

#[test]
fn drive_contents_are_written_and_committed() {
    let mut drive = mounted();
    let missing = drive.prepare_write("z.txt", 7).ok().unwrap();
    assert_eq!(missing, Some("z.txt".to_string()));
    drive.fill_cache("z.txt".to_string(), b"12345".to_vec());
    assert_eq!(drive.write_file("z.txt", 7, b"ab", false, LATER).ok().unwrap(), 2);
    assert_eq!(drive.write_file("z.txt", 0, b"c", true, LATER).ok().unwrap(), 1);
    assert_eq!(contents(&drive, "z.txt"), Some(b"12345\0\0abc".to_vec()));
    assert_eq!(drive.get_file_information("z.txt").ok().unwrap().file_size, 10);
    assert!(drive.set_end_of_file("z.txt", 3, LATER).is_ok());
    assert!(drive.set_allocation_size("z.txt", 100, LATER).is_ok());
    assert_eq!(contents(&drive, "z.txt"), Some(b"123".to_vec()));
    assert!(drive.set_allocation_size("z.txt", 2, LATER).is_ok());
    assert_eq!(drive.pending(), vec!["z.txt"]);
    let commit = drive.commit_write("z.txt", LATER).ok().unwrap().unwrap();
    assert_eq!((commit.entry.block_length, commit.data.clone()), (2, b"12".to_vec()));
    assert_eq!(drive.commit_done(commit, false).err(), Some(NtStatus::InternalError));
    assert_eq!(contents(&drive, "z.txt"), Some(b"12".to_vec()));
    let commit = drive.commit_write("z.txt", LATER).ok().unwrap().unwrap();
    assert!(drive.commit_done(commit, true).is_ok());
    assert_eq!(contents(&drive, "z.txt"), None);
    assert!(drive.commit_write("z.txt", LATER).ok().unwrap().is_none());
}

#[test]
fn drive_requests_are_checked() {
    let mut drive = mounted();
    assert_eq!(drive.read_file("z.txt", -1, 1).err(), Some(NtStatus::InvalidParameter));
    assert_eq!(drive.read_file("docs", 0, 1).err(), Some(NtStatus::FileIsADirectory));
    assert_eq!(drive.read_file("x", 0, 1).err(), Some(NtStatus::ObjectNameNotFound));
    assert_eq!(drive.prepare_write("z.txt", -1).err(), Some(NtStatus::InvalidParameter));
    assert_eq!(drive.prepare_write("docs", 0).err(), Some(NtStatus::AccessDenied));
    assert_eq!(drive.prepare_resize("docs", 0).err(), Some(NtStatus::InvalidDeviceRequest));
    assert_eq!(drive.prepare_resize("z.txt", -1).err(), Some(NtStatus::InvalidParameter));
    assert_eq!(drive.set_file_attributes("x", 0, NOW).err(), Some(NtStatus::ObjectNameNotFound));
    assert_eq!(
        drive.set_file_time("x", None, None, None).err(),
        Some(NtStatus::ObjectNameNotFound)
    );
    assert_eq!(part_of(b"12345", 3, 9), b"45".to_vec());
}

#[test]
fn drive_times_are_set() {
    let mut drive = mounted();
    let entry = drive.set_file_time("z.txt", None, Some(LATER), None).ok().unwrap();
    assert_eq!((entry.ctime, entry.atime, entry.mtime), (NOW, LATER, NOW));
    let info = drive.get_file_information("z.txt").ok().unwrap();
    assert_eq!(info.last_access_time, LATER);
}

#[test]
fn moving_takes_everything_along() {
    let mut drive = mounted();
    drive.fill_cache("docs/sub/b.txt".to_string(), b"new".to_vec());
    assert!(drive.move_file("docs", "other", false).is_ok());
    drive.moved("docs", "other");
    assert_eq!(names(&drive, ""), vec!["z.txt", "other"]);
    assert_eq!(names(&drive, "other"), vec!["a.txt", "sub"]);
    assert_eq!(contents(&drive, "other/sub/b.txt"), Some(b"new".to_vec()));
    assert_eq!(drive.get_file_information("docs").err(), Some(NtStatus::ObjectNameNotFound));
}

#[test]
fn moves_are_checked() {
    let mut drive = mounted();
    let mut refused = |from: &str, to: &str, replace: bool| {
        drive.move_file(from, to, replace).err()
    };
    assert_eq!(refused("", "x", false), Some(NtStatus::AccessDenied));
    assert_eq!(refused("x", "y", false), Some(NtStatus::ObjectNameNotFound));
    assert_eq!(refused("z.txt", "x/y", false), Some(NtStatus::ObjectPathNotFound));
    assert_eq!(refused("docs", "docs/sub/x", false), Some(NtStatus::InvalidParameter));
    assert_eq!(refused("z.txt", "docs/a.txt", false), Some(NtStatus::ObjectNameCollision));
    assert_eq!(refused("docs/sub", "z.txt", true), Some(NtStatus::NotADirectory));
    assert_eq!(refused("z.txt", "docs", true), Some(NtStatus::FileIsADirectory));
    assert!(request(&mut drive, "d", CREATE, DIRECTORY).is_ok());
    assert_eq!(drive.move_file("d", "docs", true).err(), Some(NtStatus::DirectoryNotEmpty));
    assert!(drive.move_file("z.txt", "docs/a.txt", true).is_ok());
    assert_eq!(names(&drive, "docs"), vec!["sub"]);
    drive.moved("z.txt", "docs/a.txt");
    assert_eq!(names(&drive, "docs"), vec!["sub", "a.txt"]);
}

#[test]
fn a_drive_keeps_in_step_with_its_archive() {
    let (mut moss, _) = Moss::create();
    for path in ["docs/a.txt", "docs/sub/b.txt", "z.txt"] {
        let pending = moss.write_file(path, b"12345", 76, 1, 2, NOW).ok().unwrap();
        moss.record(pending, 0);
    }
    let mut drive = MossDokan::new(&moss, NOW);
    assert!(drive.move_file("docs/sub", "other", false).is_ok());
    assert!(moss.rename_prefix("docs/sub", "other", LATER, 0).is_ok());
    drive.moved("docs/sub", "other");
    let made = request(&mut drive, "other/new", CREATE, 0).ok().unwrap();
    let pending = moss.upsert_entry(made.record.unwrap(), Some(b""), 76).ok().unwrap();
    moss.record(pending, 0);
    let file = request(&mut drive, "z.txt", OPEN, DELETE_ON_CLOSE).ok().unwrap();
    assert!(drive.cleanup(&file.context));
    assert_eq!(moss.remove_prefix("z.txt", 0).ok().unwrap().0, 1);
    let paths: Vec<&str> = moss.entries().iter().map(|entry| entry.virtual_path.as_str()).collect();
    assert_eq!(paths, vec!["docs/a.txt", "other/b.txt", "other/new"]);
    for path in paths {
        assert!(drive.get_file_information(path).is_ok());
    }
    assert_eq!(names(&drive, ""), vec!["docs", "other"]);
    assert_eq!(names(&drive, "docs"), vec!["a.txt"]);
    assert_eq!(names(&drive, "other"), vec!["b.txt", "new"]);
}
