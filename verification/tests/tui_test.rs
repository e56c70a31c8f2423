use moss::browser::{matching_places, next_selectable};
use moss::config::{Config, StorageConfig};
use moss::labels::{
    centered, file_label, highlighted_row, input_width, path_label, settings_label, status_word,
    use_label,
};
use moss::mount::{
    first_step, next_mount_step, next_step, release_command, MountStep, UnmountStep,
};
use moss::outcome::Failure;
use moss::preview::{hex_preview, push_content};
use moss::storage::{EntryKind, IndexEntry, Moss, Timestamp};
use moss::tui::{Action, InputDialog, Key, Screen, StorageStatus, TuiApp};

const NOW: Timestamp = Timestamp { seconds: 100, nanoseconds: 0 };

fn storage(path: &str, mount_point: &str, auto_mount: bool) -> StorageConfig {
    StorageConfig { path: path.to_string(), mount_point: mount_point.to_string(), auto_mount }
}

fn config() -> Config {
    Config { storages: vec![storage("one.moss", "/mnt/one", false), storage("two.moss", "", true)] }
}

fn app() -> TuiApp {
    TuiApp::new(config())
}

fn archive() -> Moss {
    let (mut moss, _) = Moss::create();
    for path in ["docs/a.txt", "docs/sub/B.txt", "z.txt"] {
        let pending = moss.write_file(path, b"12345", 76, 1, 2, NOW).ok().unwrap();
        moss.record(pending, 0);
    }
    moss
}

fn browsing() -> TuiApp {
    let mut app = app();
    app.opened(0, &archive());
    app
}

fn type_text(app: &mut TuiApp, text: &str) {
    app.press(Key::Delete);
    for c in text.chars() {
        app.press(Key::Char(c));
    }
}

fn paths(app: &TuiApp) -> Vec<&str> {
    app.file_list.iter().map(|line| line.path.as_str()).collect()
}

#[test]
fn the_interface_starts_on_the_dashboard() {
    let app = app();
    assert_eq!(app.screen, Screen::Dashboard);
    assert_eq!(app.status, "Welcome to Moss Project");
    assert_eq!(app.storages.len(), 2);
    assert!(app.storages.iter().all(|entry| entry.status == StorageStatus::Closed));
}

#[test]
fn selection_wraps_around() {
    assert_eq!(next_selectable(3, 0, -1), 2);
    assert_eq!(next_selectable(3, 2, 1), 0);
    assert_eq!(next_selectable(3, 1, 1), 2);
    assert_eq!(next_selectable(0, 5, 1), 0);
    assert_eq!(next_selectable(4, 1, -10), 3);
    let mut app = app();
    app.press(Key::Up);
    assert_eq!(app.selected_index, 1);
    app.press(Key::Char('j'));
    assert_eq!(app.selected_index, 0);
}

#[test]
fn opening_lists_every_file_under_its_directories() {
    let mut app = app();
    assert!(matches!(app.press(Key::Enter), Action::OpenListed(0)));
    app.opened(0, &archive());
    assert_eq!(app.screen, Screen::Browser);
    assert_eq!(app.status, "Opened one.moss");
    assert_eq!(app.storages[0].status, StorageStatus::Open);
    assert_eq!(paths(&app), vec!["docs", "docs/a.txt", "docs/sub", "docs/sub/B.txt", "z.txt"]);
    let line = &app.file_list[3];
    assert_eq!((line.name.as_str(), line.depth, line.kind), ("B.txt", 2, EntryKind::File));
    assert_eq!(app.file_list[2].kind, EntryKind::Directory);
    assert!(matches!(app.press(Key::Esc), Action::Close));
    assert_eq!(app.screen, Screen::Dashboard);
    assert_eq!(app.storages[0].status, StorageStatus::Closed);
    assert_eq!(app.status, "Storage closed");
    assert_eq!(app.file_list.len(), 0);
}

#[test]
fn filters_ignore_case() {
    let mut app = browsing();
    assert_eq!(app.filtered_file_list(), vec![0, 1, 2, 3, 4]);
    app.press(Key::Char('/'));
    type_text(&mut app, "b.TXT");
    app.press(Key::Enter);
    assert_eq!(app.filter, "b.TXT");
    assert_eq!(app.filtered_file_list(), vec![3]);
    assert_eq!(app.highlighted(), Some(0));
    let paths = vec!["xay".to_string(), "b".to_string(), "a".to_string()];
    assert_eq!(matching_places(&paths, "a"), vec![0, 2]);
    assert_eq!(matching_places(&paths, ""), vec![0, 1, 2]);
}

#[test]
fn keys_move_through_the_files() {
    let mut app = browsing();
    match app.press(Key::Down) {
        Action::Preview(path) => assert_eq!(path, "docs/a.txt"),
        _ => panic!("a file is read for its preview"),
    }
    assert_eq!(app.preview, "Path: docs/a.txt\nType: file\nSize: 5 B\nMode: 0644\n");
    app.preview_loaded(b"x\ny");
    assert_eq!(
        app.preview,
        "Path: docs/a.txt\nType: file\nSize: 5 B\nMode: 0644\n\n--- content (3 bytes) ---\n\nx\ny\n"
    );
    assert!(matches!(app.press(Key::Up), Action::Nothing));
    assert_eq!(app.preview, "Path: docs\nType: directory\nSize: 0 B\n\n[directory]");
    app.press(Key::Up);
    assert_eq!(app.file_selected, 4);
    app.press(Key::Home);
    assert_eq!(app.file_selected, 0);
    app.press(Key::PageDown);
    assert_eq!(app.file_selected, 4);
    app.press(Key::PageUp);
    assert_eq!(app.file_selected, 0);
    app.press(Key::End);
    assert_eq!(app.file_selected, 4);
    app.preview_failed("gone");
    assert!(app.preview.ends_with("\nError: gone"));
}

#[test]
fn directories_become_filters() {
    let mut app = browsing();
    app.press(Key::Enter);
    assert_eq!(app.filter, "docs/");
    assert_eq!(app.filtered_file_list(), vec![1, 2, 3]);
    assert_eq!(app.file_selected, 0);
    app.press(Key::Enter);
    assert_eq!(app.filter, "");
}

#[test]
fn files_are_imported_exported_renamed_and_deleted() {
    let mut app = browsing();
    app.press(Key::Char('i'));
    type_text(&mut app, "/tmp/x y z");
    match app.press(Key::Enter) {
        Action::Import { source, target } => {
            assert_eq!((source.as_str(), target.as_deref()), ("/tmp/x", Some("y z")));
        }
        _ => panic!("a file is imported"),
    }
    assert_eq!(app.import_file("//y z"), Some("y z".to_string()));
    assert_eq!(app.import_file("//"), None);
    assert_eq!(app.status, "Invalid virtual path");
    app.imported("/tmp/x", &archive());
    assert_eq!(app.status, "Imported /tmp/x");
    app.unreadable("/tmp/x", "no");
    assert_eq!(app.status, "Failed to read /tmp/x: no");

    app.press(Key::Char('e'));
    assert_eq!(app.status, "Cannot export a directory");
    app.press(Key::Down);
    app.press(Key::Char('e'));
    assert_eq!(app.input.buffer, "a.txt");
    match app.press(Key::Enter) {
        Action::Export { source, dest } => {
            assert_eq!((source.as_str(), dest.as_str()), ("docs/a.txt", "a.txt"));
        }
        _ => panic!("a file is exported"),
    }
    app.exported("a.txt");
    assert_eq!(app.status, "Exported to a.txt");
    app.unwritable("a.txt", "no");
    assert_eq!(app.status, "Failed to write a.txt: no");

    app.press(Key::Char('r'));
    assert_eq!(app.input.buffer, "docs/a.txt");
    type_text(&mut app, "/new");
    match app.press(Key::Enter) {
        Action::Rename { old_path, new_path } => {
            assert_eq!((old_path.as_str(), new_path.as_str()), ("docs/a.txt", "new"));
        }
        _ => panic!("a file is renamed"),
    }
    app.renamed("new", &archive());
    assert_eq!(app.status, "Renamed to new");
    app.press(Key::Char('r'));
    type_text(&mut app, "//");
    assert!(matches!(app.press(Key::Enter), Action::Nothing));
    assert_eq!(app.status, "Invalid new path");

    app.press(Key::End);
    match app.press(Key::Char('d')) {
        Action::Delete(path) => assert_eq!(path, "z.txt"),
        _ => panic!("a file is deleted"),
    }
    let mut less = archive();
    less.remove_prefix("z.txt", 0).ok().unwrap();
    app.deleted("z.txt", 1, &less);
    assert_eq!(app.status, "Deleted 1 item(s)");
    assert_eq!(app.file_selected, 3);
    app.deleted("q", 0, &less);
    assert_eq!(app.status, "Nothing to delete at q");
}

#[test]
fn overwriting_needs_two_answers() {
    let mut app = app();
    app.press(Key::Char('c'));
    type_text(&mut app, "old.moss");
    match app.press(Key::Enter) {
        Action::CreateNew(path) => assert_eq!(path, "old.moss"),
        _ => panic!("an archive is created"),
    }
    app.confirm_overwrite("old.moss");
    assert_eq!(
        app.confirm_message(),
        Some("File already exists. Overwrite? (y/n) \u{2014} stage 1 of 2")
    );
    assert!(matches!(app.press(Key::Char('y')), Action::Nothing));
    assert_eq!(
        app.confirm_message(),
        Some("Are you really sure? This will destroy existing data. (y/n) \u{2014} stage 2 of 2")
    );
    match app.press(Key::Enter) {
        Action::Create(path) => assert_eq!(path, "old.moss"),
        _ => panic!("the archive is created"),
    }
    assert_eq!(app.confirm_message(), None);
    assert!(matches!(app.created("old.moss"), Action::SaveConfig));
    assert_eq!(app.status, "Created storage at old.moss");
    assert_eq!(app.storages.len(), 3);
    app.confirm_overwrite("old.moss");
    app.press(Key::Esc);
    assert_eq!(app.confirm_message(), None);
    assert_eq!(app.status, "Cancelled.");
}

#[test]
fn deleting_from_the_list_needs_two_answers() {
    let mut app = app();
    app.press(Key::Down);
    app.press(Key::Char('d'));
    assert_eq!(app.confirm_message(), Some("Delete this entry? (y/n)"));
    app.press(Key::Char('x'));
    assert!(matches!(app.press(Key::Enter), Action::Nothing));
    assert_eq!(app.storages.len(), 2);
    assert!(matches!(app.press(Key::Enter), Action::SaveConfig));
    assert_eq!(app.status, "Removed two.moss from config");
    assert_eq!((app.storages.len(), app.config.storages.len(), app.selected_index), (1, 1, 0));
}

#[test]
fn answers_are_typed() {
    let mut dialog = InputDialog::new();
    dialog.show("Q:", "a");
    assert!(dialog.visible);
    dialog.dismiss();
    assert!(!dialog.visible);
    assert_eq!((dialog.prompt.as_str(), dialog.buffer.as_str()), ("Q:", "a"));
    let mut app = app();
    app.press(Key::Char('O'));
    app.press(Key::Char('\u{e9}'));
    app.press(Key::Char('b'));
    app.press(Key::Backspace);
    assert_eq!(app.input.buffer, "\u{e9}");
    app.press(Key::Delete);
    app.press(Key::Backspace);
    assert_eq!(app.input.buffer, "");
    assert!(matches!(app.press(Key::Enter), Action::Nothing));
    assert_eq!(app.status, "File not found");
}

#[test]
fn paths_are_listed_once() {
    let mut app = app();
    let (index, action) = app.choose_path("two.moss");
    assert_eq!(index, Some(1));
    assert!(matches!(action, Action::Nothing));
    let (index, action) = app.choose_path("three.moss");
    assert_eq!(index, Some(2));
    assert!(matches!(action, Action::SaveConfig));
    assert_eq!((app.selected_index, app.config.storages.len()), (2, 3));
}

#[test]
fn archives_are_mounted_and_unmounted() {
    let mut app = app();
    app.press(Key::Char('u'));
    assert_eq!(app.status, "Not mounted");
    app.press(Key::Char('m'));
    assert_eq!(app.input.buffer, "/mnt/one");
    match app.press(Key::Enter) {
        Action::Mount { index, mount_point } => {
            assert_eq!((index, mount_point.as_str()), (0, "/mnt/one"));
        }
        _ => panic!("an archive is mounted"),
    }
    assert!(matches!(app.helper_started(0, "/mnt/x", 77), Action::SaveConfig));
    assert_eq!(app.status, "Mount helper started at /mnt/x (pid 77)");
    assert_eq!(app.config.storages[0].mount_point, "/mnt/x");
    match app.press(Key::Char('u')) {
        Action::Unmount { index, mount_point, pid } => {
            assert_eq!((index, mount_point.as_str(), pid), (0, "/mnt/x", Some(77)));
        }
        _ => panic!("an archive is unmounted"),
    }
    app.unmounted(0);
    assert_eq!(app.status, "Unmounted /mnt/x");
    assert_eq!((app.storages[0].status, app.mounted_count), (StorageStatus::Closed, 0));
    app.unmounted(9);
    assert_eq!(app.status, "Invalid storage index");
    app.mounted(1, "/m");
    assert_eq!(app.status, "Mounted at /m");
    assert_eq!(app.config.storages[1].mount_point, "");
    app.mounted_drive(1, "Z:");
    assert_eq!(app.config.storages[1].mount_point, "Z:");
    app.unmount_failed("Z:");
    assert_eq!(app.status, "Failed to unmount Z:");
    app.failed(Failure::MountPoint, "no");
    assert_eq!(app.status, "Failed to create mount point: no");
}

#[test]
fn settings_change_the_configuration() {
    let mut app = app();
    app.press(Key::Char('s'));
    assert_eq!(app.screen, Screen::Settings);
    assert!(matches!(app.press(Key::Char('t')), Action::SaveConfig));
    assert_eq!(app.status, "Auto-mount enabled for one.moss");
    assert!(app.config.storages[0].auto_mount && app.storages[0].config.auto_mount);
    app.press(Key::Char('m'));
    assert_eq!(app.input.prompt, "Mount point for one.moss:");
    type_text(&mut app, "/new");
    assert!(matches!(app.press(Key::Enter), Action::SaveConfig));
    assert_eq!(app.config.storages[0].mount_point, "/new");
    assert_eq!(app.status, "Set mount point for one.moss");
    app.press(Key::Char('a'));
    assert_eq!(app.status, "Storages already configured");
    app.press(Key::Char('d'));
    app.press(Key::Char('d'));
    assert_eq!(app.status, "Removed two.moss");
    assert_eq!((app.config.storages.len(), app.storages.len()), (0, 0));
    app.press(Key::Char('a'));
    type_text(&mut app, "p.moss ");
    app.press(Key::Enter);
    assert_eq!(app.status, "Added p.moss");
    assert!(matches!(app.press(Key::Char('b')), Action::SaveConfig));
    assert_eq!((app.screen, app.status.as_str()), (Screen::Dashboard, "Settings saved"));
}

#[test]
fn settings_are_read_again() {
    let mut app = app();
    assert!(matches!(app.press(Key::Char('r')), Action::ReloadConfig));
    let newer = Config { storages: vec![storage("two.moss", "/mnt/two", false)] };
    app.refreshed(&newer);
    assert_eq!(app.storages[1].config.mount_point, "/mnt/two");
    assert!(!app.storages[1].config.auto_mount);
    assert_eq!(app.storages[0].config.mount_point, "/mnt/one");
    app.press(Key::Char('q'));
    assert!(app.should_quit);
}

#[test]
fn labels_are_padded() {
    let app = browsing();
    assert_eq!(path_label(&app.storages[0]).len(), 45);
    assert_eq!(use_label(&app.storages[0], true), "[open   ]");
    assert_eq!(use_label(&app.storages[1], false), "[missing] [auto]");
    assert_eq!(status_word(StorageStatus::Closed, true), "closed");
    assert_eq!(
        settings_label(&app.config.storages[0]),
        format!(" [ ]  {:40}  mount: /mnt/one", "one.moss")
    );
    assert_eq!(
        settings_label(&app.config.storages[1]),
        format!(" [x]  {:40}  mount: (no mount point)", "two.moss")
    );
    assert_eq!(file_label(&app.file_list[0]), "D docs/");
    assert_eq!(file_label(&app.file_list[3]), "      B.txt");
    assert_eq!(app.title(), " one.moss  \u{2014}  5 items  ");
    assert_eq!(centered(80, 24, 40, 4), (20, 10));
    assert_eq!((input_width(10), input_width(45), input_width(200)), (30, 45, 60));
}

#[test]
fn contents_are_shown_as_text_or_bytes() {
    let mut out = String::new();
    push_content(&mut out, b"");
    assert_eq!(out, "\n--- content (0 bytes) ---\n\n[empty]");
    let mut out = String::new();
    push_content(&mut out, &[0xff, 0x00]);
    assert_eq!(out, "\n--- content (2 bytes) ---\n\n[binary data]\n\n00000000  ff 00 \n");
    let mut out = String::new();
    let many = "a\r\n".repeat(501);
    push_content(&mut out, many.as_bytes());
    assert!(out.ends_with("a\na\n... 1 more lines"));
    assert_eq!(hex_preview(&[1; 17], 256), format!("00000000  {}\n00000010  01 \n", "01 ".repeat(16)));
    assert_eq!(hex_preview(&[1, 2], 1), "00000000  01 \n... preview truncated ...");
}

#[test]
fn a_missing_preview_is_made_before_drawing() {
    let mut app = browsing();
    assert!(matches!(app.before_drawing(), Action::Nothing));
    assert!(app.preview.starts_with("Path: docs\n"));
    let before = app.preview.clone();
    app.before_drawing();
    assert_eq!(app.preview, before);
}

#[test]
fn mounting_falls_back_to_a_helper() {
    let after = |outcomes: &[bool], as_drive: bool| {
        let mut step = MountStep::Direct;
        for outcome in outcomes {
            step = next_mount_step(step, *outcome, as_drive);
        }
        step
    };
    assert_eq!(after(&[true], false), MountStep::Mounted);
    assert_eq!(after(&[false, true, true], false), MountStep::HelperStarted);
    assert_eq!(after(&[false, false], false), MountStep::Failed(Failure::MountPoint));
    assert_eq!(after(&[false, true, false], false), MountStep::Failed(Failure::Mount));
    assert_eq!(after(&[false], true), MountStep::Failed(Failure::OpenForMount));
}

#[test]
fn unmounting_tries_four_commands() {
    assert_eq!(first_step("/m", true), UnmountStep::Release(0));
    assert_eq!(first_step("", true), UnmountStep::Probe(0));
    assert_eq!(first_step("", false), UnmountStep::Done);
    let mut step = first_step("/m", true);
    let mut commands = Vec::new();
    while let UnmountStep::Release(attempt) = step {
        commands.push(release_command(attempt));
        step = next_step(step, false, true);
    }
    assert_eq!(step, UnmountStep::Failed);
    assert_eq!(
        commands,
        vec![
            ("fusermount3", "-u"),
            ("fusermount", "-u"),
            ("fusermount3", "-uz"),
            ("fusermount", "-uz")
        ]
    );
    let mut step = next_step(UnmountStep::Release(1), true, true);
    let mut probes = 0;
    while let UnmountStep::Probe(_) = step {
        probes += 1;
        step = next_step(step, true, true);
    }
    assert_eq!((probes, step), (50, UnmountStep::Terminate));
    assert_eq!(next_step(step, false, true), UnmountStep::Done);
}

#[test]
fn symlinks_are_labelled() {
    let (mut moss, _) = Moss::create();
    let entry = IndexEntry::new_symlink("link".to_string(), 0, 0);
    let pending = moss.upsert_entry(entry, Some(b"target"), 76).ok().unwrap();
    moss.record(pending, 0);
    let mut app = app();
    app.opened(1, &moss);
    assert_eq!(file_label(&app.file_list[0]), "L link");
    app.update_preview();
    assert_eq!(app.preview, "Path: link\nType: symlink\nSize: 6 B\nMode: 0777\n");
}

#[test]
fn the_highlighted_row_stays_on_the_list() {
    assert_eq!(highlighted_row(0, 0), None);
    assert_eq!(highlighted_row(7, 0), None);
    assert_eq!(highlighted_row(1, 3), Some(1));
    assert_eq!(highlighted_row(3, 3), Some(2));
    assert_eq!(highlighted_row(usize::MAX, 1), Some(0));
}
