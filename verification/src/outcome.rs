//! How the text interface takes note of what was done to files.
use std::collections::HashMap;
use vstd::prelude::*;
use crate::browser::{build_tree, file_lines, TreeNodeView};
use crate::config::{Config, StorageConfig, StorageConfigView};
use crate::entry::{EntryView, IndexEntry, Meta};
use crate::index::{is_table, lemma_listing_map, lemma_table_insert, listing_map, listing_of, metas};
use crate::number::{decimal, push_decimal};
use crate::pathmap::PathMap;
use crate::preview::{content_text, push_content};
use crate::storage::{lemma_archive, Moss};
use crate::text::push_text;
use crate::tui::{config_mount_point, config_paths, first_place, joined_text, listed,
    place_in_config, place_of_storage, previewed, said, storage_mount_point, storage_paths,
    storage_status, storages_view, text, unrooted, without_root, Action, ActionView, ConfirmKind,
    ConfirmKindView, ConfirmState, ConfirmView, InputDialog, InputView, Screen, StorageEntry,
    StorageEntryView, StorageStatus, TuiApp, TuiView};

verus! {

broadcast use vstd::std_specs::hash::group_hash_axioms;

/// What did not succeed.
#[derive(Debug, Clone, Copy, PartialEq, Eq, Structural)]
pub enum Failure {
    Open,
    Create,
    Import,
    Export,
    Delete,
    Rename,
    MountPoint,
    Mount,
    OpenForMount,
}

/// How a message about a failure begins.
pub open spec fn failure_text(failure: Failure) -> Seq<char> {
    match failure {
        Failure::Open => "Failed to open: "@,
        Failure::Create => "Failed to create: "@,
        Failure::Import => "Failed to import: "@,
        Failure::Export => "Failed to read: "@,
        Failure::Delete => "Failed to delete: "@,
        Failure::Rename => "Failed to rename: "@,
        Failure::MountPoint => "Failed to create mount point: "@,
        Failure::Mount => "Mount failed: "@,
        Failure::OpenForMount => "Failed to open storage: "@,
    }
}

/// The interface when it starts.
pub open spec fn started(config: Seq<StorageConfigView>) -> TuiView {
    TuiView {
        config,
        storages: config.map_values(
            |entry: StorageConfigView|
                StorageEntryView { config: entry, status: StorageStatus::Closed },
        ),
        open: false,
        open_path: Seq::<char>::empty(),
        entries: Map::<Seq<char>, Meta>::empty(),
        screen: Screen::Dashboard,
        selected_index: 0,
        files: Seq::<TreeNodeView>::empty(),
        file_selected: 0,
        scroll_offset: 0,
        preview: Seq::<char>::empty(),
        preview_scroll: 0,
        status: "Welcome to Moss Project"@,
        input: InputView {
            prompt: Seq::<char>::empty(),
            buffer: Seq::<char>::empty(),
            visible: false,
        },
        filter: Seq::<char>::empty(),
        confirm: None,
        should_quit: false,
        mounted_count: 0,
        mount_pids: Map::<usize, u32>::empty(),
    }
}

/// `v` with the files of an archive.
pub open spec fn showing(v: TuiView, entries: Map<Seq<char>, Meta>) -> TuiView {
    TuiView { entries, files: file_lines(entries), ..v }
}

/// `v` after the archive at `index` was opened.
pub open spec fn opened(v: TuiView, index: int, entries: Map<Seq<char>, Meta>) -> TuiView {
    let path = v.storages[index].config.path;
    TuiView {
        entries,
        files: file_lines(entries),
        file_selected: 0,
        scroll_offset: 0,
        preview: Seq::<char>::empty(),
        open: true,
        open_path: path,
        storages: storage_status(v.storages, index, StorageStatus::Open),
        screen: Screen::Browser,
        filter: Seq::<char>::empty(),
        status: "Opened "@ + path,
        ..v
    }
}

/// `v` after entries were removed.
pub open spec fn deleted(v: TuiView, entries: Map<Seq<char>, Meta>, count: nat) -> TuiView {
    let files = file_lines(entries);
    TuiView {
        entries,
        files,
        file_selected: if v.file_selected < files.len() {
            v.file_selected
        } else if files.len() > 0 {
            (files.len() - 1) as usize
        } else {
            0
        },
        preview: Seq::<char>::empty(),
        status: "Deleted "@ + decimal(count) + " item(s)"@,
        ..v
    }
}

/// A listed archive with the settings that a configuration holds for its path.
pub open spec fn reconfigured(
    entry: StorageEntryView,
    config: Seq<StorageConfigView>,
) -> StorageEntryView {
    let place = first_place(config_paths(config), entry.config.path) as int;
    if place < config.len() {
        StorageEntryView {
            config: StorageConfigView {
                mount_point: config[place].mount_point,
                auto_mount: config[place].auto_mount,
                ..entry.config
            },
            ..entry
        }
    } else {
        entry
    }
}

/// `v` with settings that were read again.
pub open spec fn refreshed(v: TuiView, config: Seq<StorageConfigView>) -> TuiView {
    TuiView {
        storages: v.storages.map_values(|entry: StorageEntryView| reconfigured(entry, config)),
        status: "Config refreshed"@,
        ..v
    }
}

/// `v` after the archive at `index` was mounted.
pub open spec fn mounted(v: TuiView, index: int) -> TuiView {
    TuiView {
        storages: storage_status(v.storages, index, StorageStatus::Mounted),
        mounted_count: (v.mounted_count + 1) as usize,
        ..v
    }
}

/// `v` with the mount point of the archive at `index` in both lists.
pub open spec fn mounted_at(v: TuiView, index: int, mount_point: Seq<char>) -> TuiView {
    TuiView {
        storages: storage_mount_point(v.storages, index, mount_point),
        config: config_mount_point(v.config, index, mount_point),
        ..v
    }
}

/// The configuration has to be saved where it holds an archive at `index`.
pub open spec fn save_if_listed(v: TuiView, index: int) -> ActionView {
    if index < v.config.len() {
        ActionView::SaveConfig
    } else {
        ActionView::Nothing
    }
}

/// `v` after the archive at `index` was unmounted.
pub open spec fn unmounted(v: TuiView, index: usize) -> TuiView {
    if index < v.storages.len() {
        TuiView {
            mount_pids: v.mount_pids.remove(index),
            storages: storage_status(v.storages, index as int, StorageStatus::Closed),
            mounted_count: if v.mounted_count > 0 {
                (v.mounted_count - 1) as usize
            } else {
                0
            },
            status: "Unmounted "@ + v.storages[index as int].config.mount_point,
            ..v
        }
    } else {
        said(v, "Invalid storage index"@)
    }
}

/// Copies of the entries of an archive, by path.
fn table_of(archive: &Moss) -> (r: PathMap<IndexEntry>)
    requires
        archive.wf(),
    ensures
        is_table(r),
        metas(r@) == archive@.entries,
{
    let entries: Vec<&IndexEntry> = archive.entries();
    let ghost all = listing_of(archive@.entries);
    let mut r: PathMap<IndexEntry> = PathMap::new();
    let mut i: usize = 0;
    proof {
        lemma_archive(*archive);
        lemma_listing_map(all);
        assert(all.take(0) =~= Seq::<EntryView>::empty());
        assert(metas(r@) =~= listing_map(all.take(0)));
        assert(entries@.map_values(|entry: &IndexEntry| entry@).len() == entries.len());
    }
    #[verifier::loop_isolation(false)]
    while i < entries.len()
        invariant
            i <= entries.len(),
            is_table(r),
            metas(r@) == listing_map(all.take(i as int)),
        decreases entries.len() - i,
    {
        let entry: IndexEntry = entries[i].clone();
        let path: String = entry.virtual_path.clone();
        let ghost before = r@;
        proof {
            assert(entries@.map_values(|entry: &IndexEntry| entry@)[i as int] == entry@);
            assert(entry@ == all[i as int]);
            assert(archive@.entries.contains_key(all[i as int].path));
            assert(all.take(i + 1).drop_last() =~= all.take(i as int));
            assert(all.take(i + 1).last() == all[i as int]);
            lemma_table_insert(before, path@, entry);
        }
        r.insert(path, entry);
        i += 1;
    }
    assert(all.take(i as int) =~= all);
    r
}

impl TuiApp {
    /// Starts with the archives that are configured.
    pub fn new(config: Config) -> (r: Self)
        ensures
            r.wf(),
            r@ == started(config@),
    {
        let mut storages: Vec<StorageEntry> = Vec::new();
        let mut i: usize = 0;
        let n: usize = config.storages.len();
        #[verifier::loop_isolation(false)]
        while i < n
            invariant
                i <= n,
                storages.len() == i,
                forall|k: int|
                    0 <= k < i ==> (#[trigger] storages@[k])@ == started(config@).storages[k],
            decreases n - i,
        {
            let entry = StorageEntry {
                config: config.storages[i].clone(),
                status: StorageStatus::Closed,
            };
            assert(entry@ == started(config@).storages[i as int]);
            storages.push(entry);
            i += 1;
        }
        let ghost view = config@;
        let r = TuiApp {
            config,
            storages,
            open: false,
            open_path: String::new(),
            entries: PathMap::new(),
            screen: Screen::Dashboard,
            selected_index: 0,
            file_list: Vec::new(),
            file_selected: 0,
            scroll_offset: 0,
            preview: String::new(),
            preview_scroll: 0,
            status: text("Welcome to Moss Project"),
            input: InputDialog::new(),
            filter: String::new(),
            confirm: None,
            should_quit: false,
            mounted_count: 0,
            mount_pids: HashMap::new(),
        };
        assert(r@ =~= started(view));
        r
    }

    /// Shows the entries of an archive.
    fn show_entries(&mut self, archive: &Moss)
        requires
            old(self).wf(),
            archive.wf(),
        ensures
            final(self).wf(),
            final(self)@ == showing(old(self)@, archive@.entries),
            final(self).file_list.len() == file_lines(archive@.entries).len(),
    {
        self.entries = table_of(archive);
        self.file_list = build_tree(&self.entries);
    }

    /// The archive at `index` was opened.
    pub fn opened(&mut self, index: usize, archive: &Moss)
        requires
            old(self).wf(),
            archive.wf(),
            index < old(self)@.storages.len(),
        ensures
            final(self).wf(),
            final(self)@ == opened(old(self)@, index as int, archive@.entries),
    {
        let ghost before = *self;
        let path: String = self.storages[index].config.path.clone();
        assert(path@ == before@.storages[index as int].config.path);
        self.show_entries(archive);
        self.file_selected = 0;
        self.scroll_offset = 0;
        self.preview = String::new();
        self.open = true;
        self.set_status(index, StorageStatus::Open);
        self.screen = Screen::Browser;
        self.filter = String::new();
        self.status = joined_text("Opened ", path.as_str());
        self.open_path = path;
        assert(self@ =~= opened(before@, index as int, archive@.entries));
    }

    /// Something did not succeed.
    pub fn failed(&mut self, failure: Failure, message: &str)
        requires
            old(self).wf(),
        ensures
            final(self).wf(),
            final(self)@ == said(old(self)@, failure_text(failure) + message@),
    {
        self.say_of(
            match failure {
                Failure::Open => "Failed to open: ",
                Failure::Create => "Failed to create: ",
                Failure::Import => "Failed to import: ",
                Failure::Export => "Failed to read: ",
                Failure::Delete => "Failed to delete: ",
                Failure::Rename => "Failed to rename: ",
                Failure::MountPoint => "Failed to create mount point: ",
                Failure::Mount => "Mount failed: ",
                Failure::OpenForMount => "Failed to open storage: ",
            },
            message,
        );
    }

    /// The file of a listed archive does not exist.
    pub fn listed_missing(&mut self)
        requires
            old(self).wf(),
        ensures
            final(self).wf(),
            final(self)@ == said(old(self)@, "File does not exist"@),
    {
        self.say("File does not exist");
    }

    /// A file that was to be opened does not exist.
    pub fn path_missing(&mut self)
        requires
            old(self).wf(),
        ensures
            final(self).wf(),
            final(self)@ == said(old(self)@, "File not found"@),
    {
        self.say("File not found");
    }

    /// Lists the archive at `path` where the configuration does not know it yet, and selects it.
    /// Hands back its place in the list.
    pub fn choose_path(&mut self, path: &str) -> (r: (Option<usize>, Action))
        requires
            old(self).wf(),
        ensures
            final(self).wf(),
            ({
                let known = config_paths(old(self)@.config).contains(path@);
                let v = if known {
                    old(self)@
                } else {
                    listed(old(self)@, path@)
                };
                let place = first_place(storage_paths(v.storages), path@);
                &&& r.1@ == if known {
                    ActionView::Nothing
                } else {
                    ActionView::SaveConfig
                }
                &&& r.0 == if place < v.storages.len() {
                    Some(place as usize)
                } else {
                    None
                }
                &&& final(self)@ == if place < v.storages.len() {
                    TuiView { selected_index: place as usize, ..v }
                } else {
                    v
                }
            }),
    {
        let known: bool = place_in_config(&self.config, path) < self.config.storages.len();
        proof {
            lemma_first_place_known(config_paths(self@.config), path@);
        }
        let action: Action = if known {
            Action::Nothing
        } else {
            self.list(path);
            Action::SaveConfig
        };
        let place: usize = place_of_storage(&self.storages, path);
        if place < self.storages.len() {
            self.selected_index = place;
            (Some(place), action)
        } else {
            (None, action)
        }
    }

    /// An archive is to be created in a file that exists: the user is asked twice.
    pub fn confirm_overwrite(&mut self, path: &str)
        requires
            old(self).wf(),
        ensures
            final(self).wf(),
            final(self)@ == (TuiView {
                confirm: Some(
                    ConfirmView { kind: ConfirmKindView::OverwriteCreate(path@), stage: 1 },
                ),
                status: "File already exists. Overwrite? (y/n) \u{2014} stage 1 of 2"@,
                ..old(self)@
            }),
    {
        self.confirm = Some(
            ConfirmState { kind: ConfirmKind::OverwriteCreate(text(path)), stage: 1 },
        );
        self.say("File already exists. Overwrite? (y/n) \u{2014} stage 1 of 2");
    }

    /// An archive was created.
    pub fn created(&mut self, path: &str) -> (action: Action)
        requires
            old(self).wf(),
        ensures
            final(self).wf(),
            final(self)@ == said(listed(old(self)@, path@), "Created storage at "@ + path@),
            action@ == ActionView::SaveConfig,
    {
        self.list(path);
        self.say_of("Created storage at ", path);
        Action::SaveConfig
    }

    /// The path under which a file is to be stored, where `virtual_path` names one.
    pub fn import_file(&mut self, virtual_path: &str) -> (r: Option<String>)
        requires
            old(self).wf(),
        ensures
            final(self).wf(),
            r is Some == (unrooted(virtual_path@).len() > 0),
            r matches Some(path) ==> path@ == unrooted(virtual_path@),
            final(self)@ == if r is Some {
                old(self)@
            } else {
                said(old(self)@, "Invalid virtual path"@)
            },
    {
        let path: String = without_root(virtual_path);
        if path.as_str().is_empty() {
            self.say("Invalid virtual path");
            None
        } else {
            Some(path)
        }
    }

    /// A file was stored.
    pub fn imported(&mut self, source: &str, archive: &Moss)
        requires
            old(self).wf(),
            archive.wf(),
        ensures
            final(self).wf(),
            final(self)@ == said(
                showing(old(self)@, archive@.entries),
                "Imported "@ + source@,
            ),
    {
        self.show_entries(archive);
        self.say_of("Imported ", source);
    }

    /// A file that was to be stored could not be read.
    pub fn unreadable(&mut self, source: &str, message: &str)
        requires
            old(self).wf(),
        ensures
            final(self).wf(),
            final(self)@ == said(old(self)@, "Failed to read "@ + source@ + ": "@ + message@),
    {
        let mut about: String = joined_text("Failed to read ", source);
        push_text(&mut about, ": ");
        self.say_of(about.as_str(), message);
    }

    /// The contents of an entry were written to a file.
    pub fn exported(&mut self, dest: &str)
        requires
            old(self).wf(),
        ensures
            final(self).wf(),
            final(self)@ == said(old(self)@, "Exported to "@ + dest@),
    {
        self.say_of("Exported to ", dest);
    }

    /// The contents of an entry could not be written to a file.
    pub fn unwritable(&mut self, dest: &str, message: &str)
        requires
            old(self).wf(),
        ensures
            final(self).wf(),
            final(self)@ == said(old(self)@, "Failed to write "@ + dest@ + ": "@ + message@),
    {
        let mut about: String = joined_text("Failed to write ", dest);
        push_text(&mut about, ": ");
        self.say_of(about.as_str(), message);
    }

    /// `count` entries at `path` and below it were removed.
    pub fn deleted(&mut self, path: &str, count: usize, archive: &Moss)
        requires
            old(self).wf(),
            archive.wf(),
        ensures
            final(self).wf(),
            final(self)@ == if count > 0 {
                deleted(old(self)@, archive@.entries, count as nat)
            } else {
                said(old(self)@, "Nothing to delete at "@ + path@)
            },
    {
        let ghost before = *self;
        if count == 0 {
            self.say_of("Nothing to delete at ", path);
            return;
        }
        self.show_entries(archive);
        let n: usize = self.file_list.len();
        if self.file_selected >= n {
            self.file_selected = if n > 0 {
                n - 1
            } else {
                0
            };
        }
        self.preview = String::new();
        let mut message: String = text("Deleted ");
        push_decimal(&mut message, count as u64);
        push_text(&mut message, " item(s)");
        self.status = message;
        assert(self@ =~= deleted(before@, archive@.entries, count as nat));
    }

    /// Entries have new paths.
    pub fn renamed(&mut self, new_path: &str, archive: &Moss)
        requires
            old(self).wf(),
            archive.wf(),
        ensures
            final(self).wf(),
            final(self)@ == said(
                showing(old(self)@, archive@.entries),
                "Renamed to "@ + new_path@,
            ),
    {
        self.show_entries(archive);
        self.say_of("Renamed to ", new_path);
    }

    /// The contents of the selected file were read for the preview.
    pub fn preview_loaded(&mut self, data: &[u8])
        requires
            old(self).wf(),
        ensures
            final(self).wf(),
            final(self)@ == (TuiView {
                preview: old(self)@.preview + content_text(data@),
                ..old(self)@
            }),
    {
        push_content(&mut self.preview, data);
    }

    /// The contents of the selected file could not be read for the preview.
    pub fn preview_failed(&mut self, message: &str)
        requires
            old(self).wf(),
        ensures
            final(self).wf(),
            final(self)@ == (TuiView {
                preview: old(self)@.preview + ("\nError: "@ + message@),
                ..old(self)@
            }),
    {
        let error: String = joined_text("\nError: ", message);
        push_text(&mut self.preview, error.as_str());
    }

    /// The browser is about to be drawn: where there is no preview, one is made.
    pub fn before_drawing(&mut self) -> (action: Action)
        requires
            old(self).wf(),
        ensures
            final(self).wf(),
            (final(self)@, action@) == if old(self)@.preview.len() == 0
                && old(self)@.file_selected < old(self)@.files.len() {
                previewed(old(self)@)
            } else {
                (old(self)@, ActionView::Nothing)
            },
    {
        if self.preview.as_str().is_empty() && self.file_selected < self.file_list.len() {
            self.update_preview()
        } else {
            Action::Nothing
        }
    }

    /// Takes note of an archive that was mounted.
    fn note_mount(&mut self, index: usize)
        requires
            old(self).wf(),
            index < old(self)@.storages.len(),
            old(self)@.mounted_count < usize::MAX,
        ensures
            final(self).wf(),
            final(self)@ == mounted(old(self)@, index as int),
    {
        self.set_status(index, StorageStatus::Mounted);
        self.mounted_count += 1;
    }

    /// The archive at `index` was mounted by this process.
    pub fn mounted(&mut self, index: usize, mount_point: &str)
        requires
            old(self).wf(),
            index < old(self)@.storages.len(),
            old(self)@.mounted_count < usize::MAX,
        ensures
            final(self).wf(),
            final(self)@ == said(
                mounted(old(self)@, index as int),
                "Mounted at "@ + mount_point@,
            ),
    {
        self.note_mount(index);
        self.say_of("Mounted at ", mount_point);
    }

    /// The archive at `index` was mounted as a drive by this process.
    pub fn mounted_drive(&mut self, index: usize, mount_point: &str) -> (action: Action)
        requires
            old(self).wf(),
            index < old(self)@.storages.len(),
            old(self)@.mounted_count < usize::MAX,
        ensures
            final(self).wf(),
            final(self)@ == said(
                mounted_at(mounted(old(self)@, index as int), index as int, mount_point@),
                "Mounted at "@ + mount_point@,
            ),
            action@ == save_if_listed(old(self)@, index as int),
    {
        let configured: bool = index < self.config.storages.len();
        self.note_mount(index);
        self.set_mount_point(index, mount_point);
        self.say_of("Mounted at ", mount_point);
        if configured {
            Action::SaveConfig
        } else {
            Action::Nothing
        }
    }

    /// Another process was started that mounts the archive at `index`.
    pub fn helper_started(&mut self, index: usize, mount_point: &str, pid: u32) -> (action: Action)
        requires
            old(self).wf(),
            index < old(self)@.storages.len(),
            old(self)@.mounted_count < usize::MAX,
        ensures
            final(self).wf(),
            final(self)@ == (TuiView {
                mount_pids: old(self)@.mount_pids.insert(index, pid),
                status: "Mount helper started at "@ + mount_point@ + " (pid "@ + decimal(pid as nat)
                    + ")"@,
                ..mounted_at(mounted(old(self)@, index as int), index as int, mount_point@)
            }),
            action@ == save_if_listed(old(self)@, index as int),
    {
        let configured: bool = index < self.config.storages.len();
        self.note_mount(index);
        self.set_mount_point(index, mount_point);
        self.mount_pids.insert(index, pid);
        let mut message: String = joined_text("Mount helper started at ", mount_point);
        push_text(&mut message, " (pid ");
        push_decimal(&mut message, pid as u64);
        push_text(&mut message, ")");
        self.status = message;
        if configured {
            Action::SaveConfig
        } else {
            Action::Nothing
        }
    }

    /// The archive at `index` was unmounted.
    pub fn unmounted(&mut self, index: usize)
        requires
            old(self).wf(),
        ensures
            final(self).wf(),
            final(self)@ == unmounted(old(self)@, index),
    {
        if index >= self.storages.len() {
            self.say("Invalid storage index");
            return;
        }
        let mount_point: String = self.storages[index].config.mount_point.clone();
        assert(mount_point@ == self@.storages[index as int].config.mount_point);
        self.mount_pids.remove(&index);
        self.set_status(index, StorageStatus::Closed);
        if self.mounted_count > 0 {
            self.mounted_count -= 1;
        }
        self.say_of("Unmounted ", mount_point.as_str());
    }

    /// An archive could not be unmounted.
    pub fn unmount_failed(&mut self, mount_point: &str)
        requires
            old(self).wf(),
        ensures
            final(self).wf(),
            final(self)@ == said(old(self)@, "Failed to unmount "@ + mount_point@),
    {
        self.say_of("Failed to unmount ", mount_point);
    }

    /// The configuration was read again.
    pub fn refreshed(&mut self, config: &Config)
        requires
            old(self).wf(),
        ensures
            final(self).wf(),
            final(self)@ == refreshed(old(self)@, config@),
    {
        let ghost before = *self;
        let n: usize = self.storages.len();
        let mut i: usize = 0;
        #[verifier::loop_isolation(false)]
        while i < n
            invariant
                i <= n,
                self.storages.len() == n,
                *self == (TuiApp { storages: self.storages, ..before }),
                forall|k: int|
                    i <= k < n ==> (#[trigger] self.storages@[k])@ == before.storages@[k]@,
                forall|k: int|
                    0 <= k < i ==> (#[trigger] self.storages@[k])@ == reconfigured(
                        before.storages@[k]@,
                        config@,
                    ),
            decreases n - i,
        {
            assert(self.storages@[i as int]@ == before.storages@[i as int]@);
            let place: usize = place_in_config(config, self.storages[i].config.path.as_str());
            if place < config.storages.len() {
                assert(config@[place as int] == config.storages@[place as int]@);
                let settings = StorageConfig {
                    path: self.storages[i].config.path.clone(),
                    mount_point: config.storages[place].mount_point.clone(),
                    auto_mount: config.storages[place].auto_mount,
                };
                let status: StorageStatus = self.storages[i].status;
                self.storages.set(i, StorageEntry { config: settings, status });
            }
            i += 1;
        }
        assert(storages_view(self.storages@) =~= refreshed(before@, config@).storages);
        self.say("Config refreshed");
    }
}

/// A list holds what has a place in it.
proof fn lemma_first_place_known<A>(s: Seq<A>, x: A)
    ensures
        (first_place(s, x) < s.len()) == s.contains(x),
        first_place(s, x) <= s.len(),
    decreases s.len(),
{
    if s.len() > 0 && s[0] != x {
        let rest = s.drop_first();
        lemma_first_place_known(rest, x);
        if s.contains(x) {
            let i = choose|i: int| 0 <= i < s.len() && s[i] == x;
            assert(rest[i - 1] == x);
        }
        if rest.contains(x) {
            let i = choose|i: int| 0 <= i < rest.len() && rest[i] == x;
            assert(s[i + 1] == x);
        }
    } else if s.len() > 0 {
        assert(s.contains(s[0]));
    }
}

} // verus!
