//! The text interface: what it shows, and what each key does.
//!
//! A key changes the state and may ask for something to be done to files; once that is done, the
//! state is told how it went.
use std::collections::HashMap;
use vstd::prelude::*;
use crate::browser::{lines_view, lowercase, lowercased, matching, matching_places, next_selectable,
    TreeNode, TreeNodeView};
use crate::config::StorageConfigView;
use crate::entry::{EntryKind, IndexEntry, Meta};
use crate::index::{is_table, metas};
use crate::pathmap::{texts, PathMap};
use crate::preview::{head_text, preview_head};
use crate::text::{from_chars, push_text, same_text, to_chars};
pub use crate::config::{Config, StorageConfig};

verus! {

broadcast use vstd::std_specs::hash::group_hash_axioms;

/// How a listed archive is in use.
#[derive(Debug, Clone, Copy, PartialEq, Eq, Structural)]
pub enum StorageStatus {
    Closed,
    Open,
    Mounted,
}

/// A listed archive and how it is in use.
pub struct StorageEntry {
    pub config: StorageConfig,
    pub status: StorageStatus,
}

/// A listed archive and how it is in use, as a mathematical value.
#[verifier::ext_equal]
pub struct StorageEntryView {
    pub config: StorageConfigView,
    pub status: StorageStatus,
}

impl StorageEntry {
    pub open spec fn view(self) -> StorageEntryView {
        StorageEntryView { config: self.config@, status: self.status }
    }
}

/// A line in which the user types an answer.
pub struct InputDialog {
    pub prompt: String,
    pub buffer: String,
    pub visible: bool,
}

/// A line in which the user types an answer, as a mathematical value.
#[verifier::ext_equal]
pub struct InputView {
    pub prompt: Seq<char>,
    pub buffer: Seq<char>,
    pub visible: bool,
}

impl InputDialog {
    pub open spec fn view(self) -> InputView {
        InputView { prompt: self.prompt@, buffer: self.buffer@, visible: self.visible }
    }

    /// A line that is not shown.
    pub fn new() -> (r: Self)
        ensures
            r@ == (InputView {
                prompt: Seq::<char>::empty(),
                buffer: Seq::<char>::empty(),
                visible: false,
            }),
    {
        let r = InputDialog { prompt: String::new(), buffer: String::new(), visible: false };
        assert(r.prompt@ =~= Seq::<char>::empty());
        r
    }

    /// Asks for an answer and offers one.
    pub fn show(&mut self, prompt: &str, default: &str)
        ensures
            final(self)@ == (InputView { prompt: prompt@, buffer: default@, visible: true }),
    {
        self.prompt = text(prompt);
        self.buffer = text(default);
        self.visible = true;
    }

    /// Stops asking.
    pub fn dismiss(&mut self)
        ensures
            final(self)@ == (InputView { visible: false, ..old(self)@ }),
    {
        self.visible = false;
    }
}

/// A copy of a text.
pub(crate) fn text(a: &str) -> (r: String)
    ensures
        r@ == a@,
{
    from_chars(to_chars(a).as_slice())
}

/// Two texts, one after the other.
pub(crate) fn joined_text(a: &str, b: &str) -> (r: String)
    ensures
        r@ == a@ + b@,
{
    let mut r: String = text(a);
    push_text(&mut r, b);
    r
}

/// Whether `text` begins with `prefix`.
fn begins_with(text: &str, prefix: &str) -> (r: bool)
    ensures
        r == prefix@.is_prefix_of(text@),
{
    let a: Vec<char> = to_chars(text);
    let b: Vec<char> = to_chars(prefix);
    if b.len() > a.len() {
        return false;
    }
    let mut i: usize = 0;
    #[verifier::loop_isolation(false)]
    while i < b.len()
        invariant
            i <= b.len(),
            forall|k: int| 0 <= k < i ==> a@[k] == b@[k],
        decreases b.len() - i,
    {
        if a[i] != b[i] {
            proof {
                if b@.is_prefix_of(a@) {
                    assert(b@[i as int] == a@.subrange(0, b@.len() as int)[i as int]);
                }
            }
            return false;
        }
        i += 1;
    }
    assert(b@ =~= a@.subrange(0, b@.len() as int));
    true
}

/// What the interface shows.
#[derive(Debug, Clone, Copy, PartialEq, Eq, Structural)]
pub enum Screen {
    Dashboard,
    Browser,
    Settings,
}

/// What the user is asked to confirm.
pub enum ConfirmKind {
    DeleteStorage(usize),
    OverwriteCreate(String),
}

/// A question, and how often it has been put.
pub struct ConfirmState {
    pub kind: ConfirmKind,
    pub stage: u8,
}

/// What the user is asked to confirm, as a mathematical value.
#[verifier::ext_equal]
pub enum ConfirmKindView {
    DeleteStorage(usize),
    OverwriteCreate(Seq<char>),
}

/// A question as a mathematical value.
#[verifier::ext_equal]
pub struct ConfirmView {
    pub kind: ConfirmKindView,
    pub stage: u8,
}

impl ConfirmState {
    pub open spec fn view(self) -> ConfirmView {
        ConfirmView {
            kind: match self.kind {
                ConfirmKind::DeleteStorage(index) => ConfirmKindView::DeleteStorage(index),
                ConfirmKind::OverwriteCreate(path) => ConfirmKindView::OverwriteCreate(path@),
            },
            stage: self.stage,
        }
    }
}

/// A key that the user pressed.
#[derive(Debug, Clone, Copy, PartialEq, Eq, Structural)]
pub enum Key {
    Esc,
    Enter,
    Up,
    Down,
    PageUp,
    PageDown,
    Home,
    End,
    Backspace,
    Delete,
    Char(char),
    Other,
}

/// What is to be done to files, or to the system, after a key.
pub enum Action {
    Nothing,
    SaveConfig,
    ReloadConfig,
    /// Open the archive at this place in the list, where its file exists.
    OpenListed(usize),
    /// Open the archive in this file, where it exists, after it has been listed.
    OpenPath(String),
    /// Create an archive in this file, where it does not exist.
    CreateNew(String),
    /// Create an archive in this file, whether it exists or not.
    Create(String),
    Mount { index: usize, mount_point: String },
    Unmount { index: usize, mount_point: String, pid: Option<u32> },
    /// Secure the open archive and let go of it.
    Close,
    /// Read a file and store it. Without a target it is stored under its own name.
    Import { source: String, target: Option<String> },
    Export { source: String, dest: String },
    Rename { old_path: String, new_path: String },
    Delete(String),
    /// Read this entry for the preview.
    Preview(String),
}

/// An action as a mathematical value.
#[verifier::ext_equal]
pub enum ActionView {
    Nothing,
    SaveConfig,
    ReloadConfig,
    OpenListed(usize),
    OpenPath(Seq<char>),
    CreateNew(Seq<char>),
    Create(Seq<char>),
    Mount { index: usize, mount_point: Seq<char> },
    Unmount { index: usize, mount_point: Seq<char>, pid: Option<u32> },
    Close,
    Import { source: Seq<char>, target: Option<Seq<char>> },
    Export { source: Seq<char>, dest: Seq<char> },
    Rename { old_path: Seq<char>, new_path: Seq<char> },
    Delete(Seq<char>),
    Preview(Seq<char>),
}

impl Action {
    pub open spec fn view(self) -> ActionView {
        match self {
            Action::Nothing => ActionView::Nothing,
            Action::SaveConfig => ActionView::SaveConfig,
            Action::ReloadConfig => ActionView::ReloadConfig,
            Action::OpenListed(index) => ActionView::OpenListed(index),
            Action::OpenPath(path) => ActionView::OpenPath(path@),
            Action::CreateNew(path) => ActionView::CreateNew(path@),
            Action::Create(path) => ActionView::Create(path@),
            Action::Mount { index, mount_point } => ActionView::Mount {
                index,
                mount_point: mount_point@,
            },
            Action::Unmount { index, mount_point, pid } => ActionView::Unmount {
                index,
                mount_point: mount_point@,
                pid,
            },
            Action::Close => ActionView::Close,
            Action::Import { source, target } => ActionView::Import {
                source: source@,
                target: match target {
                    Some(target) => Some(target@),
                    None => None,
                },
            },
            Action::Export { source, dest } => ActionView::Export { source: source@, dest: dest@ },
            Action::Rename { old_path, new_path } => ActionView::Rename {
                old_path: old_path@,
                new_path: new_path@,
            },
            Action::Delete(path) => ActionView::Delete(path@),
            Action::Preview(path) => ActionView::Preview(path@),
        }
    }
}

/// The state of the interface.
pub struct TuiApp {
    pub config: Config,
    pub storages: Vec<StorageEntry>,
    /// Whether there is an open archive.
    pub open: bool,
    pub open_path: String,
    pub entries: PathMap<IndexEntry>,
    pub screen: Screen,
    pub selected_index: usize,
    pub file_list: Vec<TreeNode>,
    pub file_selected: usize,
    pub scroll_offset: usize,
    pub preview: String,
    pub preview_scroll: usize,
    pub status: String,
    pub input: InputDialog,
    pub filter: String,
    pub confirm: Option<ConfirmState>,
    pub should_quit: bool,
    pub mounted_count: usize,
    pub mount_pids: HashMap<usize, u32>,
}

/// The state of the interface as a mathematical value.
#[verifier::ext_equal]
pub struct TuiView {
    pub config: Seq<StorageConfigView>,
    pub storages: Seq<StorageEntryView>,
    pub open: bool,
    pub open_path: Seq<char>,
    pub entries: Map<Seq<char>, Meta>,
    pub screen: Screen,
    pub selected_index: usize,
    pub files: Seq<TreeNodeView>,
    pub file_selected: usize,
    pub scroll_offset: usize,
    pub preview: Seq<char>,
    pub preview_scroll: usize,
    pub status: Seq<char>,
    pub input: InputView,
    pub filter: Seq<char>,
    pub confirm: Option<ConfirmView>,
    pub should_quit: bool,
    pub mounted_count: usize,
    pub mount_pids: Map<usize, u32>,
}

/// Listed archives as mathematical values.
pub open spec fn storages_view(storages: Seq<StorageEntry>) -> Seq<StorageEntryView> {
    storages.map_values(|entry: StorageEntry| entry@)
}

impl TuiApp {
    pub open spec fn view(self) -> TuiView {
        TuiView {
            config: self.config@,
            storages: storages_view(self.storages@),
            open: self.open,
            open_path: self.open_path@,
            entries: metas(self.entries@),
            screen: self.screen,
            selected_index: self.selected_index,
            files: lines_view(self.file_list@),
            file_selected: self.file_selected,
            scroll_offset: self.scroll_offset,
            preview: self.preview@,
            preview_scroll: self.preview_scroll,
            status: self.status@,
            input: self.input@,
            filter: self.filter@,
            confirm: match self.confirm {
                Some(confirm) => Some(confirm@),
                None => None,
            },
            should_quit: self.should_quit,
            mounted_count: self.mounted_count,
            mount_pids: self.mount_pids@,
        }
    }

    pub open spec fn wf(self) -> bool {
        is_table(self.entries)
    }
}

/// Where `x` first stands in `s`, or the length of `s` where it does not.
pub open spec fn first_place<A>(s: Seq<A>, x: A) -> nat
    decreases s.len(),
{
    if s.len() == 0 || s[0] == x {
        0
    } else {
        1 + first_place(s.drop_first(), x)
    }
}

/// A place in a list of `n` lines that is as near to `at` as the list is long.
pub open spec fn chosen(at: usize, n: nat) -> usize {
    if at < n {
        at
    } else {
        (n - 1) as usize
    }
}

/// The place that lies `step` lines after `at`, where the first line follows the last.
pub open spec fn stepped(n: nat, at: usize, step: int) -> usize {
    if n == 0 {
        0
    } else {
        ((at + step) % (n as int)) as usize
    }
}

/// `v` with a message.
pub open spec fn said(v: TuiView, message: Seq<char>) -> TuiView {
    TuiView { status: message, ..v }
}

/// `v` with a question, and an answer that is offered.
pub open spec fn asked(v: TuiView, prompt: Seq<char>, default: Seq<char>) -> TuiView {
    TuiView { input: InputView { prompt, buffer: default, visible: true }, ..v }
}

/// The configuration of an archive that has just been listed.
pub open spec fn plain_config(path: Seq<char>) -> StorageConfigView {
    StorageConfigView { path, mount_point: Seq::<char>::empty(), auto_mount: false }
}

/// `v` with one more archive in both lists.
pub open spec fn listed(v: TuiView, path: Seq<char>) -> TuiView {
    TuiView {
        config: v.config.push(plain_config(path)),
        storages: v.storages.push(
            StorageEntryView { config: plain_config(path), status: StorageStatus::Closed },
        ),
        ..v
    }
}

/// The paths of listed archives.
pub open spec fn storage_paths(storages: Seq<StorageEntryView>) -> Seq<Seq<char>> {
    storages.map_values(|entry: StorageEntryView| entry.config.path)
}

/// The paths of configured archives.
pub open spec fn config_paths(config: Seq<StorageConfigView>) -> Seq<Seq<char>> {
    config.map_values(|entry: StorageConfigView| entry.path)
}

/// `storages` with another mount point for one of them.
pub open spec fn storage_mount_point(
    storages: Seq<StorageEntryView>,
    index: int,
    mount_point: Seq<char>,
) -> Seq<StorageEntryView> {
    if 0 <= index < storages.len() {
        storages.update(
            index,
            StorageEntryView {
                config: StorageConfigView { mount_point, ..storages[index].config },
                ..storages[index]
            },
        )
    } else {
        storages
    }
}

/// `config` with another mount point for one of the archives.
pub open spec fn config_mount_point(
    config: Seq<StorageConfigView>,
    index: int,
    mount_point: Seq<char>,
) -> Seq<StorageConfigView> {
    if 0 <= index < config.len() {
        config.update(index, StorageConfigView { mount_point, ..config[index] })
    } else {
        config
    }
}

/// `storages` with one of them in another use.
pub open spec fn storage_status(
    storages: Seq<StorageEntryView>,
    index: int,
    status: StorageStatus,
) -> Seq<StorageEntryView> {
    storages.update(index, StorageEntryView { status, ..storages[index] })
}

/// The places of the files that the browser lists: all, or those whose path holds the filter,
/// whatever the case of the letters.
pub open spec fn shown(v: TuiView) -> Seq<usize> {
    if v.filter.len() == 0 {
        Seq::new(v.files.len(), |i: int| i as usize)
    } else {
        matching(
            v.files.map_values(|line: TreeNodeView| lowercased(line.path)),
            lowercased(v.filter),
        )
    }
}

/// The line before `at`; the last line comes before the first.
pub open spec fn line_before(lines: Seq<usize>, at: usize) -> usize {
    let place = first_place(lines, at);
    if lines.len() == 0 {
        0
    } else if 0 < place < lines.len() {
        lines[place - 1]
    } else {
        lines.last()
    }
}

/// The line after `at`; the first line comes after the last.
pub open spec fn line_after(lines: Seq<usize>, at: usize) -> usize {
    let place = first_place(lines, at);
    if lines.len() == 0 {
        0
    } else if place + 1 < lines.len() {
        lines[place as int + 1]
    } else {
        lines[0]
    }
}

/// How many lines a page has.
pub const PAGE: usize = 20;

/// Where `at` stands among `lines`, or the first place where it does not.
pub open spec fn place_or_first(lines: Seq<usize>, at: usize) -> nat {
    if first_place(lines, at) < lines.len() {
        first_place(lines, at)
    } else {
        0
    }
}

/// The line a page after `at`, but not after the last.
pub open spec fn page_after(lines: Seq<usize>, at: usize) -> usize {
    let place = (place_or_first(lines, at) + PAGE) as int;
    if lines.len() == 0 {
        at
    } else if place < lines.len() {
        lines[place]
    } else {
        lines.last()
    }
}

/// The line a page before `at`, but not before the first.
pub open spec fn page_before(lines: Seq<usize>, at: usize) -> usize {
    let place = place_or_first(lines, at) - PAGE;
    if lines.len() == 0 {
        at
    } else if place > 0 {
        lines[place]
    } else {
        lines[0]
    }
}

/// `v` with a new preview of the selected file, as far as nothing has to be read for it, and what
/// has to be read.
pub open spec fn previewed(v: TuiView) -> (TuiView, ActionView) {
    if v.file_selected >= v.files.len() {
        (
            TuiView { preview: Seq::<char>::empty(), preview_scroll: 0, ..v },
            ActionView::Nothing,
        )
    } else {
        let line = v.files[v.file_selected as int];
        let head = head_text(
            line.path,
            line.kind,
            if v.entries.contains_key(line.path) {
                Some((v.entries[line.path].block_length, v.entries[line.path].mode))
            } else {
                None
            },
        );
        if line.kind is Directory {
            (
                TuiView { preview: head + "\n[directory]"@, preview_scroll: 0, ..v },
                ActionView::Nothing,
            )
        } else {
            (
                TuiView { preview: head, preview_scroll: 0, ..v },
                if v.open {
                    ActionView::Preview(line.path)
                } else {
                    ActionView::Nothing
                },
            )
        }
    }
}

/// `v` with another file selected and its preview.
pub open spec fn selected(v: TuiView, at: usize) -> (TuiView, ActionView) {
    previewed(TuiView { file_selected: at, ..v })
}

/// `v` without an open archive.
pub open spec fn closed(v: TuiView) -> TuiView {
    TuiView {
        open: false,
        entries: Map::<Seq<char>, Meta>::empty(),
        files: Seq::<TreeNodeView>::empty(),
        preview: Seq::<char>::empty(),
        open_path: Seq::<char>::empty(),
        storages: v.storages.map_values(
            |entry: StorageEntryView|
                if entry.config.path == v.open_path && !(entry.status is Mounted) {
                    StorageEntryView { status: StorageStatus::Closed, ..entry }
                } else {
                    entry
                },
        ),
        screen: Screen::Dashboard,
        status: "Storage closed"@,
        ..v
    }
}

/// `v` without an archive in the lists.
pub open spec fn forgotten(v: TuiView, index: int) -> TuiView {
    let storages = v.storages.remove(index);
    TuiView {
        config: if index < v.config.len() {
            v.config.remove(index)
        } else {
            v.config
        },
        storages,
        selected_index: if v.selected_index >= storages.len() && storages.len() > 0 {
            (storages.len() - 1) as usize
        } else {
            v.selected_index
        },
        status: "Removed "@ + v.storages[index].config.path + " from config"@,
        ..v
    }
}

/// What a key does on the dashboard.
pub open spec fn dashboard_key(v: TuiView, key: Key) -> (TuiView, ActionView) {
    let n = v.storages.len();
    let here = chosen(v.selected_index, n);
    if key == Key::Esc || key == Key::Char('q') || key == Key::Char('Q') {
        (TuiView { should_quit: true, ..v }, ActionView::Nothing)
    } else if key == Key::Up || key == Key::Char('k') {
        (
            TuiView { selected_index: stepped(n, v.selected_index, -1), ..v },
            ActionView::Nothing,
        )
    } else if key == Key::Down || key == Key::Char('j') {
        (TuiView { selected_index: stepped(n, v.selected_index, 1), ..v }, ActionView::Nothing)
    } else if key == Key::Char('c') {
        (
            asked(v, "Create: enter path for new .moss file"@, Seq::<char>::empty()),
            ActionView::Nothing,
        )
    } else if key == Key::Char('O') {
        (
            asked(v, "Open: enter path to existing .moss file"@, Seq::<char>::empty()),
            ActionView::Nothing,
        )
    } else if key == Key::Char('i') {
        (
            asked(v, "Import: enter path to existing .moss file"@, Seq::<char>::empty()),
            ActionView::Nothing,
        )
    } else if key == Key::Char('s') {
        (
            said(
                TuiView { screen: Screen::Settings, selected_index: 0, ..v },
                "Settings - manage auto-mount storages"@,
            ),
            ActionView::Nothing,
        )
    } else if key == Key::Char('r') {
        (v, ActionView::ReloadConfig)
    } else if n == 0 {
        (v, ActionView::Nothing)
    } else if key == Key::Enter || key == Key::Char('o') {
        (v, ActionView::OpenListed(here))
    } else if key == Key::Char('m') {
        (
            asked(v, "Mount: enter mount point"@, v.storages[here as int].config.mount_point),
            ActionView::Nothing,
        )
    } else if key == Key::Char('u') {
        if v.storages[here as int].status is Mounted {
            (
                v,
                ActionView::Unmount {
                    index: here,
                    mount_point: v.storages[here as int].config.mount_point,
                    pid: if v.mount_pids.contains_key(here) {
                        Some(v.mount_pids[here])
                    } else {
                        None
                    },
                },
            )
        } else {
            (said(v, "Not mounted"@), ActionView::Nothing)
        }
    } else if key == Key::Char('d') {
        (
            said(
                TuiView {
                    confirm: Some(
                        ConfirmView { kind: ConfirmKindView::DeleteStorage(here), stage: 1 },
                    ),
                    ..v
                },
                "Delete this entry? (y/n)"@,
            ),
            ActionView::Nothing,
        )
    } else {
        (v, ActionView::Nothing)
    }
}

/// What Enter does on a line of the browser: a directory becomes the filter, or stops being it;
/// anything else is previewed.
pub open spec fn browser_enter(v: TuiView) -> (TuiView, ActionView) {
    if v.file_selected >= v.files.len() {
        (v, ActionView::Nothing)
    } else if v.files[v.file_selected as int].kind is Directory {
        let prefix = v.files[v.file_selected as int].path + "/"@;
        if v.filter.len() == 0 || !prefix.is_prefix_of(v.filter) {
            (TuiView { filter: prefix, file_selected: 0, ..v }, ActionView::Nothing)
        } else {
            (TuiView { filter: Seq::<char>::empty(), ..v }, ActionView::Nothing)
        }
    } else {
        previewed(v)
    }
}

/// What a key that is meant for the selected file does in the browser.
pub open spec fn file_key(v: TuiView, key: Key) -> (TuiView, ActionView) {
    let line = v.files[v.file_selected as int];
    if v.file_selected >= v.files.len() {
        (v, ActionView::Nothing)
    } else if key == Key::Char('e') {
        if line.kind is Directory {
            (said(v, "Cannot export a directory"@), ActionView::Nothing)
        } else {
            (asked(v, "Export: enter destination path"@, line.name), ActionView::Nothing)
        }
    } else if key == Key::Char('d') {
        if line.path.len() == 0 {
            (said(v, "Cannot delete root"@), ActionView::Nothing)
        } else if v.open {
            (v, ActionView::Delete(line.path))
        } else {
            (v, ActionView::Nothing)
        }
    } else if key == Key::Char('r') {
        if line.path.len() == 0 {
            (said(v, "Cannot rename root"@), ActionView::Nothing)
        } else {
            (asked(v, "Rename: enter new path"@, line.path), ActionView::Nothing)
        }
    } else {
        (v, ActionView::Nothing)
    }
}

/// What a key does in the browser.
pub open spec fn browser_key(v: TuiView, key: Key) -> (TuiView, ActionView) {
    if key == Key::Esc || key == Key::Char('q') {
        (closed(v), ActionView::Close)
    } else if key == Key::Up || key == Key::Char('k') {
        selected(v, line_before(shown(v), v.file_selected))
    } else if key == Key::Down || key == Key::Char('j') {
        selected(v, line_after(shown(v), v.file_selected))
    } else if key == Key::PageDown {
        selected(v, page_after(shown(v), v.file_selected))
    } else if key == Key::PageUp {
        selected(v, page_before(shown(v), v.file_selected))
    } else if key == Key::Home {
        selected(
            v,
            if v.files.len() > 0 {
                0
            } else {
                v.file_selected
            },
        )
    } else if key == Key::End {
        selected(
            v,
            if v.files.len() > 0 {
                (v.files.len() - 1) as usize
            } else {
                v.file_selected
            },
        )
    } else if key == Key::Enter {
        browser_enter(v)
    } else if key == Key::Char('i') {
        (
            asked(v, "Import: <real-path> [virtual-path]"@, Seq::<char>::empty()),
            ActionView::Nothing,
        )
    } else if key == Key::Char('f') {
        (asked(v, "Filter: enter search term"@, v.filter), ActionView::Nothing)
    } else if key == Key::Char('/') {
        (asked(v, "Filter:"@, v.filter), ActionView::Nothing)
    } else if key == Key::Char('h') || key == Key::Char('?') {
        (
            said(v, "i:import e:export d:delete r:rename f:filter q:back"@),
            ActionView::Nothing,
        )
    } else {
        file_key(v, key)
    }
}

/// `v` without an archive in the settings, and without all that have its path.
pub open spec fn unlisted(v: TuiView, index: int) -> TuiView {
    let path = v.config[index].path;
    let config = v.config.remove(index);
    TuiView {
        config,
        storages: v.storages.filter(|entry: StorageEntryView| entry.config.path != path),
        selected_index: if v.selected_index < config.len() {
            v.selected_index
        } else if config.len() > 0 {
            (config.len() - 1) as usize
        } else {
            0
        },
        status: "Removed "@ + path,
        ..v
    }
}

/// `v` with automatic mounting of an archive turned on or off.
pub open spec fn toggled(v: TuiView, index: int) -> TuiView {
    let on = !v.config[index].auto_mount;
    TuiView {
        config: v.config.update(index, StorageConfigView { auto_mount: on, ..v.config[index] }),
        storages: if index < v.storages.len() {
            v.storages.update(
                index,
                StorageEntryView {
                    config: StorageConfigView { auto_mount: on, ..v.storages[index].config },
                    ..v.storages[index]
                },
            )
        } else {
            v.storages
        },
        status: if on {
            "Auto-mount enabled for "@ + v.config[index].path
        } else {
            "Auto-mount disabled for "@ + v.config[index].path
        },
        ..v
    }
}

/// What a key does in the settings.
pub open spec fn settings_key(v: TuiView, key: Key) -> (TuiView, ActionView) {
    let n = v.config.len();
    let here = chosen(v.selected_index, n) as int;
    if key == Key::Esc || key == Key::Char('q') || key == Key::Char('b') {
        (
            said(TuiView { screen: Screen::Dashboard, ..v }, "Settings saved"@),
            ActionView::SaveConfig,
        )
    } else if key == Key::Up || key == Key::Char('k') {
        (
            TuiView { selected_index: stepped(n, v.selected_index, -1), ..v },
            ActionView::Nothing,
        )
    } else if key == Key::Down || key == Key::Char('j') {
        (TuiView { selected_index: stepped(n, v.selected_index, 1), ..v }, ActionView::Nothing)
    } else if key == Key::Char('a') {
        if n == 0 {
            (
                asked(v, "Path: enter path to .moss file"@, Seq::<char>::empty()),
                ActionView::Nothing,
            )
        } else {
            (said(v, "Storages already configured"@), ActionView::Nothing)
        }
    } else if n == 0 {
        (v, ActionView::Nothing)
    } else if key == Key::Char('d') {
        (unlisted(v, here), ActionView::SaveConfig)
    } else if key == Key::Char('m') {
        (
            said(
                asked(
                    v,
                    "Mount point for "@ + v.config[here].path + ":"@,
                    v.config[here].mount_point,
                ),
                "Editing mount point for "@ + v.config[here].path,
            ),
            ActionView::Nothing,
        )
    } else if key == Key::Char('t') {
        (toggled(v, here), ActionView::SaveConfig)
    } else {
        (v, ActionView::Nothing)
    }
}

/// What an answer does that was given on the dashboard.
pub open spec fn dashboard_answer(v: TuiView, prompt: Seq<char>, answer: Seq<char>) -> (
    TuiView,
    ActionView,
) {
    if "Create:"@.is_prefix_of(prompt) {
        if answer.len() == 0 {
            (v, ActionView::Nothing)
        } else {
            (v, ActionView::CreateNew(answer))
        }
    } else if "Open:"@.is_prefix_of(prompt) || "Import:"@.is_prefix_of(prompt) {
        if answer.len() == 0 {
            (said(v, "File not found"@), ActionView::Nothing)
        } else {
            (v, ActionView::OpenPath(answer))
        }
    } else if "Mount:"@.is_prefix_of(prompt) && answer.len() > 0 && v.selected_index
        < v.storages.len() {
        (v, ActionView::Mount { index: v.selected_index, mount_point: answer })
    } else {
        (v, ActionView::Nothing)
    }
}

/// `text` without the slashes that it begins with.
pub open spec fn unrooted(text: Seq<char>) -> Seq<char>
    decreases text.len(),
{
    if text.len() > 0 && text[0] == '/' {
        unrooted(text.drop_first())
    } else {
        text
    }
}

/// What a new path for the file at `old_path` does.
pub open spec fn rename_answer(v: TuiView, old_path: Seq<char>, answer: Seq<char>) -> (
    TuiView,
    ActionView,
) {
    if unrooted(answer).len() == 0 {
        (said(v, "Invalid new path"@), ActionView::Nothing)
    } else if v.open {
        (v, ActionView::Rename { old_path, new_path: unrooted(answer) })
    } else {
        (v, ActionView::Nothing)
    }
}

/// What an answer does that was given in the browser.
pub open spec fn browser_answer(v: TuiView, prompt: Seq<char>, answer: Seq<char>) -> (
    TuiView,
    ActionView,
) {
    let space = first_place(answer, ' ') as int;
    let line = v.files[v.file_selected as int];
    let on_line = answer.len() > 0 && v.file_selected < v.files.len();
    if "Import"@.is_prefix_of(prompt) {
        (
            v,
            if space < answer.len() {
                ActionView::Import { source: answer.take(space), target: Some(answer.skip(space + 1)) }
            } else {
                ActionView::Import { source: answer, target: None }
            },
        )
    } else if "Export"@.is_prefix_of(prompt) {
        if on_line && v.open {
            (v, ActionView::Export { source: line.path, dest: answer })
        } else {
            (v, ActionView::Nothing)
        }
    } else if "Rename"@.is_prefix_of(prompt) {
        if on_line {
            rename_answer(v, line.path, answer)
        } else {
            (v, ActionView::Nothing)
        }
    } else if "Filter"@.is_prefix_of(prompt) {
        (TuiView { filter: answer, file_selected: 0, ..v }, ActionView::Nothing)
    } else {
        (v, ActionView::Nothing)
    }
}

/// What an answer does that was given in the settings.
pub open spec fn settings_answer(v: TuiView, prompt: Seq<char>, answer: Seq<char>) -> (
    TuiView,
    ActionView,
) {
    let space = first_place(answer, ' ') as int;
    let here = v.selected_index as int;
    if "Path:"@.is_prefix_of(prompt) {
        if space < answer.len() {
            (
                said(listed(v, answer.take(space)), "Added "@ + answer.take(space)),
                ActionView::SaveConfig,
            )
        } else {
            (v, ActionView::Nothing)
        }
    } else if "Mount point"@.is_prefix_of(prompt) && here < v.config.len() {
        (
            TuiView {
                config: config_mount_point(v.config, here, answer),
                storages: storage_mount_point(v.storages, here, answer),
                status: "Set mount point for "@ + v.config[here].path,
                ..v
            },
            ActionView::SaveConfig,
        )
    } else {
        (v, ActionView::Nothing)
    }
}

/// What a key does while an answer is being typed.
pub open spec fn input_key(v: TuiView, key: Key) -> (TuiView, ActionView) {
    let buffer = v.input.buffer;
    let without = TuiView { input: InputView { visible: false, ..v.input }, ..v };
    match key {
        Key::Esc => (without, ActionView::Nothing),
        Key::Enter => match v.screen {
            Screen::Dashboard => dashboard_answer(without, v.input.prompt, buffer),
            Screen::Browser => browser_answer(without, v.input.prompt, buffer),
            Screen::Settings => settings_answer(without, v.input.prompt, buffer),
        },
        Key::Char(c) => (
            TuiView { input: InputView { buffer: buffer.push(c), ..v.input }, ..v },
            ActionView::Nothing,
        ),
        Key::Backspace => (
            TuiView {
                input: InputView {
                    buffer: if buffer.len() > 0 {
                        buffer.drop_last()
                    } else {
                        buffer
                    },
                    ..v.input
                },
                ..v
            },
            ActionView::Nothing,
        ),
        Key::Delete => (
            TuiView { input: InputView { buffer: Seq::<char>::empty(), ..v.input }, ..v },
            ActionView::Nothing,
        ),
        _ => (v, ActionView::Nothing),
    }
}

/// The question that is put before something is done.
pub open spec fn question(confirm: ConfirmView) -> Seq<char> {
    match confirm.kind {
        ConfirmKindView::DeleteStorage(_) => if confirm.stage >= 2 {
            "Are you really sure? This cannot be undone. (y/n)"@
        } else {
            "Delete this entry? (y/n)"@
        },
        ConfirmKindView::OverwriteCreate(_) => if confirm.stage == 1 {
            "File already exists. Overwrite? (y/n) \u{2014} stage 1 of 2"@
        } else {
            "Are you really sure? This will destroy existing data. (y/n) \u{2014} stage 2 of 2"@
        },
    }
}

/// What a key does while a question is open.
pub open spec fn confirm_key(v: TuiView, confirm: ConfirmView, key: Key) -> (TuiView, ActionView) {
    let without = TuiView { confirm: None, ..v };
    if key == Key::Enter || key == Key::Char('y') {
        if confirm.stage >= 2 {
            match confirm.kind {
                ConfirmKindView::DeleteStorage(index) => if index < v.storages.len() {
                    (forgotten(without, index as int), ActionView::SaveConfig)
                } else {
                    (without, ActionView::Nothing)
                },
                ConfirmKindView::OverwriteCreate(path) => (without, ActionView::Create(path)),
            }
        } else {
            let again = ConfirmView { stage: (confirm.stage + 1) as u8, ..confirm };
            (
                said(
                    TuiView { confirm: Some(again), ..v },
                    match confirm.kind {
                        ConfirmKindView::DeleteStorage(_) =>
                            "Are you really sure? This cannot be undone. (y/n)"@,
                        ConfirmKindView::OverwriteCreate(_) =>
                            "Are you really sure? This will destroy existing data. (y/n) \u{2014} stage 2 of 2"@,
                    },
                ),
                ActionView::Nothing,
            )
        }
    } else if key == Key::Esc || key == Key::Char('n') {
        (said(without, "Cancelled."@), ActionView::Nothing)
    } else {
        (v, ActionView::Nothing)
    }
}

/// What a key does.
pub open spec fn pressed(v: TuiView, key: Key) -> (TuiView, ActionView) {
    if v.input.visible {
        input_key(v, key)
    } else if v.confirm is Some {
        confirm_key(v, v.confirm->0, key)
    } else {
        match v.screen {
            Screen::Dashboard => dashboard_key(v, key),
            Screen::Browser => browser_key(v, key),
            Screen::Settings => settings_key(v, key),
        }
    }
}

pub proof fn lemma_first_place<A>(s: Seq<A>, x: A, i: int)
    requires
        0 <= i <= s.len(),
        forall|k: int| 0 <= k < i ==> s[k] != x,
        i < s.len() ==> s[i] == x,
    ensures
        first_place(s, x) == i,
    decreases s.len(),
{
    if i > 0 {
        let rest = s.drop_first();
        assert forall|k: int| 0 <= k < i - 1 implies rest[k] != x by {
            assert(rest[k] == s[k + 1]);
        }
        lemma_first_place(rest, x, i - 1);
    }
}

/// Where `c` first stands in `text`, or the length of `text` where it does not.
fn place_of_char(text: &[char], c: char) -> (r: usize)
    ensures
        r == first_place(text@, c),
        r <= text@.len(),
        r < text@.len() ==> text@[r as int] == c,
{
    let mut i: usize = 0;
    #[verifier::loop_isolation(false)]
    while i < text.len() && text[i] != c
        invariant
            i <= text.len(),
            forall|k: int| 0 <= k < i ==> text@[k] != c,
        decreases text.len() - i,
    {
        i += 1;
    }
    proof {
        lemma_first_place(text@, c, i as int);
    }
    i
}

/// Where `at` first stands in `lines`, or the length of `lines` where it does not.
pub(crate) fn place_of_line(lines: &Vec<usize>, at: usize) -> (r: usize)
    ensures
        r == first_place(lines@, at),
        r <= lines.len(),
{
    let mut i: usize = 0;
    #[verifier::loop_isolation(false)]
    while i < lines.len() && lines[i] != at
        invariant
            i <= lines.len(),
            forall|k: int| 0 <= k < i ==> lines@[k] != at,
        decreases lines.len() - i,
    {
        i += 1;
    }
    proof {
        lemma_first_place(lines@, at, i as int);
    }
    i
}

/// Where an archive with this path first stands in the list of archives.
pub(crate) fn place_of_storage(storages: &Vec<StorageEntry>, path: &str) -> (r: usize)
    ensures
        r == first_place(storage_paths(storages_view(storages@)), path@),
        r <= storages.len(),
{
    let ghost paths = storage_paths(storages_view(storages@));
    let mut i: usize = 0;
    #[verifier::loop_isolation(false)]
    while i < storages.len()
        invariant
            i <= storages.len(),
            forall|k: int| 0 <= k < i ==> paths[k] != path@,
        decreases storages.len() - i,
    {
        assert(paths[i as int] == storages@[i as int].config.path@);
        if same_text(storages[i].config.path.as_str(), path) {
            proof {
                lemma_first_place(paths, path@, i as int);
            }
            return i;
        }
        i += 1;
    }
    proof {
        lemma_first_place(paths, path@, i as int);
    }
    i
}

/// Where an archive with this path first stands in the configuration.
pub(crate) fn place_in_config(config: &Config, path: &str) -> (r: usize)
    ensures
        r == first_place(config_paths(config@), path@),
        r <= config.storages.len(),
{
    let ghost paths = config_paths(config@);
    let mut i: usize = 0;
    #[verifier::loop_isolation(false)]
    while i < config.storages.len()
        invariant
            i <= config.storages.len(),
            forall|k: int| 0 <= k < i ==> paths[k] != path@,
        decreases config.storages.len() - i,
    {
        assert(paths[i as int] == config.storages@[i as int].path@);
        if same_text(config.storages[i].path.as_str(), path) {
            proof {
                lemma_first_place(paths, path@, i as int);
            }
            return i;
        }
        i += 1;
    }
    proof {
        lemma_first_place(paths, path@, i as int);
    }
    i
}

/// The text without the slashes that it begins with.
pub(crate) fn without_root(text: &str) -> (r: String)
    ensures
        r@ == unrooted(text@),
{
    let chars: Vec<char> = to_chars(text);
    let mut i: usize = 0;
    assert(chars@.skip(0) =~= chars@);
    #[verifier::loop_isolation(false)]
    while i < chars.len() && chars[i] == '/'
        invariant
            i <= chars.len(),
            unrooted(chars@.skip(i as int)) == unrooted(text@),
        decreases chars.len() - i,
    {
        assert(chars@.skip(i as int).drop_first() =~= chars@.skip(i + 1));
        i += 1;
    }
    part(chars.as_slice(), i, chars.len())
}

/// The characters from `start` to `end` as a text.
fn part(chars: &[char], start: usize, end: usize) -> (r: String)
    requires
        start <= end <= chars@.len(),
    ensures
        r@ == chars@.subrange(start as int, end as int),
        end == chars@.len() ==> r@ == chars@.skip(start as int),
        start == 0 ==> r@ == chars@.take(end as int),
{
    let r: String = from_chars(vstd::slice::slice_subrange(chars, start, end));
    assert(end == chars@.len() ==> r@ =~= chars@.skip(start as int));
    assert(start == 0 ==> r@ =~= chars@.take(end as int));
    r
}

impl TuiApp {
    /// Shows a message.
    pub(crate) fn say(&mut self, message: &str)
        requires
            old(self).wf(),
        ensures
            final(self).wf(),
            final(self)@ == said(old(self)@, message@),
    {
        self.status = text(message);
    }

    /// Shows a message that is made of two parts.
    pub(crate) fn say_of(&mut self, message: &str, about: &str)
        requires
            old(self).wf(),
        ensures
            final(self).wf(),
            final(self)@ == said(old(self)@, message@ + about@),
    {
        self.status = joined_text(message, about);
    }

    /// Asks for an answer.
    fn ask(&mut self, prompt: &str, default: &str)
        requires
            old(self).wf(),
        ensures
            final(self).wf(),
            final(self)@ == asked(old(self)@, prompt@, default@),
    {
        self.input.show(prompt, default);
    }

    /// Asks for an answer and offers none.
    fn ask_afresh(&mut self, prompt: &str)
        requires
            old(self).wf(),
        ensures
            final(self).wf(),
            final(self)@ == asked(old(self)@, prompt@, Seq::<char>::empty()),
    {
        self.input.show(prompt, "");
        proof {
            reveal_strlit("");
            assert(self.input.buffer@ =~= Seq::<char>::empty());
        }
    }

    /// Adds an archive to both lists.
    pub(crate) fn list(&mut self, path: &str)
        requires
            old(self).wf(),
        ensures
            final(self).wf(),
            final(self)@ == listed(old(self)@, path@),
    {
        let ghost before = *self;
        let config = StorageConfig {
            path: text(path),
            mount_point: String::new(),
            auto_mount: false,
        };
        assert(config.mount_point@ =~= Seq::<char>::empty());
        let copy: StorageConfig = config.clone();
        self.config.storages.push(config);
        let entry = StorageEntry { config: copy, status: StorageStatus::Closed };
        self.storages.push(entry);
        assert(self.config@ =~= before.config@.push(plain_config(path@)));
        assert(storages_view(self.storages@) =~= storages_view(before.storages@).push(entry@));
    }

    /// Takes note of how an archive is used.
    pub(crate) fn set_status(&mut self, index: usize, status: StorageStatus)
        requires
            old(self).wf(),
            index < old(self)@.storages.len(),
        ensures
            final(self).wf(),
            final(self)@ == (TuiView {
                storages: storage_status(old(self)@.storages, index as int, status),
                ..old(self)@
            }),
    {
        let ghost before = *self;
        let config: StorageConfig = self.storages[index].config.clone();
        let entry = StorageEntry { config, status };
        self.storages.set(index, entry);
        assert(storages_view(self.storages@) =~= storage_status(
            storages_view(before.storages@),
            index as int,
            status,
        ));
    }

    /// Takes note of where an archive is mounted, in both lists.
    pub(crate) fn set_mount_point(&mut self, index: usize, mount_point: &str)
        requires
            old(self).wf(),
        ensures
            final(self).wf(),
            final(self)@ == (TuiView {
                storages: storage_mount_point(old(self)@.storages, index as int, mount_point@),
                config: config_mount_point(old(self)@.config, index as int, mount_point@),
                ..old(self)@
            }),
    {
        let ghost before = *self;
        if index < self.config.storages.len() {
            let mut config: StorageConfig = self.config.storages[index].clone();
            config.mount_point = text(mount_point);
            self.config.storages.set(index, config);
        }
        if index < self.storages.len() {
            let mut config: StorageConfig = self.storages[index].config.clone();
            config.mount_point = text(mount_point);
            let entry = StorageEntry { config, status: self.storages[index].status };
            self.storages.set(index, entry);
        }
        assert(self.config@ =~= config_mount_point(before.config@, index as int, mount_point@));
        assert(storages_view(self.storages@) =~= storage_mount_point(
            storages_view(before.storages@),
            index as int,
            mount_point@,
        ));
    }

    /// The places of the files that the browser lists.
    pub fn filtered_file_list(&self) -> (r: Vec<usize>)
        requires
            self.wf(),
        ensures
            r@ == shown(self@),
            forall|k: int| 0 <= k < r.len() ==> #[trigger] r@[k] < self.file_list.len(),
    {
        let n: usize = self.file_list.len();
        let mut i: usize = 0;
        if self.filter.as_str().is_empty() {
            let mut r: Vec<usize> = Vec::new();
            #[verifier::loop_isolation(false)]
            while i < n
                invariant
                    i <= n,
                    r.len() == i,
                    forall|k: int| 0 <= k < i ==> #[trigger] r@[k] == k,
                decreases n - i,
            {
                r.push(i);
                i += 1;
            }
            assert(r@ =~= shown(self@));
            return r;
        }
        let mut paths: Vec<String> = Vec::new();
        #[verifier::loop_isolation(false)]
        while i < n
            invariant
                i <= n,
                paths.len() == i,
                forall|k: int|
                    0 <= k < i ==> (#[trigger] paths@[k])@ == lowercased(
                        self.file_list@[k].path@,
                    ),
            decreases n - i,
        {
            paths.push(lowercase(self.file_list[i].path.as_str()));
            i += 1;
        }
        assert(texts(paths@) =~= self@.files.map_values(
            |line: TreeNodeView| lowercased(line.path),
        ));
        let wanted: String = lowercase(self.filter.as_str());
        matching_places(&paths, wanted.as_str())
    }

    /// Makes the preview of the selected file, as far as nothing has to be read for it. Hands back
    /// what has to be read.
    pub fn update_preview(&mut self) -> (action: Action)
        requires
            old(self).wf(),
        ensures
            final(self).wf(),
            (final(self)@, action@) == previewed(old(self)@),
    {
        self.preview_scroll = 0;
        if self.file_selected >= self.file_list.len() {
            self.preview = String::new();
            assert(self.preview@ =~= Seq::<char>::empty());
            return Action::Nothing;
        }
        let line: &TreeNode = &self.file_list[self.file_selected];
        assert(line@ == self@.files[self.file_selected as int]);
        let kind: EntryKind = line.kind;
        let path: String = line.path.clone();
        let recorded: Option<(u64, u16)> = match self.entries.get(path.as_str()) {
            Some(entry) => Some((entry.block_length, entry.mode)),
            None => None,
        };
        let mut preview: String = preview_head(path.as_str(), kind, recorded);
        if kind == EntryKind::Directory {
            push_text(&mut preview, "\n[directory]");
            self.preview = preview;
            Action::Nothing
        } else {
            self.preview = preview;
            if self.open {
                Action::Preview(path)
            } else {
                Action::Nothing
            }
        }
    }

    /// Selects a file and makes its preview.
    fn select_file(&mut self, at: usize) -> (action: Action)
        requires
            old(self).wf(),
        ensures
            final(self).wf(),
            (final(self)@, action@) == selected(old(self)@, at),
    {
        self.file_selected = at;
        self.update_preview()
    }

    /// Lets go of the open archive.
    fn close_storage(&mut self)
        requires
            old(self).wf(),
        ensures
            final(self).wf(),
            final(self)@ == closed(old(self)@),
    {
        let ghost before = *self;
        let n: usize = self.storages.len();
        let mut i: usize = 0;
        #[verifier::loop_isolation(false)]
        while i < n
            invariant
                i <= n,
                self.storages.len() == n,
                *self == (TuiApp { storages: self.storages, ..before }),
                forall|k: int|
                    i <= k < n ==> (#[trigger] self.storages@[k])@ == before.storages@[k]@,
                forall|k: int|
                    0 <= k < i ==> (#[trigger] self.storages@[k])@ == closed(before@).storages[k],
            decreases n - i,
        {
            assert(self.storages@[i as int]@ == before@.storages[i as int]);
            if same_text(self.storages[i].config.path.as_str(), self.open_path.as_str())
                && self.storages[i].status != StorageStatus::Mounted {
                let config: StorageConfig = self.storages[i].config.clone();
                self.storages.set(i, StorageEntry { config, status: StorageStatus::Closed });
            }
            i += 1;
        }
        assert(storages_view(self.storages@) =~= closed(before@).storages);
        self.open = false;
        self.entries = PathMap::new();
        self.file_list = Vec::new();
        self.preview = String::new();
        self.open_path = String::new();
        self.screen = Screen::Dashboard;
        self.status = text("Storage closed");
        assert(self@ =~= closed(before@));
    }

    /// Takes an archive out of both lists.
    fn delete_storage_from_config(&mut self, index: usize)
        requires
            old(self).wf(),
            index < old(self).storages.len(),
        ensures
            final(self).wf(),
            final(self)@ == forgotten(old(self)@, index as int),
    {
        let ghost before = *self;
        if index < self.config.storages.len() {
            self.config.storages.remove(index);
        }
        let removed: StorageEntry = self.storages.remove(index);
        if self.selected_index >= self.storages.len() && self.storages.len() > 0 {
            self.selected_index = self.storages.len() - 1;
        }
        let mut message: String = joined_text("Removed ", removed.config.path.as_str());
        push_text(&mut message, " from config");
        self.status = message;
        proof {
            assert(self.config@ =~= forgotten(before@, index as int).config);
            assert(storages_view(self.storages@) =~= before@.storages.remove(index as int));
            assert(removed@ == before@.storages[index as int]);
        }
    }

    /// What a key does on the dashboard.
    fn handle_dashboard_key(&mut self, key: Key) -> (action: Action)
        requires
            old(self).wf(),
        ensures
            final(self).wf(),
            (final(self)@, action@) == dashboard_key(old(self)@, key),
    {
        let n: usize = self.storages.len();
        if key == Key::Esc || key == Key::Char('q') || key == Key::Char('Q') {
            self.should_quit = true;
            return Action::Nothing;
        }
        if key == Key::Up || key == Key::Char('k') {
            self.selected_index = next_selectable(n, self.selected_index, -1);
            return Action::Nothing;
        }
        if key == Key::Down || key == Key::Char('j') {
            self.selected_index = next_selectable(n, self.selected_index, 1);
            return Action::Nothing;
        }
        if key == Key::Char('c') {
            self.ask_afresh("Create: enter path for new .moss file");
            return Action::Nothing;
        }
        if key == Key::Char('O') {
            self.ask_afresh("Open: enter path to existing .moss file");
            return Action::Nothing;
        }
        if key == Key::Char('i') {
            self.ask_afresh("Import: enter path to existing .moss file");
            return Action::Nothing;
        }
        if key == Key::Char('s') {
            self.screen = Screen::Settings;
            self.selected_index = 0;
            self.say("Settings - manage auto-mount storages");
            return Action::Nothing;
        }
        if key == Key::Char('r') {
            return Action::ReloadConfig;
        }
        if n == 0 {
            return Action::Nothing;
        }
        let here: usize = if self.selected_index < n {
            self.selected_index
        } else {
            n - 1
        };
        assert(self@.storages[here as int] == self.storages@[here as int]@);
        if key == Key::Enter || key == Key::Char('o') {
            return Action::OpenListed(here);
        }
        let mount_point: String = self.storages[here].config.mount_point.clone();
        if key == Key::Char('m') {
            self.ask("Mount: enter mount point", mount_point.as_str());
            return Action::Nothing;
        }
        if key == Key::Char('u') {
            if self.storages[here].status == StorageStatus::Mounted {
                let pid: Option<u32> = match self.mount_pids.get(&here) {
                    Some(pid) => Some(*pid),
                    None => None,
                };
                return Action::Unmount { index: here, mount_point, pid };
            }
            self.say("Not mounted");
            return Action::Nothing;
        }
        if key == Key::Char('d') {
            self.confirm = Some(
                ConfirmState { kind: ConfirmKind::DeleteStorage(here), stage: 1 },
            );
            self.say("Delete this entry? (y/n)");
        }
        Action::Nothing
    }

    /// What Enter does on a line of the browser.
    fn enter_line(&mut self) -> (action: Action)
        requires
            old(self).wf(),
        ensures
            final(self).wf(),
            (final(self)@, action@) == browser_enter(old(self)@),
    {
        if self.file_selected >= self.file_list.len() {
            return Action::Nothing;
        }
        let line: &TreeNode = &self.file_list[self.file_selected];
        assert(line@ == self@.files[self.file_selected as int]);
        if line.kind != EntryKind::Directory {
            return self.update_preview();
        }
        let prefix: String = joined_text(line.path.as_str(), "/");
        if self.filter.as_str().is_empty() || !begins_with(self.filter.as_str(), prefix.as_str()) {
            self.filter = prefix;
            self.file_selected = 0;
        } else {
            self.filter = String::new();
            assert(self.filter@ =~= Seq::<char>::empty());
        }
        Action::Nothing
    }

    /// What a key that is meant for the selected file does in the browser.
    fn handle_file_key(&mut self, key: Key) -> (action: Action)
        requires
            old(self).wf(),
        ensures
            final(self).wf(),
            (final(self)@, action@) == file_key(old(self)@, key),
    {
        if self.file_selected >= self.file_list.len() {
            return Action::Nothing;
        }
        let line: &TreeNode = &self.file_list[self.file_selected];
        assert(line@ == self@.files[self.file_selected as int]);
        let kind: EntryKind = line.kind;
        let name: String = line.name.clone();
        let path: String = line.path.clone();
        if key == Key::Char('e') {
            if kind == EntryKind::Directory {
                self.say("Cannot export a directory");
            } else {
                self.ask("Export: enter destination path", name.as_str());
            }
        } else if key == Key::Char('d') {
            if path.as_str().is_empty() {
                self.say("Cannot delete root");
            } else if self.open {
                return Action::Delete(path);
            }
        } else if key == Key::Char('r') {
            if path.as_str().is_empty() {
                self.say("Cannot rename root");
            } else {
                self.ask("Rename: enter new path", path.as_str());
            }
        }
        Action::Nothing
    }

    /// The line that a key leads to from the selected file.
    fn line_for_key(&self, key: Key) -> (r: Option<usize>)
        requires
            self.wf(),
        ensures
            r == if key == Key::Up || key == Key::Char('k') {
                Some(line_before(shown(self@), self@.file_selected))
            } else if key == Key::Down || key == Key::Char('j') {
                Some(line_after(shown(self@), self@.file_selected))
            } else if key == Key::PageDown {
                Some(page_after(shown(self@), self@.file_selected))
            } else if key == Key::PageUp {
                Some(page_before(shown(self@), self@.file_selected))
            } else {
                None
            },
    {
        let up: bool = key == Key::Up || key == Key::Char('k');
        let down: bool = key == Key::Down || key == Key::Char('j');
        if !up && !down && key != Key::PageDown && key != Key::PageUp {
            return None;
        }
        let at: usize = self.file_selected;
        let lines: Vec<usize> = self.filtered_file_list();
        let n: usize = lines.len();
        if n == 0 {
            return Some(
                if up || down {
                    0
                } else {
                    at
                },
            );
        }
        let place: usize = place_of_line(&lines, at);
        let known: usize = if place < n {
            place
        } else {
            0
        };
        if up {
            if 0 < place && place < n {
                Some(lines[place - 1])
            } else {
                Some(lines[n - 1])
            }
        } else if down {
            if place < n - 1 {
                Some(lines[place + 1])
            } else {
                Some(lines[0])
            }
        } else if key == Key::PageDown {
            if n - known > PAGE {
                Some(lines[known + PAGE])
            } else {
                Some(lines[n - 1])
            }
        } else if known > PAGE {
            Some(lines[known - PAGE])
        } else {
            Some(lines[0])
        }
    }

    /// What a key does in the browser.
    fn handle_browser_key(&mut self, key: Key) -> (action: Action)
        requires
            old(self).wf(),
        ensures
            final(self).wf(),
            (final(self)@, action@) == browser_key(old(self)@, key),
    {
        if key == Key::Esc || key == Key::Char('q') {
            self.close_storage();
            return Action::Close;
        }
        if let Some(at) = self.line_for_key(key) {
            return self.select_file(at);
        }
        let n: usize = self.file_list.len();
        if key == Key::Home {
            let at: usize = if n > 0 {
                0
            } else {
                self.file_selected
            };
            return self.select_file(at);
        }
        if key == Key::End {
            let at: usize = if n > 0 {
                n - 1
            } else {
                self.file_selected
            };
            return self.select_file(at);
        }
        if key == Key::Enter {
            return self.enter_line();
        }
        if key == Key::Char('i') {
            self.ask_afresh("Import: <real-path> [virtual-path]");
            return Action::Nothing;
        }
        if key == Key::Char('f') {
            let filter: String = self.filter.clone();
            self.ask("Filter: enter search term", filter.as_str());
            return Action::Nothing;
        }
        if key == Key::Char('/') {
            let filter: String = self.filter.clone();
            self.ask("Filter:", filter.as_str());
            return Action::Nothing;
        }
        if key == Key::Char('h') || key == Key::Char('?') {
            self.say("i:import e:export d:delete r:rename f:filter q:back");
            return Action::Nothing;
        }
        self.handle_file_key(key)
    }

    /// Takes an archive out of the configuration, and all that have its path out of the list.
    fn unlist(&mut self, index: usize)
        requires
            old(self).wf(),
            index < old(self).config.storages.len(),
        ensures
            final(self).wf(),
            final(self)@ == unlisted(old(self)@, index as int),
    {
        let ghost before = *self;
        let removed: StorageConfig = self.config.storages.remove(index);
        let path: &str = removed.path.as_str();
        let mut kept: Vec<StorageEntry> = Vec::new();
        let mut i: usize = 0;
        let n: usize = self.storages.len();
        let ghost all = storages_view(self.storages@);
        let ghost other = |entry: StorageEntryView| entry.config.path != path@;
        proof {
            reveal(Seq::filter);
            assert(all.take(0) =~= Seq::<StorageEntryView>::empty());
            assert(storages_view(kept@) =~= Seq::<StorageEntryView>::empty());
        }
        #[verifier::loop_isolation(false)]
        while i < n
            invariant
                i <= n,
                storages_view(kept@) == all.take(i as int).filter(other),
            decreases n - i,
        {
            let entry: &StorageEntry = &self.storages[i];
            let ghost held = kept@;
            proof {
                assert(all.take(i + 1).drop_last() =~= all.take(i as int));
                assert(all.take(i + 1).last() == entry@);
            }
            if !same_text(entry.config.path.as_str(), path) {
                let copy = StorageEntry { config: entry.config.clone(), status: entry.status };
                kept.push(copy);
                assert(storages_view(kept@) =~= storages_view(held).push(entry@));
            }
            i += 1;
        }
        assert(all.take(i as int) =~= all);
        self.storages = kept;
        let left: usize = self.config.storages.len();
        if self.selected_index >= left {
            self.selected_index = if left > 0 {
                left - 1
            } else {
                0
            };
        }
        self.status = joined_text("Removed ", path);
        proof {
            assert(self.config@ =~= before@.config.remove(index as int));
            assert(removed@ == before@.config[index as int]);
        }
    }

    /// Turns automatic mounting of an archive on or off.
    fn toggle(&mut self, index: usize)
        requires
            old(self).wf(),
            index < old(self).config.storages.len(),
        ensures
            final(self).wf(),
            final(self)@ == toggled(old(self)@, index as int),
    {
        let ghost before = *self;
        let mut config: StorageConfig = self.config.storages[index].clone();
        let on: bool = !config.auto_mount;
        config.auto_mount = on;
        self.status = joined_text(
            if on {
                "Auto-mount enabled for "
            } else {
                "Auto-mount disabled for "
            },
            config.path.as_str(),
        );
        self.config.storages.set(index, config);
        if index < self.storages.len() {
            let mut config: StorageConfig = self.storages[index].config.clone();
            config.auto_mount = on;
            let entry = StorageEntry { config, status: self.storages[index].status };
            self.storages.set(index, entry);
        }
        proof {
            assert(self.config@ =~= toggled(before@, index as int).config);
            assert(storages_view(self.storages@) =~= toggled(before@, index as int).storages);
        }
    }

    /// What a key does in the settings.
    fn handle_settings_key(&mut self, key: Key) -> (action: Action)
        requires
            old(self).wf(),
        ensures
            final(self).wf(),
            (final(self)@, action@) == settings_key(old(self)@, key),
    {
        let n: usize = self.config.storages.len();
        if key == Key::Esc || key == Key::Char('q') || key == Key::Char('b') {
            self.screen = Screen::Dashboard;
            self.say("Settings saved");
            return Action::SaveConfig;
        }
        if key == Key::Up || key == Key::Char('k') {
            self.selected_index = next_selectable(n, self.selected_index, -1);
            return Action::Nothing;
        }
        if key == Key::Down || key == Key::Char('j') {
            self.selected_index = next_selectable(n, self.selected_index, 1);
            return Action::Nothing;
        }
        if key == Key::Char('a') {
            if n == 0 {
                self.ask_afresh("Path: enter path to .moss file");
            } else {
                self.say("Storages already configured");
            }
            return Action::Nothing;
        }
        if n == 0 {
            return Action::Nothing;
        }
        let here: usize = if self.selected_index < n {
            self.selected_index
        } else {
            n - 1
        };
        assert(self@.config[here as int] == self.config.storages@[here as int]@);
        if key == Key::Char('d') {
            self.unlist(here);
            return Action::SaveConfig;
        }
        if key == Key::Char('m') {
            let config: StorageConfig = self.config.storages[here].clone();
            let mut prompt: String = joined_text("Mount point for ", config.path.as_str());
            push_text(&mut prompt, ":");
            self.ask(prompt.as_str(), config.mount_point.as_str());
            self.say_of("Editing mount point for ", config.path.as_str());
            return Action::Nothing;
        }
        if key == Key::Char('t') {
            self.toggle(here);
            return Action::SaveConfig;
        }
        Action::Nothing
    }

    /// What an answer does that was given on the dashboard.
    fn answer_dashboard(&mut self, prompt: &str, answer: String) -> (action: Action)
        requires
            old(self).wf(),
        ensures
            final(self).wf(),
            (final(self)@, action@) == dashboard_answer(old(self)@, prompt@, answer@),
    {
        let empty: bool = answer.as_str().is_empty();
        if begins_with(prompt, "Create:") {
            if empty {
                return Action::Nothing;
            }
            return Action::CreateNew(answer);
        }
        if begins_with(prompt, "Open:") || begins_with(prompt, "Import:") {
            if empty {
                self.say("File not found");
                return Action::Nothing;
            }
            return Action::OpenPath(answer);
        }
        if begins_with(prompt, "Mount:") && !empty && self.selected_index < self.storages.len() {
            return Action::Mount { index: self.selected_index, mount_point: answer };
        }
        Action::Nothing
    }

    /// What a new path for a file does.
    fn rename_item(&mut self, old_path: String, answer: &str) -> (action: Action)
        requires
            old(self).wf(),
        ensures
            final(self).wf(),
            (final(self)@, action@) == rename_answer(old(self)@, old_path@, answer@),
    {
        let new_path: String = without_root(answer);
        if new_path.as_str().is_empty() {
            self.say("Invalid new path");
            Action::Nothing
        } else if self.open {
            Action::Rename { old_path, new_path }
        } else {
            Action::Nothing
        }
    }

    /// What an answer does that was given in the browser.
    fn answer_browser(&mut self, prompt: &str, answer: String) -> (action: Action)
        requires
            old(self).wf(),
        ensures
            final(self).wf(),
            (final(self)@, action@) == browser_answer(old(self)@, prompt@, answer@),
    {
        if begins_with(prompt, "Import") {
            let chars: Vec<char> = to_chars(answer.as_str());
            let space: usize = place_of_char(chars.as_slice(), ' ');
            if space < chars.len() {
                let source: String = part(chars.as_slice(), 0, space);
                let target: String = part(chars.as_slice(), space + 1, chars.len());
                return Action::Import { source, target: Some(target) };
            }
            return Action::Import { source: answer, target: None };
        }
        let on_line: bool = !answer.as_str().is_empty() && self.file_selected
            < self.file_list.len();
        if begins_with(prompt, "Export") {
            if on_line && self.open {
                let source: String = self.file_list[self.file_selected].path.clone();
                assert(source@ == self@.files[self.file_selected as int].path);
                return Action::Export { source, dest: answer };
            }
            return Action::Nothing;
        }
        if begins_with(prompt, "Rename") {
            if on_line {
                let old_path: String = self.file_list[self.file_selected].path.clone();
                assert(old_path@ == self@.files[self.file_selected as int].path);
                return self.rename_item(old_path, answer.as_str());
            }
            return Action::Nothing;
        }
        if begins_with(prompt, "Filter") {
            self.filter = answer;
            self.file_selected = 0;
        }
        Action::Nothing
    }

    /// What an answer does that was given in the settings.
    fn answer_settings(&mut self, prompt: &str, answer: String) -> (action: Action)
        requires
            old(self).wf(),
        ensures
            final(self).wf(),
            (final(self)@, action@) == settings_answer(old(self)@, prompt@, answer@),
    {
        if begins_with(prompt, "Path:") {
            let chars: Vec<char> = to_chars(answer.as_str());
            let space: usize = place_of_char(chars.as_slice(), ' ');
            if space < chars.len() {
                let path: String = part(chars.as_slice(), 0, space);
                self.list(path.as_str());
                self.say_of("Added ", path.as_str());
                return Action::SaveConfig;
            }
            return Action::Nothing;
        }
        if begins_with(prompt, "Mount point") && self.selected_index < self.config.storages.len() {
            let here: usize = self.selected_index;
            let path: String = self.config.storages[here].path.clone();
            assert(path@ == self@.config[here as int].path);
            self.set_mount_point(here, answer.as_str());
            self.say_of("Set mount point for ", path.as_str());
            return Action::SaveConfig;
        }
        Action::Nothing
    }

    /// What a key does while an answer is being typed.
    fn handle_input_key(&mut self, key: Key) -> (action: Action)
        requires
            old(self).wf(),
        ensures
            final(self).wf(),
            (final(self)@, action@) == input_key(old(self)@, key),
    {
        match key {
            Key::Esc => {
                self.input.dismiss();
                Action::Nothing
            },
            Key::Enter => {
                let answer: String = self.input.buffer.clone();
                let prompt: String = self.input.prompt.clone();
                self.input.dismiss();
                match self.screen {
                    Screen::Dashboard => self.answer_dashboard(prompt.as_str(), answer),
                    Screen::Browser => self.answer_browser(prompt.as_str(), answer),
                    Screen::Settings => self.answer_settings(prompt.as_str(), answer),
                }
            },
            Key::Char(c) => {
                self.input.buffer.push(c);
                Action::Nothing
            },
            Key::Backspace => {
                let chars: Vec<char> = to_chars(self.input.buffer.as_str());
                if chars.len() > 0 {
                    self.input.buffer = part(chars.as_slice(), 0, chars.len() - 1);
                    assert(self.input.buffer@ =~= chars@.drop_last());
                }
                Action::Nothing
            },
            Key::Delete => {
                self.input.buffer = String::new();
                assert(self.input.buffer@ =~= Seq::<char>::empty());
                Action::Nothing
            },
            _ => Action::Nothing,
        }
    }

    /// The question that is open.
    pub fn confirm_message(&self) -> (r: Option<&'static str>)
        ensures
            r is Some == self@.confirm is Some,
            r matches Some(message) ==> message@ == question(self@.confirm->0),
    {
        match &self.confirm {
            None => None,
            Some(confirm) => Some(
                match &confirm.kind {
                    ConfirmKind::DeleteStorage(_) => if confirm.stage >= 2 {
                        "Are you really sure? This cannot be undone. (y/n)"
                    } else {
                        "Delete this entry? (y/n)"
                    },
                    ConfirmKind::OverwriteCreate(_) => if confirm.stage == 1 {
                        "File already exists. Overwrite? (y/n) \u{2014} stage 1 of 2"
                    } else {
                        "Are you really sure? This will destroy existing data. (y/n) \u{2014} stage 2 of 2"
                    },
                },
            ),
        }
    }

    /// What a key does while a question is open.
    fn handle_confirm_key(&mut self, confirm: ConfirmState, key: Key) -> (action: Action)
        requires
            old(self).wf(),
            old(self)@.confirm == None::<ConfirmView>,
        ensures
            final(self).wf(),
            (final(self)@, action@) == confirm_key(
                TuiView { confirm: Some(confirm@), ..old(self)@ },
                confirm@,
                key,
            ),
    {
        if key == Key::Enter || key == Key::Char('y') {
            if confirm.stage >= 2 {
                return match confirm.kind {
                    ConfirmKind::DeleteStorage(index) => if index < self.storages.len() {
                        self.delete_storage_from_config(index);
                        Action::SaveConfig
                    } else {
                        Action::Nothing
                    },
                    ConfirmKind::OverwriteCreate(path) => Action::Create(path),
                };
            }
            self.status = match &confirm.kind {
                ConfirmKind::DeleteStorage(_) => text(
                    "Are you really sure? This cannot be undone. (y/n)",
                ),
                ConfirmKind::OverwriteCreate(_) => text(
                    "Are you really sure? This will destroy existing data. (y/n) \u{2014} stage 2 of 2",
                ),
            };
            self.confirm = Some(ConfirmState { kind: confirm.kind, stage: confirm.stage + 1 });
        } else if key == Key::Esc || key == Key::Char('n') {
            self.say("Cancelled.");
        } else {
            self.confirm = Some(confirm);
        }
        Action::Nothing
    }

    /// What a key does.
    pub fn press(&mut self, key: Key) -> (action: Action)
        requires
            old(self).wf(),
        ensures
            final(self).wf(),
            (final(self)@, action@) == pressed(old(self)@, key),
    {
        if self.input.visible {
            return self.handle_input_key(key);
        }
        let ghost before = self@;
        if let Some(confirm) = self.confirm.take() {
            assert(before == (TuiView { confirm: Some(confirm@), ..self@ }));
            return self.handle_confirm_key(confirm, key);
        }
        match self.screen {
            Screen::Dashboard => self.handle_dashboard_key(key),
            Screen::Browser => self.handle_browser_key(key),
            Screen::Settings => self.handle_settings_key(key),
        }
    }
}

} // verus!
