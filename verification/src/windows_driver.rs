//! A mounted archive on Windows: what it answers to the requests of a file system driver.
//!
//! Nodes are found by their paths; the root has the empty path. Whatever touches the archive itself
//! is asked for: an operation returns what is to be done to the archive, and goes on once it is told
//! how that went.
use vstd::prelude::*;
use crate::entry::{EntryKind, EntryView, IndexEntry, Meta};
use crate::error::StorageError;
use crate::fuse_driver::{overwrite, overwritten, read_part, resized, Source, SourceView};
use crate::index::{lemma_listing_map, listing_of, paths_of};
use crate::layout::{all_canonical, covers, first_under, is_closed, lemma_entry_first,
    lemma_first_of_new, lemma_needed, lemma_prefix, lemma_shorter, listed, needed, prefix_path,
    with_prefixes, IMPLIED_MODE};
use crate::path::{clean_path, cleaned, components, is_canonical, is_under, law_moved_back,
    lemma_canonical_nonempty, lemma_parent_and_name, lies_under, moved, moved_path, name_of,
    parent_of, split};
use crate::pathmap::{is_sorted, lemma_push_contains, lemma_sorted_distinct, lemma_sorted_unique,
    lemma_zipped, texts, PathMap};
use crate::storage::{lemma_archive, Moss};
use crate::text::{from_chars, precedes, same_text, to_chars};
use crate::time::Timestamp;

verus! {

/// Why a request failed.
#[derive(Debug, Clone, Copy, PartialEq, Eq, Structural)]
pub enum NtStatus {
    AccessDenied,
    DirectoryNotEmpty,
    FileIsADirectory,
    InternalError,
    InvalidDeviceRequest,
    InvalidParameter,
    NotADirectory,
    ObjectNameCollision,
    ObjectNameInvalid,
    ObjectNameNotFound,
    ObjectPathNotFound,
}

pub const FILE_ATTRIBUTE_READONLY: u32 = 0x1;

pub const FILE_ATTRIBUTE_DIRECTORY: u32 = 0x10;

pub const FILE_ATTRIBUTE_NORMAL: u32 = 0x80;

pub const FILE_DIRECTORY_FILE: u32 = 0x1;

pub const FILE_NON_DIRECTORY_FILE: u32 = 0x40;

pub const FILE_DELETE_ON_CLOSE: u32 = 0x1000;

pub const FILE_SUPERSEDE: u32 = 0;

pub const FILE_OPEN: u32 = 1;

pub const FILE_CREATE: u32 = 2;

pub const FILE_OPEN_IF: u32 = 3;

pub const FILE_OVERWRITE: u32 = 4;

pub const FILE_OVERWRITE_IF: u32 = 5;

/// The text that UTF-16 code units encode; `None` where a surrogate stands alone.
pub open spec fn utf16_decoded(units: Seq<u16>) -> Option<Seq<char>>
    decreases units.len(),
{
    if units.len() == 0 {
        Some(Seq::<char>::empty())
    } else if units[0] < 0xd800 || units[0] > 0xdfff {
        match utf16_decoded(units.skip(1)) {
            Some(rest) => Some(seq![units[0] as char] + rest),
            None => None,
        }
    } else if units[0] < 0xdc00 && units.len() > 1 && 0xdc00 <= units[1] <= 0xdfff {
        match utf16_decoded(units.skip(2)) {
            Some(rest) => Some(
                seq![(0x10000 + (units[0] - 0xd800) * 0x400 + (units[1] - 0xdc00)) as char] + rest,
            ),
            None => None,
        }
    } else {
        None
    }
}

/// `String::from_utf16` decodes UTF-16 code units, and fails where a surrogate stands alone.
#[verifier::external_body]
fn decode_utf16(units: &[u16]) -> (r: Option<String>)
    ensures
        match r {
            Some(s) => utf16_decoded(units@) == Some(s@),
            None => utf16_decoded(units@) is None,
        },
{
    String::from_utf16(units).ok()
}

/// The path that a name from the driver stands for.
pub open spec fn named_path(units: Seq<u16>) -> Result<Seq<char>, NtStatus> {
    match utf16_decoded(units) {
        None => Err(NtStatus::ObjectNameInvalid),
        Some(text) => match cleaned(text) {
            Ok(path) => Ok(path),
            Err(StorageError::ParentTraversal) => Err(NtStatus::ObjectPathNotFound),
            Err(_) => Err(NtStatus::ObjectNameInvalid),
        },
    }
}

/// The path that a name from the driver stands for; the root has the empty path.
pub fn normalize_pons_path(file_name: &[u16]) -> (r: Result<String, NtStatus>)
    ensures
        match named_path(file_name@) {
            Ok(path) => r matches Ok(s) && s@ == path,
            Err(status) => r == Err::<String, NtStatus>(status),
        },
{
    let text: String = match decode_utf16(file_name) {
        Some(text) => text,
        None => return Err(NtStatus::ObjectNameInvalid),
    };
    match clean_path(to_chars(text.as_str()).as_slice()) {
        Ok(path) => Ok(from_chars(path.as_slice())),
        Err(StorageError::ParentTraversal) => Err(NtStatus::ObjectPathNotFound),
        Err(_) => Err(NtStatus::ObjectNameInvalid),
    }
}

/// What stands behind the last slash of a path.
pub open spec fn file_name(path: Seq<char>) -> Seq<char>
    decreases path.len(),
{
    if path.len() == 0 || path.last() == '/' {
        Seq::<char>::empty()
    } else {
        file_name(path.drop_last()).push(path.last())
    }
}

/// What stands before the last slash of a path; nothing where there is no slash.
pub open spec fn parent_text(path: Seq<char>) -> Seq<char>
    decreases path.len(),
{
    if path.len() == 0 {
        Seq::<char>::empty()
    } else if path.last() == '/' {
        path.drop_last()
    } else {
        parent_text(path.drop_last())
    }
}

/// What stands behind the last slash of a path.
pub fn file_name_from_path(path: &str) -> (r: String)
    ensures
        r@ == file_name(path@),
{
    let chars: Vec<char> = to_chars(path);
    let n: usize = chars.len();
    let mut i: usize = n;
    assert(chars@.take(n as int) =~= chars@);
    assert(chars@.skip(n as int) =~= Seq::<char>::empty());
    assert(file_name(chars@.take(i as int)) + chars@.skip(i as int) =~= file_name(path@));
    #[verifier::loop_isolation(false)]
    while i > 0 && chars[i - 1] != '/'
        invariant
            i <= n,
            file_name(chars@.take(i as int)) + chars@.skip(i as int) == file_name(path@),
        decreases i,
    {
        i -= 1;
        proof {
            let more = chars@.take(i + 1);
            assert(more.drop_last() =~= chars@.take(i as int));
            assert(more.last() == chars@[i as int]);
            assert(chars@.skip(i as int) =~= seq![chars@[i as int]] + chars@.skip(i + 1));
            assert(file_name(chars@.take(i as int)) + chars@.skip(i as int) =~= file_name(more)
                + chars@.skip(i + 1));
        }
    }
    proof {
        if i > 0 {
            assert(chars@.take(i as int).last() == '/');
        }
        assert(file_name(chars@.take(i as int)) + chars@.skip(i as int) =~= chars@.skip(i as int));
    }
    from_chars(vstd::slice::slice_subrange(chars.as_slice(), i, n))
}

/// What stands before the last slash of a path; nothing where there is no slash.
pub fn parent_path(path: &str) -> (r: String)
    ensures
        r@ == parent_text(path@),
{
    let chars: Vec<char> = to_chars(path);
    let mut i: usize = chars.len();
    assert(chars@.take(i as int) =~= chars@);
    #[verifier::loop_isolation(false)]
    while i > 0 && chars[i - 1] != '/'
        invariant
            i <= chars.len(),
            parent_text(chars@.take(i as int)) == parent_text(path@),
        decreases i,
    {
        i -= 1;
        assert(chars@.take(i + 1).drop_last() =~= chars@.take(i as int));
        assert(chars@.take(i + 1).last() == chars@[i as int]);
    }
    if i == 0 {
        assert(parent_text(chars@.take(0)) =~= Seq::<char>::empty());
        return String::new();
    }
    assert(chars@.take(i as int).last() == '/');
    assert(chars@.take(i as int).drop_last() =~= chars@.subrange(0, i - 1));
    from_chars(vstd::slice::slice_subrange(chars.as_slice(), 0, i - 1))
}

/// The attributes that Windows shows for a mode.
pub open spec fn shown_attributes(mode: u16, kind: EntryKind) -> u32 {
    if kind is Directory {
        FILE_ATTRIBUTE_DIRECTORY
    } else if mode & 0o222 == 0 {
        FILE_ATTRIBUTE_READONLY
    } else {
        FILE_ATTRIBUTE_NORMAL
    }
}

/// The mode that stands for attributes that Windows sets.
pub open spec fn mode_for(attributes: u32, kind: EntryKind) -> u16 {
    let read_only = attributes & FILE_ATTRIBUTE_READONLY != 0;
    match kind {
        EntryKind::Symlink => 0o777,
        EntryKind::Directory => if read_only {
            0o555
        } else {
            0o755
        },
        EntryKind::File => if read_only {
            0o444
        } else {
            0o644
        },
    }
}

/// The attributes that Windows shows for a mode.
pub fn mode_to_win_attrs(mode: u16, kind: EntryKind) -> (r: u32)
    ensures
        r == shown_attributes(mode, kind),
{
    if matches!(kind, EntryKind::Directory) {
        FILE_ATTRIBUTE_DIRECTORY
    } else if mode & 0o222 == 0 {
        FILE_ATTRIBUTE_READONLY
    } else {
        FILE_ATTRIBUTE_NORMAL
    }
}

/// The mode that stands for attributes that Windows sets.
pub fn win_attrs_to_mode(attrs: u32, kind: EntryKind) -> (r: u16)
    ensures
        r == mode_for(attrs, kind),
{
    let read_only: bool = attrs & FILE_ATTRIBUTE_READONLY != 0;
    match kind {
        EntryKind::Directory => if read_only {
            0o555
        } else {
            0o755
        },
        EntryKind::Symlink => 0o777,
        EntryKind::File => if read_only {
            0o444
        } else {
            0o644
        },
    }
}

/// The attributes of a new file or directory show the mode that they were turned into, and turning
/// them into a mode again gives the same one.
pub proof fn law_attributes_round_trip(attributes: u32, kind: EntryKind)
    requires
        kind !is Directory,
    ensures
        mode_for(shown_attributes(mode_for(attributes, kind), kind), kind) == mode_for(
            attributes,
            kind,
        ),
{
    assert(0o444u16 & 0o222 == 0) by (bit_vector);
    assert(0o644u16 & 0o222 != 0) by (bit_vector);
    assert(0o777u16 & 0o222 != 0) by (bit_vector);
    assert(0x1u32 & 0x1 != 0) by (bit_vector);
    assert(0x80u32 & 0x1 == 0) by (bit_vector);
}

/// A file, directory or symbolic link of a mounted archive.
#[derive(Debug, Clone, Copy, PartialEq, Eq, Structural)]
pub struct WinNode {
    pub kind: EntryKind,
    pub size: u64,
    pub mode: u16,
    pub attrs: u32,
    pub atime: Timestamp,
    pub mtime: Timestamp,
    pub ctime: Timestamp,
}

/// A mounted archive as a mathematical value.
#[verifier::ext_equal]
pub struct WinView {
    pub nodes: Map<Seq<char>, WinNode>,
    pub children: Map<Seq<char>, Seq<Seq<char>>>,
    pub cache: Map<Seq<char>, Seq<u8>>,
}

/// A mounted archive: the nodes by path, for each the paths of what stands in it, and the contents
/// of files that were written to and are not in the archive yet.
pub struct MossDokan {
    nodes: PathMap<WinNode>,
    children: PathMap<Vec<String>>,
    write_cache: PathMap<Vec<u8>>,
}

/// The node for a path: the entry that has it, or a directory with the times of the first entry
/// below it.
pub open spec fn win_node_at(listing: Seq<EntryView>, path: Seq<char>) -> WinNode {
    let entry = first_under(listing, path)->Some_0;
    let own = entry.path == path;
    let kind = if own {
        entry.meta.kind
    } else {
        EntryKind::Directory
    };
    let mode = if own {
        entry.meta.mode
    } else {
        IMPLIED_MODE
    };
    WinNode {
        kind,
        size: if own && kind !is Directory {
            entry.meta.block_length
        } else {
            0
        },
        mode,
        attrs: shown_attributes(mode, kind),
        atime: entry.meta.atime,
        mtime: entry.meta.mtime,
        ctime: entry.meta.ctime,
    }
}

/// The root of a mounted archive.
pub open spec fn win_root(now: Timestamp) -> WinNode {
    WinNode {
        kind: EntryKind::Directory,
        size: 0,
        mode: 0o755,
        attrs: FILE_ATTRIBUTE_DIRECTORY,
        atime: now,
        mtime: now,
        ctime: now,
    }
}

/// The nodes for `paths`, and a root.
pub open spec fn win_nodes(
    paths: Seq<Seq<char>>,
    listing: Seq<EntryView>,
    now: Timestamp,
) -> Map<Seq<char>, WinNode> {
    Map::new(
        |p: Seq<char>| p.len() == 0 || paths.contains(p),
        |p: Seq<char>|
            if p.len() == 0 {
                win_root(now)
            } else {
                win_node_at(listing, p)
            },
    )
}

/// `list` holds what stands in `p`, in byte order.
pub open spec fn is_member_list(
    list: Seq<Seq<char>>,
    nodes: Map<Seq<char>, WinNode>,
    p: Seq<char>,
) -> bool {
    &&& is_sorted(list)
    &&& forall|c: Seq<char>| #[trigger]
        list.contains(c) <==> nodes.contains_key(c) && c.len() > 0 && parent_text(c) == p
}

/// Lists of texts as mathematical values.
pub open spec fn lists_view(lists: Map<Seq<char>, Vec<String>>) -> Map<Seq<char>, Seq<Seq<char>>> {
    lists.map_values(|list: Vec<String>| texts(list@))
}

/// `lists` with `path` added to the list of what stands in its directory.
pub open spec fn with_member(lists: Map<Seq<char>, Seq<Seq<char>>>, path: Seq<char>) -> Map<
    Seq<char>,
    Seq<Seq<char>>,
> {
    let p = parent_text(path);
    if lists.contains_key(p) {
        lists.insert(p, lists[p].push(path))
    } else {
        lists.insert(p, seq![path])
    }
}

/// What is left of a list when `path` is taken out.
pub open spec fn without_path(list: Seq<Seq<char>>, path: Seq<char>) -> Seq<Seq<char>> {
    list.filter(|c: Seq<char>| c != path)
}

/// `lists` without the list of `path`, and with `path` taken out of the list of its directory.
pub open spec fn without_member(lists: Map<Seq<char>, Seq<Seq<char>>>, path: Seq<char>) -> Map<
    Seq<char>,
    Seq<Seq<char>>,
> {
    let less = lists.remove(path);
    let p = parent_text(path);
    if less.contains_key(p) {
        less.insert(p, without_path(less[p], path))
    } else {
        less
    }
}

/// `lists` after several paths were taken out of it.
pub open spec fn without_members(
    lists: Map<Seq<char>, Seq<Seq<char>>>,
    paths: Seq<Seq<char>>,
) -> Map<Seq<char>, Seq<Seq<char>>>
    decreases paths.len(),
{
    if paths.len() == 0 {
        lists
    } else {
        without_member(without_members(lists, paths.drop_last()), paths.last())
    }
}

/// `lists` after several paths were added, one after the other.
pub open spec fn with_members(lists: Map<Seq<char>, Seq<Seq<char>>>, paths: Seq<Seq<char>>) -> Map<
    Seq<char>,
    Seq<Seq<char>>,
>
    decreases paths.len(),
{
    if paths.len() == 0 {
        lists
    } else {
        with_member(with_members(lists, paths.drop_last()), paths.last())
    }
}

/// The paths of `map` that are `top` or lie below it, in byte order.
pub open spec fn is_tree_list<V>(
    list: Seq<Seq<char>>,
    map: Map<Seq<char>, V>,
    top: Seq<char>,
) -> bool {
    &&& is_sorted(list)
    &&& forall|k: Seq<char>| #[trigger] list.contains(k) <==> map.contains_key(k) && is_under(k, top)
}

/// The paths of `map` that are `top` or lie below it, in byte order.
pub open spec fn tree_list<V>(map: Map<Seq<char>, V>, top: Seq<char>) -> Seq<Seq<char>> {
    choose|list: Seq<Seq<char>>| is_tree_list(list, map, top)
}

/// `map` with everything at and below `from` moved to `to`. What is moved takes the place of what
/// is there.
pub open spec fn relocated_map<V>(map: Map<Seq<char>, V>, from: Seq<char>, to: Seq<char>) -> Map<
    Seq<char>,
    V,
> {
    Map::new(
        |k: Seq<char>|
            (is_under(k, to) && map.contains_key(moved(k, to, from))) || (map.contains_key(k)
                && !is_under(k, from)),
        |k: Seq<char>|
            if is_under(k, to) && map.contains_key(moved(k, to, from)) {
                map[moved(k, to, from)]
            } else {
                map[k]
            },
    )
}

/// What an opened file or directory is known by.
pub struct HandleContext {
    pub path: String,
    pub delete_on_close: bool,
}

/// The answer to a request to open something, and what is to be recorded for it: an empty payload
/// belongs to the entry unless it is a directory's.
pub struct CreateFileInfo {
    pub context: HandleContext,
    pub is_dir: bool,
    pub new_file_created: bool,
    pub record: Option<IndexEntry>,
}

/// The answer to a request to open something as a mathematical value.
#[verifier::ext_equal]
pub struct CreateView {
    pub path: Seq<char>,
    pub delete_on_close: bool,
    pub is_dir: bool,
    pub new_file_created: bool,
    pub record: Option<EntryView>,
}

impl CreateFileInfo {
    pub open spec fn view(self) -> CreateView {
        CreateView {
            path: self.context.path@,
            delete_on_close: self.context.delete_on_close,
            is_dir: self.is_dir,
            new_file_created: self.new_file_created,
            record: match self.record {
                Some(entry) => Some(entry@),
                None => None,
            },
        }
    }
}

/// What the archive is to record of a node. It finds the payload by itself.
pub open spec fn win_entry(path: Seq<char>, node: WinNode) -> EntryView {
    EntryView {
        path,
        meta: Meta {
            kind: node.kind,
            start_byte: 0,
            block_length: node.size,
            mode: node.mode,
            uid: 0,
            gid: 0,
            atime: node.atime,
            mtime: node.mtime,
            ctime: node.ctime,
        },
    }
}

/// A node that is made.
pub open spec fn win_new_node(attributes: u32, kind: EntryKind, now: Timestamp) -> WinNode {
    let mode = mode_for(attributes, kind);
    WinNode {
        kind,
        size: 0,
        mode,
        attrs: shown_attributes(mode, kind),
        atime: now,
        mtime: now,
        ctime: now,
    }
}

/// The mounted archive after a request to open `path`, and the answer.
pub open spec fn win_opened(
    view: WinView,
    path: Seq<char>,
    attributes: u32,
    disposition: u32,
    options: u32,
    now: Timestamp,
) -> (WinView, Result<CreateView, NtStatus>) {
    let wants_dir = options & FILE_DIRECTORY_FILE != 0;
    let wants_file = options & FILE_NON_DIRECTORY_FILE != 0;
    let delete_on_close = options & FILE_DELETE_ON_CLOSE != 0;
    let parent = parent_text(path);
    let answer = CreateView {
        path,
        delete_on_close,
        is_dir: false,
        new_file_created: false,
        record: None,
    };
    if path.len() == 0 {
        (view, Ok(CreateView { delete_on_close: false, is_dir: true, ..answer }))
    } else if parent.len() > 0 && !view.nodes.contains_key(parent) {
        (view, Err(NtStatus::ObjectPathNotFound))
    } else if view.nodes.contains_key(path) {
        let node = view.nodes[path];
        if wants_dir && node.kind !is Directory {
            (view, Err(NtStatus::NotADirectory))
        } else if wants_file && node.kind is Directory {
            (view, Err(NtStatus::FileIsADirectory))
        } else if disposition == FILE_SUPERSEDE || disposition == FILE_OVERWRITE || disposition
            == FILE_OVERWRITE_IF {
            if node.kind is Directory {
                (view, Err(NtStatus::AccessDenied))
            } else {
                let emptied = WinNode { size: 0, mtime: now, ctime: now, attrs: attributes, ..node };
                (
                    WinView {
                        nodes: view.nodes.insert(path, emptied),
                        cache: view.cache.insert(path, Seq::<u8>::empty()),
                        ..view
                    },
                    Ok(answer),
                )
            }
        } else if disposition == FILE_CREATE {
            (view, Err(NtStatus::ObjectNameCollision))
        } else if disposition == FILE_OPEN || disposition == FILE_OPEN_IF {
            (view, Ok(CreateView { is_dir: node.kind is Directory, ..answer }))
        } else {
            (view, Err(NtStatus::InvalidParameter))
        }
    } else if disposition == FILE_CREATE || disposition == FILE_OPEN_IF || disposition
        == FILE_OVERWRITE_IF || disposition == FILE_SUPERSEDE {
        let kind = if wants_dir {
            EntryKind::Directory
        } else {
            EntryKind::File
        };
        let node = win_new_node(attributes, kind, now);
        let lists = if view.children.contains_key(path) {
            view.children
        } else {
            view.children.insert(path, Seq::<Seq<char>>::empty())
        };
        (
            WinView {
                nodes: view.nodes.insert(path, node),
                children: with_member(lists, path),
                ..view
            },
            Ok(
                CreateView {
                    is_dir: kind is Directory,
                    new_file_created: true,
                    record: Some(win_entry(path, node)),
                    ..answer
                },
            ),
        )
    } else if disposition == FILE_OPEN || disposition == FILE_OVERWRITE {
        (view, Err(NtStatus::ObjectNameNotFound))
    } else {
        (view, Err(NtStatus::InvalidParameter))
    }
}

/// Something stands in the directory `path`.
pub open spec fn has_members(view: WinView, path: Seq<char>) -> bool {
    view.children.contains_key(path) && view.children[path].len() > 0
}

/// The mounted archive after a handle that deletes was closed, and whether the archive is to remove
/// the path.
pub open spec fn win_cleaned_up(view: WinView, path: Seq<char>) -> (WinView, bool) {
    let closed = WinView { cache: view.cache.remove(path), ..view };
    if view.nodes.contains_key(path) && view.nodes[path].kind is Directory && has_members(
        view,
        path,
    ) {
        (closed, false)
    } else {
        (
            WinView {
                nodes: view.nodes.remove(path),
                children: without_member(view.children, path),
                ..closed
            },
            true,
        )
    }
}

/// The mounted archive after the contents of `path` became `contents` at `now`.
pub open spec fn win_with_contents(
    view: WinView,
    path: Seq<char>,
    contents: Seq<u8>,
    now: Timestamp,
) -> WinView {
    WinView {
        cache: view.cache.insert(path, contents),
        nodes: if view.nodes.contains_key(path) {
            view.nodes.insert(
                path,
                WinNode {
                    size: contents.len() as u64,
                    mtime: now,
                    ctime: now,
                    ..view.nodes[path]
                },
            )
        } else {
            view.nodes
        },
        ..view
    }
}

/// Whether `path` can be written to.
pub open spec fn win_writable(nodes: Map<Seq<char>, WinNode>, path: Seq<char>, offset: i64) -> Result<
    (),
    NtStatus,
> {
    if offset < 0 {
        Err(NtStatus::InvalidParameter)
    } else if !nodes.contains_key(path) {
        Err(NtStatus::ObjectNameNotFound)
    } else if nodes[path].kind !is File {
        Err(NtStatus::AccessDenied)
    } else {
        Ok(())
    }
}

/// Whether the size of `path` can be set.
pub open spec fn win_resizable(nodes: Map<Seq<char>, WinNode>, path: Seq<char>, size: i64) -> Result<
    (),
    NtStatus,
> {
    if size < 0 || size > usize::MAX {
        Err(NtStatus::InvalidParameter)
    } else if !nodes.contains_key(path) {
        Err(NtStatus::ObjectNameNotFound)
    } else if nodes[path].kind !is File {
        Err(NtStatus::InvalidDeviceRequest)
    } else {
        Ok(())
    }
}

/// The contents after a write.
pub open spec fn win_write_outcome(
    view: WinView,
    path: Seq<char>,
    offset: i64,
    data: Seq<u8>,
    to_eof: bool,
) -> Result<Seq<u8>, NtStatus> {
    match win_writable(view.nodes, path, offset) {
        Err(status) => Err(status),
        Ok(()) => if !view.cache.contains_key(path) {
            Err(NtStatus::InternalError)
        } else {
            let contents = view.cache[path];
            let start = if to_eof {
                contents.len() as int
            } else {
                offset as int
            };
            if start > usize::MAX || start + data.len() > usize::MAX {
                Err(NtStatus::InvalidParameter)
            } else {
                Ok(overwritten(contents, start, data))
            }
        },
    }
}

/// The attributes of a file or directory.
#[derive(Debug, Clone, Copy, PartialEq, Eq, Structural)]
pub struct FileInfo {
    pub attributes: u32,
    pub creation_time: Timestamp,
    pub last_access_time: Timestamp,
    pub last_write_time: Timestamp,
    pub file_size: u64,
}

/// The attributes that are shown for a node: at least one is.
pub open spec fn visible_attributes(node: WinNode) -> u32 {
    if node.kind is Directory {
        node.attrs | FILE_ATTRIBUTE_DIRECTORY
    } else if node.attrs == 0 {
        FILE_ATTRIBUTE_NORMAL
    } else {
        node.attrs
    }
}

/// What is shown for `path`. The size is that of the contents at hand, where there are any.
pub open spec fn info_of(view: WinView, path: Seq<char>) -> FileInfo {
    let node = view.nodes[path];
    FileInfo {
        attributes: visible_attributes(node),
        creation_time: node.ctime,
        last_access_time: node.atime,
        last_write_time: node.mtime,
        file_size: if view.cache.contains_key(path) {
            view.cache[path].len() as u64
        } else {
            node.size
        },
    }
}

/// One line of a directory listing.
pub struct FindData {
    pub info: FileInfo,
    pub file_name: String,
}

/// The lines for those paths of `list` that have a node.
pub open spec fn find_lines(view: WinView, list: Seq<Seq<char>>) -> Seq<(FileInfo, Seq<char>)>
    decreases list.len(),
{
    if list.len() == 0 {
        Seq::<(FileInfo, Seq<char>)>::empty()
    } else if view.nodes.contains_key(list.last()) {
        find_lines(view, list.drop_last()).push(
            (info_of(view, list.last()), file_name(list.last())),
        )
    } else {
        find_lines(view, list.drop_last())
    }
}

/// Lines of a directory listing as mathematical values.
pub open spec fn lines_view(lines: Seq<FindData>) -> Seq<(FileInfo, Seq<char>)> {
    lines.map_values(|line: FindData| (line.info, line.file_name@))
}

/// Contents that are to be recorded.
pub struct WinCommit {
    pub entry: IndexEntry,
    pub data: Vec<u8>,
}

/// The sum of the sizes of some nodes.
pub open spec fn sum_of_sizes(nodes: Seq<WinNode>) -> nat
    decreases nodes.len(),
{
    if nodes.len() == 0 {
        0
    } else {
        sum_of_sizes(nodes.drop_last()) + nodes.last().size as nat
    }
}

/// The paths of the nodes, in byte order.
pub open spec fn node_paths(nodes: Map<Seq<char>, WinNode>) -> Seq<Seq<char>> {
    choose|paths: Seq<Seq<char>>|
        is_sorted(paths) && forall|path: Seq<char>| #[trigger]
            paths.contains(path) <==> nodes.contains_key(path)
}

/// The sum of the sizes of all nodes.
pub open spec fn used_space(nodes: Map<Seq<char>, WinNode>) -> nat {
    sum_of_sizes(node_paths(nodes).map_values(|path: Seq<char>| nodes[path]))
}

/// How much room there is, in bytes.
#[derive(Debug, Clone, Copy, PartialEq, Eq, Structural)]
pub struct DiskSpace {
    pub total: u64,
    pub free: u64,
}

/// How far a move is possible. What it replaces is gone from the nodes then, and leaves the archive
/// when the move is made there.
pub open spec fn move_checked(
    view: WinView,
    old_path: Seq<char>,
    new_path: Seq<char>,
    replace: bool,
) -> Result<bool, NtStatus> {
    let parent = parent_text(new_path);
    if old_path.len() == 0 {
        Err(NtStatus::AccessDenied)
    } else if !view.nodes.contains_key(old_path) {
        Err(NtStatus::ObjectNameNotFound)
    } else if parent.len() > 0 && !view.nodes.contains_key(parent) {
        Err(NtStatus::ObjectPathNotFound)
    } else if is_under(new_path, old_path) {
        Err(NtStatus::InvalidParameter)
    } else if !view.nodes.contains_key(new_path) {
        Ok(false)
    } else {
        let source = view.nodes[old_path].kind;
        let target = view.nodes[new_path].kind;
        if !replace {
            Err(NtStatus::ObjectNameCollision)
        } else if source is Directory && target !is Directory {
            Err(NtStatus::NotADirectory)
        } else if source !is Directory && target is Directory {
            Err(NtStatus::FileIsADirectory)
        } else if target is Directory && has_members(view, new_path) {
            Err(NtStatus::DirectoryNotEmpty)
        } else {
            Ok(true)
        }
    }
}

/// The mounted archive without `top` and all that lies below it.
pub open spec fn win_without_tree(view: WinView, top: Seq<char>) -> WinView {
    let list = tree_list(view.nodes, top);
    WinView {
        nodes: view.nodes.remove_keys(list.to_set()),
        children: without_members(view.children, list),
        ..view
    }
}

/// The mounted archive after a move.
pub open spec fn win_moved(view: WinView, from: Seq<char>, to: Seq<char>) -> WinView {
    let list = tree_list(view.nodes, from);
    let targets = list.map_values(|path: Seq<char>| moved(path, from, to));
    WinView {
        nodes: relocated_map(view.nodes, from, to),
        children: with_members(without_members(view.children, list), targets),
        cache: relocated_map(view.cache, from, to),
    }
}

/// There is at most one list of the paths at and below another.
pub proof fn law_tree_list_unique<V>(list: Seq<Seq<char>>, map: Map<Seq<char>, V>, top: Seq<char>)
    requires
        is_tree_list(list, map, top),
    ensures
        tree_list(map, top) == list,
{
    let other = tree_list(map, top);
    assert(is_tree_list(other, map, top));
    assert forall|k: Seq<char>| #[trigger] list.contains(k) <==> other.contains(k) by {}
    lemma_sorted_unique(list, other);
}

/// `k` is the new path of one of `keys`.
spec fn is_placed(k: Seq<char>, keys: Seq<Seq<char>>, from: Seq<char>, to: Seq<char>) -> bool {
    is_under(k, to) && keys.contains(moved(k, to, from))
}

/// `base` with the values that `keys` have in `source` under their new paths.
spec fn placed<V>(
    base: Map<Seq<char>, V>,
    source: Map<Seq<char>, V>,
    keys: Seq<Seq<char>>,
    from: Seq<char>,
    to: Seq<char>,
) -> Map<Seq<char>, V> {
    Map::new(
        |k: Seq<char>| is_placed(k, keys, from, to) || base.contains_key(k),
        |k: Seq<char>|
            if is_placed(k, keys, from, to) {
                source[moved(k, to, from)]
            } else {
                base[k]
            },
    )
}

proof fn lemma_placed_step<V>(
    base: Map<Seq<char>, V>,
    source: Map<Seq<char>, V>,
    keys: Seq<Seq<char>>,
    i: int,
    from: Seq<char>,
    to: Seq<char>,
)
    requires
        0 <= i < keys.len(),
        is_under(keys[i], from),
    ensures
        placed(base, source, keys.skip(i), from, to) == placed(
            base,
            source,
            keys.skip(i + 1),
            from,
            to,
        ).insert(moved(keys[i], from, to), source[keys[i]]),
{
    let key = keys[i];
    let target = moved(key, from, to);
    law_moved_back(key, from, to);
    let more = keys.skip(i);
    let less = keys.skip(i + 1);
    assert(more =~= seq![key] + less);
    assert forall|k: Seq<char>| #[trigger] is_placed(k, more, from, to) <==> is_placed(
        k,
        less,
        from,
        to,
    ) || k == target by {
        if is_under(k, to) {
            law_moved_back(k, to, from);
            let source_key = moved(k, to, from);
            if more.contains(source_key) && source_key != key {
                let j = choose|j: int| 0 <= j < more.len() && more[j] == source_key;
                assert(less[j - 1] == source_key);
            }
            if less.contains(source_key) {
                let j = choose|j: int| 0 <= j < less.len() && less[j] == source_key;
                assert(more[j + 1] == source_key);
            }
        }
        if k == target {
            assert(more[0] == key);
        }
    }
    assert(placed(base, source, more, from, to) =~= placed(base, source, less, from, to).insert(
        target,
        source[key],
    ));
}

/// Takes the values of some keys out of a map.
fn take_values<V>(map: &mut PathMap<V>, keys: &Vec<String>) -> (r: Vec<V>)
    requires
        old(map).wf(),
        texts(keys@).no_duplicates(),
        forall|i: int|
            0 <= i < keys.len() ==> old(map)@.contains_key(#[trigger] texts(keys@)[i]),
    ensures
        final(map).wf(),
        final(map)@ == old(map)@.remove_keys(texts(keys@).to_set()),
        r.len() == keys.len(),
        forall|i: int|
            0 <= i < keys.len() ==> #[trigger] r@[i] == old(map)@[texts(keys@)[i]],
{
    let ghost all = texts(keys@);
    let ghost source = map@;
    let mut r: Vec<V> = Vec::new();
    let mut i: usize = 0;
    assert(source.remove_keys(all.take(0).to_set()) =~= source);
    #[verifier::loop_isolation(false)]
    while i < keys.len()
        invariant
            i <= keys.len(),
            map.wf(),
            map@ == source.remove_keys(all.take(i as int).to_set()),
            r.len() == i,
            forall|k: int| 0 <= k < i ==> #[trigger] r@[k] == source[all[k]],
        decreases keys.len() - i,
    {
        let ghost before = map@;
        let ghost key = all[i as int];
        proof {
            assert(source.contains_key(all[i as int]));
            assert(!all.take(i as int).contains(key)) by {
                if all.take(i as int).contains(key) {
                    let k = choose|k: int| 0 <= k < i && all.take(i as int)[k] == key;
                    assert(all[k] == key);
                }
            }
            assert(all.take(i + 1) =~= all.take(i as int).push(key));
            assert(all.take(i + 1).to_set() =~= all.take(i as int).to_set().insert(key)) by {
                assert forall|k: Seq<char>| all.take(i + 1).to_set().contains(k) <==> all.take(
                    i as int,
                ).to_set().insert(key).contains(k) by {
                    lemma_push_contains(all.take(i as int), key, k);
                }
            }
        }
        match map.remove(keys[i].as_str()) {
            Some(value) => r.push(value),
            None => {
                assert(before.contains_key(key));
            },
        }
        assert(map@ =~= source.remove_keys(all.take(i + 1).to_set()));
        i += 1;
    }
    assert(all.take(i as int) =~= all);
    r
}

/// Moves everything at and below `from` to `to`.
fn relocate<V>(map: &mut PathMap<V>, from: &str, to: &str)
    requires
        old(map).wf(),
    ensures
        final(map).wf(),
        final(map)@ == relocated_map(old(map)@, from@, to@),
{
    let ghost source = map@;
    let keys: Vec<String> = map.keys_under(from);
    let ghost all = texts(keys@);
    proof {
        lemma_sorted_distinct(all);
        assert forall|i: int| 0 <= i < all.len() implies source.contains_key(#[trigger] all[i])
            && is_under(all[i], from@) by {
            assert(all.contains(all[i]));
        }
    }
    let mut values: Vec<V> = take_values(map, &keys);
    let ghost base = map@;
    let ghost taken = values@;
    proof {
        assert(all.skip(all.len() as int) =~= Seq::<Seq<char>>::empty());
        assert(placed(base, source, all.skip(all.len() as int), from@, to@) =~= base);
    }
    #[verifier::loop_isolation(false)]
    while values.len() > 0
        invariant
            values.len() <= keys.len(),
            values@ == taken.take(values.len() as int),
            map.wf(),
            map@ == placed(base, source, all.skip(values.len() as int), from@, to@),
        decreases values.len(),
    {
        let ghost n = values.len();
        match values.pop() {
            Some(value) => {
                let i: usize = values.len();
                assert(value == taken[i as int]);
                assert(all[i as int] == keys@[i as int]@);
                let target: String = moved_path(keys[i].as_str(), from, to);
                proof {
                    lemma_placed_step(base, source, all, i as int, from@, to@);
                }
                map.insert(target, value);
                assert(values@ =~= taken.take(i as int));
            },
            None => {},
        }
    }
    proof {
        assert(all.skip(0) =~= all);
        let goal = relocated_map(source, from@, to@);
        assert forall|k: Seq<char>| is_under(k, to@) implies (all.contains(moved(k, to@, from@))
            <==> source.contains_key(moved(k, to@, from@))) by {
            law_moved_back(k, to@, from@);
        }
        assert forall|k: Seq<char>| base.contains_key(k) <==> source.contains_key(k) && !is_under(
            k,
            from@,
        ) by {
            assert(all.to_set().contains(k) <==> all.contains(k));
        }
        assert(map@ =~= goal);
    }
}

/// A copy of a list without `path`.
fn list_without(list: &Vec<String>, path: &str) -> (r: Vec<String>)
    ensures
        texts(r@) == without_path(texts(list@), path@),
{
    let ghost all = texts(list@);
    let ghost keep = |c: Seq<char>| c != path@;
    let mut r: Vec<String> = Vec::new();
    let mut i: usize = 0;
    proof {
        reveal(Seq::filter);
        assert(all.take(0) =~= Seq::<Seq<char>>::empty());
        assert(texts(r@) =~= all.take(0).filter(keep));
    }
    #[verifier::loop_isolation(false)]
    while i < list.len()
        invariant
            i <= list.len(),
            texts(r@) == all.take(i as int).filter(keep),
        decreases list.len() - i,
    {
        let ghost before = r@;
        proof {
            reveal(Seq::filter);
            assert(all.take(i + 1).drop_last() =~= all.take(i as int));
            assert(all.take(i + 1).last() == all[i as int]);
        }
        if !same_text(list[i].as_str(), path) {
            let copy: String = list[i].clone();
            r.push(copy);
            assert(texts(r@) =~= texts(before).push(all[i as int]));
        }
        i += 1;
    }
    assert(all.take(i as int) =~= all);
    r
}

/// Takes a path out of the lists.
fn unlist(lists: &mut PathMap<Vec<String>>, path: &str)
    requires
        old(lists).wf(),
    ensures
        final(lists).wf(),
        lists_view(final(lists)@) == without_member(lists_view(old(lists)@), path@),
{
    let ghost before = lists_view(lists@);
    lists.remove(path);
    assert(lists_view(lists@) =~= before.remove(path@));
    let parent: String = parent_path(path);
    let ghost less = lists@;
    match lists.get(parent.as_str()) {
        Some(list) => {
            let rest: Vec<String> = list_without(list, path);
            let ghost p = parent@;
            lists.insert(parent, rest);
            assert(lists_view(lists@) =~= lists_view(less).insert(
                p,
                without_path(lists_view(less)[p], path@),
            ));
        },
        None => {},
    }
}

/// Adds a path to the list of what stands in its directory.
fn enlist(lists: &mut PathMap<Vec<String>>, path: String)
    requires
        old(lists).wf(),
    ensures
        final(lists).wf(),
        lists_view(final(lists)@) == with_member(lists_view(old(lists)@), path@),
{
    let ghost before = lists@;
    let parent: String = parent_path(path.as_str());
    let ghost p = parent@;
    let ghost text = path@;
    let mut list: Vec<String> = match lists.remove(parent.as_str()) {
        Some(list) => list,
        None => Vec::new(),
    };
    let ghost held = texts(list@);
    list.push(path);
    proof {
        assert(texts(list@) =~= held.push(text));
        if !before.contains_key(p) {
            assert(held.push(text) =~= seq![text]);
        }
    }
    let ghost grown = texts(list@);
    lists.insert(parent, list);
    assert(lists_view(lists@) =~= lists_view(before).insert(p, grown));
}

impl MossDokan {
    /// The mounted archive as a mathematical value.
    pub closed spec fn view(self) -> WinView {
        WinView {
            nodes: self.nodes@,
            children: lists_view(self.children@),
            cache: self.write_cache@.map_values(|data: Vec<u8>| data@),
        }
    }

    /// The maps are in order.
    pub closed spec fn wf(self) -> bool {
        self.nodes.wf() && self.children.wf() && self.write_cache.wf()
    }

    /// Answers a request to open `path`. What is returned for the archive is to be recorded; that it
    /// cannot be is no failure.
    pub fn create_file(
        &mut self,
        path: String,
        file_attributes: u32,
        create_disposition: u32,
        create_options: u32,
        now: Timestamp,
    ) -> (r: Result<CreateFileInfo, NtStatus>)
        requires
            old(self).wf(),
        ensures
            final(self).wf(),
            ({
                let (view, answer) = win_opened(
                    old(self)@,
                    path@,
                    file_attributes,
                    create_disposition,
                    create_options,
                    now,
                );
                &&& final(self)@ == view
                &&& match answer {
                    Ok(info) => r matches Ok(i) && i@ == info,
                    Err(status) => r matches Err(s) && s == status,
                }
            }),
    {
        let is_dir_request: bool = create_options & FILE_DIRECTORY_FILE != 0;
        let is_non_dir_request: bool = create_options & FILE_NON_DIRECTORY_FILE != 0;
        let delete_on_close: bool = create_options & FILE_DELETE_ON_CLOSE != 0;
        if path.as_str().is_empty() {
            return Ok(
                CreateFileInfo {
                    context: HandleContext { path, delete_on_close: false },
                    is_dir: true,
                    new_file_created: false,
                    record: None,
                },
            );
        }
        let parent: String = parent_path(path.as_str());
        if !parent.as_str().is_empty() && !self.nodes.contains(parent.as_str()) {
            return Err(NtStatus::ObjectPathNotFound);
        }
        let present: Option<WinNode> = match self.nodes.get(path.as_str()) {
            Some(node) => Some(*node),
            None => None,
        };
        if let Some(node) = present {
            let is_dir: bool = matches!(node.kind, EntryKind::Directory);
            if is_dir_request && !is_dir {
                return Err(NtStatus::NotADirectory);
            }
            if is_non_dir_request && is_dir {
                return Err(NtStatus::FileIsADirectory);
            }
            if create_disposition == FILE_SUPERSEDE || create_disposition == FILE_OVERWRITE
                || create_disposition == FILE_OVERWRITE_IF {
                if is_dir {
                    return Err(NtStatus::AccessDenied);
                }
                return Ok(self.empty_file(path, node, file_attributes, delete_on_close, now));
            }
            if create_disposition == FILE_CREATE {
                return Err(NtStatus::ObjectNameCollision);
            }
            if create_disposition == FILE_OPEN || create_disposition == FILE_OPEN_IF {
                return Ok(
                    CreateFileInfo {
                        context: HandleContext { path, delete_on_close },
                        is_dir,
                        new_file_created: false,
                        record: None,
                    },
                );
            }
            return Err(NtStatus::InvalidParameter);
        }
        if create_disposition == FILE_CREATE || create_disposition == FILE_OPEN_IF
            || create_disposition == FILE_OVERWRITE_IF || create_disposition == FILE_SUPERSEDE {
            let kind: EntryKind = if is_dir_request {
                EntryKind::Directory
            } else {
                EntryKind::File
            };
            return Ok(self.make_node(path, kind, file_attributes, delete_on_close, now));
        }
        if create_disposition == FILE_OPEN || create_disposition == FILE_OVERWRITE {
            return Err(NtStatus::ObjectNameNotFound);
        }
        Err(NtStatus::InvalidParameter)
    }

    /// Empties a file that is there.
    fn empty_file(
        &mut self,
        path: String,
        node: WinNode,
        attributes: u32,
        delete_on_close: bool,
        now: Timestamp,
    ) -> (r: CreateFileInfo)
        requires
            old(self).wf(),
        ensures
            final(self).wf(),
            final(self)@ == (WinView {
                nodes: old(self)@.nodes.insert(
                    path@,
                    (WinNode { size: 0, mtime: now, ctime: now, attrs: attributes, ..node }),
                ),
                cache: old(self)@.cache.insert(path@, Seq::<u8>::empty()),
                ..old(self)@
            }),
            r@ == (CreateView {
                path: path@,
                delete_on_close,
                is_dir: false,
                new_file_created: false,
                record: None,
            }),
    {
        let mut node: WinNode = node;
        node.size = 0;
        node.mtime = now;
        node.ctime = now;
        node.attrs = attributes;
        let ghost before = self@;
        let ghost text = path@;
        let key: String = path.clone();
        self.nodes.insert(key, node);
        let key: String = path.clone();
        let empty: Vec<u8> = Vec::new();
        let ghost none = empty@;
        self.write_cache.insert(key, empty);
        assert(self@.cache =~= before.cache.insert(text, none));
        assert(none =~= Seq::<u8>::empty());
        CreateFileInfo {
            context: HandleContext { path, delete_on_close },
            is_dir: false,
            new_file_created: false,
            record: None,
        }
    }

    /// Makes a file or directory that is not there.
    fn make_node(
        &mut self,
        path: String,
        kind: EntryKind,
        attributes: u32,
        delete_on_close: bool,
        now: Timestamp,
    ) -> (r: CreateFileInfo)
        requires
            old(self).wf(),
        ensures
            final(self).wf(),
            final(self)@ == (WinView {
                nodes: old(self)@.nodes.insert(path@, win_new_node(attributes, kind, now)),
                children: with_member(
                    if old(self)@.children.contains_key(path@) {
                        old(self)@.children
                    } else {
                        old(self)@.children.insert(path@, Seq::<Seq<char>>::empty())
                    },
                    path@,
                ),
                ..old(self)@
            }),
            r@ == (CreateView {
                path: path@,
                delete_on_close,
                is_dir: kind is Directory,
                new_file_created: true,
                record: Some(win_entry(path@, win_new_node(attributes, kind, now))),
            }),
    {
        let mode: u16 = win_attrs_to_mode(attributes, kind);
        let node = WinNode {
            kind,
            size: 0,
            mode,
            attrs: mode_to_win_attrs(mode, kind),
            atime: now,
            mtime: now,
            ctime: now,
        };
        let ghost before = self@;
        let ghost text = path@;
        let key: String = path.clone();
        self.nodes.insert(key, node);
        if !self.children.contains(path.as_str()) {
            let key: String = path.clone();
            let none: Vec<String> = Vec::new();
            assert(texts(none@) =~= Seq::<Seq<char>>::empty());
            self.children.insert(key, none);
            assert(lists_view(self.children@) =~= before.children.insert(
                text,
                Seq::<Seq<char>>::empty(),
            ));
        }
        let key: String = path.clone();
        enlist(&mut self.children, key);
        let entry: IndexEntry = Self::entry(path.as_str(), &node);
        CreateFileInfo {
            context: HandleContext { path, delete_on_close },
            is_dir: matches!(kind, EntryKind::Directory),
            new_file_created: true,
            record: Some(entry),
        }
    }

    /// What the archive is to record of a node.
    fn entry(path: &str, node: &WinNode) -> (r: IndexEntry)
        ensures
            r@ == win_entry(path@, *node),
    {
        IndexEntry {
            virtual_path: from_chars(to_chars(path).as_slice()),
            kind: node.kind,
            start_byte: 0,
            block_length: node.size,
            mode: node.mode,
            uid: 0,
            gid: 0,
            atime: node.atime,
            mtime: node.mtime,
            ctime: node.ctime,
        }
    }

    /// Whether something stands in a directory.
    fn is_occupied(&self, path: &str) -> (r: bool)
        requires
            self.wf(),
        ensures
            r == has_members(self@, path@),
    {
        match self.children.get(path) {
            Some(list) => {
                assert(self@.children[path@] == texts(list@));
                list.len() > 0
            },
            None => false,
        }
    }

    /// Closes a handle. Where it deletes, the result tells whether the archive is to remove the path
    /// and to secure its file.
    pub fn cleanup(&mut self, context: &HandleContext) -> (r: bool)
        requires
            old(self).wf(),
        ensures
            final(self).wf(),
            if context.delete_on_close {
                &&& final(self)@ == win_cleaned_up(old(self)@, context.path@).0
                &&& r == win_cleaned_up(old(self)@, context.path@).1
            } else {
                final(self)@ == old(self)@ && !r
            },
    {
        if !context.delete_on_close {
            return false;
        }
        let ghost before = self@;
        let path: &str = context.path.as_str();
        self.write_cache.remove(path);
        assert(self@.cache =~= before.cache.remove(path@));
        if let Some(node) = self.nodes.get(path) {
            if matches!(node.kind, EntryKind::Directory) && self.is_occupied(path) {
                return false;
            }
        }
        self.nodes.remove(path);
        unlist(&mut self.children, path);
        true
    }
}

/// A path to be loaded: nothing where the contents are at hand.
pub open spec fn is_win_load(
    r: Result<Option<String>, NtStatus>,
    view: WinView,
    path: Seq<char>,
) -> bool {
    if view.cache.contains_key(path) {
        r == Ok::<Option<String>, NtStatus>(None)
    } else {
        r matches Ok(Some(s)) && s@ == path
    }
}

/// The part of `data` that a read of up to `size` bytes at `offset` yields.
pub fn part_of(data: &[u8], offset: i64, size: usize) -> (r: Vec<u8>)
    requires
        offset >= 0,
    ensures
        r@ == read_part(data@, offset as int, size as int),
{
    let n: usize = data.len();
    let start: usize = if offset as u64 > n as u64 {
        n
    } else {
        offset as usize
    };
    let end: usize = if n - start > size {
        start + size
    } else {
        n
    };
    let mut r: Vec<u8> = Vec::new();
    r.extend_from_slice(vstd::slice::slice_subrange(data, start, end));
    assert(r@ =~= read_part(data@, offset as int, size as int));
    r
}

impl MossDokan {
    /// What a read of up to `size` bytes yields, or where it has to be read from.
    pub fn read_file(&self, path: &str, offset: i64, size: usize) -> (r: Result<Source, NtStatus>)
        requires
            self.wf(),
        ensures
            if offset < 0 {
                r matches Err(s) && s == NtStatus::InvalidParameter
            } else if self@.cache.contains_key(path@) {
                r matches Ok(source) && source@ == SourceView::Cached(
                    read_part(self@.cache[path@], offset as int, size as int),
                )
            } else if !self@.nodes.contains_key(path@) {
                r matches Err(s) && s == NtStatus::ObjectNameNotFound
            } else if self@.nodes[path@].kind is Directory {
                r matches Err(s) && s == NtStatus::FileIsADirectory
            } else {
                r matches Ok(source) && source@ == SourceView::Stored(path@)
            },
    {
        if offset < 0 {
            return Err(NtStatus::InvalidParameter);
        }
        if let Some(data) = self.write_cache.get(path) {
            return Ok(Source::Cached(part_of(data.as_slice(), offset, size)));
        }
        match self.nodes.get(path) {
            None => Err(NtStatus::ObjectNameNotFound),
            Some(node) => {
                if matches!(node.kind, EntryKind::Directory) {
                    Err(NtStatus::FileIsADirectory)
                } else {
                    Ok(Source::Stored(from_chars(to_chars(path).as_slice())))
                }
            },
        }
    }

    /// What has to be loaded from the archive, and given to `fill_cache`, before the contents of a
    /// file can be changed.
    fn ensure_write_cache(&self, path: &str) -> (r: Result<Option<String>, NtStatus>)
        requires
            self.wf(),
        ensures
            is_win_load(r, self@, path@),
    {
        if self.write_cache.contains(path) {
            Ok(None)
        } else {
            Ok(Some(from_chars(to_chars(path).as_slice())))
        }
    }

    /// Takes contents that were loaded from the archive.
    pub fn fill_cache(&mut self, path: String, data: Vec<u8>)
        requires
            old(self).wf(),
        ensures
            final(self).wf(),
            final(self)@ == (WinView {
                cache: old(self)@.cache.insert(path@, data@),
                ..old(self)@
            }),
    {
        let ghost before = self@.cache;
        let ghost text = path@;
        let ghost contents = data@;
        self.write_cache.insert(path, data);
        assert(self@.cache =~= before.insert(text, contents));
    }

    /// Replaces the contents of a file and notes the change.
    fn put_contents(&mut self, path: &str, data: Vec<u8>, now: Timestamp)
        requires
            old(self).wf(),
        ensures
            final(self).wf(),
            final(self)@ == win_with_contents(old(self)@, path@, data@, now),
    {
        let size: u64 = data.len() as u64;
        let ghost contents = data@;
        self.fill_cache(from_chars(to_chars(path).as_slice()), data);
        let copy: Option<WinNode> = match self.nodes.get(path) {
            Some(node) => Some(*node),
            None => None,
        };
        if let Some(node) = copy {
            let mut node: WinNode = node;
            node.size = size;
            node.mtime = now;
            node.ctime = now;
            self.nodes.insert(from_chars(to_chars(path).as_slice()), node);
        }
        assert(self@ =~= win_with_contents(old(self)@, path@, contents, now));
    }

    fn check_write(&self, path: &str, offset: i64) -> (r: Result<(), NtStatus>)
        requires
            self.wf(),
        ensures
            r == win_writable(self@.nodes, path@, offset),
    {
        if offset < 0 {
            return Err(NtStatus::InvalidParameter);
        }
        match self.nodes.get(path) {
            None => Err(NtStatus::ObjectNameNotFound),
            Some(node) => {
                if matches!(node.kind, EntryKind::File) {
                    Ok(())
                } else {
                    Err(NtStatus::AccessDenied)
                }
            },
        }
    }

    /// What has to be loaded before a file can be written to.
    pub fn prepare_write(&self, path: &str, offset: i64) -> (r: Result<Option<String>, NtStatus>)
        requires
            self.wf(),
        ensures
            match win_writable(self@.nodes, path@, offset) {
                Err(status) => r == Err::<Option<String>, NtStatus>(status),
                Ok(()) => is_win_load(r, self@, path@),
            },
    {
        match self.check_write(path, offset) {
            Err(status) => Err(status),
            Ok(()) => self.ensure_write_cache(path),
        }
    }

    /// Writes to a file whose contents are at hand, from `offset` on or at its end. Tells how many
    /// bytes were written: all.
    pub fn write_file(
        &mut self,
        path: &str,
        offset: i64,
        data: &[u8],
        to_eof: bool,
        now: Timestamp,
    ) -> (r: Result<usize, NtStatus>)
        requires
            old(self).wf(),
        ensures
            final(self).wf(),
            match win_write_outcome(old(self)@, path@, offset, data@, to_eof) {
                Ok(contents) => {
                    &&& r == Ok::<usize, NtStatus>(data.len())
                    &&& final(self)@ == win_with_contents(old(self)@, path@, contents, now)
                },
                Err(status) => {
                    &&& r == Err::<usize, NtStatus>(status)
                    &&& final(self)@ == old(self)@
                },
            },
    {
        match self.check_write(path, offset) {
            Err(status) => return Err(status),
            Ok(()) => {},
        }
        let length: usize = match self.write_cache.get(path) {
            None => return Err(NtStatus::InternalError),
            Some(contents) => {
                assert(self@.cache[path@] == contents@);
                contents.len()
            },
        };
        let start: usize = if to_eof {
            length
        } else if offset as u64 > usize::MAX as u64 {
            return Err(NtStatus::InvalidParameter);
        } else {
            offset as usize
        };
        match start.checked_add(data.len()) {
            None => return Err(NtStatus::InvalidParameter),
            Some(_) => {},
        }
        let ghost before = self@;
        match self.write_cache.remove(path) {
            None => return Err(NtStatus::InternalError),
            Some(contents) => {
                let ghost held = contents@;
                let contents: Vec<u8> = overwrite(contents, start, data);
                assert(held == before.cache[path@]);
                self.put_contents(path, contents, now);
                assert(self@.cache =~= before.cache.insert(
                    path@,
                    overwritten(held, start as int, data@),
                ));
            },
        }
        Ok(data.len())
    }

    fn check_resize(&self, path: &str, size: i64) -> (r: Result<(), NtStatus>)
        requires
            self.wf(),
        ensures
            r == win_resizable(self@.nodes, path@, size),
    {
        if size < 0 || size as u64 > usize::MAX as u64 {
            return Err(NtStatus::InvalidParameter);
        }
        match self.nodes.get(path) {
            None => Err(NtStatus::ObjectNameNotFound),
            Some(node) => {
                if matches!(node.kind, EntryKind::File) {
                    Ok(())
                } else {
                    Err(NtStatus::InvalidDeviceRequest)
                }
            },
        }
    }

    /// What has to be loaded before the size of a file can be set.
    pub fn prepare_resize(&self, path: &str, size: i64) -> (r: Result<Option<String>, NtStatus>)
        requires
            self.wf(),
        ensures
            match win_resizable(self@.nodes, path@, size) {
                Err(status) => r == Err::<Option<String>, NtStatus>(status),
                Ok(()) => is_win_load(r, self@, path@),
            },
    {
        match self.check_resize(path, size) {
            Err(status) => Err(status),
            Ok(()) => self.ensure_write_cache(path),
        }
    }

    /// Cuts a file to `offset` bytes, or extends it with zeros. Its contents have to be at hand.
    pub fn set_end_of_file(&mut self, path: &str, offset: i64, now: Timestamp) -> (r: Result<
        (),
        NtStatus,
    >)
        requires
            old(self).wf(),
        ensures
            final(self).wf(),
            match win_resizable(old(self)@.nodes, path@, offset) {
                Err(status) => r == Err::<(), NtStatus>(status) && final(self)@ == old(self)@,
                Ok(()) => if old(self)@.cache.contains_key(path@) {
                    &&& r is Ok
                    &&& final(self)@ == win_with_contents(
                        old(self)@,
                        path@,
                        resized(old(self)@.cache[path@], offset as nat),
                        now,
                    )
                } else {
                    r == Err::<(), NtStatus>(NtStatus::InternalError) && final(self)@ == old(self)@
                },
            },
    {
        match self.check_resize(path, offset) {
            Err(status) => return Err(status),
            Ok(()) => {},
        }
        let ghost before = self@;
        match self.write_cache.remove(path) {
            None => {
                assert(self@.cache =~= before.cache);
                Err(NtStatus::InternalError)
            },
            Some(data) => {
                let mut data: Vec<u8> = data;
                assert(data@ == before.cache[path@]);
                data.resize(offset as usize, 0);
                assert(data@ =~= resized(before.cache[path@], offset as nat));
                self.put_contents(path, data, now);
                assert(self@.cache =~= before.cache.insert(
                    path@,
                    resized(before.cache[path@], offset as nat),
                ));
                Ok(())
            },
        }
    }

    /// Sets how much room a file has. Less than its contents take cuts them; more changes nothing
    /// about them. They have to be at hand.
    pub fn set_allocation_size(&mut self, path: &str, alloc_size: i64, now: Timestamp) -> (r: Result<
        (),
        NtStatus,
    >)
        requires
            old(self).wf(),
        ensures
            final(self).wf(),
            match win_resizable(old(self)@.nodes, path@, alloc_size) {
                Err(status) => r == Err::<(), NtStatus>(status) && final(self)@ == old(self)@,
                Ok(()) => if old(self)@.cache.contains_key(path@) {
                    let contents = old(self)@.cache[path@];
                    &&& r is Ok
                    &&& final(self)@ == win_with_contents(
                        old(self)@,
                        path@,
                        if alloc_size < contents.len() {
                            contents.take(alloc_size as int)
                        } else {
                            contents
                        },
                        now,
                    )
                } else {
                    r == Err::<(), NtStatus>(NtStatus::InternalError) && final(self)@ == old(self)@
                },
            },
    {
        match self.check_resize(path, alloc_size) {
            Err(status) => return Err(status),
            Ok(()) => {},
        }
        let ghost before = self@;
        match self.write_cache.remove(path) {
            None => {
                assert(self@.cache =~= before.cache);
                Err(NtStatus::InternalError)
            },
            Some(data) => {
                let mut data: Vec<u8> = data;
                let ghost held = data@;
                assert(held == before.cache[path@]);
                let requested: usize = alloc_size as usize;
                if requested < data.len() {
                    data.truncate(requested);
                    assert(data@ =~= held.take(requested as int));
                }
                let ghost kept = data@;
                self.put_contents(path, data, now);
                assert(self@.cache =~= before.cache.insert(path@, kept));
                Ok(())
            },
        }
    }

    /// Takes contents out of the cache that are to be recorded; then `commit_done` completes that.
    pub fn commit_write(&mut self, path: &str, now: Timestamp) -> (r: Result<
        Option<WinCommit>,
        NtStatus,
    >)
        requires
            old(self).wf(),
        ensures
            final(self).wf(),
            if !old(self)@.cache.contains_key(path@) {
                r matches Ok(None) && final(self)@ == old(self)@
            } else if !old(self)@.nodes.contains_key(path@) {
                &&& r matches Err(s) && s == NtStatus::ObjectNameNotFound
                &&& final(self)@ == old(self)@
            } else {
                let data = old(self)@.cache[path@];
                let node = WinNode {
                    size: data.len() as u64,
                    mtime: now,
                    ctime: now,
                    ..old(self)@.nodes[path@]
                };
                &&& r matches Ok(Some(commit))
                &&& commit.entry@ == win_entry(path@, node)
                &&& commit.data@ == data
                &&& final(self)@ == (WinView {
                    nodes: old(self)@.nodes.insert(path@, node),
                    cache: old(self)@.cache.remove(path@),
                    ..old(self)@
                })
            },
    {
        let ghost before = self@;
        let copy: Option<WinNode> = match self.nodes.get(path) {
            Some(node) => Some(*node),
            None => None,
        };
        let mut node: WinNode = match copy {
            Some(node) => node,
            None => {
                if self.write_cache.contains(path) {
                    return Err(NtStatus::ObjectNameNotFound);
                }
                return Ok(None);
            },
        };
        let data: Vec<u8> = match self.write_cache.remove(path) {
            Some(data) => data,
            None => {
                assert(self@.cache =~= before.cache);
                return Ok(None);
            },
        };
        assert(self@.cache =~= before.cache.remove(path@));
        node.size = data.len() as u64;
        node.mtime = now;
        node.ctime = now;
        self.nodes.insert(from_chars(to_chars(path).as_slice()), node);
        Ok(Some(WinCommit { entry: Self::entry(path, &node), data }))
    }

    /// Completes a commit, or puts the contents back when they could not be recorded.
    pub fn commit_done(&mut self, commit: WinCommit, succeeded: bool) -> (r: Result<(), NtStatus>)
        requires
            old(self).wf(),
        ensures
            final(self).wf(),
            if succeeded {
                r is Ok && final(self)@ == old(self)@
            } else {
                &&& r == Err::<(), NtStatus>(NtStatus::InternalError)
                &&& final(self)@ == (WinView {
                    cache: old(self)@.cache.insert(commit.entry@.path, commit.data@),
                    ..old(self)@
                })
            },
    {
        if succeeded {
            return Ok(());
        }
        self.fill_cache(commit.entry.virtual_path, commit.data);
        Err(NtStatus::InternalError)
    }

    /// The paths with contents that the archive does not have yet.
    pub fn pending(&self) -> (r: Vec<String>)
        requires
            self.wf(),
        ensures
            is_sorted(texts(r@)),
            forall|path: Seq<char>| #[trigger]
                texts(r@).contains(path) <==> self@.cache.contains_key(path),
    {
        let n: usize = self.write_cache.len();
        let ghost keys = self.write_cache.keys();
        let mut r: Vec<String> = Vec::new();
        let mut i: usize = 0;
        assert(texts(r@) =~= keys.take(0));
        #[verifier::loop_isolation(false)]
        while i < n
            invariant
                i <= n,
                texts(r@) == keys.take(i as int),
            decreases n - i,
        {
            let ghost before = r@;
            let copy: String = self.write_cache.key(i).clone();
            r.push(copy);
            assert(texts(r@) =~= texts(before).push(keys[i as int]));
            assert(keys.take(i + 1) =~= keys.take(i as int).push(keys[i as int]));
            i += 1;
        }
        proof {
            assert(keys.take(n as int) =~= keys);
            lemma_zipped(keys, self.write_cache.values());
        }
        r
    }

    /// What is shown for a node.
    fn info(&self, path: &str, node: &WinNode) -> (r: FileInfo)
        requires
            self.wf(),
            self@.nodes.contains_key(path@),
            self@.nodes[path@] == *node,
        ensures
            r == info_of(self@, path@),
    {
        let attributes: u32 = if matches!(node.kind, EntryKind::Directory) {
            node.attrs | FILE_ATTRIBUTE_DIRECTORY
        } else if node.attrs == 0 {
            FILE_ATTRIBUTE_NORMAL
        } else {
            node.attrs
        };
        let file_size: u64 = match self.write_cache.get(path) {
            Some(data) => {
                assert(self@.cache[path@] == data@);
                data.len() as u64
            },
            None => node.size,
        };
        FileInfo {
            attributes,
            creation_time: node.ctime,
            last_access_time: node.atime,
            last_write_time: node.mtime,
            file_size,
        }
    }

    /// What is shown for a file or directory.
    pub fn get_file_information(&self, path: &str) -> (r: Result<FileInfo, NtStatus>)
        requires
            self.wf(),
        ensures
            r == if self@.nodes.contains_key(path@) {
                Ok::<FileInfo, NtStatus>(info_of(self@, path@))
            } else {
                Err::<FileInfo, NtStatus>(NtStatus::ObjectNameNotFound)
            },
    {
        match self.nodes.get(path) {
            Some(node) => Ok(self.info(path, node)),
            None => Err(NtStatus::ObjectNameNotFound),
        }
    }

    /// The listing of a directory.
    pub fn find_files(&self, path: &str) -> (r: Result<Vec<FindData>, NtStatus>)
        requires
            self.wf(),
        ensures
            if !self@.nodes.contains_key(path@) {
                r matches Err(s) && s == NtStatus::ObjectNameNotFound
            } else if self@.nodes[path@].kind !is Directory {
                r matches Err(s) && s == NtStatus::InvalidDeviceRequest
            } else {
                &&& r matches Ok(lines)
                &&& lines_view(lines@) == if self@.children.contains_key(path@) {
                    find_lines(self@, self@.children[path@])
                } else {
                    Seq::<(FileInfo, Seq<char>)>::empty()
                }
            },
    {
        match self.nodes.get(path) {
            None => return Err(NtStatus::ObjectNameNotFound),
            Some(node) => {
                if !matches!(node.kind, EntryKind::Directory) {
                    return Err(NtStatus::InvalidDeviceRequest);
                }
            },
        }
        let mut lines: Vec<FindData> = Vec::new();
        assert(lines_view(lines@) =~= Seq::<(FileInfo, Seq<char>)>::empty());
        let list: &Vec<String> = match self.children.get(path) {
            Some(list) => list,
            None => return Ok(lines),
        };
        let ghost all = texts(list@);
        assert(all == self@.children[path@]);
        assert(all.take(0) =~= Seq::<Seq<char>>::empty());
        let mut i: usize = 0;
        #[verifier::loop_isolation(false)]
        while i < list.len()
            invariant
                i <= list.len(),
                lines_view(lines@) == find_lines(self@, all.take(i as int)),
            decreases list.len() - i,
        {
            let ghost before = lines@;
            let child: &str = list[i].as_str();
            proof {
                assert(all.take(i + 1).drop_last() =~= all.take(i as int));
                assert(all.take(i + 1).last() == child@);
            }
            if let Some(node) = self.nodes.get(child) {
                let line = FindData {
                    info: self.info(child, node),
                    file_name: file_name_from_path(child),
                };
                lines.push(line);
                assert(lines_view(lines@) =~= lines_view(before).push(
                    (line.info, line.file_name@),
                ));
            }
            i += 1;
        }
        assert(all.take(i as int) =~= all);
        Ok(lines)
    }

    /// Sets the attributes of a node. What is returned is to be recorded.
    pub fn set_file_attributes(&mut self, path: &str, file_attributes: u32, now: Timestamp) -> (r:
        Result<IndexEntry, NtStatus>)
        requires
            old(self).wf(),
        ensures
            final(self).wf(),
            if !old(self)@.nodes.contains_key(path@) {
                &&& r matches Err(s) && s == NtStatus::ObjectNameNotFound
                &&& final(self)@ == old(self)@
            } else {
                let before = old(self)@.nodes[path@];
                let node = WinNode {
                    attrs: file_attributes,
                    mode: mode_for(file_attributes, before.kind),
                    atime: now,
                    ctime: now,
                    ..before
                };
                &&& final(self)@ == (WinView {
                    nodes: old(self)@.nodes.insert(path@, node),
                    ..old(self)@
                })
                &&& r matches Ok(entry) && entry@ == win_entry(path@, node)
            },
    {
        let copy: Option<WinNode> = match self.nodes.get(path) {
            Some(node) => Some(*node),
            None => None,
        };
        let mut node: WinNode = match copy {
            Some(node) => node,
            None => return Err(NtStatus::ObjectNameNotFound),
        };
        node.attrs = file_attributes;
        node.mode = win_attrs_to_mode(file_attributes, node.kind);
        node.atime = now;
        node.ctime = now;
        self.nodes.insert(from_chars(to_chars(path).as_slice()), node);
        Ok(Self::entry(path, &node))
    }

    /// Sets the times of a node, as far as they are given. What is returned is to be recorded.
    pub fn set_file_time(
        &mut self,
        path: &str,
        creation_time: Option<Timestamp>,
        last_access_time: Option<Timestamp>,
        last_write_time: Option<Timestamp>,
    ) -> (r: Result<IndexEntry, NtStatus>)
        requires
            old(self).wf(),
        ensures
            final(self).wf(),
            if !old(self)@.nodes.contains_key(path@) {
                &&& r matches Err(s) && s == NtStatus::ObjectNameNotFound
                &&& final(self)@ == old(self)@
            } else {
                let before = old(self)@.nodes[path@];
                let node = WinNode {
                    ctime: if let Some(time) = creation_time {
                        time
                    } else {
                        before.ctime
                    },
                    atime: if let Some(time) = last_access_time {
                        time
                    } else {
                        before.atime
                    },
                    mtime: if let Some(time) = last_write_time {
                        time
                    } else {
                        before.mtime
                    },
                    ..before
                };
                &&& final(self)@ == (WinView {
                    nodes: old(self)@.nodes.insert(path@, node),
                    ..old(self)@
                })
                &&& r matches Ok(entry) && entry@ == win_entry(path@, node)
            },
    {
        let copy: Option<WinNode> = match self.nodes.get(path) {
            Some(node) => Some(*node),
            None => None,
        };
        let mut node: WinNode = match copy {
            Some(node) => node,
            None => return Err(NtStatus::ObjectNameNotFound),
        };
        if let Some(time) = creation_time {
            node.ctime = time;
        }
        if let Some(time) = last_access_time {
            node.atime = time;
        }
        if let Some(time) = last_write_time {
            node.mtime = time;
        }
        self.nodes.insert(from_chars(to_chars(path).as_slice()), node);
        Ok(Self::entry(path, &node))
    }

    /// Whether a file may be deleted.
    pub fn delete_file(&self, path: &str) -> (r: Result<(), NtStatus>)
        requires
            self.wf(),
        ensures
            r == if !self@.nodes.contains_key(path@) {
                Err::<(), NtStatus>(NtStatus::ObjectNameNotFound)
            } else if self@.nodes[path@].kind is Directory {
                Err::<(), NtStatus>(NtStatus::FileIsADirectory)
            } else if self@.nodes[path@].attrs & FILE_ATTRIBUTE_READONLY != 0 {
                Err::<(), NtStatus>(NtStatus::AccessDenied)
            } else {
                Ok::<(), NtStatus>(())
            },
    {
        match self.nodes.get(path) {
            None => Err(NtStatus::ObjectNameNotFound),
            Some(node) => {
                if matches!(node.kind, EntryKind::Directory) {
                    Err(NtStatus::FileIsADirectory)
                } else if node.attrs & FILE_ATTRIBUTE_READONLY != 0 {
                    Err(NtStatus::AccessDenied)
                } else {
                    Ok(())
                }
            },
        }
    }

    /// Whether a directory may be deleted.
    pub fn delete_directory(&self, path: &str) -> (r: Result<(), NtStatus>)
        requires
            self.wf(),
        ensures
            r == if !self@.nodes.contains_key(path@) {
                Err::<(), NtStatus>(NtStatus::ObjectNameNotFound)
            } else if self@.nodes[path@].kind !is Directory {
                Err::<(), NtStatus>(NtStatus::NotADirectory)
            } else if path@.len() == 0 {
                Err::<(), NtStatus>(NtStatus::AccessDenied)
            } else if has_members(self@, path@) {
                Err::<(), NtStatus>(NtStatus::DirectoryNotEmpty)
            } else {
                Ok::<(), NtStatus>(())
            },
    {
        match self.nodes.get(path) {
            None => return Err(NtStatus::ObjectNameNotFound),
            Some(node) => {
                if !matches!(node.kind, EntryKind::Directory) {
                    return Err(NtStatus::NotADirectory);
                }
            },
        }
        if path.is_empty() {
            return Err(NtStatus::AccessDenied);
        }
        if self.is_occupied(path) {
            return Err(NtStatus::DirectoryNotEmpty);
        }
        Ok(())
    }

    /// How much is used, where the number can be represented.
    pub fn used_bytes(&self) -> (r: Option<u64>)
        requires
            self.wf(),
        ensures
            r == if used_space(self@.nodes) <= u64::MAX {
                Some(used_space(self@.nodes) as u64)
            } else {
                None
            },
    {
        let n: usize = self.nodes.len();
        let ghost all = self.nodes.values();
        let mut used: u64 = 0;
        let mut i: usize = 0;
        proof {
            lemma_node_list(self.nodes);
            assert(all.take(0) =~= Seq::<WinNode>::empty());
        }
        #[verifier::loop_isolation(false)]
        while i < n
            invariant
                i <= n,
                n == all.len(),
                used == sum_of_sizes(all.take(i as int)),
            decreases n - i,
        {
            proof {
                lemma_sum_grows(all, i + 1);
                assert(all.take(i + 1).drop_last() =~= all.take(i as int));
            }
            match used.checked_add(self.nodes.value(i).size) {
                Some(sum) => used = sum,
                None => return None,
            }
            i += 1;
        }
        assert(all.take(i as int) =~= all);
        Some(used)
    }

    /// How much room there is: a fixed number of bytes beyond what is used.
    pub fn get_disk_free_space(&self) -> (r: DiskSpace)
        requires
            self.wf(),
            used_space(self@.nodes) <= u64::MAX,
        ensures
            ({
                let used = used_space(self@.nodes);
                let total = if used + 0x4000_0000 > u64::MAX {
                    u64::MAX as nat
                } else {
                    used + 0x4000_0000
                };
                r.total == total && r.free == total - used
            }),
    {
        let used: u64 = match self.used_bytes() {
            Some(used) => used,
            None => 0,
        };
        let total: u64 = used.saturating_add(0x4000_0000);
        DiskSpace { total, free: total - used }
    }

    /// Whether a node can be moved. What it replaces goes at once; then the archive is to move the
    /// path, and `moved` moves it here.
    pub fn move_file(&mut self, old_path: &str, new_path: &str, replace_if_existing: bool) -> (r:
        Result<(), NtStatus>)
        requires
            old(self).wf(),
        ensures
            final(self).wf(),
            match move_checked(old(self)@, old_path@, new_path@, replace_if_existing) {
                Err(status) => r == Err::<(), NtStatus>(status) && final(self)@ == old(self)@,
                Ok(replaces) => {
                    &&& r is Ok
                    &&& final(self)@ == if replaces {
                        win_without_tree(old(self)@, new_path@)
                    } else {
                        old(self)@
                    }
                },
            },
    {
        if old_path.is_empty() {
            return Err(NtStatus::AccessDenied);
        }
        let old_kind: EntryKind = match self.nodes.get(old_path) {
            Some(node) => node.kind,
            None => return Err(NtStatus::ObjectNameNotFound),
        };
        let new_parent: String = parent_path(new_path);
        if !new_parent.as_str().is_empty() && !self.nodes.contains(new_parent.as_str()) {
            return Err(NtStatus::ObjectPathNotFound);
        }
        if lies_under(to_chars(new_path).as_slice(), to_chars(old_path).as_slice()) {
            return Err(NtStatus::InvalidParameter);
        }
        let existing: Option<EntryKind> = match self.nodes.get(new_path) {
            Some(node) => Some(node.kind),
            None => None,
        };
        if let Some(kind) = existing {
            if !replace_if_existing {
                return Err(NtStatus::ObjectNameCollision);
            }
            let from_dir: bool = matches!(old_kind, EntryKind::Directory);
            let to_dir: bool = matches!(kind, EntryKind::Directory);
            if from_dir && !to_dir {
                return Err(NtStatus::NotADirectory);
            }
            if !from_dir && to_dir {
                return Err(NtStatus::FileIsADirectory);
            }
            if to_dir && self.is_occupied(new_path) {
                return Err(NtStatus::DirectoryNotEmpty);
            }
            self.remove_tree(new_path);
        }
        Ok(())
    }

    /// Takes paths out of the lists.
    fn unlist_all(&mut self, paths: &Vec<String>)
        requires
            old(self).wf(),
        ensures
            final(self).wf(),
            final(self)@ == (WinView {
                children: without_members(old(self)@.children, texts(paths@)),
                ..old(self)@
            }),
            final(self).nodes == old(self).nodes,
    {
        let ghost all = texts(paths@);
        let ghost before = self@.children;
        let mut i: usize = 0;
        assert(all.take(0) =~= Seq::<Seq<char>>::empty());
        #[verifier::loop_isolation(false)]
        while i < paths.len()
            invariant
                i <= paths.len(),
                self.children.wf(),
                self.nodes == old(self).nodes,
                self.write_cache == old(self).write_cache,
                lists_view(self.children@) == without_members(before, all.take(i as int)),
            decreases paths.len() - i,
        {
            unlist(&mut self.children, paths[i].as_str());
            assert(all.take(i + 1).drop_last() =~= all.take(i as int));
            i += 1;
        }
        assert(all.take(i as int) =~= all);
    }

    /// Removes a node and all that lies below it.
    fn remove_tree(&mut self, path: &str)
        requires
            old(self).wf(),
        ensures
            final(self).wf(),
            final(self)@ == win_without_tree(old(self)@, path@),
    {
        let targets: Vec<String> = self.nodes.keys_under(path);
        let ghost all = texts(targets@);
        proof {
            assert(is_tree_list(all, self@.nodes, path@));
            law_tree_list_unique(all, self@.nodes, path@);
            lemma_sorted_distinct(all);
            assert forall|i: int| 0 <= i < all.len() implies self.nodes@.contains_key(
                #[trigger] all[i],
            ) by {
                assert(all.contains(all[i]));
            }
        }
        self.unlist_all(&targets);
        take_values(&mut self.nodes, &targets);
    }

    /// Moves what the archive has moved, along with contents that it does not have yet.
    pub fn moved(&mut self, old_path: &str, new_path: &str)
        requires
            old(self).wf(),
        ensures
            final(self).wf(),
            final(self)@ == win_moved(old(self)@, old_path@, new_path@),
    {
        let ghost before = self@;
        let targets: Vec<String> = self.nodes.keys_under(old_path);
        let ghost all = texts(targets@);
        proof {
            assert(is_tree_list(all, self@.nodes, old_path@));
            law_tree_list_unique(all, self@.nodes, old_path@);
            assert forall|i: int| 0 <= i < all.len() implies is_under(
                #[trigger] all[i],
                old_path@,
            ) by {
                assert(all.contains(all[i]));
            }
        }
        relocate_data(&mut self.write_cache, old_path, new_path);
        self.unlist_all(&targets);
        relocate(&mut self.nodes, old_path, new_path);
        let ghost places = all.map_values(|path: Seq<char>| moved(path, old_path@, new_path@));
        let ghost base = lists_view(self.children@);
        let mut i: usize = 0;
        assert(places.take(0) =~= Seq::<Seq<char>>::empty());
        #[verifier::loop_isolation(false)]
        while i < targets.len()
            invariant
                i <= targets.len(),
                self.children.wf(),
                self.nodes.wf(),
                self.write_cache.wf(),
                self.nodes@ == relocated_map(before.nodes, old_path@, new_path@),
                self@.cache == relocated_map(before.cache, old_path@, new_path@),
                lists_view(self.children@) == with_members(base, places.take(i as int)),
            decreases targets.len() - i,
        {
            assert(all[i as int] == targets@[i as int]@);
            let target: String = moved_path(targets[i].as_str(), old_path, new_path);
            proof {
                assert(places[i as int] == target@);
                assert(places.take(i + 1).drop_last() =~= places.take(i as int));
                assert(places.take(i + 1).last() == target@);
            }
            enlist(&mut self.children, target);
            i += 1;
        }
        assert(places.take(i as int) =~= places);
    }
}

/// Moves contents at and below `from` to `to`.
fn relocate_data(map: &mut PathMap<Vec<u8>>, from: &str, to: &str)
    requires
        old(map).wf(),
    ensures
        final(map).wf(),
        final(map)@.map_values(|data: Vec<u8>| data@) == relocated_map(
            old(map)@.map_values(|data: Vec<u8>| data@),
            from@,
            to@,
        ),
{
    relocate(map, from, to);
    assert(map@.map_values(|data: Vec<u8>| data@) =~= relocated_map(
        old(map)@.map_values(|data: Vec<u8>| data@),
        from@,
        to@,
    ));
}

proof fn lemma_node_list(nodes: PathMap<WinNode>)
    requires
        nodes.wf(),
    ensures
        used_space(nodes@) == sum_of_sizes(nodes.values()),
{
    let paths = nodes.keys();
    lemma_zipped(paths, nodes.values());
    lemma_sorted_distinct(paths);
    assert forall|path: Seq<char>| #[trigger] paths.contains(path) <==> nodes@.contains_key(path) by {
        if paths.contains(path) {
            let i = choose|i: int| 0 <= i < paths.len() && paths[i] == path;
            assert(nodes@.contains_key(paths[i]));
        }
    }
    lemma_sorted_unique(paths, node_paths(nodes@));
    assert(node_paths(nodes@).map_values(|path: Seq<char>| nodes@[path]) =~= nodes.values());
}

proof fn lemma_sum_grows(nodes: Seq<WinNode>, n: int)
    requires
        0 <= n <= nodes.len(),
    ensures
        sum_of_sizes(nodes.take(n)) <= sum_of_sizes(nodes),
    decreases nodes.len(),
{
    if n < nodes.len() {
        lemma_sum_grows(nodes.drop_last(), n);
        assert(nodes.drop_last().take(n) =~= nodes.take(n));
    } else {
        assert(nodes.take(n) =~= nodes);
    }
}

/// What stands before and behind a slash that no other follows.
pub proof fn lemma_parent_text(above: Seq<char>, name: Seq<char>)
    requires
        forall|i: int| 0 <= i < name.len() ==> name[i] != '/',
    ensures
        parent_text(above.push('/') + name) == above,
        file_name(above.push('/') + name) == name,
        parent_text(name).len() == 0,
        file_name(name) == name,
    decreases name.len(),
{
    let path = above.push('/') + name;
    if name.len() == 0 {
        assert(path =~= above.push('/'));
        assert(path.drop_last() =~= above);
        assert(file_name(path) =~= name);
        assert(file_name(name) =~= name);
    } else {
        let less = name.drop_last();
        lemma_parent_text(above, less);
        assert(path.drop_last() =~= above.push('/') + less);
        assert(path.last() == name.last());
        assert(less.push(name.last()) =~= name);
    }
}

/// The directory and the name of a canonical path.
pub proof fn lemma_canonical_parts(path: Seq<char>)
    requires
        is_canonical(path),
    ensures
        parent_text(path) == parent_of(path),
        file_name(path) == name_of(path),
{
    lemma_parent_and_name(path);
    lemma_parent_text(parent_of(path), name_of(path));
    if parent_of(path).len() == 0 {
        assert(parent_text(path) =~= parent_of(path));
    }
}

/// Those of `keys` that stand in `p`.
spec fn members(keys: Seq<Seq<char>>, p: Seq<char>) -> Seq<Seq<char>> {
    keys.filter(|c: Seq<char>| c.len() > 0 && parent_text(c) == p)
}

proof fn lemma_members_push(keys: Seq<Seq<char>>, key: Seq<char>, p: Seq<char>)
    ensures
        members(keys.push(key), p) == if key.len() > 0 && parent_text(key) == p {
            members(keys, p).push(key)
        } else {
            members(keys, p)
        },
{
    reveal(Seq::filter);
    assert(keys.push(key).drop_last() =~= keys);
}

/// What stands in a directory, taken from all paths in order.
proof fn lemma_members(keys: Seq<Seq<char>>, p: Seq<char>)
    requires
        is_sorted(keys),
    ensures
        is_sorted(members(keys, p)),
        forall|c: Seq<char>| #[trigger]
            members(keys, p).contains(c) <==> keys.contains(c) && c.len() > 0 && parent_text(c)
                == p,
    decreases keys.len(),
{
    if keys.len() == 0 {
        reveal(Seq::filter);
        assert(members(keys, p) =~= keys);
    } else {
        let less = keys.drop_last();
        let last = keys.last();
        assert(is_sorted(less)) by {
            assert forall|i: int, j: int| 0 <= i < j < less.len() implies precedes(
                #[trigger] less[i],
                #[trigger] less[j],
            ) by {
                assert(precedes(keys[i], keys[j]));
            }
        }
        lemma_members(less, p);
        assert(less.push(last) =~= keys);
        lemma_members_push(less, last, p);
        let before = members(less, p);
        let after = members(keys, p);
        assert forall|c: Seq<char>| #[trigger] after.contains(c) <==> keys.contains(c) && c.len() > 0
            && parent_text(c) == p by {
            lemma_push_contains(less, last, c);
            lemma_push_contains(before, last, c);
            assert(before.contains(c) <==> less.contains(c) && c.len() > 0 && parent_text(c) == p);
        }
        assert forall|i: int, j: int| 0 <= i < j < after.len() implies precedes(
            #[trigger] after[i],
            #[trigger] after[j],
        ) by {
            if j < before.len() {
                assert(precedes(before[i], before[j]));
            } else {
                assert(before.contains(before[i]));
                assert(less.contains(before[i]));
                let k = choose|k: int| 0 <= k < less.len() && less[k] == before[i];
                assert(precedes(keys[k], keys[keys.len() - 1]));
            }
        }
    }
}

/// Adds the nodes for an entry and for the directories above it, as far as there are none yet.
fn add_entry(
    nodes: &mut PathMap<WinNode>,
    entry: &IndexEntry,
    now: Timestamp,
    Ghost(paths): Ghost<Seq<Seq<char>>>,
    Ghost(done): Ghost<Seq<EntryView>>,
)
    requires
        old(nodes).wf(),
        old(nodes)@ == win_nodes(paths, done.push(entry@), now),
        covers(paths, done),
        is_closed(paths, done),
        is_canonical(entry@.path),
        first_under(done, entry@.path) is None,
    ensures
        final(nodes).wf(),
        final(nodes)@ == win_nodes(
            with_prefixes(paths, split(entry@.path), split(entry@.path).len()),
            done.push(entry@),
            now,
        ),
{
    let ghost seen = done.push(entry@);
    let ghost pieces = split(entry@.path);
    let parts: Vec<Vec<char>> = components(to_chars(entry.virtual_path.as_str()).as_slice());
    let mut current: Vec<char> = Vec::new();
    let mut k: usize = 0;
    assert(pieces.take(0) =~= Seq::<Seq<char>>::empty());
    assert(parts.len() == pieces.len());
    #[verifier::loop_isolation(false)]
    while k < parts.len()
        invariant
            k <= parts.len(),
            nodes.wf(),
            nodes@ == win_nodes(with_prefixes(paths, pieces, k as nat), seen, now),
            current@ == prefix_path(pieces, k as int),
        decreases parts.len() - k,
    {
        let ghost before = with_prefixes(paths, pieces, k as nat);
        let ghost path = prefix_path(pieces, k + 1);
        proof {
            lemma_prefix(entry@.path, k + 1);
            if k > 0 {
                lemma_prefix(entry@.path, k as int);
                lemma_canonical_nonempty(current@);
            }
            lemma_parent_and_name(path);
            lemma_canonical_nonempty(path);
            assert(parts@[k as int]@ == pieces[k as int]);
        }
        if current.len() > 0 {
            current.push('/');
        }
        current.extend_from_slice(parts[k].as_slice());
        assert(current@ =~= path);
        let last: bool = k + 1 == parts.len();
        let text: String = from_chars(current.as_slice());
        if !nodes.contains(text.as_str()) {
            let kind: EntryKind = if last {
                entry.kind
            } else {
                EntryKind::Directory
            };
            let mode: u16 = if last {
                entry.mode
            } else {
                IMPLIED_MODE
            };
            let node = WinNode {
                kind,
                size: if last && !matches!(kind, EntryKind::Directory) {
                    entry.block_length
                } else {
                    0
                },
                mode,
                attrs: mode_to_win_attrs(mode, kind),
                atime: entry.atime,
                mtime: entry.mtime,
                ctime: entry.ctime,
            };
            proof {
                lemma_first_of_new(paths, before, done, entry@, k as int);
                if !last {
                    lemma_shorter(entry@.path, k + 1);
                }
                assert(node == win_node_at(seen, path));
            }
            nodes.insert(text, node);
            proof {
                let more = before.push(path);
                assert forall|p: Seq<char>| #[trigger] more.contains(p) <==> before.contains(p) || p
                    == path by {
                    lemma_push_contains(before, path, p);
                }
                assert(nodes@ =~= win_nodes(more, seen, now));
            }
        }
        k += 1;
    }
}

impl MossDokan {
    /// Mounts an archive.
    pub fn new(archive: &Moss, now: Timestamp) -> (r: Self)
        requires
            archive.wf(),
        ensures
            r.wf(),
            ({
                let listing = listing_of(archive@.entries);
                &&& r@.nodes == win_nodes(needed(listing), listing, now)
                &&& r@.cache == Map::<Seq<char>, Seq<u8>>::empty()
                &&& r@.children.dom() == r@.nodes.dom()
                &&& forall|p: Seq<char>| #[trigger]
                    r@.children.contains_key(p) ==> is_member_list(
                        r@.children[p],
                        r@.nodes,
                        p,
                    )
            }),
    {
        let entries: Vec<&IndexEntry> = archive.entries();
        let ghost listing = listing_of(archive@.entries);
        proof {
            lemma_archive(*archive);
            lemma_listing_map(listing);
            assert(listed(entries@) =~= listing);
            assert forall|i: int| 0 <= i < listing.len() implies is_canonical(
                (#[trigger] listing[i]).path,
            ) by {
                assert(archive@.entries.contains_key(listing[i].path));
            }
            lemma_needed(listing);
        }
        let nodes: PathMap<WinNode> = Self::build_nodes(&entries, now);
        let children: PathMap<Vec<String>> = Self::build_lists(
            &nodes,
            Ghost(needed(listing)),
            Ghost(listing),
            Ghost(now),
        );
        let r = MossDokan { nodes, children, write_cache: PathMap::new() };
        assert(r@.cache =~= Map::<Seq<char>, Seq<u8>>::empty());
        r
    }

    /// The nodes for the entries of an archive and for the directories above them.
    fn build_nodes(entries: &Vec<&IndexEntry>, now: Timestamp) -> (nodes: PathMap<WinNode>)
        requires
            all_canonical(listed(entries@)),
            is_sorted(paths_of(listed(entries@))),
        ensures
            nodes.wf(),
            nodes@ == win_nodes(needed(listed(entries@)), listed(entries@), now),
    {
        let ghost listing = listed(entries@);
        let mut nodes: PathMap<WinNode> = PathMap::new();
        let root = WinNode {
            kind: EntryKind::Directory,
            size: 0,
            mode: 0o755,
            attrs: FILE_ATTRIBUTE_DIRECTORY,
            atime: now,
            mtime: now,
            ctime: now,
        };
        let empty: String = String::new();
        let ghost none = empty@;
        nodes.insert(empty, root);
        let mut i: usize = 0;
        proof {
            assert(none =~= Seq::<char>::empty());
            assert(listing.take(0) =~= Seq::<EntryView>::empty());
            assert forall|p: Seq<char>| p.len() == 0 implies p == none by {
                assert(p =~= none);
            }
            assert(nodes@ =~= win_nodes(needed(listing.take(0)), listing.take(0), now));
        }
        #[verifier::loop_isolation(false)]
        while i < entries.len()
            invariant
                i <= entries.len(),
                nodes.wf(),
                nodes@ == win_nodes(
                    needed(listing.take(i as int)),
                    listing.take(i as int),
                    now,
                ),
            decreases entries.len() - i,
        {
            let entry: &IndexEntry = entries[i];
            let ghost done = listing.take(i as int);
            let ghost seen = listing.take(i + 1);
            let ghost paths = needed(done);
            proof {
                assert(entry@ == listing[i as int]);
                assert(seen =~= done.push(entry@));
                assert(seen.drop_last() =~= done);
                assert(all_canonical(done)) by {
                    assert forall|a: int| 0 <= a < done.len() implies is_canonical(
                        (#[trigger] done[a]).path,
                    ) by {
                        assert(is_canonical(listing[a].path));
                    }
                }
                lemma_needed(done);
                assert(is_sorted(paths_of(done.push(entry@)))) by {
                    let some = paths_of(done.push(entry@));
                    assert forall|a: int, b: int| 0 <= a < b < some.len() implies precedes(
                        #[trigger] some[a],
                        #[trigger] some[b],
                    ) by {
                        assert(some[a] == paths_of(listing)[a]);
                        assert(some[b] == paths_of(listing)[b]);
                    }
                }
                lemma_entry_first(done, entry@);
                assert(win_nodes(paths, seen, now) =~= win_nodes(paths, done, now)) by {
                    assert forall|p: Seq<char>| paths.contains(p) implies #[trigger] first_under(
                        seen,
                        p,
                    ) == first_under(done, p) by {
                        let n = paths.index_of(p);
                        assert(paths[n] == p);
                    }
                }
            }
            add_entry(&mut nodes, entry, now, Ghost(paths), Ghost(done));
            i += 1;
        }
        assert(listing.take(i as int) =~= listing);
        nodes
    }

    /// For each node the list of what stands in it.
    fn build_lists(
        nodes: &PathMap<WinNode>,
        Ghost(paths): Ghost<Seq<Seq<char>>>,
        Ghost(listing): Ghost<Seq<EntryView>>,
        Ghost(now): Ghost<Timestamp>,
    ) -> (lists: PathMap<Vec<String>>)
        requires
            nodes.wf(),
            nodes@ == win_nodes(paths, listing, now),
            is_closed(paths, listing),
        ensures
            lists.wf(),
            lists_view(lists@).dom() == nodes@.dom(),
            forall|p: Seq<char>| #[trigger]
                lists_view(lists@).contains_key(p) ==> is_member_list(
                    lists_view(lists@)[p],
                    nodes@,
                    p,
                ),
    {
        let n: usize = nodes.len();
        let ghost keys = nodes.keys();
        let mut lists: PathMap<Vec<String>> = PathMap::new();
        let mut i: usize = 0;
        proof {
            lemma_zipped(keys, nodes.values());
            assert(keys.take(0) =~= Seq::<Seq<char>>::empty());
            assert(lists_view(lists@) =~= Map::<Seq<char>, Seq<Seq<char>>>::empty());
            reveal(Seq::filter);
        }
        #[verifier::loop_isolation(false)]
        while i < n
            invariant
                i <= n,
                lists.wf(),
                lists_view(lists@) == Map::new(
                    |p: Seq<char>| keys.take(i as int).contains(p),
                    |p: Seq<char>| Seq::<Seq<char>>::empty(),
                ),
            decreases n - i,
        {
            let key: String = nodes.key(i).clone();
            let none: Vec<String> = Vec::new();
            let ghost text = key@;
            assert(texts(none@) =~= Seq::<Seq<char>>::empty());
            let ghost before = lists_view(lists@);
            lists.insert(key, none);
            proof {
                assert(lists_view(lists@) =~= before.insert(text, Seq::<Seq<char>>::empty()));
                assert(keys.take(i + 1) =~= keys.take(i as int).push(text));
                assert forall|p: Seq<char>| #[trigger] keys.take(i + 1).contains(p) <==> keys.take(
                    i as int,
                ).contains(p) || p == text by {
                    lemma_push_contains(keys.take(i as int), text, p);
                }
                assert(lists_view(lists@) =~= Map::new(
                    |p: Seq<char>| keys.take(i + 1).contains(p),
                    |p: Seq<char>| Seq::<Seq<char>>::empty(),
                ));
            }
            i += 1;
        }
        proof {
            assert(keys.take(n as int) =~= keys);
            assert forall|p: Seq<char>| keys.contains(p) <==> #[trigger] nodes@.contains_key(p) by {}
            assert(lists_view(lists@).dom() =~= nodes@.dom());
            assert forall|p: Seq<char>| #[trigger] members(keys.take(0), p) =~= Seq::<
                Seq<char>,
            >::empty() by {
                reveal(Seq::filter);
            }
        }
        i = 0;
        #[verifier::loop_isolation(false)]
        while i < n
            invariant
                i <= n,
                lists.wf(),
                lists_view(lists@).dom() == nodes@.dom(),
                forall|p: Seq<char>| #[trigger]
                    lists_view(lists@).contains_key(p) ==> lists_view(lists@)[p] == members(
                        keys.take(i as int),
                        p,
                    ),
            decreases n - i,
        {
            let key: String = nodes.key(i).clone();
            let ghost text = key@;
            let ghost before = lists_view(lists@);
            proof {
                assert(keys[i as int] == text);
                assert(nodes@.contains_key(keys[i as int]));
                assert(keys.take(i + 1) =~= keys.take(i as int).push(text));
                if text.len() > 0 {
                    let a = paths.index_of(text);
                    assert(paths[a] == text);
                    lemma_canonical_parts(text);
                    assert(nodes@.contains_key(parent_text(text)));
                    assert(before.dom().contains(parent_text(text)));
                }
                assert forall|p: Seq<char>| #[trigger] members(keys.take(i + 1), p) == if text.len()
                    > 0 && parent_text(text) == p {
                    members(keys.take(i as int), p).push(text)
                } else {
                    members(keys.take(i as int), p)
                } by {
                    lemma_members_push(keys.take(i as int), text, p);
                }
            }
            if !key.as_str().is_empty() {
                enlist(&mut lists, key);
                assert(lists_view(lists@).dom() =~= before.dom());
            }
            i += 1;
        }
        proof {
            assert forall|p: Seq<char>| #[trigger]
                lists_view(lists@).contains_key(p) implies is_member_list(
                lists_view(lists@)[p],
                nodes@,
                p,
            ) by {
                lemma_members(keys, p);
            }
        }
        lists
    }
}

} // verus!
