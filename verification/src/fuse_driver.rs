//! A mounted archive: what it answers to the requests of a file system driver.
//!
//! Whatever touches the archive itself is asked for: an operation returns what is to be done to the
//! archive, and goes on once it is told how that went.
use std::collections::HashMap;
use vstd::prelude::*;
use crate::entry::{EntryKind, EntryView, IndexEntry, Meta};
use crate::errno::Errno;
use crate::layout::{build_tree, laid_out, listed, needed};
use crate::path::{child_path, is_canonical, is_name};
use crate::storage::{lemma_archive, views, Moss};
use crate::index::{lemma_listing_map, listing_of};
use crate::text::{push_text, to_chars};
use crate::time::Timestamp;
use crate::tree::{child_list, child_named, climbed, is_child, is_child_list, keys_of, path_of,
    total_size, FsNode, InodeTree, NodeView, ROOT_INODE};
use crate::treelaws::{is_below, is_tree, law_insert_keeps_tree, law_relocate_keeps_tree,
    law_remove_keeps_tree, law_update_keeps_tree, lemma_climb};

verus! {

broadcast use vstd::std_specs::hash::group_hash_axioms;

/// The size of the blocks in which space is counted.
pub const BLOCK_SIZE: u32 = 4096;

/// A move may not replace what is there.
pub const RENAME_NOREPLACE: u32 = 1;

/// A move is to exchange two nodes.
pub const RENAME_EXCHANGE: u32 = 2;

/// A mounted archive as a mathematical value.
#[verifier::ext_equal]
pub struct FsView {
    pub nodes: Map<u64, NodeView>,
    pub cache: Map<u64, Seq<u8>>,
    pub next_inode: u64,
    pub next_handle: u64,
}

/// A mounted archive: the tree that it shows, and the contents of files that were written to and
/// are not in the archive yet.
pub struct MossFS {
    tree: InodeTree,
    write_cache: HashMap<u64, Vec<u8>>,
    next_inode: u64,
    next_handle: u64,
}

/// The attributes of a node. The time of creation is that of the last change.
#[derive(Debug, Clone, Copy, PartialEq, Eq, Structural)]
pub struct Attr {
    pub ino: u64,
    pub size: u64,
    pub blocks: u64,
    pub atime: Timestamp,
    pub mtime: Timestamp,
    pub ctime: Timestamp,
    pub kind: EntryKind,
    pub perm: u16,
    pub nlink: u32,
    pub uid: u32,
    pub gid: u32,
}

/// Adds up to the largest number.
pub open spec fn capped_sum(a: int, b: int) -> u64 {
    if a + b > u64::MAX {
        u64::MAX
    } else {
        (a + b) as u64
    }
}

/// The directories that stand in `ino`.
pub open spec fn subdirectories(nodes: Map<u64, NodeView>, ino: u64) -> Seq<u64> {
    child_list(nodes, ino).filter(|c: u64| nodes[c].kind is Directory)
}

/// The number of links to a node: one, or for a directory two and one for each directory in it.
pub open spec fn link_count(nodes: Map<u64, NodeView>, ino: u64) -> u32 {
    if nodes[ino].kind is Directory {
        let count = subdirectories(nodes, ino).len();
        if count + 2 > u32::MAX {
            u32::MAX
        } else {
            (count + 2) as u32
        }
    } else {
        1
    }
}

/// The attributes of `ino`.
pub open spec fn attr_of(nodes: Map<u64, NodeView>, ino: u64) -> Attr {
    let node = nodes[ino];
    Attr {
        ino,
        size: node.size,
        blocks: capped_sum(node.size as int, 511) / 512,
        atime: node.atime,
        mtime: node.mtime,
        ctime: node.ctime,
        kind: node.kind,
        perm: node.mode,
        nlink: link_count(nodes, ino),
        uid: node.uid,
        gid: node.gid,
    }
}

/// Whether nodes can be looked for and made in `parent`.
pub open spec fn checked_parent(nodes: Map<u64, NodeView>, parent: u64) -> Result<(), Errno> {
    if !nodes.contains_key(parent) {
        Err(Errno::NoEntry)
    } else if nodes[parent].kind !is Directory {
        Err(Errno::NotDirectory)
    } else {
        Ok(())
    }
}

/// What is called `name` in the directory `parent`. A name that is no text is no node's name.
pub open spec fn found(nodes: Map<u64, NodeView>, parent: u64, name: Option<Seq<char>>) -> Result<
    u64,
    Errno,
> {
    match checked_parent(nodes, parent) {
        Err(error) => Err(error),
        Ok(()) => match name {
            None => Err(Errno::NoEntry),
            Some(name) => match child_named(nodes, parent, name) {
                Some(ino) => Ok(ino),
                None => Err(Errno::NoEntry),
            },
        },
    }
}

/// The text of an optional name.
pub open spec fn text_of(name: Option<&str>) -> Option<Seq<char>> {
    match name {
        Some(name) => Some(name@),
        None => None,
    }
}

/// What the archive is to record of `ino`. It finds the payload by itself.
pub open spec fn entry_for(nodes: Map<u64, NodeView>, ino: u64) -> Result<EntryView, Errno> {
    if !nodes.contains_key(ino) {
        Err(Errno::NoEntry)
    } else {
        match path_of(nodes, ino) {
            Err(error) => Err(error),
            Ok(path) => Ok(
                EntryView {
                    path,
                    meta: Meta {
                        kind: nodes[ino].kind,
                        start_byte: 0,
                        block_length: nodes[ino].size,
                        mode: nodes[ino].mode,
                        uid: nodes[ino].uid,
                        gid: nodes[ino].gid,
                        atime: nodes[ino].atime,
                        mtime: nodes[ino].mtime,
                        ctime: nodes[ino].ctime,
                    },
                },
            ),
        }
    }
}

/// `nodes`, where the contents of `ino` changed at `now`.
pub open spec fn touched(nodes: Map<u64, NodeView>, ino: u64, now: Timestamp) -> Map<
    u64,
    NodeView,
> {
    if nodes.contains_key(ino) {
        nodes.insert(ino, NodeView { mtime: now, ctime: now, ..nodes[ino] })
    } else {
        nodes
    }
}

/// What the archive is to record of a directory whose contents changed; of the root it records
/// nothing.
pub open spec fn touch_entry(nodes: Map<u64, NodeView>, ino: u64) -> Option<EntryView> {
    if ino == ROOT_INODE {
        None
    } else {
        match entry_for(nodes, ino) {
            Ok(entry) => Some(entry),
            Err(_) => None,
        }
    }
}

/// An optional entry as a mathematical value.
pub open spec fn entry_view(entry: Option<IndexEntry>) -> Option<EntryView> {
    match entry {
        Some(entry) => Some(entry@),
        None => None,
    }
}

/// The node that is made in `parent`.
pub open spec fn new_node(
    parent: u64,
    name: Seq<char>,
    kind: EntryKind,
    mode: u32,
    uid: u32,
    gid: u32,
    now: Timestamp,
) -> NodeView {
    NodeView {
        name,
        parent,
        kind,
        mode: (mode & 0o7777) as u16,
        uid,
        gid,
        size: 0,
        atime: now,
        mtime: now,
        ctime: now,
    }
}

/// Whether a node can be made in `parent`.
pub open spec fn creatable(
    nodes: Map<u64, NodeView>,
    parent: u64,
    name: Option<Seq<char>>,
) -> Result<(), Errno> {
    match checked_parent(nodes, parent) {
        Err(error) => Err(error),
        Ok(()) => match name {
            None => Err(Errno::Invalid),
            Some(name) => if !is_name(name) {
                Err(Errno::Invalid)
            } else if child_named(nodes, parent, name) is Some {
                Err(Errno::Exists)
            } else {
                Ok(())
            },
        },
    }
}

/// A node that was made and is to be recorded: an empty payload belongs to it unless it is a
/// directory.
pub struct Creation {
    pub ino: u64,
    pub parent: u64,
    pub entry: IndexEntry,
    pub has_payload: bool,
}

/// The mounted archive after a node was made in it, before the archive knows of it; and the node's
/// entry.
pub open spec fn created(
    view: FsView,
    parent: u64,
    name: Option<Seq<char>>,
    kind: EntryKind,
    mode: u32,
    uid: u32,
    gid: u32,
    now: Timestamp,
) -> (FsView, Result<EntryView, Errno>) {
    match creatable(view.nodes, parent, name) {
        Err(error) => (view, Err(error)),
        Ok(()) => {
            let ino = view.next_inode;
            let node = new_node(parent, name->Some_0, kind, mode, uid, gid, now);
            let nodes = view.nodes.insert(ino, node);
            let next_inode = (ino + 1) as u64;
            match entry_for(nodes, ino) {
                Ok(entry) => (FsView { nodes, next_inode, ..view }, Ok(entry)),
                Err(error) => if kind is Directory {
                    (FsView { next_inode, ..view }, Err(error))
                } else {
                    (FsView { nodes, next_inode, ..view }, Err(error))
                },
            }
        },
    }
}

/// A node that is to be removed, and its path in the archive.
pub struct Removal {
    pub ino: u64,
    pub path: String,
}

/// Whether what is called `name` can be removed as a file, or as a directory; its number and path.
pub open spec fn removable(
    nodes: Map<u64, NodeView>,
    parent: u64,
    name: Option<Seq<char>>,
    directory: bool,
) -> Result<(u64, Seq<char>), Errno> {
    match found(nodes, parent, name) {
        Err(error) => Err(error),
        Ok(ino) => if !directory && nodes[ino].kind is Directory {
            Err(Errno::IsDirectory)
        } else if directory && nodes[ino].kind !is Directory {
            Err(Errno::NotDirectory)
        } else if directory && child_list(nodes, ino).len() > 0 {
            Err(Errno::NotEmpty)
        } else {
            match path_of(nodes, ino) {
                Err(error) => Err(error),
                Ok(path) => Ok((ino, path)),
            }
        },
    }
}

/// The mounted archive after `ino` was removed from `parent`.
pub open spec fn without(view: FsView, parent: u64, ino: u64, now: Timestamp) -> FsView {
    FsView {
        nodes: touched(view.nodes.remove(ino), parent, now),
        cache: view.cache.remove(ino),
        ..view
    }
}

/// A move that was found possible.
pub struct RenamePlan {
    pub ino: u64,
    pub parent: u64,
    pub new_parent: u64,
    pub new_name: String,
    pub old_path: String,
    pub replaced: Option<Removal>,
}

/// A possible move as a mathematical value.
#[verifier::ext_equal]
pub struct RenameView {
    pub ino: u64,
    pub parent: u64,
    pub new_parent: u64,
    pub new_name: Seq<char>,
    pub old_path: Seq<char>,
    pub replaced: Option<(u64, Seq<char>)>,
}

impl RenamePlan {
    pub open spec fn view(self) -> RenameView {
        RenameView {
            ino: self.ino,
            parent: self.parent,
            new_parent: self.new_parent,
            new_name: self.new_name@,
            old_path: self.old_path@,
            replaced: match self.replaced {
                Some(removal) => Some((removal.ino, removal.path@)),
                None => None,
            },
        }
    }

    /// There is something to be moved, and nothing has the new name.
    pub open spec fn is_clear(self, nodes: Map<u64, NodeView>) -> bool {
        &&& self.ino != ROOT_INODE
        &&& nodes.contains_key(self.ino)
        &&& is_name(self.new_name@)
        &&& child_named(nodes, self.new_parent, self.new_name@) is None
    }

    /// The move can be made in the tree as it is.
    pub open spec fn fits(self, nodes: Map<u64, NodeView>) -> bool {
        &&& self.is_clear(nodes)
        &&& nodes.contains_key(self.new_parent)
        &&& !is_below(nodes, self.new_parent, self.ino)
    }
}

/// Whether a node may take the place of another.
pub open spec fn replaceable(nodes: Map<u64, NodeView>, ino: u64, existing: u64) -> Result<
    (),
    Errno,
> {
    if nodes[ino].kind is Directory && nodes[existing].kind !is Directory {
        Err(Errno::NotDirectory)
    } else if nodes[ino].kind !is Directory && nodes[existing].kind is Directory {
        Err(Errno::IsDirectory)
    } else if nodes[existing].kind is Directory && child_list(nodes, existing).len() > 0 {
        Err(Errno::NotEmpty)
    } else {
        Ok(())
    }
}

/// How far a move is possible; `None` where everything is in place already.
pub open spec fn rename_checked(
    nodes: Map<u64, NodeView>,
    parent: u64,
    name: Option<Seq<char>>,
    new_parent: u64,
    new_name: Option<Seq<char>>,
    flags: u32,
) -> Result<Option<RenameView>, Errno> {
    if flags & !(RENAME_NOREPLACE | RENAME_EXCHANGE) != 0 {
        Err(Errno::Invalid)
    } else if flags & RENAME_EXCHANGE != 0 {
        Err(Errno::NotSupported)
    } else if checked_parent(nodes, parent) is Err {
        Err(checked_parent(nodes, parent)->Err_0)
    } else if checked_parent(nodes, new_parent) is Err {
        Err(checked_parent(nodes, new_parent)->Err_0)
    } else if new_name is None || !is_name(new_name->Some_0) {
        Err(Errno::Invalid)
    } else if found(nodes, parent, name) is Err {
        Err(found(nodes, parent, name)->Err_0)
    } else {
        let ino = found(nodes, parent, name)->Ok_0;
        let to = new_name->Some_0;
        let existing = child_named(nodes, new_parent, to);
        if path_of(nodes, ino) is Err {
            Err(path_of(nodes, ino)->Err_0)
        } else if nodes[ino].kind is Directory && climbed(nodes, new_parent, ino, nodes.len()) is Err {
            Err(climbed(nodes, new_parent, ino, nodes.len())->Err_0)
        } else if existing == Some(ino) {
            Ok(None)
        } else if existing is Some && flags & RENAME_NOREPLACE != 0 {
            Err(Errno::Exists)
        } else {
            let plan = RenameView {
                ino,
                parent,
                new_parent,
                new_name: to,
                old_path: path_of(nodes, ino)->Ok_0,
                replaced: None,
            };
            match existing {
                None => Ok(Some(plan)),
                Some(other) => match replaceable(nodes, ino, other) {
                    Err(error) => Err(error),
                    Ok(()) => match path_of(nodes, other) {
                        Err(error) => Err(error),
                        Ok(path) => Ok(
                            Some(RenameView { replaced: Some((other, path)), ..plan }),
                        ),
                    },
                },
            }
        }
    }
}

/// The nodes after a move.
pub open spec fn relocated(
    nodes: Map<u64, NodeView>,
    ino: u64,
    new_parent: u64,
    new_name: Seq<char>,
    now: Timestamp,
) -> Map<u64, NodeView> {
    nodes.insert(
        ino,
        NodeView { name: new_name, parent: new_parent, ctime: now, ..nodes[ino] },
    )
}

/// The nodes after a move, with the two directories touched.
pub open spec fn after_rename(nodes: Map<u64, NodeView>, plan: RenameView, now: Timestamp) -> Map<
    u64,
    NodeView,
> {
    let after = touched(
        relocated(nodes, plan.ino, plan.new_parent, plan.new_name, now),
        plan.parent,
        now,
    );
    if plan.new_parent != plan.parent {
        touched(after, plan.new_parent, now)
    } else {
        after
    }
}

/// Where the contents of a file come from.
pub enum Source {
    /// They were written to and are at hand.
    Cached(Vec<u8>),
    /// They are in the archive under this path.
    Stored(String),
}

/// Where the contents of a file come from, as a mathematical value.
pub enum SourceView {
    Cached(Seq<u8>),
    Stored(Seq<char>),
}

impl Source {
    pub open spec fn view(self) -> SourceView {
        match self {
            Source::Cached(data) => SourceView::Cached(data@),
            Source::Stored(path) => SourceView::Stored(path@),
        }
    }
}

/// The path under which the archive has the contents of `ino`.
pub open spec fn stored_path(nodes: Map<u64, NodeView>, ino: u64) -> Result<Seq<char>, Errno> {
    if !nodes.contains_key(ino) {
        Err(Errno::NoEntry)
    } else if nodes[ino].kind is Directory {
        Err(Errno::IsDirectory)
    } else {
        path_of(nodes, ino)
    }
}

/// What has to be loaded before `ino` can be changed: nothing where its contents are at hand.
pub open spec fn to_load(view: FsView, ino: u64) -> Result<Option<Seq<char>>, Errno> {
    if view.cache.contains_key(ino) {
        Ok(None)
    } else {
        match stored_path(view.nodes, ino) {
            Ok(path) => Ok(Some(path)),
            Err(error) => Err(error),
        }
    }
}

/// A path to be loaded, as a mathematical value.
pub open spec fn is_load(
    r: Result<Option<String>, Errno>,
    load: Result<Option<Seq<char>>, Errno>,
) -> bool {
    match load {
        Ok(None) => r == Ok::<Option<String>, Errno>(None),
        Ok(Some(path)) => r matches Ok(Some(s)) && s@ == path,
        Err(error) => r == Err::<Option<String>, Errno>(error),
    }
}

/// Whether `ino` can be written to.
pub open spec fn writable(nodes: Map<u64, NodeView>, ino: u64, offset: i64) -> Result<(), Errno> {
    if offset < 0 {
        Err(Errno::Invalid)
    } else if !nodes.contains_key(ino) {
        Err(Errno::NoEntry)
    } else if nodes[ino].kind is Directory {
        Err(Errno::IsDirectory)
    } else if nodes[ino].kind is Symlink {
        Err(Errno::Invalid)
    } else if offset > usize::MAX {
        Err(Errno::Invalid)
    } else {
        Ok(())
    }
}

/// `contents` with `data` written over it from `start` on. A gap is filled with zeros.
pub open spec fn overwritten(contents: Seq<u8>, start: int, data: Seq<u8>) -> Seq<u8> {
    let end = start + data.len();
    Seq::new(
        if end > contents.len() {
            end as nat
        } else {
            contents.len()
        },
        |i: int|
            if start <= i < end {
                data[i - start]
            } else if i < contents.len() {
                contents[i]
            } else {
                0
            },
    )
}

/// `contents` cut or filled with zeros to `size` bytes.
pub open spec fn resized(contents: Seq<u8>, size: nat) -> Seq<u8> {
    Seq::new(
        size,
        |i: int|
            if i < contents.len() {
                contents[i]
            } else {
                0
            },
    )
}

/// The mounted archive after the contents of `ino` became `contents` at `now`.
pub open spec fn with_contents(view: FsView, ino: u64, contents: Seq<u8>, now: Timestamp) -> FsView {
    FsView {
        cache: view.cache.insert(ino, contents),
        nodes: if view.nodes.contains_key(ino) {
            view.nodes.insert(
                ino,
                NodeView {
                    size: contents.len() as u64,
                    mtime: now,
                    ctime: now,
                    ..view.nodes[ino]
                },
            )
        } else {
            view.nodes
        },
        ..view
    }
}

/// The part of `data` that a read at `offset` yields.
pub open spec fn read_part(data: Seq<u8>, offset: int, size: int) -> Seq<u8> {
    let start = if offset > data.len() {
        data.len() as int
    } else {
        offset
    };
    let end = if start + size > data.len() {
        data.len() as int
    } else {
        start + size
    };
    data.subrange(start, end)
}

/// Contents that are to be recorded.
pub struct Commit {
    pub ino: u64,
    pub entry: IndexEntry,
    pub data: Vec<u8>,
    pub now: Timestamp,
}

/// Attributes that are to be set, as far as they are given.
pub struct Changes {
    pub mode: Option<u32>,
    pub uid: Option<u32>,
    pub gid: Option<u32>,
    pub atime: Option<Timestamp>,
    pub mtime: Option<Timestamp>,
}

/// A node with attributes set.
pub open spec fn changed(node: NodeView, changes: Changes, now: Timestamp) -> NodeView {
    NodeView {
        mode: if let Some(mode) = changes.mode {
            (mode & 0o7777) as u16
        } else {
            node.mode
        },
        uid: if let Some(uid) = changes.uid {
            uid
        } else {
            node.uid
        },
        gid: if let Some(gid) = changes.gid {
            gid
        } else {
            node.gid
        },
        atime: if let Some(atime) = changes.atime {
            atime
        } else {
            node.atime
        },
        mtime: if let Some(mtime) = changes.mtime {
            mtime
        } else {
            node.mtime
        },
        ctime: now,
        ..node
    }
}

/// One line of a directory listing.
pub struct DirEntry {
    pub ino: u64,
    /// Where the listing goes on behind this line.
    pub next_offset: i64,
    pub kind: EntryKind,
    pub name: String,
}

/// A line of a directory listing as a mathematical value.
#[verifier::ext_equal]
pub struct DirEntryView {
    pub ino: u64,
    pub next_offset: i64,
    pub kind: EntryKind,
    pub name: Seq<char>,
}

impl DirEntry {
    pub open spec fn view(self) -> DirEntryView {
        DirEntryView {
            ino: self.ino,
            next_offset: self.next_offset,
            kind: self.kind,
            name: self.name@,
        }
    }
}

/// Line `i` of the listing of `ino`: the directory itself, the one above it, and what stands in it.
pub open spec fn listing_line(nodes: Map<u64, NodeView>, ino: u64, i: int) -> DirEntryView {
    let next_offset = (i + 1) as i64;
    if i == 0 {
        DirEntryView { ino, next_offset, kind: EntryKind::Directory, name: "."@ }
    } else if i == 1 {
        DirEntryView {
            ino: nodes[ino].parent,
            next_offset,
            kind: EntryKind::Directory,
            name: ".."@,
        }
    } else {
        let c = child_list(nodes, ino)[i - 2];
        DirEntryView { ino: c, next_offset, kind: nodes[c].kind, name: nodes[c].name }
    }
}

/// The listing of `ino` from line `offset` on.
pub open spec fn listing_from(nodes: Map<u64, NodeView>, ino: u64, offset: int) -> Seq<
    DirEntryView,
> {
    let total = child_list(nodes, ino).len() + 2;
    Seq::new(
        if offset > total {
            0
        } else {
            (total - offset) as nat
        },
        |i: int| listing_line(nodes, ino, offset + i),
    )
}

/// How much room there is, counted in blocks and in nodes.
#[derive(Debug, Clone, Copy, PartialEq, Eq, Structural)]
pub struct Statistics {
    pub blocks: u64,
    pub free_blocks: u64,
    pub files: u64,
    pub free_files: u64,
}

/// Room beyond what is used: a fixed number of blocks and of nodes.
pub open spec fn statistics_of(nodes: Map<u64, NodeView>) -> Statistics {
    let used = capped_sum(capped_sum(total_size(nodes) as int, 0) as int, 4095) / 4096;
    let blocks = capped_sum(used as int, 0x4000_0000);
    Statistics {
        blocks,
        free_blocks: (blocks - used) as u64,
        files: capped_sum(nodes.len() as int, 0x10_0000),
        free_files: 0x10_0000,
    }
}

/// A copy of some text.
fn copied(text: &str) -> (r: String)
    ensures
        r@ == text@,
{
    let mut r: String = String::new();
    push_text(&mut r, text);
    assert(r@ =~= text@);
    r
}

/// Whether `name` can stand as one component of a path.
fn is_proper_name(name: &str) -> (r: bool)
    ensures
        r == is_name(name@),
{
    let chars: Vec<char> = to_chars(name);
    let n: usize = chars.len();
    if n == 0 {
        return false;
    }
    if chars[0] == '.' && (n == 1 || (n == 2 && chars[1] == '.')) {
        proof {
            if n == 1 {
                assert(name@ =~= seq!['.']);
            } else {
                assert(name@ =~= seq!['.', '.']);
            }
        }
        return false;
    }
    assert(name@ != seq!['.'] && name@ != seq!['.', '.']);
    let mut i: usize = 0;
    #[verifier::loop_isolation(false)]
    while i < n
        invariant
            i <= n,
            forall|k: int|
                0 <= k < i ==> name@[k] != '/' && name@[k] != '\\' && name@[k] != '\0',
        decreases n - i,
    {
        if chars[i] == '/' || chars[i] == '\\' || chars[i] == '\0' {
            return false;
        }
        i += 1;
    }
    true
}

/// The name as a node can have it.
pub fn validate_name(name: Option<&str>) -> (r: Result<String, Errno>)
    ensures
        match r {
            Ok(s) => name matches Some(n) && is_name(n@) && s@ == n@,
            Err(error) => {
                &&& error == Errno::Invalid
                &&& name matches Some(n) ==> !is_name(n@)
            },
        },
{
    match name {
        None => Err(Errno::Invalid),
        Some(name) => {
            if is_proper_name(name) {
                Ok(copied(name))
            } else {
                Err(Errno::Invalid)
            }
        },
    }
}

/// The part of `data` that a read at `offset` yields.
pub fn slice_of(data: &[u8], offset: i64, size: u32) -> (r: Vec<u8>)
    requires
        offset >= 0,
    ensures
        r@ == read_part(data@, offset as int, size as int),
{
    let n: usize = data.len();
    let start: usize = if offset as u64 > n as u64 {
        n
    } else {
        offset as usize
    };
    let end: usize = if (n - start) as u64 > size as u64 {
        start + size as usize
    } else {
        n
    };
    let mut r: Vec<u8> = Vec::new();
    r.extend_from_slice(vstd::slice::slice_subrange(data, start, end));
    assert(r@ =~= read_part(data@, offset as int, size as int));
    r
}

impl MossFS {
    /// The mounted archive as a mathematical value.
    pub closed spec fn view(self) -> FsView {
        FsView {
            nodes: self.tree@,
            cache: self.write_cache@.map_values(|data: Vec<u8>| data@),
            next_inode: self.next_inode,
            next_handle: self.next_handle,
        }
    }

    /// The nodes make up a tree.
    pub closed spec fn wf(self) -> bool {
        &&& self.tree.wf()
        &&& is_tree(self.tree@, self.next_inode)
    }

    /// The nodes of a mounted archive make up a tree, and there is a list of what stands in each.
    pub proof fn lemma_wf(self)
        requires
            self.wf(),
        ensures
            is_tree(self@.nodes, self@.next_inode),
            forall|p: u64| #[trigger]
                self@.nodes.contains_key(p) ==> is_child_list(
                    child_list(self@.nodes, p),
                    self@.nodes,
                    p,
                ),
    {
        self.tree.lemma_lists();
    }

    /// Whether there is a number left for one more node.
    pub fn has_free_inode(&self) -> (r: bool)
        requires
            self.wf(),
        ensures
            r == (self@.next_inode < u64::MAX),
    {
        self.next_inode < u64::MAX
    }

    /// Mounts an archive. The root, and directories that have no entry of their own, get the given
    /// owner.
    pub fn new(archive: &Moss, uid: u32, gid: u32, now: Timestamp) -> (r: Self)
        requires
            archive.wf(),
            needed(listing_of(archive@.entries)).len() + 2 < u64::MAX,
        ensures
            r.wf(),
            ({
                let listing = listing_of(archive@.entries);
                let root = NodeView {
                    name: Seq::<char>::empty(),
                    parent: ROOT_INODE,
                    kind: EntryKind::Directory,
                    mode: 0o755,
                    uid,
                    gid,
                    size: 0,
                    atime: now,
                    mtime: now,
                    ctime: now,
                };
                r@ == (FsView {
                    nodes: laid_out(root, needed(listing), listing, uid, gid),
                    cache: Map::<u64, Seq<u8>>::empty(),
                    next_inode: (needed(listing).len() + 2) as u64,
                    next_handle: 1,
                })
            }),
    {
        let entries: Vec<&IndexEntry> = archive.entries();
        let root = FsNode {
            ino: ROOT_INODE,
            name: String::new(),
            parent: ROOT_INODE,
            kind: EntryKind::Directory,
            mode: 0o755,
            uid,
            gid,
            size: 0,
            atime: now,
            mtime: now,
            ctime: now,
        };
        proof {
            let listing = listing_of(archive@.entries);
            lemma_archive(*archive);
            lemma_listing_map(listing);
            assert(listed(entries@) =~= listing);
            assert forall|i: int| 0 <= i < listing.len() implies is_canonical(
                (#[trigger] listing[i]).path,
            ) by {
                assert(archive@.entries.contains_key(listing[i].path));
            }
            assert(root@.name =~= Seq::<char>::empty());
        }
        let (tree, next_inode) = build_tree(&entries, root, uid, gid);
        let r = MossFS { tree, write_cache: HashMap::new(), next_inode, next_handle: 1 };
        assert(r@.cache =~= Map::<u64, Seq<u8>>::empty());
        r
    }

    /// A number for an opened file.
    pub fn allocate_handle(&mut self) -> (r: u64)
        requires
            old(self).wf(),
        ensures
            final(self).wf(),
            r == old(self)@.next_handle,
            final(self)@ == (FsView {
                next_handle: capped_sum(old(self)@.next_handle as int, 1),
                ..old(self)@
            }),
    {
        let handle: u64 = self.next_handle;
        self.next_handle = self.next_handle.saturating_add(1);
        handle
    }

    /// Whether nodes can be looked for and made in `parent`.
    fn validate_parent(&self, parent: u64) -> (r: Result<(), Errno>)
        requires
            self.wf(),
        ensures
            r == checked_parent(self@.nodes, parent),
    {
        match self.tree.get(parent) {
            None => Err(Errno::NoEntry),
            Some(node) => {
                if matches!(node.kind, EntryKind::Directory) {
                    Ok(())
                } else {
                    Err(Errno::NotDirectory)
                }
            },
        }
    }

    /// What is called `name` in the directory `parent`.
    fn find(&self, parent: u64, name: Option<&str>) -> (r: Result<u64, Errno>)
        requires
            self.wf(),
        ensures
            r == found(self@.nodes, parent, text_of(name)),
            r matches Ok(c) ==> is_child(self@.nodes, c, parent) && text_of(name) == Some(
                self@.nodes[c].name,
            ),
    {
        match self.validate_parent(parent) {
            Err(error) => return Err(error),
            Ok(()) => {},
        }
        match name {
            None => Err(Errno::NoEntry),
            Some(name) => match self.tree.find_child(parent, name) {
                Some(ino) => Ok(ino),
                None => Err(Errno::NoEntry),
            },
        }
    }

    /// The number of directories in a list of nodes.
    fn count_directories(&self, list: &Vec<u64>, Ghost(parent): Ghost<u64>) -> (r: usize)
        requires
            self.wf(),
            is_child_list(list@, self@.nodes, parent),
        ensures
            r == list@.filter(|c: u64| self@.nodes[c].kind is Directory).len(),
    {
        let ghost is_dir = |c: u64| self@.nodes[c].kind is Directory;
        let mut count: usize = 0;
        let mut i: usize = 0;
        proof {
            reveal(Seq::filter);
            assert(list@.take(0) =~= Seq::<u64>::empty());
        }
        #[verifier::loop_isolation(false)]
        while i < list.len()
            invariant
                i <= list.len(),
                count <= i,
                count == list@.take(i as int).filter(is_dir).len(),
            decreases list.len() - i,
        {
            let c: u64 = list[i];
            proof {
                reveal(Seq::filter);
                assert(list@.take(i + 1).drop_last() =~= list@.take(i as int));
                assert(list@.take(i + 1).last() == c);
                assert(list@.contains(c));
                assert(is_child(self@.nodes, c, parent));
            }
            match self.tree.get(c) {
                Some(node) => {
                    if matches!(node.kind, EntryKind::Directory) {
                        count += 1;
                    }
                },
                None => {},
            }
            i += 1;
        }
        assert(list@.take(i as int) =~= list@);
        count
    }

    /// The attributes of a node.
    pub fn getattr(&self, ino: u64) -> (r: Result<Attr, Errno>)
        requires
            self.wf(),
        ensures
            r == if self@.nodes.contains_key(ino) {
                Ok::<Attr, Errno>(attr_of(self@.nodes, ino))
            } else {
                Err::<Attr, Errno>(Errno::NoEntry)
            },
    {
        let node: &FsNode = match self.tree.get(ino) {
            Some(node) => node,
            None => return Err(Errno::NoEntry),
        };
        let nlink: u32 = if matches!(node.kind, EntryKind::Directory) {
            match self.tree.children(ino) {
                Some(list) => {
                    let count: usize = self.count_directories(list, Ghost(ino));
                    if count as u64 > 0xffff_fffd {
                        u32::MAX
                    } else {
                        count as u32 + 2
                    }
                },
                None => 2,
            }
        } else {
            1
        };
        Ok(
            Attr {
                ino,
                size: node.size,
                blocks: node.size.saturating_add(511) / 512,
                atime: node.atime,
                mtime: node.mtime,
                ctime: node.ctime,
                kind: node.kind,
                perm: node.mode,
                nlink,
                uid: node.uid,
                gid: node.gid,
            },
        )
    }

    /// The attributes of what is called `name` in `parent`.
    pub fn lookup(&self, parent: u64, name: Option<&str>) -> (r: Result<Attr, Errno>)
        requires
            self.wf(),
        ensures
            match found(self@.nodes, parent, text_of(name)) {
                Ok(ino) => r == Ok::<Attr, Errno>(attr_of(self@.nodes, ino)),
                Err(error) => r == Err::<Attr, Errno>(error),
            },
    {
        match self.find(parent, name) {
            Ok(ino) => self.getattr(ino),
            Err(error) => Err(error),
        }
    }

    /// Whether there is such a node.
    pub fn access(&self, ino: u64) -> (r: Result<(), Errno>)
        ensures
            r == if self@.nodes.contains_key(ino) {
                Ok::<(), Errno>(())
            } else {
                Err::<(), Errno>(Errno::NoEntry)
            },
    {
        if self.tree.contains(ino) {
            Ok(())
        } else {
            Err(Errno::NoEntry)
        }
    }

    /// What the archive is to record of a node.
    fn node_as_entry(&self, ino: u64) -> (r: Result<IndexEntry, Errno>)
        requires
            self.wf(),
        ensures
            match entry_for(self@.nodes, ino) {
                Ok(entry) => r matches Ok(e) && e@ == entry,
                Err(error) => r == Err::<IndexEntry, Errno>(error),
            },
    {
        let node: &FsNode = match self.tree.get(ino) {
            Some(node) => node,
            None => return Err(Errno::NoEntry),
        };
        let path: String = match self.tree.path(ino) {
            Ok(path) => path,
            Err(error) => return Err(error),
        };
        Ok(
            IndexEntry {
                virtual_path: path,
                kind: node.kind,
                start_byte: 0,
                block_length: node.size,
                mode: node.mode,
                uid: node.uid,
                gid: node.gid,
                atime: node.atime,
                mtime: node.mtime,
                ctime: node.ctime,
            },
        )
    }

    /// What the archive is to record when the attributes of a node changed; nothing of the root.
    pub fn persist_metadata(&self, ino: u64) -> (r: Result<Option<IndexEntry>, Errno>)
        requires
            self.wf(),
        ensures
            if ino == ROOT_INODE {
                r == Ok::<Option<IndexEntry>, Errno>(None)
            } else {
                match entry_for(self@.nodes, ino) {
                    Ok(entry) => r matches Ok(Some(e)) && e@ == entry,
                    Err(error) => r == Err::<Option<IndexEntry>, Errno>(error),
                }
            },
    {
        if ino == ROOT_INODE {
            return Ok(None);
        }
        match self.node_as_entry(ino) {
            Ok(entry) => Ok(Some(entry)),
            Err(error) => Err(error),
        }
    }

    /// Notes that the contents of a directory changed. The result is to be recorded; that it
    /// cannot be is no failure.
    fn touch_directory(&mut self, ino: u64, now: Timestamp) -> (r: Option<IndexEntry>)
        requires
            old(self).wf(),
        ensures
            final(self).wf(),
            final(self)@ == (FsView { nodes: touched(old(self)@.nodes, ino, now), ..old(self)@ }),
            entry_view(r) == touch_entry(final(self)@.nodes, ino),
    {
        let ghost before = self@.nodes;
        let copy: Option<FsNode> = match self.tree.get(ino) {
            Some(node) => Some(node.clone()),
            None => None,
        };
        if let Some(node) = copy {
            let mut node: FsNode = node;
            node.mtime = now;
            node.ctime = now;
            proof {
                law_update_keeps_tree(before, self.next_inode, ino, node@);
            }
            self.tree.update(node);
        }
        assert(self@.nodes == touched(before, ino, now));
        if ino == ROOT_INODE {
            return None;
        }
        match self.node_as_entry(ino) {
            Ok(entry) => Some(entry),
            Err(_) => None,
        }
    }
}

/// A creation that belongs to `entry`.
pub open spec fn is_creation(c: Creation, ino: u64, parent: u64, entry: EntryView) -> bool {
    &&& c.ino == ino
    &&& c.parent == parent
    &&& c.entry@ == entry
    &&& c.has_payload == (entry.meta.kind !is Directory)
}

impl MossFS {
    /// Makes a node. What is returned is to be recorded in the archive, with an empty payload where
    /// it says so; then `create_done` completes or undoes it. An inode number has to be left.
    pub fn create_node(
        &mut self,
        parent: u64,
        name: Option<&str>,
        kind: EntryKind,
        mode: u32,
        uid: u32,
        gid: u32,
        now: Timestamp,
    ) -> (r: Result<Creation, Errno>)
        requires
            old(self).wf(),
            old(self)@.next_inode < u64::MAX,
        ensures
            final(self).wf(),
            ({
                let (view, outcome) = created(
                    old(self)@,
                    parent,
                    text_of(name),
                    kind,
                    mode,
                    uid,
                    gid,
                    now,
                );
                &&& final(self)@ == view
                &&& match outcome {
                    Ok(entry) => r matches Ok(c) && c.ino != ROOT_INODE && is_creation(
                        c,
                        old(self)@.next_inode,
                        parent,
                        entry,
                    ),
                    Err(error) => r == Err::<Creation, Errno>(error),
                }
            }),
    {
        match self.validate_parent(parent) {
            Err(error) => return Err(error),
            Ok(()) => {},
        }
        let name: String = match validate_name(name) {
            Ok(name) => name,
            Err(error) => return Err(error),
        };
        if self.tree.find_child(parent, name.as_str()).is_some() {
            return Err(Errno::Exists);
        }
        let ino: u64 = self.next_inode;
        let ghost before = self@.nodes;
        let node = FsNode {
            ino,
            name,
            parent,
            kind,
            mode: (mode & 0o7777) as u16,
            uid,
            gid,
            size: 0,
            atime: now,
            mtime: now,
            ctime: now,
        };
        proof {
            assert forall|c: u64| is_child(before, c, parent) implies (#[trigger] before[c]).name
                != node@.name by {
                assert(child_named(before, parent, node@.name) is None);
            }
            law_insert_keeps_tree(before, ino, node@);
            law_remove_keeps_tree(before.insert(ino, node@), (ino + 1) as u64, ino);
            assert(before.insert(ino, node@).remove(ino) =~= before);
        }
        self.next_inode = ino + 1;
        self.tree.insert(node);
        match self.node_as_entry(ino) {
            Ok(entry) => {
                let has_payload: bool = !matches!(kind, EntryKind::Directory);
                Ok(Creation { ino, parent, entry, has_payload })
            },
            Err(error) => {
                if matches!(kind, EntryKind::Directory) {
                    self.tree.remove(ino);
                }
                Err(error)
            },
        }
    }

    /// Completes a creation, or undoes it when it could not be recorded. What is returned is to be
    /// recorded too.
    pub fn create_done(
        &mut self,
        ino: u64,
        parent: u64,
        result: Result<(), Errno>,
        now: Timestamp,
    ) -> (r: Result<Option<IndexEntry>, Errno>)
        requires
            old(self).wf(),
            ino != ROOT_INODE,
        ensures
            final(self).wf(),
            match result {
                Ok(()) => {
                    &&& final(self)@ == (FsView {
                        nodes: touched(old(self)@.nodes, parent, now),
                        ..old(self)@
                    })
                    &&& r matches Ok(entry)
                    &&& entry_view(entry) == touch_entry(final(self)@.nodes, parent)
                },
                Err(error) => {
                    &&& final(self)@ == (FsView {
                        nodes: old(self)@.nodes.remove(ino),
                        ..old(self)@
                    })
                    &&& r == Err::<Option<IndexEntry>, Errno>(error)
                },
            },
    {
        match result {
            Ok(()) => Ok(self.touch_directory(parent, now)),
            Err(error) => {
                proof {
                    law_remove_keeps_tree(self@.nodes, self.next_inode, ino);
                }
                self.tree.remove(ino);
                Err(error)
            },
        }
    }

    /// What is to be recorded of a new symbolic link whose target has `length` bytes; the target is
    /// its payload.
    pub fn symlink_entry(&self, ino: u64, length: usize) -> (r: Result<IndexEntry, Errno>)
        requires
            self.wf(),
        ensures
            match entry_for(self@.nodes, ino) {
                Ok(entry) => r matches Ok(e) && e@ == (EntryView {
                    meta: Meta { block_length: length as u64, ..entry.meta },
                    ..entry
                }),
                Err(error) => r == Err::<IndexEntry, Errno>(error),
            },
    {
        match self.node_as_entry(ino) {
            Ok(entry) => {
                let mut entry: IndexEntry = entry;
                entry.block_length = length as u64;
                Ok(entry)
            },
            Err(error) => Err(error),
        }
    }

    /// Completes a symbolic link, or removes it when its target could not be recorded.
    pub fn symlink_done(&mut self, ino: u64, length: usize, result: Result<(), Errno>) -> (r: Result<
        (),
        Errno,
    >)
        requires
            old(self).wf(),
            ino != ROOT_INODE,
        ensures
            final(self).wf(),
            r == result,
            final(self)@ == (FsView {
                nodes: if result is Err {
                    old(self)@.nodes.remove(ino)
                } else if old(self)@.nodes.contains_key(ino) {
                    old(self)@.nodes.insert(
                        ino,
                        NodeView { size: length as u64, ..old(self)@.nodes[ino] },
                    )
                } else {
                    old(self)@.nodes
                },
                ..old(self)@
            }),
    {
        if result.is_err() {
            proof {
                law_remove_keeps_tree(self@.nodes, self.next_inode, ino);
            }
            self.tree.remove(ino);
            return result;
        }
        let copy: Option<FsNode> = match self.tree.get(ino) {
            Some(node) => Some(node.clone()),
            None => None,
        };
        if let Some(node) = copy {
            let mut node: FsNode = node;
            node.size = length as u64;
            proof {
                law_update_keeps_tree(self@.nodes, self.next_inode, ino, node@);
            }
            self.tree.update(node);
        }
        result
    }

    /// Whether a directory has anything in it.
    fn has_children(&self, ino: u64) -> (r: bool)
        requires
            self.wf(),
            self@.nodes.contains_key(ino),
        ensures
            r == (child_list(self@.nodes, ino).len() > 0),
    {
        match self.tree.children(ino) {
            Some(list) => list.len() > 0,
            None => false,
        }
    }

    /// Looks for what is to be removed. Its path is to be removed from the archive; then `removed`
    /// removes it here.
    fn find_removal(&self, parent: u64, name: Option<&str>, directory: bool) -> (r: Result<
        Removal,
        Errno,
    >)
        requires
            self.wf(),
        ensures
            match removable(self@.nodes, parent, text_of(name), directory) {
                Ok((ino, path)) => {
                    &&& r matches Ok(removal)
                    &&& removal.ino == ino
                    &&& removal.path@ == path
                    &&& ino != ROOT_INODE
                },
                Err(error) => r == Err::<Removal, Errno>(error),
            },
    {
        let ino: u64 = match self.find(parent, name) {
            Ok(ino) => ino,
            Err(error) => return Err(error),
        };
        match self.tree.get(ino) {
            Some(node) => {
                let is_dir: bool = matches!(node.kind, EntryKind::Directory);
                if !directory && is_dir {
                    return Err(Errno::IsDirectory);
                }
                if directory && !is_dir {
                    return Err(Errno::NotDirectory);
                }
            },
            None => return Err(Errno::NoEntry),
        }
        if directory && self.has_children(ino) {
            return Err(Errno::NotEmpty);
        }
        match self.tree.path(ino) {
            Ok(path) => Ok(Removal { ino, path }),
            Err(error) => Err(error),
        }
    }

    /// Whether a file or symbolic link can be removed. Its path is to be removed from the archive;
    /// then `removed` removes it here.
    pub fn unlink(&self, parent: u64, name: Option<&str>) -> (r: Result<Removal, Errno>)
        requires
            self.wf(),
        ensures
            match removable(self@.nodes, parent, text_of(name), false) {
                Ok((ino, path)) => {
                    &&& r matches Ok(removal)
                    &&& removal.ino == ino
                    &&& removal.path@ == path
                    &&& ino != ROOT_INODE
                },
                Err(error) => r == Err::<Removal, Errno>(error),
            },
    {
        self.find_removal(parent, name, false)
    }

    /// Whether a directory can be removed. Its path is to be removed from the archive; then
    /// `removed` removes it here.
    pub fn rmdir(&self, parent: u64, name: Option<&str>) -> (r: Result<Removal, Errno>)
        requires
            self.wf(),
        ensures
            match removable(self@.nodes, parent, text_of(name), true) {
                Ok((ino, path)) => {
                    &&& r matches Ok(removal)
                    &&& removal.ino == ino
                    &&& removal.path@ == path
                    &&& ino != ROOT_INODE
                },
                Err(error) => r == Err::<Removal, Errno>(error),
            },
    {
        self.find_removal(parent, name, true)
    }

    /// Removes what the archive does not have any more. What is returned is to be recorded.
    pub fn removed(&mut self, parent: u64, ino: u64, now: Timestamp) -> (r: Option<IndexEntry>)
        requires
            old(self).wf(),
            ino != ROOT_INODE,
        ensures
            final(self).wf(),
            final(self)@ == without(old(self)@, parent, ino, now),
            entry_view(r) == touch_entry(final(self)@.nodes, parent),
    {
        let ghost before = self@;
        self.write_cache.remove(&ino);
        proof {
            law_remove_keeps_tree(self@.nodes, self.next_inode, ino);
        }
        self.tree.remove(ino);
        assert(self@.cache =~= before.cache.remove(ino));
        self.touch_directory(parent, now)
    }

    /// Whether and how a node can be moved; `None` where everything is in place already. What it
    /// replaces is to be removed first, as after `unlink` and `rmdir`.
    pub fn rename(
        &self,
        parent: u64,
        name: Option<&str>,
        new_parent: u64,
        new_name: Option<&str>,
        flags: u32,
    ) -> (r: Result<Option<RenamePlan>, Errno>)
        requires
            self.wf(),
        ensures
            match rename_checked(
                self@.nodes,
                parent,
                text_of(name),
                new_parent,
                text_of(new_name),
                flags,
            ) {
                Ok(None) => r matches Ok(None),
                Ok(Some(view)) => {
                    &&& r matches Ok(Some(plan))
                    &&& plan@ == view
                    &&& plan.replaced is None ==> plan.is_clear(self@.nodes)
                    &&& plan.replaced matches Some(removal) ==> {
                        &&& removal.ino != ROOT_INODE
                        &&& forall|now: Timestamp|
                            plan.is_clear(
                                (#[trigger] without(self@, new_parent, removal.ino, now)).nodes,
                            )
                    }
                },
                Err(error) => r matches Err(e) && e == error,
            },
    {
        if flags & !(RENAME_NOREPLACE | RENAME_EXCHANGE) != 0 {
            return Err(Errno::Invalid);
        }
        if flags & RENAME_EXCHANGE != 0 {
            return Err(Errno::NotSupported);
        }
        match self.validate_parent(parent) {
            Err(error) => return Err(error),
            Ok(()) => {},
        }
        match self.validate_parent(new_parent) {
            Err(error) => return Err(error),
            Ok(()) => {},
        }
        let new_name: String = match validate_name(new_name) {
            Ok(name) => name,
            Err(error) => return Err(error),
        };
        let ino: u64 = match self.find(parent, name) {
            Ok(ino) => ino,
            Err(error) => return Err(error),
        };
        let old_path: String = match self.tree.path(ino) {
            Ok(path) => path,
            Err(error) => return Err(error),
        };
        let kind: EntryKind = match self.tree.get(ino) {
            Some(node) => node.kind,
            None => return Err(Errno::NoEntry),
        };
        if matches!(kind, EntryKind::Directory) {
            match self.tree.climb(new_parent, ino) {
                Err(error) => return Err(error),
                Ok(()) => {},
            }
        }
        let existing: Option<u64> = self.tree.find_child(new_parent, new_name.as_str());
        let mut replaced: Option<Removal> = None;
        if let Some(other) = existing {
            if other == ino {
                return Ok(None);
            }
            if flags & RENAME_NOREPLACE != 0 {
                return Err(Errno::Exists);
            }
            let other_kind: EntryKind = match self.tree.get(other) {
                Some(node) => node.kind,
                None => return Err(Errno::NoEntry),
            };
            match (kind, other_kind) {
                (EntryKind::Directory, EntryKind::Directory) => {
                    if self.has_children(other) {
                        return Err(Errno::NotEmpty);
                    }
                },
                (EntryKind::Directory, _) => return Err(Errno::NotDirectory),
                (_, EntryKind::Directory) => return Err(Errno::IsDirectory),
                _ => {},
            }
            match self.tree.path(other) {
                Ok(path) => {
                    replaced = Some(Removal { ino: other, path });
                },
                Err(error) => return Err(error),
            }
        }
        let plan = RenamePlan { ino, parent, new_parent, new_name, old_path, replaced };
        proof {
            if let Some(removal) = &plan.replaced {
                assert forall|now: Timestamp|
                    plan.is_clear(
                        (#[trigger] without(self@, new_parent, removal.ino, now)).nodes,
                    ) by {
                    let before = self@.nodes;
                    let after = without(self@, new_parent, removal.ino, now).nodes;
                    assert forall|c: u64| is_child(after, c, new_parent) implies (
                    #[trigger] after[c]).name != plan.new_name@ by {
                        assert(is_child(before, c, new_parent));
                        assert(is_child(before, removal.ino, new_parent));
                        assert(before[c].name == after[c].name);
                    }
                }
            }
        }
        Ok(Some(plan))
    }

    /// The path to which the archive is to move the node. What stands above the new place is not
    /// moved there: the archive would refuse it.
    pub fn rename_target(&self, plan: &RenamePlan) -> (r: Result<String, Errno>)
        requires
            self.wf(),
            plan.is_clear(self@.nodes),
        ensures
            match path_of(self@.nodes, plan.new_parent) {
                Err(error) => r == Err::<String, Errno>(error),
                Ok(above) => if is_below(self@.nodes, plan.new_parent, plan.ino) {
                    r == Err::<String, Errno>(Errno::Invalid)
                } else {
                    &&& r matches Ok(path)
                    &&& path@ == child_path(above, plan.new_name@)
                    &&& plan.fits(self@.nodes)
                },
            },
    {
        let above: String = match self.tree.path(plan.new_parent) {
            Ok(path) => path,
            Err(error) => return Err(error),
        };
        proof {
            lemma_climb(self@.nodes, plan.new_parent, plan.ino, self@.nodes.len());
        }
        match self.tree.climb(plan.new_parent, plan.ino) {
            Err(_) => return Err(Errno::Invalid),
            Ok(()) => {},
        }
        let mut path: String = above;
        let ghost start = path@;
        if !path.as_str().is_empty() {
            path.push('/');
        }
        push_text(&mut path, plan.new_name.as_str());
        assert(path@ =~= child_path(start, plan.new_name@));
        Ok(path)
    }

    /// Moves a node that the archive has moved. What is returned is to be recorded.
    pub fn renamed(&mut self, plan: RenamePlan, now: Timestamp) -> (r: Vec<IndexEntry>)
        requires
            old(self).wf(),
            plan.fits(old(self)@.nodes),
        ensures
            final(self).wf(),
            final(self)@ == (FsView {
                nodes: after_rename(old(self)@.nodes, plan@, now),
                ..old(self)@
            }),
            ({
                let nodes = final(self)@.nodes;
                let first = touch_entry(nodes, plan.parent);
                let second = if plan.new_parent != plan.parent {
                    touch_entry(nodes, plan.new_parent)
                } else {
                    None
                };
                views(r@) == optional(first) + optional(second)
            }),
    {
        let ghost before = self@.nodes;
        let copy: Option<FsNode> = match self.tree.get(plan.ino) {
            Some(node) => Some(node.clone()),
            None => None,
        };
        let ghost view = plan@;
        let ino: u64 = plan.ino;
        let parent: u64 = plan.parent;
        let new_parent: u64 = plan.new_parent;
        if let Some(node) = copy {
            let mut node: FsNode = node;
            node.parent = new_parent;
            node.name = plan.new_name;
            node.ctime = now;
            proof {
                assert forall|c: u64| is_child(before, c, new_parent) && c != ino implies (
                #[trigger] before[c]).name != node@.name by {
                    assert(child_named(before, new_parent, node@.name) is None);
                }
                law_relocate_keeps_tree(before, self.next_inode, ino, node@);
            }
            self.tree.relocate(node);
        }
        assert(self@.nodes =~= relocated(before, ino, new_parent, view.new_name, now));
        let mut r: Vec<IndexEntry> = Vec::new();
        self.touch_directory(parent, now);
        if new_parent != parent {
            self.touch_directory(new_parent, now);
        }
        assert(self@.nodes == after_rename(before, view, now));
        if parent != ROOT_INODE {
            match self.node_as_entry(parent) {
                Ok(entry) => r.push(entry),
                Err(_) => {},
            }
        }
        let ghost one = r@;
        assert(views(one) =~= optional(touch_entry(self@.nodes, parent)));
        if new_parent != parent && new_parent != ROOT_INODE {
            match self.node_as_entry(new_parent) {
                Ok(entry) => {
                    r.push(entry);
                    assert(views(r@) =~= views(one).push(entry@));
                },
                Err(_) => {},
            }
        }
        assert(views(r@) =~= optional(touch_entry(self@.nodes, parent)) + optional(
            if new_parent != parent {
                touch_entry(self@.nodes, new_parent)
            } else {
                None
            },
        ));
        r
    }
}

/// An optional value as a sequence.
pub open spec fn optional<A>(value: Option<A>) -> Seq<A> {
    match value {
        Some(value) => seq![value],
        None => Seq::<A>::empty(),
    }
}

/// What is recorded when contents are committed.
pub open spec fn commit_entry(
    nodes: Map<u64, NodeView>,
    ino: u64,
    length: nat,
    now: Timestamp,
) -> Result<
    EntryView,
    Errno,
> {
    match entry_for(nodes, ino) {
        Ok(entry) => Ok(
            EntryView {
                meta: Meta {
                    block_length: length as u64,
                    mtime: now,
                    ctime: now,
                    ..entry.meta
                },
                ..entry
            },
        ),
        Err(error) => Err(error),
    }
}

/// The mounted archive after contents were committed, or with them back in the cache where that
/// failed.
pub open spec fn committed(
    view: FsView,
    ino: u64,
    data: Seq<u8>,
    now: Timestamp,
    succeeded: bool,
) -> FsView {
    if !succeeded {
        FsView { cache: view.cache.insert(ino, data), ..view }
    } else if view.nodes.contains_key(ino) {
        FsView {
            nodes: view.nodes.insert(
                ino,
                NodeView { size: data.len() as u64, mtime: now, ctime: now, ..view.nodes[ino] },
            ),
            ..view
        }
    } else {
        view
    }
}

/// The outcome of a write: the contents after it and the number of bytes written.
pub open spec fn write_outcome(
    view: FsView,
    ino: u64,
    offset: i64,
    data: Seq<u8>,
    append: bool,
) -> Result<Seq<u8>, Errno> {
    match writable(view.nodes, ino, offset) {
        Err(error) => Err(error),
        Ok(()) => if !view.cache.contains_key(ino) {
            Err(Errno::Io)
        } else {
            let contents = view.cache[ino];
            let start = if append {
                contents.len() as int
            } else {
                offset as int
            };
            if start + data.len() > usize::MAX {
                Err(Errno::Invalid)
            } else {
                Ok(overwritten(contents, start, data))
            }
        },
    }
}

impl MossFS {
    /// Whether contents of `ino` are at hand that the archive does not have yet.
    pub fn is_cached(&self, ino: u64) -> (r: bool)
        ensures
            r == self@.cache.contains_key(ino),
    {
        self.write_cache.contains_key(&ino)
    }

    /// The nodes with contents that the archive does not have yet, in any order.
    pub fn pending(&self) -> (r: Vec<u64>)
        ensures
            r@.no_duplicates(),
            forall|ino: u64| #[trigger] r@.contains(ino) <==> self@.cache.contains_key(ino),
    {
        keys_of(&self.write_cache)
    }

    /// The path under which the archive has the contents of a file.
    fn load_file_data(&self, ino: u64) -> (r: Result<String, Errno>)
        requires
            self.wf(),
        ensures
            match stored_path(self@.nodes, ino) {
                Ok(path) => r matches Ok(s) && s@ == path,
                Err(error) => r == Err::<String, Errno>(error),
            },
    {
        match self.tree.get(ino) {
            None => return Err(Errno::NoEntry),
            Some(node) => {
                if matches!(node.kind, EntryKind::Directory) {
                    return Err(Errno::IsDirectory);
                }
            },
        }
        self.tree.path(ino)
    }

    /// What has to be loaded from the archive, and given to `fill_cache`, before the contents of a
    /// file can be changed.
    fn ensure_write_cache(&self, ino: u64) -> (r: Result<Option<String>, Errno>)
        requires
            self.wf(),
        ensures
            is_load(r, to_load(self@, ino)),
    {
        if self.is_cached(ino) {
            return Ok(None);
        }
        match self.load_file_data(ino) {
            Ok(path) => Ok(Some(path)),
            Err(error) => Err(error),
        }
    }

    /// Takes contents that were loaded from the archive.
    pub fn fill_cache(&mut self, ino: u64, data: Vec<u8>)
        requires
            old(self).wf(),
        ensures
            final(self).wf(),
            final(self)@ == (FsView { cache: old(self)@.cache.insert(ino, data@), ..old(self)@ }),
    {
        let ghost before = self@.cache;
        let ghost contents = data@;
        self.write_cache.insert(ino, data);
        assert(self@.cache =~= before.insert(ino, contents));
    }

    /// Replaces the contents of a file and notes the change.
    fn put_contents(&mut self, ino: u64, data: Vec<u8>, now: Timestamp)
        requires
            old(self).wf(),
        ensures
            final(self).wf(),
            final(self)@ == with_contents(old(self)@, ino, data@, now),
    {
        let size: u64 = data.len() as u64;
        let ghost contents = data@;
        self.fill_cache(ino, data);
        let copy: Option<FsNode> = match self.tree.get(ino) {
            Some(node) => Some(node.clone()),
            None => None,
        };
        if let Some(node) = copy {
            let mut node: FsNode = node;
            node.size = size;
            node.mtime = now;
            node.ctime = now;
            proof {
                law_update_keeps_tree(self@.nodes, self.next_inode, ino, node@);
            }
            self.tree.update(node);
        }
        assert(self@ =~= with_contents(old(self)@, ino, contents, now));
    }

    /// What has to be loaded before a file can be cut or extended to `size` bytes.
    pub fn prepare_resize(&self, ino: u64, size: u64) -> (r: Result<Option<String>, Errno>)
        requires
            self.wf(),
        ensures
            size > usize::MAX ==> r == Err::<Option<String>, Errno>(Errno::Invalid),
            size <= usize::MAX ==> is_load(r, to_load(self@, ino)),
    {
        if size > usize::MAX as u64 {
            return Err(Errno::Invalid);
        }
        self.ensure_write_cache(ino)
    }

    /// Cuts a file to `size` bytes, or extends it with zeros. Its contents have to be at hand.
    pub fn set_file_size(&mut self, ino: u64, size: u64, now: Timestamp) -> (r: Result<(), Errno>)
        requires
            old(self).wf(),
        ensures
            final(self).wf(),
            if size > usize::MAX {
                &&& final(self)@ == old(self)@
                &&& r == Err::<(), Errno>(Errno::Invalid)
            } else if !old(self)@.cache.contains_key(ino) {
                &&& final(self)@ == old(self)@
                &&& r == Err::<(), Errno>(Errno::Io)
            } else {
                &&& r is Ok
                &&& final(self)@ == with_contents(
                    old(self)@,
                    ino,
                    resized(old(self)@.cache[ino], size as nat),
                    now,
                )
            },
    {
        if size > usize::MAX as u64 {
            return Err(Errno::Invalid);
        }
        let ghost before = self@;
        match self.write_cache.remove(&ino) {
            None => {
                assert(self@.cache =~= before.cache);
                Err(Errno::Io)
            },
            Some(data) => {
                let mut data: Vec<u8> = data;
                assert(data@ == before.cache[ino]);
                data.resize(size as usize, 0);
                assert(data@ =~= resized(before.cache[ino], size as nat));
                self.put_contents(ino, data, now);
                assert(self@.cache =~= before.cache.insert(
                    ino,
                    resized(before.cache[ino], size as nat),
                ));
                Ok(())
            },
        }
    }

    /// What has to be loaded before a file can be written to.
    pub fn prepare_write(&self, ino: u64, offset: i64) -> (r: Result<Option<String>, Errno>)
        requires
            self.wf(),
        ensures
            match writable(self@.nodes, ino, offset) {
                Err(error) => r == Err::<Option<String>, Errno>(error),
                Ok(()) => is_load(r, to_load(self@, ino)),
            },
    {
        match self.check_write(ino, offset) {
            Err(error) => Err(error),
            Ok(()) => self.ensure_write_cache(ino),
        }
    }

    fn check_write(&self, ino: u64, offset: i64) -> (r: Result<(), Errno>)
        requires
            self.wf(),
        ensures
            r == writable(self@.nodes, ino, offset),
    {
        if offset < 0 {
            return Err(Errno::Invalid);
        }
        match self.tree.get(ino) {
            None => return Err(Errno::NoEntry),
            Some(node) => match node.kind {
                EntryKind::Directory => return Err(Errno::IsDirectory),
                EntryKind::Symlink => return Err(Errno::Invalid),
                EntryKind::File => {},
            },
        }
        if offset as u64 > usize::MAX as u64 {
            return Err(Errno::Invalid);
        }
        Ok(())
    }

    /// Writes to a file whose contents are at hand, from `offset` on or at its end. Tells how many
    /// bytes were written: all.
    pub fn write(&mut self, ino: u64, offset: i64, data: &[u8], append: bool, now: Timestamp) -> (r:
        Result<usize, Errno>)
        requires
            old(self).wf(),
        ensures
            final(self).wf(),
            match write_outcome(old(self)@, ino, offset, data@, append) {
                Ok(contents) => {
                    &&& r == Ok::<usize, Errno>(data.len())
                    &&& final(self)@ == with_contents(old(self)@, ino, contents, now)
                },
                Err(error) => {
                    &&& r == Err::<usize, Errno>(error)
                    &&& final(self)@ == old(self)@
                },
            },
    {
        match self.check_write(ino, offset) {
            Err(error) => return Err(error),
            Ok(()) => {},
        }
        let length: usize = match self.write_cache.get(&ino) {
            None => return Err(Errno::Io),
            Some(contents) => contents.len(),
        };
        let start: usize = if append {
            length
        } else {
            offset as usize
        };
        let end: usize = match start.checked_add(data.len()) {
            None => return Err(Errno::Invalid),
            Some(end) => end,
        };
        let ghost before = self@;
        match self.write_cache.remove(&ino) {
            None => {
                return Err(Errno::Io);
            },
            Some(contents) => {
                let ghost held = contents@;
                let contents: Vec<u8> = overwrite(contents, start, data);
                self.put_contents(ino, contents, now);
                assert(self@.cache =~= before.cache.insert(
                    ino,
                    overwritten(held, start as int, data@),
                ));
            },
        }
        Ok(data.len())
    }

    /// What a read yields, or where it has to be read from.
    pub fn read(&self, ino: u64, offset: i64, size: u32) -> (r: Result<Source, Errno>)
        requires
            self.wf(),
        ensures
            if offset < 0 {
                r matches Err(e) && e == Errno::Invalid
            } else if !self@.nodes.contains_key(ino) {
                r matches Err(e) && e == Errno::NoEntry
            } else if self@.nodes[ino].kind is Directory {
                r matches Err(e) && e == Errno::IsDirectory
            } else if self@.cache.contains_key(ino) {
                r matches Ok(source) && source@ == SourceView::Cached(
                    read_part(self@.cache[ino], offset as int, size as int),
                )
            } else {
                match path_of(self@.nodes, ino) {
                    Ok(path) => r matches Ok(source) && source@ == SourceView::Stored(path),
                    Err(error) => r matches Err(e) && e == error,
                }
            },
    {
        if offset < 0 {
            return Err(Errno::Invalid);
        }
        match self.tree.get(ino) {
            None => return Err(Errno::NoEntry),
            Some(node) => {
                if matches!(node.kind, EntryKind::Directory) {
                    return Err(Errno::IsDirectory);
                }
            },
        }
        if let Some(data) = self.write_cache.get(&ino) {
            return Ok(Source::Cached(slice_of(data.as_slice(), offset, size)));
        }
        match self.load_file_data(ino) {
            Ok(path) => Ok(Source::Stored(path)),
            Err(error) => Err(error),
        }
    }

    /// The target of a symbolic link, or where it has to be read from.
    pub fn readlink(&self, ino: u64) -> (r: Result<Source, Errno>)
        requires
            self.wf(),
        ensures
            if !self@.nodes.contains_key(ino) {
                r matches Err(e) && e == Errno::NoEntry
            } else if self@.nodes[ino].kind !is Symlink {
                r matches Err(e) && e == Errno::Invalid
            } else if self@.cache.contains_key(ino) {
                r matches Ok(source) && source@ == SourceView::Cached(self@.cache[ino])
            } else {
                match path_of(self@.nodes, ino) {
                    Ok(path) => r matches Ok(source) && source@ == SourceView::Stored(path),
                    Err(error) => r matches Err(e) && e == error,
                }
            },
    {
        match self.tree.get(ino) {
            None => return Err(Errno::NoEntry),
            Some(node) => {
                if !matches!(node.kind, EntryKind::Symlink) {
                    return Err(Errno::Invalid);
                }
            },
        }
        if let Some(data) = self.write_cache.get(&ino) {
            let mut copy: Vec<u8> = Vec::new();
            copy.extend_from_slice(data.as_slice());
            assert(copy@ =~= data@);
            return Ok(Source::Cached(copy));
        }
        match self.load_file_data(ino) {
            Ok(path) => Ok(Source::Stored(path)),
            Err(error) => Err(error),
        }
    }

    /// Takes contents out of the cache that are to be recorded; then `commit_done` completes that.
    pub fn commit_inode(&mut self, ino: u64, now: Timestamp) -> (r: Result<Option<Commit>, Errno>)
        requires
            old(self).wf(),
        ensures
            final(self).wf(),
            final(self)@ == (FsView { cache: old(self)@.cache.remove(ino), ..old(self)@ }),
            if !old(self)@.cache.contains_key(ino) {
                r matches Ok(None)
            } else {
                let data = old(self)@.cache[ino];
                match commit_entry(old(self)@.nodes, ino, data.len(), now) {
                    Ok(entry) => {
                        &&& r matches Ok(Some(commit))
                        &&& commit.ino == ino
                        &&& commit.entry@ == entry
                        &&& commit.data@ == data
                        &&& commit.now == now
                    },
                    Err(error) => r matches Err(e) && e == error,
                }
            },
    {
        let ghost before = self@.cache;
        let data: Vec<u8> = match self.write_cache.remove(&ino) {
            Some(data) => data,
            None => {
                assert(self@.cache =~= before.remove(ino));
                return Ok(None);
            },
        };
        assert(self@.cache =~= before.remove(ino));
        let mut entry: IndexEntry = match self.node_as_entry(ino) {
            Ok(entry) => entry,
            Err(error) => return Err(error),
        };
        entry.block_length = data.len() as u64;
        entry.mtime = now;
        entry.ctime = now;
        Ok(Some(Commit { ino, entry, data, now }))
    }

    /// Completes a commit, or puts the contents back when they could not be recorded.
    pub fn commit_done(&mut self, commit: Commit, result: Result<(), Errno>) -> (r: Result<
        (),
        Errno,
    >)
        requires
            old(self).wf(),
        ensures
            final(self).wf(),
            r == result,
            final(self)@ == committed(
                old(self)@,
                commit.ino,
                commit.data@,
                commit.now,
                result is Ok,
            ),
    {
        if result.is_err() {
            self.fill_cache(commit.ino, commit.data);
            return result;
        }
        let copy: Option<FsNode> = match self.tree.get(commit.ino) {
            Some(node) => Some(node.clone()),
            None => None,
        };
        if let Some(node) = copy {
            let mut node: FsNode = node;
            node.size = commit.data.len() as u64;
            node.mtime = commit.now;
            node.ctime = commit.now;
            proof {
                law_update_keeps_tree(self@.nodes, self.next_inode, commit.ino, node@);
            }
            self.tree.update(node);
        }
        result
    }

    /// Whether attributes can be set, among them the size where `resize` says so.
    pub fn check_setattr(&self, ino: u64, resize: bool) -> (r: Result<(), Errno>)
        requires
            self.wf(),
        ensures
            r == if !self@.nodes.contains_key(ino) {
                Err::<(), Errno>(Errno::NoEntry)
            } else if resize && self@.nodes[ino].kind is Directory {
                Err::<(), Errno>(Errno::IsDirectory)
            } else {
                Ok::<(), Errno>(())
            },
    {
        match self.tree.get(ino) {
            None => Err(Errno::NoEntry),
            Some(node) => {
                if resize && matches!(node.kind, EntryKind::Directory) {
                    Err(Errno::IsDirectory)
                } else {
                    Ok(())
                }
            },
        }
    }

    /// Sets attributes other than the size.
    pub fn set_attributes(&mut self, ino: u64, changes: Changes, now: Timestamp)
        requires
            old(self).wf(),
        ensures
            final(self).wf(),
            final(self)@ == (FsView {
                nodes: if old(self)@.nodes.contains_key(ino) {
                    old(self)@.nodes.insert(ino, changed(old(self)@.nodes[ino], changes, now))
                } else {
                    old(self)@.nodes
                },
                ..old(self)@
            }),
    {
        let copy: Option<FsNode> = match self.tree.get(ino) {
            Some(node) => Some(node.clone()),
            None => None,
        };
        if let Some(node) = copy {
            let mut node: FsNode = node;
            if let Some(mode) = changes.mode {
                node.mode = (mode & 0o7777) as u16;
            }
            if let Some(uid) = changes.uid {
                node.uid = uid;
            }
            if let Some(gid) = changes.gid {
                node.gid = gid;
            }
            if let Some(atime) = changes.atime {
                node.atime = atime;
            }
            if let Some(mtime) = changes.mtime {
                node.mtime = mtime;
            }
            node.ctime = now;
            proof {
                assert(node@ =~= changed(self@.nodes[ino], changes, now));
                law_update_keeps_tree(self@.nodes, self.next_inode, ino, node@);
            }
            self.tree.update(node);
        }
    }

    /// Whether a file can be opened.
    pub fn open(&self, ino: u64) -> (r: Result<(), Errno>)
        requires
            self.wf(),
        ensures
            r == if !self@.nodes.contains_key(ino) {
                Err::<(), Errno>(Errno::NoEntry)
            } else if self@.nodes[ino].kind is Directory {
                Err::<(), Errno>(Errno::IsDirectory)
            } else {
                Ok::<(), Errno>(())
            },
    {
        self.check_setattr(ino, true)
    }

    /// The listing of a directory from line `offset` on.
    pub fn readdir(&self, ino: u64, offset: i64) -> (r: Result<Vec<DirEntry>, Errno>)
        requires
            self.wf(),
        ensures
            if offset < 0 {
                r matches Err(e) && e == Errno::Invalid
            } else if !self@.nodes.contains_key(ino) {
                r matches Err(e) && e == Errno::NoEntry
            } else if self@.nodes[ino].kind !is Directory {
                r matches Err(e) && e == Errno::NotDirectory
            } else {
                &&& r matches Ok(lines)
                &&& lines@.map_values(|line: DirEntry| line@) == listing_from(
                    self@.nodes,
                    ino,
                    offset as int,
                )
            },
    {
        if offset < 0 {
            return Err(Errno::Invalid);
        }
        let directory: &FsNode = match self.tree.get(ino) {
            Some(node) => node,
            None => return Err(Errno::NoEntry),
        };
        if !matches!(directory.kind, EntryKind::Directory) {
            return Err(Errno::NotDirectory);
        }
        let list: &Vec<u64> = match self.tree.children(ino) {
            Some(list) => list,
            None => return Err(Errno::NoEntry),
        };
        let ghost nodes = self@.nodes;
        let mut lines: Vec<DirEntry> = Vec::new();
        let total: u128 = list.len() as u128;
        let mut i: u128 = offset as u128;
        assert(lines@.map_values(|line: DirEntry| line@) =~= Seq::<DirEntryView>::empty());
        #[verifier::loop_isolation(false)]
        while i < 2 || i - 2 < total
            invariant
                offset <= i,
                i == offset || i <= total + 2,
                lines@.map_values(|line: DirEntry| line@) == Seq::new(
                    (i - offset) as nat,
                    |k: int| listing_line(nodes, ino, offset + k),
                ),
            decreases total + 2 - i,
        {
            let ghost before = lines@;
            let line: DirEntry = self.line(list, directory, i, Ghost(ino));
            lines.push(line);
            proof {
                assert(lines@.map_values(|line: DirEntry| line@) =~= before.map_values(
                    |line: DirEntry| line@,
                ).push(line@));
                assert(lines@.map_values(|line: DirEntry| line@) =~= Seq::new(
                    (i + 1 - offset) as nat,
                    |k: int| listing_line(nodes, ino, offset + k),
                ));
            }
            i += 1;
        }
        proof {
            assert(lines@.map_values(|line: DirEntry| line@) =~= listing_from(
                nodes,
                ino,
                offset as int,
            ));
        }
        Ok(lines)
    }

    /// How much room there is.
    pub fn statfs(&self) -> (r: Statistics)
        requires
            self.wf(),
        ensures
            r == statistics_of(self@.nodes),
    {
        let used: u64 = self.tree.used_bytes().saturating_add(4095) / 4096;
        let blocks: u64 = used.saturating_add(0x4000_0000);
        let files: u64 = self.tree.len() as u64;
        Statistics {
            blocks,
            free_blocks: blocks - used,
            files: files.saturating_add(0x10_0000),
            free_files: 0x10_0000,
        }
    }

    /// One line of the listing of a directory.
    fn line(&self, list: &Vec<u64>, directory: &FsNode, i: u128, Ghost(ino): Ghost<u64>) -> (r:
        DirEntry)
        requires
            self.wf(),
            list@ == child_list(self@.nodes, ino),
            is_child_list(list@, self@.nodes, ino),
            directory.ino == ino,
            directory@ == self@.nodes[ino],
            i < list.len() + 2,
        ensures
            r@ == listing_line(self@.nodes, ino, i as int),
    {
        let next_offset: i64 = (i + 1) as i64;
        if i == 0 {
            return DirEntry {
                ino: directory.ino,
                next_offset,
                kind: EntryKind::Directory,
                name: copied("."),
            };
        }
        if i == 1 {
            return DirEntry {
                ino: directory.parent,
                next_offset,
                kind: EntryKind::Directory,
                name: copied(".."),
            };
        }
        let c: u64 = list[(i - 2) as usize];
        assert(list@.contains(c));
        assert(is_child(self@.nodes, c, ino));
        match self.tree.get(c) {
            Some(node) => DirEntry {
                ino: c,
                next_offset,
                kind: node.kind,
                name: copied(node.name.as_str()),
            },
            None => DirEntry {
                ino: c,
                next_offset,
                kind: EntryKind::File,
                name: String::new(),
            },
        }
    }
}

/// `contents` with `data` written over it from `start` on.
pub fn overwrite(contents: Vec<u8>, start: usize, data: &[u8]) -> (r: Vec<u8>)
    requires
        start + data.len() <= usize::MAX,
    ensures
        r@ == overwritten(contents@, start as int, data@),
{
    let ghost before = contents@;
    let mut contents: Vec<u8> = contents;
    let end: usize = start + data.len();
    if end > contents.len() {
        contents.resize(end, 0);
    }
    let ghost wide = contents@;
    let mut i: usize = 0;
    #[verifier::loop_isolation(false)]
    while i < data.len()
        invariant
            i <= data.len(),
            contents@.len() == wide.len(),
            forall|k: int|
                0 <= k < wide.len() ==> #[trigger] contents@[k] == if start <= k < start + i {
                    data@[k - start]
                } else {
                    wide[k]
                },
        decreases data.len() - i,
    {
        contents.set(start + i, data[i]);
        i += 1;
    }
    assert(contents@ =~= overwritten(before, start as int, data@));
    contents
}

} // verus!
