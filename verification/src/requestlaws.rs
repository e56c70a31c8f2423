//! What a mounted archive owes to each request: when it succeeds, what it answers, what it changes,
//! and what it leaves alone.
use vstd::prelude::*;
use crate::entry::{EntryKind, EntryView};
use crate::errno::Errno;
use crate::fuse_driver::{after_rename, attr_of, capped_sum, changed, checked_parent, commit_entry,
    committed, creatable, created, entry_for, found, is_creation, is_load, listing_from, new_node,
    optional, overwritten, read_part, removable, rename_checked, resized, statistics_of,
    stored_path, subdirectories, to_load, touch_entry, touched, with_contents, without,
    write_outcome, Changes, Creation, FsView, RenameView};
use crate::laws::lemma_under_chars;
use crate::path::{is_name, is_under, lemma_canonical_nonempty};
use crate::text::precedes;
use crate::time::Timestamp;
use crate::tree::{child_list, child_named, is_child, is_child_list, lemma_list_distinct,
    lemma_total_size, names_of, path_of, path_within, total_size, NodeView, ROOT_INODE};
use crate::treelaws::{is_below, is_tidy, is_tree, law_below_is_under, law_climb_finds_cycles,
    law_every_node_has_a_path, law_insert_keeps_tree};

verus! {

/// After a write a file is as long as it was, or ends where the write ended. The written bytes stand
/// where they were written, those before and behind them are the old ones, and a gap is zeros.
pub proof fn law_written_bytes(contents: Seq<u8>, start: int, data: Seq<u8>)
    requires
        start >= 0,
    ensures
        ({
            let after = overwritten(contents, start, data);
            let end = start + data.len();
            &&& after.len() == if contents.len() >= end {
                contents.len() as int
            } else {
                end
            }
            &&& after.subrange(start, end) == data
            &&& start <= contents.len() ==> after.take(start) == contents.take(start)
            &&& end <= contents.len() ==> after.skip(end) == contents.skip(end)
            &&& start >= contents.len() ==> after.take(start) == contents + Seq::new(
                (start - contents.len()) as nat,
                |i: int| 0u8,
            )
        }),
{
    let after = overwritten(contents, start, data);
    let end = start + data.len();
    assert(after.subrange(start, end) =~= data);
    if start <= contents.len() {
        assert(after.take(start) =~= contents.take(start));
    }
    if end <= contents.len() {
        assert(after.skip(end) =~= contents.skip(end));
    }
    if start >= contents.len() {
        assert(after.take(start) =~= contents + Seq::new(
            (start - contents.len()) as nat,
            |i: int| 0u8,
        ));
    }
}

/// Two writes one behind the other are one write, and a write of what is there changes nothing.
pub proof fn law_writes_compose(contents: Seq<u8>, start: int, first: Seq<u8>, second: Seq<u8>)
    requires
        start >= 0,
    ensures
        overwritten(overwritten(contents, start, first), start + first.len(), second)
            == overwritten(contents, start, first + second),
        start + first.len() <= contents.len() && contents.subrange(start, start + first.len())
            == first ==> overwritten(contents, start, first) == contents,
{
    assert(overwritten(overwritten(contents, start, first), start + first.len(), second)
        =~= overwritten(contents, start, first + second));
    if start + first.len() <= contents.len() && contents.subrange(start, start + first.len())
        == first {
        assert forall|i: int| start <= i < start + first.len() implies contents[i] == first[i
            - start] by {
            assert(contents.subrange(start, start + first.len())[i - start] == contents[i]);
        }
        assert(overwritten(contents, start, first) =~= contents);
    }
}

/// A read yields the bytes that stand from the offset on: as many as were asked for, or as there
/// are.
pub proof fn law_read_bytes(data: Seq<u8>, offset: int, size: int)
    requires
        offset >= 0,
        size >= 0,
    ensures
        ({
            let part = read_part(data, offset, size);
            &&& offset >= data.len() ==> part.len() == 0
            &&& offset + size <= data.len() ==> part == data.subrange(offset, offset + size)
            &&& offset <= data.len() < offset + size ==> part == data.skip(offset)
        }),
{
    if offset + size <= data.len() {
        assert(read_part(data, offset, size) =~= data.subrange(offset, offset + size));
    }
    if offset <= data.len() < offset + size {
        assert(read_part(data, offset, size) =~= data.skip(offset));
    }
}

/// A file that is extended ends in zeros, and cutting it back gives what it was.
pub proof fn law_extended_by_zeros(contents: Seq<u8>, size: nat)
    ensures
        resized(contents, size).len() == size,
        size >= contents.len() ==> resized(contents, size) == contents + Seq::new(
            (size - contents.len()) as nat,
            |i: int| 0u8,
        ),
        size <= contents.len() ==> resized(contents, size) + contents.skip(size as int) == contents,
        size >= contents.len() ==> resized(resized(contents, size), contents.len()) == contents,
{
    if size >= contents.len() {
        assert(resized(contents, size) =~= contents + Seq::new(
            (size - contents.len()) as nat,
            |i: int| 0u8,
        ));
        assert(resized(resized(contents, size), contents.len()) =~= contents);
    }
    if size <= contents.len() {
        assert(resized(contents, size) + contents.skip(size as int) =~= contents);
    }
}

/// A write to a file whose contents are at hand succeeds wherever the file can be addressed, and
/// goes to the offset, or to the end where it is to append. It fails for what is no file, for what
/// is not there, and for what was not loaded.
pub proof fn law_write_succeeds(
    view: FsView,
    ino: u64,
    offset: i64,
    data: Seq<u8>,
    append: bool,
)
    requires
        view.cache.contains_key(ino) ==> view.cache[ino].len() <= usize::MAX,
    ensures
        ({
            let outcome = write_outcome(view, ino, offset, data, append);
            let contents = view.cache[ino];
            let is_file = view.nodes.contains_key(ino) && view.nodes[ino].kind == EntryKind::File;
            &&& offset < 0 ==> outcome == Err::<Seq<u8>, Errno>(Errno::Invalid)
            &&& offset >= 0 && !view.nodes.contains_key(ino) ==> outcome == Err::<Seq<u8>, Errno>(
                Errno::NoEntry,
            )
            &&& offset >= 0 && view.nodes.contains_key(ino) && view.nodes[ino].kind
                == EntryKind::Directory ==> outcome == Err::<Seq<u8>, Errno>(Errno::IsDirectory)
            &&& offset >= 0 && view.nodes.contains_key(ino) && view.nodes[ino].kind
                == EntryKind::Symlink ==> outcome == Err::<Seq<u8>, Errno>(Errno::Invalid)
            &&& 0 <= offset <= usize::MAX && is_file && !view.cache.contains_key(ino) ==> outcome
                == Err::<Seq<u8>, Errno>(Errno::Io)
            &&& 0 <= offset <= usize::MAX && is_file && view.cache.contains_key(ino) && append
                && contents.len() + data.len() <= usize::MAX ==> outcome == Ok::<Seq<u8>, Errno>(
                contents + data,
            )
            &&& 0 <= offset <= usize::MAX && is_file && view.cache.contains_key(ino) && !append
                && offset + data.len() <= usize::MAX ==> {
                &&& outcome matches Ok(after)
                &&& after == overwritten(contents, offset as int, data)
                &&& after.subrange(offset as int, offset + data.len()) == data
                &&& after.len() == if offset + data.len() > contents.len() {
                    offset + data.len()
                } else {
                    contents.len() as int
                }
            }
            &&& offset > usize::MAX && is_file ==> outcome == Err::<Seq<u8>, Errno>(Errno::Invalid)
            &&& 0 <= offset <= usize::MAX && is_file && view.cache.contains_key(ino) && (if append {
                contents.len()
            } else {
                offset as nat
            }) + data.len() > usize::MAX ==> outcome == Err::<Seq<u8>, Errno>(Errno::Invalid)
            &&& outcome is Ok ==> view.cache.contains_key(ino) && is_file && offset >= 0
        }),
{
    if let Ok(after) = write_outcome(view, ino, offset, data, append) {
        let contents = view.cache[ino];
        if append {
            assert(after =~= contents + data);
        } else {
            law_written_bytes(contents, offset as int, data);
        }
    }
}

/// New contents of a file give it their length and a new time of change; all else of it stays, and
/// everything of all other files.
pub proof fn law_contents_change_one_file(
    view: FsView,
    ino: u64,
    contents: Seq<u8>,
    now: Timestamp,
)
    requires
        view.nodes.contains_key(ino),
        contents.len() <= u64::MAX,
    ensures
        ({
            let after = with_contents(view, ino, contents, now);
            let old_node = view.nodes[ino];
            let node = after.nodes[ino];
            &&& after.cache.contains_key(ino) && after.cache[ino] == contents
            &&& node.size == contents.len()
            &&& node.mtime == now && node.ctime == now && node.atime == old_node.atime
            &&& node.name == old_node.name && node.parent == old_node.parent
            &&& node.kind == old_node.kind && node.mode == old_node.mode
            &&& node.uid == old_node.uid && node.gid == old_node.gid
            &&& after.nodes.dom() == view.nodes.dom()
            &&& forall|c: u64| c != ino ==> #[trigger] after.nodes[c] == view.nodes[c]
            &&& after.cache.remove(ino) == view.cache.remove(ino)
            &&& after.next_inode == view.next_inode && after.next_handle == view.next_handle
        }),
{
    let after = with_contents(view, ino, contents, now);
    assert(after.nodes.dom() =~= view.nodes.dom());
    assert(after.cache.remove(ino) =~= view.cache.remove(ino));
}

/// What is at hand needs no loading; a file or link that is not is loaded from its own path; a
/// directory has no contents.
pub proof fn law_contents_come_from_path(view: FsView, next: u64, ino: u64)
    requires
        is_tree(view.nodes, next),
        is_tidy(view.nodes),
    ensures
        view.cache.contains_key(ino) ==> to_load(view, ino) == Ok::<Option<Seq<char>>, Errno>(None),
        !view.cache.contains_key(ino) && !view.nodes.contains_key(ino) ==> to_load(view, ino)
            == Err::<Option<Seq<char>>, Errno>(Errno::NoEntry),
        !view.cache.contains_key(ino) && view.nodes.contains_key(ino) && view.nodes[ino].kind
            == EntryKind::Directory ==> to_load(view, ino) == Err::<Option<Seq<char>>, Errno>(
            Errno::IsDirectory,
        ),
        !view.cache.contains_key(ino) && view.nodes.contains_key(ino) && view.nodes[ino].kind
            != EntryKind::Directory ==> (to_load(view, ino) matches Ok(Some(path)) && path_of(
            view.nodes,
            ino,
        ) == Ok::<Seq<char>, Errno>(path)),
        view.nodes.contains_key(ino) && view.nodes[ino].kind != EntryKind::Directory ==> stored_path(
            view.nodes,
            ino,
        ) == path_of(view.nodes, ino) && path_of(view.nodes, ino) is Ok,
        forall|r: Result<Option<String>, Errno>| #[trigger]
            is_load(r, to_load(view, ino)) ==> match r {
                Ok(None) => view.cache.contains_key(ino),
                Ok(Some(s)) => path_of(view.nodes, ino) == Ok::<Seq<char>, Errno>(s@),
                Err(error) => !view.cache.contains_key(ino) && error == if view.nodes.contains_key(
                    ino,
                ) {
                    Errno::IsDirectory
                } else {
                    Errno::NoEntry
                },
            },
{
    if view.nodes.contains_key(ino) {
        law_every_node_has_a_path(view.nodes, next, ino);
    }
}

/// The path of a node is its name behind the path of its directory.
pub proof fn law_path_is_made_of_names(nodes: Map<u64, NodeView>, next: u64, ino: u64)
    requires
        is_tree(nodes, next),
        is_tidy(nodes),
        nodes.contains_key(ino),
    ensures
        ({
            &&& path_of(nodes, ino) matches Ok(path)
            &&& path_of(nodes, nodes[ino].parent) matches Ok(above)
            &&& if ino == ROOT_INODE {
                path.len() == 0
            } else if nodes[ino].parent == ROOT_INODE {
                path == nodes[ino].name
            } else {
                path == above + seq!['/'] + nodes[ino].name
            }
        }),
{
    law_every_node_has_a_path(nodes, next, ino);
    assert(nodes.contains_key(nodes[ino].parent));
    law_every_node_has_a_path(nodes, next, nodes[ino].parent);
    if ino != ROOT_INODE && nodes[ino].parent != ROOT_INODE {
        let above = path_of(nodes, nodes[ino].parent)->Ok_0;
        assert(above.push('/') + nodes[ino].name =~= above + seq!['/'] + nodes[ino].name);
        lemma_canonical_nonempty(above);
    }
}

/// A lookup finds what has the name in the directory, and fails only where nothing has it or where
/// there is no such directory.
pub proof fn law_lookup_finds(
    nodes: Map<u64, NodeView>,
    next: u64,
    parent: u64,
    name: Seq<char>,
    c: u64,
)
    requires
        is_tree(nodes, next),
    ensures
        ({
            let is_dir = nodes.contains_key(parent) && nodes[parent].kind == EntryKind::Directory;
            let answer = found(nodes, parent, Some(name));
            &&& is_dir && nodes.contains_key(c) && c != ROOT_INODE && nodes[c].parent == parent
                && nodes[c].name == name ==> answer == Ok::<u64, Errno>(c)
            &&& answer matches Ok(d) ==> is_dir && nodes.contains_key(d) && nodes[d].parent
                == parent && nodes[d].name == name && d != ROOT_INODE
            &&& answer matches Err(error) ==> error == if nodes.contains_key(parent) && !is_dir {
                Errno::NotDirectory
            } else {
                Errno::NoEntry
            }
            &&& found(nodes, parent, None) is Err
            &&& is_dir ==> found(nodes, parent, None)->Err_0 == Errno::NoEntry
        }),
{
    if nodes.contains_key(c) && c != ROOT_INODE && nodes[c].parent == parent && nodes[c].name
        == name {
        assert(is_child(nodes, c, parent) && nodes[c].name == name);
        let d = child_named(nodes, parent, name)->Some_0;
        assert(is_child(nodes, d, parent) && nodes[d].name == name);
    }
}

/// The attributes of a node are what the node has. Its blocks hold its size and no block more; a
/// file has one link.
pub proof fn law_attributes_are_shown(nodes: Map<u64, NodeView>, ino: u64)
    ensures
        ({
            let attr = attr_of(nodes, ino);
            let node = nodes[ino];
            &&& attr.ino == ino
            &&& attr.size == node.size
            &&& attr.kind == node.kind
            &&& attr.perm == node.mode
            &&& attr.uid == node.uid && attr.gid == node.gid
            &&& attr.atime == node.atime && attr.mtime == node.mtime && attr.ctime == node.ctime
            &&& node.size <= u64::MAX - 511 ==> attr.blocks * 512 >= node.size && attr.blocks * 512
                < node.size + 512
            &&& node.size > u64::MAX - 511 ==> attr.blocks == u64::MAX / 512
            &&& node.kind != EntryKind::Directory ==> attr.nlink == 1
        }),
{
}

/// The members of a list that are directories.
proof fn lemma_filtered(list: Seq<u64>, nodes: Map<u64, NodeView>)
    requires
        list.no_duplicates(),
    ensures
        list.filter(|c: u64| nodes[c].kind is Directory).to_set() == list.to_set().filter(
            |c: u64| nodes[c].kind == EntryKind::Directory,
        ),
        list.filter(|c: u64| nodes[c].kind is Directory).no_duplicates(),
    decreases list.len(),
{
    let is_dir = |c: u64| nodes[c].kind is Directory;
    reveal(Seq::filter);
    if list.len() > 0 {
        let less = list.drop_last();
        lemma_filtered(less, nodes);
        let some = less.filter(is_dir);
        assert forall|c: u64| list.contains(c) <==> less.contains(c) || c == list.last() by {
            if list.contains(c) {
                let i = choose|i: int| 0 <= i < list.len() && list[i] == c;
                if i < less.len() {
                    assert(less[i] == c);
                }
            }
            if less.contains(c) {
                let i = choose|i: int| 0 <= i < less.len() && less[i] == c;
                assert(list[i] == c);
            }
            assert(list[list.len() - 1] == list.last());
        }
        assert(!less.contains(list.last())) by {
            if less.contains(list.last()) {
                let i = choose|i: int| 0 <= i < less.len() && less[i] == list.last();
                assert(list[i] == list[list.len() - 1]);
            }
        }
        let all = list.filter(is_dir);
        assert(some.to_set().contains(list.last()) == some.contains(list.last()));
        assert(!some.contains(list.last())) by {
            assert(less.to_set().contains(list.last()) == less.contains(list.last()));
        }
        assert forall|c: u64| all.contains(c) <==> some.contains(c) || (is_dir(list.last()) && c
            == list.last()) by {
            if is_dir(list.last()) {
                assert(all =~= some.push(list.last()));
                if some.contains(c) {
                    let i = choose|i: int| 0 <= i < some.len() && some[i] == c;
                    assert(all[i] == c);
                }
                assert(all[all.len() - 1] == list.last());
                if all.contains(c) {
                    let i = choose|i: int| 0 <= i < all.len() && all[i] == c;
                    if i < some.len() {
                        assert(some[i] == c);
                    }
                }
            } else {
                assert(all =~= some);
            }
        }
        assert forall|c: u64| all.to_set().contains(c) <==> list.to_set().filter(
            |c: u64| nodes[c].kind == EntryKind::Directory,
        ).contains(c) by {
            assert(some.to_set().contains(c) == some.contains(c));
            assert(less.to_set().contains(c) == less.contains(c));
            assert(list.to_set().contains(c) == list.contains(c));
            assert(all.to_set().contains(c) == all.contains(c));
        }
        assert(all.to_set() =~= list.to_set().filter(
            |c: u64| nodes[c].kind == EntryKind::Directory,
        ));
        if is_dir(list.last()) {
            assert(all =~= some.push(list.last()));
            assert(all.no_duplicates());
        } else {
            assert(all =~= some);
        }
    } else {
        assert(list.filter(is_dir) =~= Seq::<u64>::empty());
        assert(list.filter(is_dir).to_set() =~= list.to_set().filter(
            |c: u64| nodes[c].kind == EntryKind::Directory,
        ));
    }
}

/// A directory has two links, and one more for each directory that stands in it.
pub proof fn law_directory_links(nodes: Map<u64, NodeView>, ino: u64)
    requires
        nodes.dom().finite(),
        nodes.contains_key(ino),
        nodes[ino].kind == EntryKind::Directory,
        is_child_list(child_list(nodes, ino), nodes, ino),
    ensures
        ({
            let inside = nodes.dom().filter(
                |c: u64|
                    c != ROOT_INODE && nodes[c].parent == ino && nodes[c].kind
                        == EntryKind::Directory,
            );
            inside.len() + 2 <= u32::MAX ==> attr_of(nodes, ino).nlink == inside.len() + 2
        }),
{
    let list = child_list(nodes, ino);
    let inside = nodes.dom().filter(
        |c: u64| c != ROOT_INODE && nodes[c].parent == ino && nodes[c].kind == EntryKind::Directory,
    );
    lemma_list_distinct(list, nodes, ino);
    lemma_filtered(list, nodes);
    let dirs = subdirectories(nodes, ino);
    assert(dirs.to_set() =~= inside) by {
        assert forall|c: u64| dirs.to_set().contains(c) <==> inside.contains(c) by {
            assert(list.to_set().contains(c) == list.contains(c));
            assert(list.contains(c) <==> is_child(nodes, c, ino));
        }
    }
    dirs.unique_seq_to_set();
}

/// What the archive is told of a node is what its attributes show, under the path of the node.
pub proof fn law_recorded_as_shown(nodes: Map<u64, NodeView>, next: u64, ino: u64)
    requires
        is_tree(nodes, next),
        is_tidy(nodes),
    ensures
        !nodes.contains_key(ino) ==> entry_for(nodes, ino) == Err::<EntryView, Errno>(
            Errno::NoEntry,
        ),
        nodes.contains_key(ino) ==> {
            let attr = attr_of(nodes, ino);
            &&& entry_for(nodes, ino) matches Ok(entry)
            &&& path_of(nodes, ino) == Ok::<Seq<char>, Errno>(entry.path)
            &&& entry.meta.kind == attr.kind
            &&& entry.meta.mode == attr.perm
            &&& entry.meta.uid == attr.uid && entry.meta.gid == attr.gid
            &&& entry.meta.atime == attr.atime && entry.meta.mtime == attr.mtime
            &&& entry.meta.ctime == attr.ctime
            &&& entry.meta.block_length == attr.size && entry.meta.start_byte == 0
            &&& ino != ROOT_INODE ==> touch_entry(nodes, ino) == Some(entry)
        },
        touch_entry(nodes, ROOT_INODE) is None,
{
    if nodes.contains_key(ino) {
        law_every_node_has_a_path(nodes, next, ino);
    }
}

/// A change in a directory sets its two times, and nothing else of it or of anything else.
pub proof fn law_touching_sets_times(nodes: Map<u64, NodeView>, ino: u64, now: Timestamp)
    ensures
        ({
            let after = touched(nodes, ino, now);
            &&& after.dom() == nodes.dom()
            &&& forall|c: u64| c != ino ==> #[trigger] after[c] == nodes[c]
            &&& nodes.contains_key(ino) ==> {
                let node = after[ino];
                let old_node = nodes[ino];
                &&& node.mtime == now && node.ctime == now && node.atime == old_node.atime
                &&& node.name == old_node.name && node.parent == old_node.parent
                &&& node.kind == old_node.kind && node.mode == old_node.mode
                &&& node.uid == old_node.uid && node.gid == old_node.gid
                &&& node.size == old_node.size
            }
        }),
{
    assert(touched(nodes, ino, now).dom() =~= nodes.dom());
}

/// A node is made where its directory is there and its name is proper and free: with the attributes
/// asked for, empty, under the next number, and recorded under its path. Else nothing is made.
pub proof fn law_create_succeeds(
    view: FsView,
    parent: u64,
    name: Seq<char>,
    kind: EntryKind,
    mode: u32,
    uid: u32,
    gid: u32,
    now: Timestamp,
)
    requires
        is_tree(view.nodes, view.next_inode),
        is_tidy(view.nodes),
        view.next_inode < u64::MAX,
    ensures
        ({
            let nodes = view.nodes;
            let (after, outcome) = created(view, parent, Some(name), kind, mode, uid, gid, now);
            let is_dir = nodes.contains_key(parent) && nodes[parent].kind == EntryKind::Directory;
            let taken = exists|c: u64| is_child(nodes, c, parent) && (#[trigger] nodes[c]).name == name;
            &&& !nodes.contains_key(parent) ==> outcome is Err && outcome->Err_0 == Errno::NoEntry
            &&& nodes.contains_key(parent) && !is_dir ==> outcome is Err && outcome->Err_0
                == Errno::NotDirectory
            &&& is_dir && !is_name(name) ==> outcome is Err && outcome->Err_0 == Errno::Invalid
            &&& is_dir && is_name(name) && taken ==> outcome is Err && outcome->Err_0
                == Errno::Exists
            &&& outcome is Err ==> after == view
            &&& is_dir && is_name(name) && !taken ==> {
                let node = after.nodes[view.next_inode];
                let above = path_of(nodes, parent)->Ok_0;
                &&& outcome is Ok
                &&& after.nodes.dom() == nodes.dom().insert(view.next_inode)
                &&& forall|c: u64| #[trigger] nodes.contains_key(c) ==> after.nodes[c] == nodes[c]
                &&& after.cache == view.cache
                &&& after.next_inode == view.next_inode + 1
                &&& after.next_handle == view.next_handle
                &&& node.name == name && node.parent == parent && node.kind == kind
                &&& node.mode == (mode & 0o7777) as u16
                &&& node.uid == uid && node.gid == gid && node.size == 0
                &&& node.atime == now && node.mtime == now && node.ctime == now
                &&& outcome->Ok_0.path == if parent == ROOT_INODE {
                    name
                } else {
                    above + seq!['/'] + name
                }
                &&& outcome->Ok_0.meta.kind == kind
                &&& outcome->Ok_0.meta.block_length == 0
                &&& entry_for(after.nodes, view.next_inode) == outcome
            }
            &&& is_dir ==> creatable(nodes, parent, None) == Err::<(), Errno>(Errno::Invalid)
            &&& !is_dir ==> creatable(nodes, parent, None) == checked_parent(nodes, parent)
        }),
{
    let nodes = view.nodes;
    let (after, outcome) = created(view, parent, Some(name), kind, mode, uid, gid, now);
    let is_dir = nodes.contains_key(parent) && nodes[parent].kind == EntryKind::Directory;
    let taken = exists|c: u64| is_child(nodes, c, parent) && (#[trigger] nodes[c]).name == name;
    if is_dir && is_name(name) && !taken {
        let ino = view.next_inode;
        let node = new_node(parent, name, kind, mode, uid, gid, now);
        let made = nodes.insert(ino, node);
        law_insert_keeps_tree(nodes, ino, node);
        law_every_node_has_a_path(made, (ino + 1) as u64, ino);
        law_path_is_made_of_names(made, (ino + 1) as u64, ino);
        assert(parent != ino);
        lemma_path_stays(nodes, view.next_inode, node, parent);
        assert(after.nodes.dom() =~= nodes.dom().insert(ino));
    }
}

/// The paths of other nodes stay when one is added.
proof fn lemma_path_stays(nodes: Map<u64, NodeView>, next: u64, node: NodeView, ino: u64)
    requires
        is_tree(nodes, next),
        is_tidy(nodes),
        next < u64::MAX,
        nodes.contains_key(node.parent),
        nodes[node.parent].kind is Directory,
        is_name(node.name),
        forall|c: u64|
            is_child(nodes, c, node.parent) ==> (#[trigger] nodes[c]).name != node.name,
        nodes.contains_key(ino),
    ensures
        path_of(nodes.insert(next, node), ino) == path_of(nodes, ino),
{
    let made = nodes.insert(next, node);
    law_insert_keeps_tree(nodes, next, node);
    law_every_node_has_a_path(nodes, next, ino);
    lemma_same_steps(nodes, made, next, ino, nodes.len());
    assert(made.dom() =~= nodes.dom().insert(next));
    assert(made.len() == nodes.len() + 1);
    lemma_fuel(made, ino, nodes.len());
}

proof fn lemma_same_steps(
    nodes: Map<u64, NodeView>,
    made: Map<u64, NodeView>,
    next: u64,
    ino: u64,
    fuel: nat,
)
    requires
        is_tidy(nodes),
        nodes.contains_key(ino),
        forall|c: u64| #[trigger] nodes.contains_key(c) ==> made.contains_key(c) && made[c]
            == nodes[c],
    ensures
        path_within(made, ino, fuel) == path_within(nodes, ino, fuel),
    decreases fuel,
{
    if ino != ROOT_INODE && fuel > 0 {
        assert(nodes.contains_key(nodes[ino].parent));
        lemma_same_steps(nodes, made, next, nodes[ino].parent, (fuel - 1) as nat);
    }
}

proof fn lemma_fuel(nodes: Map<u64, NodeView>, ino: u64, fuel: nat)
    requires
        path_within(nodes, ino, fuel) is Ok,
    ensures
        path_within(nodes, ino, fuel + 1) == path_within(nodes, ino, fuel),
    decreases fuel,
{
    if ino != ROOT_INODE && fuel > 0 {
        lemma_fuel(nodes, nodes[ino].parent, (fuel - 1) as nat);
    }
}

/// A file or link can be removed, and an empty directory, each by its own request. A full directory
/// stays, and so does what was named by the wrong request.
pub proof fn law_remove_succeeds(
    nodes: Map<u64, NodeView>,
    next: u64,
    parent: u64,
    name: Seq<char>,
    c: u64,
)
    requires
        is_tree(nodes, next),
        is_tidy(nodes),
        nodes.contains_key(c) ==> is_child_list(child_list(nodes, c), nodes, c),
    ensures
        ({
            let as_file = removable(nodes, parent, Some(name), false);
            let as_dir = removable(nodes, parent, Some(name), true);
            let path = path_of(nodes, c)->Ok_0;
            let is_full = exists|d: u64| #[trigger] is_child(nodes, d, c);
            &&& is_child(nodes, c, parent) && nodes[c].name == name ==> {
                &&& path_of(nodes, c) is Ok
                &&& nodes[c].kind != EntryKind::Directory ==> as_file == Ok::<
                    (u64, Seq<char>),
                    Errno,
                >((c, path))
                &&& nodes[c].kind != EntryKind::Directory ==> as_dir == Err::<
                    (u64, Seq<char>),
                    Errno,
                >(Errno::NotDirectory)
                &&& nodes[c].kind == EntryKind::Directory ==> as_file == Err::<
                    (u64, Seq<char>),
                    Errno,
                >(Errno::IsDirectory)
                &&& nodes[c].kind == EntryKind::Directory && is_full ==> as_dir == Err::<
                    (u64, Seq<char>),
                    Errno,
                >(Errno::NotEmpty)
                &&& nodes[c].kind == EntryKind::Directory && !is_full ==> as_dir == Ok::<
                    (u64, Seq<char>),
                    Errno,
                >((c, path))
            }
            &&& found(nodes, parent, Some(name)) matches Err(error) ==> as_file == Err::<
                (u64, Seq<char>),
                Errno,
            >(error) && as_dir == Err::<(u64, Seq<char>), Errno>(error)
            &&& removable(nodes, parent, None, false) == Err::<(u64, Seq<char>), Errno>(
                found(nodes, parent, None)->Err_0,
            )
            &&& removable(nodes, parent, None, true) == removable(nodes, parent, None, false)
        }),
{
    law_lookup_finds(nodes, next, parent, name, c);
    if is_child(nodes, c, parent) && nodes[c].name == name {
        assert(nodes.contains_key(nodes[c].parent));
        law_every_node_has_a_path(nodes, next, c);
        let list = child_list(nodes, c);
        if list.len() > 0 {
            assert(list.contains(list[0]));
            assert(is_child(nodes, list[0], c));
        }
        if exists|d: u64| #[trigger] is_child(nodes, d, c) {
            let d = choose|d: u64| #[trigger] is_child(nodes, d, c);
            assert(list.contains(d));
        }
    }
}

/// A removal takes away the node and its contents, and sets the times of its directory. All else
/// stays.
pub proof fn law_removal_takes_one(view: FsView, parent: u64, ino: u64, now: Timestamp)
    requires
        parent != ino,
    ensures
        ({
            let after = without(view, parent, ino, now);
            &&& after.nodes.dom() == view.nodes.dom().remove(ino)
            &&& after.cache == view.cache.remove(ino)
            &&& forall|c: u64| c != ino && c != parent ==> #[trigger] after.nodes[c]
                == view.nodes[c]
            &&& view.nodes.contains_key(parent) ==> after.nodes[parent] == (NodeView {
                mtime: now,
                ctime: now,
                ..view.nodes[parent]
            })
            &&& after.next_inode == view.next_inode && after.next_handle == view.next_handle
        }),
{
    assert(without(view, parent, ino, now).nodes.dom() =~= view.nodes.dom().remove(ino));
}

/// What a move needs: both directories, a node of the old name, and a proper new name.
pub open spec fn is_movable(
    nodes: Map<u64, NodeView>,
    ino: u64,
    parent: u64,
    new_parent: u64,
    new_name: Seq<char>,
) -> bool {
    &&& nodes.contains_key(parent) && nodes[parent].kind == EntryKind::Directory
    &&& nodes.contains_key(new_parent) && nodes[new_parent].kind == EntryKind::Directory
    &&& nodes.contains_key(ino) && ino != ROOT_INODE && nodes[ino].parent == parent
    &&& new_name.len() > 0 && new_name != seq!['.'] && new_name != seq!['.', '.']
    &&& forall|i: int|
        0 <= i < new_name.len() ==> new_name[i] != '/' && new_name[i] != '\\' && new_name[i] != '\0'
}

proof fn lemma_flags()
    ensures
        0u32 & !(1u32 | 2u32) == 0,
        0u32 & 2u32 == 0,
        0u32 & 1u32 == 0,
        1u32 & !(1u32 | 2u32) == 0,
        1u32 & 2u32 == 0,
        1u32 & 1u32 != 0,
        2u32 & !(1u32 | 2u32) == 0,
        2u32 & 2u32 != 0,
        3u32 & !(1u32 | 2u32) == 0,
        3u32 & 2u32 != 0,
{
    assert(0u32 & !(1u32 | 2u32) == 0) by (bit_vector);
    assert(0u32 & 2u32 == 0) by (bit_vector);
    assert(0u32 & 1u32 == 0) by (bit_vector);
    assert(1u32 & !(1u32 | 2u32) == 0) by (bit_vector);
    assert(1u32 & 2u32 == 0) by (bit_vector);
    assert(1u32 & 1u32 != 0) by (bit_vector);
    assert(2u32 & !(1u32 | 2u32) == 0) by (bit_vector);
    assert(2u32 & 2u32 != 0) by (bit_vector);
    assert(3u32 & !(1u32 | 2u32) == 0) by (bit_vector);
    assert(3u32 & 2u32 != 0) by (bit_vector);
}

proof fn lemma_other_flags(flags: u32)
    requires
        flags > 3,
    ensures
        flags & !(1u32 | 2u32) != 0,
{
    assert(flags > 3 ==> flags & !(1u32 | 2u32) != 0) by (bit_vector);
}

/// A move to a place where nothing is succeeds, unless it leads below what is moved. Nothing is
/// replaced then.
pub proof fn law_move_to_free_place(
    nodes: Map<u64, NodeView>,
    next: u64,
    ino: u64,
    parent: u64,
    new_parent: u64,
    new_name: Seq<char>,
    flags: u32,
)
    requires
        is_tree(nodes, next),
        is_tidy(nodes),
        is_movable(nodes, ino, parent, new_parent, new_name),
        flags == 0 || flags == 1,
        forall|c: u64| is_child(nodes, c, new_parent) ==> (#[trigger] nodes[c]).name != new_name,
        nodes[ino].kind == EntryKind::Directory ==> !is_below(nodes, new_parent, ino),
    ensures
        ({
            let outcome = rename_checked(
                nodes,
                parent,
                Some(nodes[ino].name),
                new_parent,
                Some(new_name),
                flags,
            );
            &&& outcome matches Ok(Some(plan))
            &&& plan.ino == ino && plan.parent == parent && plan.new_parent == new_parent
            &&& plan.new_name == new_name
            &&& plan.replaced is None
            &&& path_of(nodes, ino) == Ok::<Seq<char>, Errno>(plan.old_path)
        }),
{
    lemma_flags();
    law_lookup_finds(nodes, next, parent, nodes[ino].name, ino);
    law_every_node_has_a_path(nodes, next, ino);
    law_climb_finds_cycles(nodes, next, new_parent, ino);
}

/// A move onto something else replaces it where both are no directories, or both are and the one
/// to go is empty; the plan names what is replaced and its path. With the flag against replacing,
/// and only then, it fails because something is there. A directory never takes the place of a file,
/// nor a file that of a directory.
pub proof fn law_move_replaces(
    nodes: Map<u64, NodeView>,
    next: u64,
    ino: u64,
    other: u64,
    parent: u64,
    new_parent: u64,
    flags: u32,
)
    requires
        is_tree(nodes, next),
        is_tidy(nodes),
        is_child(nodes, other, new_parent),
        is_movable(nodes, ino, parent, new_parent, nodes[other].name),
        is_child_list(child_list(nodes, other), nodes, other),
        other != ino,
        flags == 0 || flags == 1,
        nodes[ino].kind == EntryKind::Directory ==> !is_below(nodes, new_parent, ino),
    ensures
        ({
            let outcome = rename_checked(
                nodes,
                parent,
                Some(nodes[ino].name),
                new_parent,
                Some(nodes[other].name),
                flags,
            );
            let from_dir = nodes[ino].kind == EntryKind::Directory;
            let to_dir = nodes[other].kind == EntryKind::Directory;
            let is_full = exists|d: u64| #[trigger] is_child(nodes, d, other);
            &&& flags == 1 ==> outcome == Err::<Option<RenameView>, Errno>(Errno::Exists)
            &&& flags == 0 && from_dir && !to_dir ==> outcome == Err::<Option<RenameView>, Errno>(
                Errno::NotDirectory,
            )
            &&& flags == 0 && !from_dir && to_dir ==> outcome == Err::<Option<RenameView>, Errno>(
                Errno::IsDirectory,
            )
            &&& flags == 0 && from_dir && to_dir && is_full ==> outcome == Err::<
                Option<RenameView>,
                Errno,
            >(Errno::NotEmpty)
            &&& flags == 0 && from_dir == to_dir && (to_dir ==> !is_full) ==> {
                &&& outcome matches Ok(Some(plan))
                &&& plan.ino == ino && plan.parent == parent && plan.new_parent == new_parent
                &&& plan.new_name == nodes[other].name
                &&& plan.replaced matches Some((gone, path))
                &&& gone == other
                &&& path_of(nodes, other) == Ok::<Seq<char>, Errno>(path)
                &&& path_of(nodes, ino) == Ok::<Seq<char>, Errno>(plan.old_path)
            }
        }),
{
    lemma_flags();
    law_lookup_finds(nodes, next, parent, nodes[ino].name, ino);
    law_lookup_finds(nodes, next, new_parent, nodes[other].name, other);
    law_every_node_has_a_path(nodes, next, ino);
    law_every_node_has_a_path(nodes, next, other);
    law_climb_finds_cycles(nodes, next, new_parent, ino);
    let list = child_list(nodes, other);
    if list.len() > 0 {
        assert(list.contains(list[0]));
        assert(is_child(nodes, list[0], other));
    }
    if exists|d: u64| #[trigger] is_child(nodes, d, other) {
        let d = choose|d: u64| #[trigger] is_child(nodes, d, other);
        assert(list.contains(d));
    }
}

/// A move to where a node already is does nothing. A directory is never moved below itself. What is
/// not there cannot be moved, nor anything to where no directory is or to what is no name. Two nodes
/// are never exchanged, and other flags are refused.
pub proof fn law_move_fails(
    nodes: Map<u64, NodeView>,
    next: u64,
    parent: u64,
    name: Seq<char>,
    new_parent: u64,
    new_name: Seq<char>,
    flags: u32,
    ino: u64,
)
    requires
        is_tree(nodes, next),
        is_tidy(nodes),
    ensures
        ({
            let outcome = rename_checked(nodes, parent, Some(name), new_parent, Some(new_name), flags);
            let dirs = nodes.contains_key(parent) && nodes[parent].kind == EntryKind::Directory
                && nodes.contains_key(new_parent) && nodes[new_parent].kind == EntryKind::Directory;
            let plain = flags == 0 || flags == 1;
            &&& flags > 3 ==> outcome == Err::<Option<RenameView>, Errno>(Errno::Invalid)
            &&& flags == 2 || flags == 3 ==> outcome == Err::<Option<RenameView>, Errno>(
                Errno::NotSupported,
            )
            &&& plain && checked_parent(nodes, parent) is Err ==> outcome == Err::<
                Option<RenameView>,
                Errno,
            >(checked_parent(nodes, parent)->Err_0)
            &&& plain && checked_parent(nodes, parent) is Ok && checked_parent(nodes, new_parent)
                is Err ==> outcome == Err::<Option<RenameView>, Errno>(
                checked_parent(nodes, new_parent)->Err_0,
            )
            &&& plain && dirs && !is_name(new_name) ==> outcome == Err::<Option<RenameView>, Errno>(
                Errno::Invalid,
            )
            &&& plain && dirs && is_name(new_name) && (forall|c: u64|
                is_child(nodes, c, parent) ==> (#[trigger] nodes[c]).name != name) ==> outcome
                == Err::<Option<RenameView>, Errno>(Errno::NoEntry)
            &&& plain && is_movable(nodes, ino, parent, new_parent, new_name) && nodes[ino].name
                == name && nodes[ino].kind == EntryKind::Directory && is_below(
                nodes,
                new_parent,
                ino,
            ) ==> outcome == Err::<Option<RenameView>, Errno>(Errno::Invalid)
            &&& plain && is_movable(nodes, ino, parent, parent, name) && nodes[ino].name == name
                && new_parent == parent && new_name == name ==> outcome == Ok::<
                Option<RenameView>,
                Errno,
            >(None)
            &&& plain && dirs ==> rename_checked(nodes, parent, Some(name), new_parent, None, flags)
                == Err::<Option<RenameView>, Errno>(Errno::Invalid)
            &&& plain && dirs && is_name(new_name) ==> rename_checked(
                nodes,
                parent,
                None,
                new_parent,
                Some(new_name),
                flags,
            ) == Err::<Option<RenameView>, Errno>(Errno::NoEntry)
            &&& rename_checked(nodes, parent, Some(name), new_parent, None, flags) is Err
            &&& rename_checked(nodes, parent, None, new_parent, Some(new_name), flags) is Err
        }),
{
    lemma_flags();
    if flags > 3 {
        lemma_other_flags(flags);
    }
    law_lookup_finds(nodes, next, parent, name, ino);
    if child_named(nodes, parent, name) is Some {
        let c = child_named(nodes, parent, name)->Some_0;
        assert(is_child(nodes, c, parent) && nodes[c].name == name);
    }
    if nodes.contains_key(ino) {
        law_every_node_has_a_path(nodes, next, ino);
    }
    if nodes.contains_key(new_parent) {
        law_climb_finds_cycles(nodes, next, new_parent, ino);
    }
    if is_movable(nodes, ino, parent, parent, name) && nodes[ino].name == name {
        lemma_not_in_itself(nodes, next, ino);
    }
}

/// A directory is not below what stands in it.
proof fn lemma_not_in_itself(nodes: Map<u64, NodeView>, next: u64, ino: u64)
    requires
        is_tree(nodes, next),
        is_tidy(nodes),
        nodes.contains_key(ino),
        ino != ROOT_INODE,
    ensures
        !is_below(nodes, nodes[ino].parent, ino),
{
    let parent = nodes[ino].parent;
    assert(nodes.contains_key(parent));
    law_every_node_has_a_path(nodes, next, ino);
    law_every_node_has_a_path(nodes, next, parent);
    law_below_is_under(nodes, next, parent, ino);
    let path = path_of(nodes, ino)->Ok_0;
    let above = path_of(nodes, parent)->Ok_0;
    assert(nodes[ino].name.len() > 0);
    assert(above.len() < path.len());
    if is_under(above, path) {
        lemma_under_chars(above, path);
    }
}

/// A move gives a node its new place and name and a new time of change, and touches the directories
/// it left and came to. Nothing else of it changes, nor anything else at all.
pub proof fn law_move_changes(nodes: Map<u64, NodeView>, plan: RenameView, now: Timestamp)
    requires
        nodes.contains_key(plan.ino),
        plan.ino != plan.parent,
        plan.ino != plan.new_parent,
    ensures
        ({
            let after = after_rename(nodes, plan, now);
            let node = after[plan.ino];
            let old_node = nodes[plan.ino];
            &&& after.dom() == nodes.dom()
            &&& node.name == plan.new_name && node.parent == plan.new_parent
            &&& node.ctime == now && node.mtime == old_node.mtime && node.atime == old_node.atime
            &&& node.kind == old_node.kind && node.mode == old_node.mode
            &&& node.uid == old_node.uid && node.gid == old_node.gid && node.size == old_node.size
            &&& nodes.contains_key(plan.parent) ==> after[plan.parent].mtime == now
                && after[plan.parent].ctime == now
            &&& nodes.contains_key(plan.new_parent) ==> after[plan.new_parent].mtime == now
                && after[plan.new_parent].ctime == now
            &&& forall|c: u64| #[trigger] nodes.contains_key(c) && c != plan.ino ==> after[c]
                == (NodeView { mtime: after[c].mtime, ctime: after[c].ctime, ..nodes[c] })
            &&& forall|c: u64| c != plan.ino && c != plan.parent && c != plan.new_parent
                ==> #[trigger] after[c] == nodes[c]
        }),
{
    assert(after_rename(nodes, plan, now).dom() =~= nodes.dom());
}

/// Attributes that are given are set, those that are not stay, and the time of change is new.
pub proof fn law_set_attributes(node: NodeView, changes: Changes, now: Timestamp)
    ensures
        ({
            let after = changed(node, changes, now);
            &&& match changes.mode {
                Some(mode) => after.mode == (mode & 0o7777) as u16,
                None => after.mode == node.mode,
            }
            &&& match changes.uid {
                Some(uid) => after.uid == uid,
                None => after.uid == node.uid,
            }
            &&& match changes.gid {
                Some(gid) => after.gid == gid,
                None => after.gid == node.gid,
            }
            &&& match changes.atime {
                Some(atime) => after.atime == atime,
                None => after.atime == node.atime,
            }
            &&& match changes.mtime {
                Some(mtime) => after.mtime == mtime,
                None => after.mtime == node.mtime,
            }
            &&& after.ctime == now
            &&& after.name == node.name && after.parent == node.parent && after.kind == node.kind
            &&& after.size == node.size
        }),
{
}

/// A listing holds first the directory itself and the one above it, then lines for what stands in it:
/// each with the number of a node, its name and the kind that its attributes show.
pub proof fn law_listing_shows_directory(nodes: Map<u64, NodeView>, ino: u64, i: int)
    requires
        is_child_list(child_list(nodes, ino), nodes, ino),
        child_list(nodes, ino).len() + 2 <= i64::MAX,
        0 <= i < listing_from(nodes, ino, 0).len(),
    ensures
        listing_from(nodes, ino, 0).len() >= 2,
        ({
            let line = listing_from(nodes, ino, 0)[i];
            &&& line.next_offset == i + 1
            &&& i == 0 ==> line.ino == ino && line.name == "."@ && line.kind == EntryKind::Directory
            &&& i == 1 ==> line.ino == nodes[ino].parent && line.name == ".."@ && line.kind
                == EntryKind::Directory
            &&& i >= 2 ==> {
                &&& nodes.contains_key(line.ino) && line.ino != ROOT_INODE
                &&& nodes[line.ino].parent == ino
                &&& line.name == nodes[line.ino].name
                &&& line.kind == attr_of(nodes, line.ino).kind
                &&& line.kind == nodes[line.ino].kind
            }
        }),
{
    let list = child_list(nodes, ino);
    if i >= 2 {
        assert(list.contains(list[i - 2]));
        assert(is_child(nodes, list[i - 2], ino));
    }
}

/// Everything that stands in a directory has one line in its listing, and no more.
pub proof fn law_listing_shows_each_once(nodes: Map<u64, NodeView>, ino: u64, c: u64)
    requires
        is_child_list(child_list(nodes, ino), nodes, ino),
        nodes.contains_key(c),
        c != ROOT_INODE,
        nodes[c].parent == ino,
    ensures
        ({
            let lines = listing_from(nodes, ino, 0);
            exists|i: int|
                2 <= i < lines.len() && (#[trigger] lines[i]).ino == c && forall|j: int|
                    2 <= j < lines.len() && j != i ==> (#[trigger] lines[j]).ino != c
        }),
{
    let lines = listing_from(nodes, ino, 0);
    let list = child_list(nodes, ino);
    lemma_list_distinct(list, nodes, ino);
    assert(is_child(nodes, c, ino));
    assert(list.contains(c));
    let k = choose|k: int| 0 <= k < list.len() && list[k] == c;
    assert(lines[k + 2].ino == c);
    assert forall|j: int| 2 <= j < lines.len() && j != k + 2 implies (#[trigger] lines[j]).ino
        != c by {
        assert(list[j - 2] != list[k]);
    }
}

/// What stands in a directory is listed in the order of the names.
pub proof fn law_listing_is_ordered(nodes: Map<u64, NodeView>, ino: u64, i: int, j: int)
    requires
        is_child_list(child_list(nodes, ino), nodes, ino),
        2 <= i < j < listing_from(nodes, ino, 0).len(),
    ensures
        precedes(listing_from(nodes, ino, 0)[i].name, listing_from(nodes, ino, 0)[j].name),
{
    let names = names_of(child_list(nodes, ino), nodes);
    assert(names[i - 2] == listing_from(nodes, ino, 0)[i].name);
    assert(names[j - 2] == listing_from(nodes, ino, 0)[j].name);
}

/// A listing that is resumed goes on where it stopped.
pub proof fn law_listing_resumes(nodes: Map<u64, NodeView>, ino: u64, offset: int)
    requires
        offset >= 0,
    ensures
        ({
            let lines = listing_from(nodes, ino, 0);
            &&& offset <= lines.len() ==> listing_from(nodes, ino, offset) == lines.skip(offset)
            &&& offset > lines.len() ==> listing_from(nodes, ino, offset).len() == 0
        }),
{
    let lines = listing_from(nodes, ino, 0);
    if offset <= lines.len() {
        assert(listing_from(nodes, ino, offset) =~= lines.skip(offset));
    }
}

/// The sizes of all nodes add up: each node counts once with its size.
pub proof fn law_sizes_add_up(nodes: Map<u64, NodeView>, ino: u64, node: NodeView)
    requires
        nodes.dom().finite(),
        !nodes.contains_key(ino),
    ensures
        total_size(nodes.insert(ino, node)) == total_size(nodes) + node.size,
        total_size(Map::<u64, NodeView>::empty()) == 0,
{
    let more = nodes.insert(ino, node);
    lemma_total_size(more, ino);
    assert(more.remove(ino) =~= nodes);
}

/// Space is counted in blocks that hold all sizes and no block more. Beyond what is used there is
/// always the same room, for bytes and for nodes.
pub proof fn law_room(nodes: Map<u64, NodeView>)
    requires
        total_size(nodes) + 4095 <= u64::MAX,
        nodes.len() + 0x10_0000 <= u64::MAX,
    ensures
        ({
            let room = statistics_of(nodes);
            let used = room.blocks - room.free_blocks;
            &&& used * 4096 >= total_size(nodes) && used * 4096 < total_size(nodes) + 4096
            &&& room.free_blocks == 0x4000_0000
            &&& room.files == nodes.len() + 0x10_0000
            &&& room.free_files == 0x10_0000
        }),
{
}

/// What is committed is recorded with its length and the time of the commit, and else as the
/// attributes show it; the node then shows the same.
pub proof fn law_commit_is_shown(
    view: FsView,
    next: u64,
    ino: u64,
    data: Seq<u8>,
    now: Timestamp,
)
    requires
        is_tree(view.nodes, next),
        is_tidy(view.nodes),
        view.nodes.contains_key(ino),
        data.len() <= u64::MAX,
    ensures
        ({
            let before = attr_of(view.nodes, ino);
            let done = committed(view, ino, data, now, true);
            let after = attr_of(done.nodes, ino);
            let failed = committed(view, ino, data, now, false);
            &&& commit_entry(view.nodes, ino, data.len(), now) matches Ok(entry)
            &&& path_of(view.nodes, ino) == Ok::<Seq<char>, Errno>(entry.path)
            &&& entry.meta.block_length == data.len()
            &&& entry.meta.mtime == now && entry.meta.ctime == now
            &&& entry.meta.atime == before.atime
            &&& entry.meta.kind == before.kind && entry.meta.mode == before.perm
            &&& entry.meta.uid == before.uid && entry.meta.gid == before.gid
            &&& after.size == data.len() && after.mtime == now && after.ctime == now
            &&& after.atime == before.atime && after.kind == before.kind
            &&& after.perm == before.perm && after.uid == before.uid && after.gid == before.gid
            &&& done.cache == view.cache
            &&& done.nodes.dom() == view.nodes.dom()
            &&& forall|c: u64| c != ino ==> #[trigger] done.nodes[c] == view.nodes[c]
            &&& failed.nodes == view.nodes
            &&& failed.cache.contains_key(ino) && failed.cache[ino] == data
            &&& failed.cache.remove(ino) == view.cache.remove(ino)
        }),
{
    law_every_node_has_a_path(view.nodes, next, ino);
    let done = committed(view, ino, data, now, true);
    let failed = committed(view, ino, data, now, false);
    assert(done.nodes.dom() =~= view.nodes.dom());
    assert(failed.cache.remove(ino) =~= view.cache.remove(ino));
}

/// Counts stop at the largest number instead of starting again.
pub proof fn law_counts_are_capped(a: u64, b: u64)
    ensures
        a + b <= u64::MAX ==> capped_sum(a as int, b as int) == a + b,
        a + b > u64::MAX ==> capped_sum(a as int, b as int) == u64::MAX,
{
}

/// Nothing is found or made in what is not there, nor in what is no directory. The root has the first
/// number.
pub proof fn law_parents(nodes: Map<u64, NodeView>, parent: u64)
    ensures
        checked_parent(nodes, parent) is Ok <==> nodes.contains_key(parent) && nodes[parent].kind
            == EntryKind::Directory,
        !nodes.contains_key(parent) ==> checked_parent(nodes, parent) == Err::<(), Errno>(
            Errno::NoEntry,
        ),
        nodes.contains_key(parent) && nodes[parent].kind != EntryKind::Directory ==> checked_parent(
            nodes,
            parent,
        ) == Err::<(), Errno>(Errno::NotDirectory),
        ROOT_INODE == 1,
{
}

/// What is made is recorded under its number and its parent's, with a payload unless it is a
/// directory.
pub proof fn law_creation(c: Creation, ino: u64, parent: u64, entry: EntryView)
    requires
        is_creation(c, ino, parent, entry),
    ensures
        c.ino == ino,
        c.parent == parent,
        c.entry@ == entry,
        entry.meta.kind == EntryKind::File || entry.meta.kind == EntryKind::Symlink
            ==> c.has_payload,
        entry.meta.kind == EntryKind::Directory ==> !c.has_payload,
{
}

/// Of two entries that may have to be recorded, those that have to are, in order.
pub proof fn law_entries_to_record(first: EntryView, second: EntryView)
    ensures
        optional(Some(first)) + optional(Some(second)) == seq![first, second],
        optional(Some(first)) + optional(None::<EntryView>) == seq![first],
        optional(None::<EntryView>) + optional(Some(second)) == seq![second],
        optional(None::<EntryView>).len() == 0,
{
    assert(optional(Some(first)) + optional(Some(second)) =~= seq![first, second]);
    assert(optional(Some(first)) + optional(None::<EntryView>) =~= seq![first]);
    assert(optional(None::<EntryView>) + optional(Some(second)) =~= seq![second]);
}

} // verus!
