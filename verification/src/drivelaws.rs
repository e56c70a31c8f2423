//! What an archive that is mounted as a drive owes to each request: when it succeeds, what it
//! answers, what it changes, and what it leaves alone.
use vstd::prelude::*;
use crate::entry::EntryKind;
use crate::error::StorageError;
use crate::fuse_driver::overwritten;
use crate::path::{cleaned, is_under, law_moved_back, moved};
use crate::requestlaws::law_written_bytes;
use crate::time::Timestamp;
use crate::windows_driver::{file_name, find_lines, info_of, is_win_load, mode_for, move_checked,
    named_path, parent_text, relocated_map, shown_attributes, tree_list, utf16_decoded,
    win_cleaned_up, win_entry, win_moved, win_opened, win_resizable, win_with_contents,
    win_without_tree, win_writable, win_write_outcome, with_member, without_member, without_path,
    CreateView, NtStatus, WinNode, WinView};
use crate::winlaws::lemma_tree_list;

verus! {

/// A request to open the root succeeds and changes nothing. Below a directory that is not there
/// nothing is opened.
pub proof fn law_open_root(
    view: WinView,
    path: Seq<char>,
    attributes: u32,
    disposition: u32,
    options: u32,
    now: Timestamp,
)
    ensures
        ({
            let (after, answer) = win_opened(view, path, attributes, disposition, options, now);
            &&& path.len() == 0 ==> {
                &&& after == view
                &&& answer matches Ok(opened)
                &&& opened.is_dir && !opened.new_file_created && !opened.delete_on_close
                &&& opened.record is None
                &&& opened.path == path
            }
            &&& path.len() > 0 && parent_text(path).len() > 0 && !view.nodes.contains_key(
                parent_text(path),
            ) ==> after == view && answer == Err::<CreateView, NtStatus>(
                NtStatus::ObjectPathNotFound,
            )
            &&& answer is Err ==> after == view
        }),
{
}

/// What is there is opened as it is by the plain requests to open. A request to overwrite leaves a
/// file that is empty, at hand and in size, with the attributes given and new times. A request that
/// may only create fails, and no directory is overwritten. A directory is not opened as a file, nor
/// a file as a directory.
pub proof fn law_open_what_is_there(
    view: WinView,
    path: Seq<char>,
    attributes: u32,
    disposition: u32,
    options: u32,
    now: Timestamp,
)
    requires
        path.len() > 0,
        parent_text(path).len() == 0 || view.nodes.contains_key(parent_text(path)),
        view.nodes.contains_key(path),
    ensures
        ({
            let (after, answer) = win_opened(view, path, attributes, disposition, options, now);
            let node = view.nodes[path];
            let is_dir = node.kind == EntryKind::Directory;
            let fits = (options & 0x1 != 0 ==> is_dir) && (options & 0x40 != 0 ==> !is_dir);
            let overwrites = disposition == 0 || disposition == 4 || disposition == 5;
            &&& options & 0x1 != 0 && !is_dir ==> answer == Err::<CreateView, NtStatus>(
                NtStatus::NotADirectory,
            )
            &&& options & 0x1 == 0 && options & 0x40 != 0 && is_dir ==> answer == Err::<
                CreateView,
                NtStatus,
            >(NtStatus::FileIsADirectory)
            &&& fits && (disposition == 1 || disposition == 3) ==> {
                &&& after == view
                &&& answer matches Ok(opened)
                &&& opened.path == path && opened.is_dir == is_dir && !opened.new_file_created
                &&& opened.record is None
                &&& opened.delete_on_close == (options & 0x1000 != 0)
            }
            &&& fits && disposition == 2 ==> answer == Err::<CreateView, NtStatus>(
                NtStatus::ObjectNameCollision,
            )
            &&& fits && overwrites && is_dir ==> answer == Err::<CreateView, NtStatus>(
                NtStatus::AccessDenied,
            )
            &&& fits && overwrites && !is_dir ==> {
                &&& answer matches Ok(opened)
                &&& opened.path == path && !opened.is_dir && !opened.new_file_created
                &&& opened.record is None
                &&& opened.delete_on_close == (options & 0x1000 != 0)
                &&& after.cache.contains_key(path) && after.cache[path].len() == 0
                &&& after.cache.remove(path) == view.cache.remove(path)
                &&& after.nodes.contains_key(path)
                &&& after.nodes[path].size == 0 && after.nodes[path].attrs == attributes
                &&& after.nodes[path].mtime == now && after.nodes[path].ctime == now
                &&& after.nodes[path].atime == node.atime && after.nodes[path].kind == node.kind
                &&& after.nodes[path].mode == node.mode
                &&& after.nodes.remove(path) == view.nodes.remove(path)
                &&& after.children == view.children
                &&& info_of(after, path).file_size == 0
            }
            &&& fits && disposition > 5 ==> answer == Err::<CreateView, NtStatus>(
                NtStatus::InvalidParameter,
            )
            &&& answer is Err ==> after == view
        }),
{
    let (after, answer) = win_opened(view, path, attributes, disposition, options, now);
    if answer is Ok {
        assert(after.cache.remove(path) =~= view.cache.remove(path));
        assert(after.nodes.remove(path) =~= view.nodes.remove(path));
    }
}

/// What is not there is made, as a directory where one is wanted and else as an empty file, by the
/// requests that may create; it is to be recorded as it is shown. The others do not find it.
pub proof fn law_open_what_is_not_there(
    view: WinView,
    path: Seq<char>,
    attributes: u32,
    disposition: u32,
    options: u32,
    now: Timestamp,
)
    requires
        path.len() > 0,
        parent_text(path).len() == 0 || view.nodes.contains_key(parent_text(path)),
        !view.nodes.contains_key(path),
    ensures
        ({
            let (after, answer) = win_opened(view, path, attributes, disposition, options, now);
            let creates = disposition == 0 || disposition == 2 || disposition == 3 || disposition
                == 5;
            let is_dir = options & 0x1 != 0;
            let read_only = attributes & 0x1 != 0;
            let node = after.nodes[path];
            let parent = parent_text(path);
            &&& disposition == 1 || disposition == 4 ==> answer == Err::<CreateView, NtStatus>(
                NtStatus::ObjectNameNotFound,
            )
            &&& disposition > 5 ==> answer == Err::<CreateView, NtStatus>(
                NtStatus::InvalidParameter,
            )
            &&& answer is Err ==> after == view
            &&& creates ==> {
                &&& answer matches Ok(opened)
                &&& opened.path == path && opened.is_dir == is_dir && opened.new_file_created
                &&& opened.delete_on_close == (options & 0x1000 != 0)
                &&& opened.record matches Some(entry)
                &&& entry.path == path
                &&& entry.meta.kind == node.kind && entry.meta.mode == node.mode
                &&& entry.meta.block_length == 0
                &&& entry.meta.atime == now && entry.meta.mtime == now && entry.meta.ctime == now
                &&& after.nodes.dom() == view.nodes.dom().insert(path)
                &&& after.nodes.remove(path) == view.nodes
                &&& after.cache == view.cache
                &&& after.children.contains_key(parent)
                &&& after.children[parent].last() == path
                &&& view.children.contains_key(parent) && parent != path ==> after.children[parent]
                    == view.children[parent] + seq![path]
                &&& !view.children.contains_key(path) && parent != path
                    ==> after.children.contains_key(path) && after.children[path].len() == 0
                &&& node.kind == if is_dir {
                    EntryKind::Directory
                } else {
                    EntryKind::File
                }
                &&& node.size == 0
                &&& node.atime == now && node.mtime == now && node.ctime == now
                &&& node.mode == if is_dir {
                    if read_only {
                        0o555u16
                    } else {
                        0o755u16
                    }
                } else {
                    if read_only {
                        0o444u16
                    } else {
                        0o644u16
                    }
                }
                &&& node.attrs == if is_dir {
                    0x10u32
                } else if read_only {
                    0x1u32
                } else {
                    0x80u32
                }
            }
        }),
{
    let (after, answer) = win_opened(view, path, attributes, disposition, options, now);
    assert(0o444u16 & 0o222 == 0) by (bit_vector);
    assert(0o644u16 & 0o222 != 0) by (bit_vector);
    if answer is Ok {
        assert(after.nodes.dom() =~= view.nodes.dom().insert(path));
        assert(after.nodes.remove(path) =~= view.nodes);
    }
}

/// A file that was made or overwritten and opened again is the same, and is not made again.
pub proof fn law_open_twice(
    view: WinView,
    path: Seq<char>,
    attributes: u32,
    disposition: u32,
    options: u32,
    now: Timestamp,
    later: Timestamp,
)
    requires
        path.len() > 0,
        options & 0x40 == 0 || options & 0x1 == 0,
    ensures
        ({
            let (after, answer) = win_opened(view, path, attributes, disposition, options, now);
            let (again, second) = win_opened(after, path, attributes, 1, options, later);
            answer is Ok ==> {
                &&& second is Ok
                &&& again == after
                &&& !second->Ok_0.new_file_created
                &&& second->Ok_0.is_dir == answer->Ok_0.is_dir
            }
        }),
{
}

/// The attributes of a mode: those of a directory, of a file that may not be written, or of any
/// other.
pub proof fn law_attributes_of_modes(mode: u16, kind: EntryKind)
    ensures
        kind == EntryKind::Directory ==> shown_attributes(mode, kind) == 0x10,
        kind != EntryKind::Directory && mode & 0o222 == 0 ==> shown_attributes(mode, kind) == 0x1,
        kind != EntryKind::Directory && mode & 0o222 != 0 ==> shown_attributes(mode, kind) == 0x80,
{
}

/// The mode of attributes: a link may be all, a directory can be entered, and only what is not
/// read-only can be written by its owner.
pub proof fn law_modes_of_attributes(attributes: u32)
    ensures
        mode_for(attributes, EntryKind::Symlink) == 0o777,
        attributes & 0x1 != 0 ==> mode_for(attributes, EntryKind::File) == 0o444,
        attributes & 0x1 == 0 ==> mode_for(attributes, EntryKind::File) == 0o644,
        attributes & 0x1 != 0 ==> mode_for(attributes, EntryKind::Directory) == 0o555,
        attributes & 0x1 == 0 ==> mode_for(attributes, EntryKind::Directory) == 0o755,
{
}

/// What is recorded of a node is what the node has.
pub proof fn law_drive_records_nodes(path: Seq<char>, node: WinNode)
    ensures
        ({
            let entry = win_entry(path, node);
            &&& entry.path == path
            &&& entry.meta.kind == node.kind && entry.meta.mode == node.mode
            &&& entry.meta.block_length == node.size
            &&& entry.meta.atime == node.atime && entry.meta.mtime == node.mtime
            &&& entry.meta.ctime == node.ctime
            &&& entry.meta.uid == 0 && entry.meta.gid == 0
        }),
{
}

/// Closing what is to be deleted takes it away with the contents at hand, and has the archive remove
/// it; but a directory with something in it stays. Nothing else goes.
pub proof fn law_delete_on_close(view: WinView, path: Seq<char>)
    ensures
        ({
            let (after, gone) = win_cleaned_up(view, path);
            let is_full = view.children.contains_key(path) && view.children[path].len() > 0;
            let stays = view.nodes.contains_key(path) && view.nodes[path].kind
                == EntryKind::Directory && is_full;
            &&& gone == !stays
            &&& after.cache == view.cache.remove(path)
            &&& stays ==> after.nodes == view.nodes && after.children == view.children
            &&& !stays ==> after.nodes == view.nodes.remove(path) && after.children
                == without_member(view.children, path)
        }),
{
}

/// New contents of a file give it their length and a new time of change; all else of it stays, and
/// everything of all other files.
pub proof fn law_drive_contents_change_one_file(
    view: WinView,
    path: Seq<char>,
    contents: Seq<u8>,
    now: Timestamp,
)
    requires
        view.nodes.contains_key(path),
        contents.len() <= u64::MAX,
    ensures
        ({
            let after = win_with_contents(view, path, contents, now);
            let old_node = view.nodes[path];
            let node = after.nodes[path];
            &&& after.cache.contains_key(path) && after.cache[path] == contents
            &&& after.cache.remove(path) == view.cache.remove(path)
            &&& node.size == contents.len() && node.mtime == now && node.ctime == now
            &&& node.atime == old_node.atime && node.kind == old_node.kind
            &&& node.mode == old_node.mode && node.attrs == old_node.attrs
            &&& after.nodes.dom() == view.nodes.dom()
            &&& after.nodes.remove(path) == view.nodes.remove(path)
            &&& after.children == view.children
            &&& info_of(after, path).file_size == contents.len()
        }),
{
    let after = win_with_contents(view, path, contents, now);
    assert(after.nodes.dom() =~= view.nodes.dom());
    assert(after.nodes.remove(path) =~= view.nodes.remove(path));
    assert(after.cache.remove(path) =~= view.cache.remove(path));
}

/// A write to a file whose contents are at hand succeeds wherever the file can be addressed, and
/// goes to the offset, or to the end where that is asked. Only files are written to and resized.
pub proof fn law_drive_write_succeeds(
    view: WinView,
    path: Seq<char>,
    offset: i64,
    data: Seq<u8>,
    to_eof: bool,
)
    requires
        view.cache.contains_key(path) ==> view.cache[path].len() <= usize::MAX,
    ensures
        ({
            let outcome = win_write_outcome(view, path, offset, data, to_eof);
            let contents = view.cache[path];
            let is_there = view.nodes.contains_key(path);
            let is_file = is_there && view.nodes[path].kind == EntryKind::File;
            let at_hand = view.cache.contains_key(path);
            &&& offset < 0 ==> outcome == Err::<Seq<u8>, NtStatus>(NtStatus::InvalidParameter)
            &&& offset >= 0 && !is_there ==> outcome == Err::<Seq<u8>, NtStatus>(
                NtStatus::ObjectNameNotFound,
            )
            &&& offset >= 0 && is_there && !is_file ==> outcome == Err::<Seq<u8>, NtStatus>(
                NtStatus::AccessDenied,
            )
            &&& offset >= 0 && is_file && !at_hand ==> outcome == Err::<Seq<u8>, NtStatus>(
                NtStatus::InternalError,
            )
            &&& offset >= 0 && is_file && at_hand && to_eof && contents.len() + data.len()
                <= usize::MAX ==> outcome == Ok::<Seq<u8>, NtStatus>(contents + data)
            &&& offset >= 0 && is_file && at_hand && !to_eof && offset + data.len() <= usize::MAX
                ==> {
                &&& outcome matches Ok(after)
                &&& after == overwritten(contents, offset as int, data)
                &&& after.subrange(offset as int, offset + data.len()) == data
                &&& after.len() == if offset + data.len() > contents.len() {
                    offset + data.len()
                } else {
                    contents.len() as int
                }
            }
            &&& offset >= 0 && is_file && at_hand && (if to_eof {
                contents.len()
            } else {
                offset as nat
            }) + data.len() > usize::MAX ==> outcome == Err::<Seq<u8>, NtStatus>(
                NtStatus::InvalidParameter,
            )
            &&& win_writable(view.nodes, path, offset) is Ok <==> offset >= 0 && is_file
            &&& win_writable(view.nodes, path, offset) is Err ==> outcome == Err::<
                Seq<u8>,
                NtStatus,
            >(win_writable(view.nodes, path, offset)->Err_0)
        }),
{
    if let Ok(after) = win_write_outcome(view, path, offset, data, to_eof) {
        let contents = view.cache[path];
        if to_eof {
            assert(after =~= contents + data);
        } else {
            law_written_bytes(contents, offset as int, data);
        }
    }
}

/// The size of a file can be set to whatever can be addressed; nothing else has a size to set.
pub proof fn law_resizable(nodes: Map<Seq<char>, WinNode>, path: Seq<char>, size: i64)
    ensures
        ({
            let outcome = win_resizable(nodes, path, size);
            let fits = 0 <= size <= usize::MAX;
            &&& !fits ==> outcome == Err::<(), NtStatus>(NtStatus::InvalidParameter)
            &&& fits && !nodes.contains_key(path) ==> outcome == Err::<(), NtStatus>(
                NtStatus::ObjectNameNotFound,
            )
            &&& fits && nodes.contains_key(path) && nodes[path].kind != EntryKind::File ==> outcome
                == Err::<(), NtStatus>(NtStatus::InvalidDeviceRequest)
            &&& fits && nodes.contains_key(path) && nodes[path].kind == EntryKind::File ==> outcome
                == Ok::<(), NtStatus>(())
        }),
{
}

/// What is at hand needs no loading, and what is not is loaded from its own path.
pub proof fn law_drive_load(view: WinView, path: Seq<char>, r: Result<Option<String>, NtStatus>)
    requires
        is_win_load(r, view, path),
    ensures
        r is Ok,
        r->Ok_0 is None <==> view.cache.contains_key(path),
        r->Ok_0 matches Some(s) ==> s@ == path,
{
}

/// What is shown of a file is what its node has, and the size of the contents at hand where there
/// are any. A directory shows as one, and everything shows some attribute.
pub proof fn law_information_is_shown(view: WinView, path: Seq<char>)
    ensures
        ({
            let info = info_of(view, path);
            let node = view.nodes[path];
            &&& info.creation_time == node.ctime && info.last_access_time == node.atime
            &&& info.last_write_time == node.mtime
            &&& view.cache.contains_key(path) && view.cache[path].len() <= u64::MAX
                ==> info.file_size == view.cache[path].len()
            &&& !view.cache.contains_key(path) ==> info.file_size == node.size
            &&& info.attributes != 0
            &&& node.kind == EntryKind::Directory ==> info.attributes & 0x10 != 0
                && info.attributes & !0x10u32 == node.attrs & !0x10u32
            &&& node.kind != EntryKind::Directory && node.attrs != 0 ==> info.attributes
                == node.attrs
            &&& node.kind != EntryKind::Directory && node.attrs == 0 ==> info.attributes == 0x80
        }),
{
    let a = view.nodes[path].attrs;
    assert((a | 0x10u32) & 0x10 != 0) by (bit_vector);
    assert(a | 0x10u32 != 0) by (bit_vector);
    assert((a | 0x10u32) & !0x10u32 == a & !0x10u32) by (bit_vector);
}

/// A path is the part before its last slash, the slash, and a name without slashes; or it is a name
/// alone.
pub proof fn law_directory_and_name(path: Seq<char>)
    ensures
        !file_name(path).contains('/'),
        path.contains('/') ==> path == parent_text(path) + seq!['/'] + file_name(path),
        !path.contains('/') ==> parent_text(path).len() == 0 && file_name(path) == path,
    decreases path.len(),
{
    if path.len() > 0 {
        let less = path.drop_last();
        law_directory_and_name(less);
        assert(path =~= less.push(path.last()));
        if path.last() == '/' {
            assert(path[path.len() - 1] == '/');
            assert(path.contains('/'));
            assert(path =~= parent_text(path) + seq!['/'] + file_name(path));
        } else {
            let name = file_name(path);
            assert(name =~= file_name(less).push(path.last()));
            if name.contains('/') {
                let i = choose|i: int| 0 <= i < name.len() && name[i] == '/';
                assert(file_name(less)[i] == '/');
                assert(file_name(less).contains('/'));
            }
            if path.contains('/') {
                let i = choose|i: int| 0 <= i < path.len() && path[i] == '/';
                assert(less[i] == '/');
                assert(less.contains('/'));
                assert(path =~= parent_text(path) + seq!['/'] + name);
            } else {
                if less.contains('/') {
                    let i = choose|i: int| 0 <= i < less.len() && less[i] == '/';
                    assert(path[i] == '/');
                }
                assert(name =~= path);
            }
        }
    } else {
        assert(file_name(path) =~= path);
    }
}

/// A listing has one line for each path in the list that has a node, in the same order: with the
/// name behind the last slash and with what is shown of the path by itself.
pub proof fn law_find_lines(view: WinView, list: Seq<Seq<char>>)
    requires
        forall|i: int| 0 <= i < list.len() ==> view.nodes.contains_key(#[trigger] list[i]),
    ensures
        find_lines(view, list).len() == list.len(),
        forall|i: int|
            0 <= i < list.len() ==> {
                let line = #[trigger] find_lines(view, list)[i];
                &&& line.0 == info_of(view, list[i])
                &&& line.1 == file_name(list[i])
            },
    decreases list.len(),
{
    if list.len() > 0 {
        let less = list.drop_last();
        assert forall|i: int| 0 <= i < less.len() implies view.nodes.contains_key(
            #[trigger] less[i],
        ) by {
            assert(less[i] == list[i]);
        }
        law_find_lines(view, less);
        assert(view.nodes.contains_key(list[list.len() - 1]));
        assert forall|i: int| 0 <= i < list.len() implies {
            let line = #[trigger] find_lines(view, list)[i];
            &&& line.0 == info_of(view, list[i])
            &&& line.1 == file_name(list[i])
        } by {
            if i < less.len() {
                assert(find_lines(view, list)[i] == find_lines(view, less)[i]);
            }
        }
    }
}

/// A path without a node has no line in a listing, and one with a node has the next.
pub proof fn law_find_lines_skip(view: WinView, list: Seq<Seq<char>>, path: Seq<char>)
    ensures
        find_lines(view, Seq::<Seq<char>>::empty()).len() == 0,
        view.nodes.contains_key(path) ==> find_lines(view, list.push(path)) == find_lines(
            view,
            list,
        ).push((info_of(view, path), file_name(path))),
        !view.nodes.contains_key(path) ==> find_lines(view, list.push(path)) == find_lines(
            view,
            list,
        ),
{
    assert(list.push(path).drop_last() =~= list);
}

/// A move succeeds to a free place in a directory that is there, and onto something else only where
/// replacing is asked for and both are no directories, or both are and the one to go is empty.
pub proof fn law_drive_move_succeeds(
    view: WinView,
    from: Seq<char>,
    to: Seq<char>,
    replace: bool,
)
    ensures
        ({
            let outcome = move_checked(view, from, to, replace);
            let has_place = parent_text(to).len() == 0 || view.nodes.contains_key(parent_text(to));
            let ready = from.len() > 0 && view.nodes.contains_key(from) && has_place && !is_under(
                to,
                from,
            );
            let taken = view.nodes.contains_key(to);
            let from_dir = view.nodes[from].kind == EntryKind::Directory;
            let to_dir = view.nodes[to].kind == EntryKind::Directory;
            let is_full = view.children.contains_key(to) && view.children[to].len() > 0;
            &&& from.len() == 0 ==> outcome == Err::<bool, NtStatus>(NtStatus::AccessDenied)
            &&& from.len() > 0 && !view.nodes.contains_key(from) ==> outcome == Err::<
                bool,
                NtStatus,
            >(NtStatus::ObjectNameNotFound)
            &&& from.len() > 0 && view.nodes.contains_key(from) && !has_place ==> outcome == Err::<
                bool,
                NtStatus,
            >(NtStatus::ObjectPathNotFound)
            &&& from.len() > 0 && view.nodes.contains_key(from) && has_place && is_under(to, from)
                ==> outcome == Err::<bool, NtStatus>(NtStatus::InvalidParameter)
            &&& ready && !taken ==> outcome == Ok::<bool, NtStatus>(false)
            &&& ready && taken && !replace ==> outcome == Err::<bool, NtStatus>(
                NtStatus::ObjectNameCollision,
            )
            &&& ready && taken && replace && from_dir && !to_dir ==> outcome == Err::<
                bool,
                NtStatus,
            >(NtStatus::NotADirectory)
            &&& ready && taken && replace && !from_dir && to_dir ==> outcome == Err::<
                bool,
                NtStatus,
            >(NtStatus::FileIsADirectory)
            &&& ready && taken && replace && from_dir && to_dir && is_full ==> outcome == Err::<
                bool,
                NtStatus,
            >(NtStatus::DirectoryNotEmpty)
            &&& ready && taken && replace && from_dir == to_dir && (to_dir ==> !is_full) ==> outcome
                == Ok::<bool, NtStatus>(true)
        }),
{
}

/// What was at or below `from` is at or below `to`, in the place of what was there, and all else is
/// where it was, as far as `k` is concerned.
pub open spec fn has_moved<V>(
    before: Map<Seq<char>, V>,
    after: Map<Seq<char>, V>,
    from: Seq<char>,
    to: Seq<char>,
    k: Seq<char>,
) -> bool {
    let target = to + k.skip(from.len() as int);
    let source = from + k.skip(to.len() as int);
    &&& before.contains_key(k) && is_under(k, from) ==> after.contains_key(target)
        && after[target] == before[k]
    &&& before.contains_key(k) && !is_under(k, from) && !(is_under(k, to) && before.contains_key(
        source,
    )) ==> after.contains_key(k) && after[k] == before[k]
    &&& is_under(k, from) && !is_under(k, to) ==> !after.contains_key(k)
    &&& after.contains_key(k) ==> before.contains_key(k) || is_under(k, to) && before.contains_key(
        source,
    )
}

/// A move of paths takes what is at and below the old one to the new one, puts it in the place of
/// what is there, and leaves all else where it is.
pub proof fn law_relocation<V>(map: Map<Seq<char>, V>, from: Seq<char>, to: Seq<char>, k: Seq<char>)
    requires
        !is_under(to, from),
    ensures
        has_moved(map, relocated_map(map, from, to), from, to, k),
{
    if map.contains_key(k) && is_under(k, from) {
        law_moved_back(k, from, to);
        assert(moved(k, from, to) == to + k.skip(from.len() as int));
    }
    assert(moved(k, to, from) == from + k.skip(to.len() as int));
}

/// After a move nodes and contents that are not recorded yet are at their new paths.
pub proof fn law_drive_move(view: WinView, from: Seq<char>, to: Seq<char>, k: Seq<char>)
    requires
        !is_under(to, from),
    ensures
        has_moved(view.nodes, win_moved(view, from, to).nodes, from, to, k),
        has_moved(view.cache, win_moved(view, from, to).cache, from, to, k),
{
    law_relocation(view.nodes, from, to, k);
    law_relocation(view.cache, from, to, k);
}

/// What is removed for a move is gone with all that lies below it, and nothing else is. Contents that
/// are not recorded yet stay.
pub proof fn law_drive_replace(view: WinView, top: Seq<char>, k: Seq<char>)
    requires
        view.nodes.dom().finite(),
    ensures
        ({
            let after = win_without_tree(view, top);
            &&& after.nodes.contains_key(k) <==> view.nodes.contains_key(k) && !is_under(k, top)
            &&& after.nodes.contains_key(k) ==> after.nodes[k] == view.nodes[k]
            &&& after.cache == view.cache
        }),
{
    let list = tree_list(view.nodes, top);
    lemma_tree_list(view.nodes, top);
    assert(list.to_set().contains(k) <==> list.contains(k));
}

/// What is new in a directory is listed last in it. What is taken out is no longer listed, nor is
/// what it held; the others stay in order, and other directories are not touched.
pub proof fn law_members(
    lists: Map<Seq<char>, Seq<Seq<char>>>,
    path: Seq<char>,
    d: Seq<char>,
    before: Seq<Seq<char>>,
    behind: Seq<Seq<char>>,
)
    requires
        path != parent_text(path),
        !before.contains(path),
        !behind.contains(path),
    ensures
        ({
            let p = parent_text(path);
            let more = with_member(lists, path);
            let less = without_member(lists, path);
            &&& more.contains_key(p)
            &&& lists.contains_key(p) ==> more[p] == lists[p] + seq![path]
            &&& !lists.contains_key(p) ==> more[p] == seq![path]
            &&& d != p ==> (more.contains_key(d) <==> lists.contains_key(d))
            &&& d != p && lists.contains_key(d) ==> more[d] == lists[d]
            &&& !less.contains_key(path)
            &&& d != path ==> (less.contains_key(d) <==> lists.contains_key(d))
            &&& d != path && d != p && lists.contains_key(d) ==> less[d] == lists[d]
            &&& lists.contains_key(p) && lists[p] == before + seq![path] + behind ==> less[p]
                == before + behind
            &&& lists.contains_key(p) && lists[p] == before ==> less[p] == before
        }),
{
    let p = parent_text(path);
    if lists.contains_key(p) {
        assert(lists[p].push(path) =~= lists[p] + seq![path]);
        lemma_without_path(before, path, behind);
        lemma_kept_whole(before, path);
    }
}

proof fn lemma_kept_whole(list: Seq<Seq<char>>, path: Seq<char>)
    requires
        !list.contains(path),
    ensures
        without_path(list, path) == list,
    decreases list.len(),
{
    reveal(Seq::filter);
    if list.len() > 0 {
        let less = list.drop_last();
        if less.contains(path) {
            let i = choose|i: int| 0 <= i < less.len() && less[i] == path;
            assert(list[i] == path);
        }
        lemma_kept_whole(less, path);
        assert(list[list.len() - 1] == list.last());
        assert(less.push(list.last()) =~= list);
    } else {
        assert(without_path(list, path) =~= list);
    }
}

proof fn lemma_without_path(before: Seq<Seq<char>>, path: Seq<char>, behind: Seq<Seq<char>>)
    requires
        !before.contains(path),
        !behind.contains(path),
    ensures
        without_path(before + seq![path] + behind, path) == before + behind,
    decreases behind.len(),
{
    reveal(Seq::filter);
    let all = before + seq![path] + behind;
    if behind.len() > 0 {
        let less = behind.drop_last();
        if less.contains(path) {
            let i = choose|i: int| 0 <= i < less.len() && less[i] == path;
            assert(behind[i] == path);
        }
        lemma_without_path(before, path, less);
        assert(all.drop_last() =~= before + seq![path] + less);
        assert(behind[behind.len() - 1] == behind.last());
        assert(all.last() == behind.last());
        assert((before + less).push(behind.last()) =~= before + behind);
    } else {
        assert(all.drop_last() =~= before);
        lemma_kept_whole(before, path);
        assert(before + behind =~= before);
    }
}

/// A name from the driver that is no text is refused. One that is text stands for its path; going up
/// is refused as a path, and other faults as a name.
pub proof fn law_names_from_driver(units: Seq<u16>)
    ensures
        utf16_decoded(units) is None ==> named_path(units) == Err::<Seq<char>, NtStatus>(
            NtStatus::ObjectNameInvalid,
        ),
        utf16_decoded(units) matches Some(text) ==> match cleaned(text) {
            Ok(path) => named_path(units) == Ok::<Seq<char>, NtStatus>(path),
            Err(error) => named_path(units) == Err::<Seq<char>, NtStatus>(
                if error == StorageError::ParentTraversal {
                    NtStatus::ObjectPathNotFound
                } else {
                    NtStatus::ObjectNameInvalid
                },
            ),
        },
{
}

} // verus!
