//! What holds of a mounted archive, whatever is asked of it.
use vstd::prelude::*;
use crate::entry::{EntryKind, EntryView, Meta};
use crate::errno::Errno;
use crate::fuse_driver::{after_rename, commit_entry, committed, created, found, new_node,
    overwritten, read_part, relocated, removable, rename_checked, resized, touched, with_contents,
    without, write_outcome, FsView, MossFS, RenameView};
use crate::index::{lemma_listing_map, lemma_sorted_listing, listing_map, paths_of};
use crate::layout::{all_canonical, first_under, is_tidy_listing, laid_out, law_tree_is_tidy,
    law_tree_shows_archive, lemma_first_under, lemma_needed, needed, number_of};
use crate::path::{child_path, is_canonical, is_name, is_under, law_moved_back,
    lemma_canonical_nonempty, lemma_parent_and_name, moved, name_of, parent_of};
use crate::pathmap::is_sorted;
use crate::storage::{came_from, moved_entries, without_tree};
use crate::time::Timestamp;
use crate::tree::{child_list, child_named, is_child, is_child_list, path_of, NodeView, ROOT_INODE};
use crate::treelaws::{ancestor, is_below, is_ranked, is_tidy, is_tree, law_below_is_under,
    law_climb_finds_cycles, law_every_node_has_a_path, law_insert_keeps_tree,
    law_relocate_keeps_tree, law_relocate_moves_paths, law_remove_keeps_tree, law_update_keeps_tree,
    lemma_below_root, lemma_below_step};

verus! {

/// What is written is what is read back from the same place, and what lies before and behind it
/// stays. Where the file was shorter, zeros fill the gap.
pub proof fn law_read_after_write(contents: Seq<u8>, start: int, data: Seq<u8>)
    requires
        start >= 0,
    ensures
        ({
            let after = overwritten(contents, start, data);
            &&& data.len() > 0 ==> read_part(after, start, data.len() as int) == data
            &&& after.len() >= contents.len()
            &&& forall|i: int|
                0 <= i < contents.len() && !(start <= i < start + data.len()) ==> #[trigger] after[i]
                    == contents[i]
            &&& forall|i: int| contents.len() <= i < start && i < after.len() ==> #[trigger] after[i]
                == 0
        }),
{
    let after = overwritten(contents, start, data);
    if data.len() > 0 {
        assert(read_part(after, start, data.len() as int) =~= data);
    }
}

/// Reading all of a file in two pieces gives the same as reading it at once.
pub proof fn law_reads_compose(data: Seq<u8>, offset: int, first: int, second: int)
    requires
        offset >= 0,
        first >= 0,
        second >= 0,
    ensures
        read_part(data, offset, first) + read_part(data, offset + first, second) == read_part(
            data,
            offset,
            first + second,
        ),
{
    assert(read_part(data, offset, first) + read_part(data, offset + first, second) =~= read_part(
        data,
        offset,
        first + second,
    ));
}

/// Cutting or extending a file keeps its beginning and fills it with zeros.
pub proof fn law_resize(contents: Seq<u8>, size: nat)
    ensures
        resized(contents, size).len() == size,
        size <= contents.len() ==> resized(contents, size) == contents.take(size as int),
        size >= contents.len() ==> resized(contents, size).take(contents.len() as int) == contents,
        resized(contents, contents.len()) == contents,
{
    if size <= contents.len() {
        assert(resized(contents, size) =~= contents.take(size as int));
    }
    if size >= contents.len() {
        assert(resized(contents, size).take(contents.len() as int) =~= contents);
    }
    assert(resized(contents, contents.len()) =~= contents);
}

/// The size that a node shows after a write is the length of what a read can yield.
pub proof fn law_write_updates_size(
    view: FsView,
    ino: u64,
    offset: i64,
    data: Seq<u8>,
    append: bool,
    now: Timestamp,
)
    requires
        data.len() <= usize::MAX,
        view.cache.contains_key(ino) ==> view.cache[ino].len() <= usize::MAX,
    ensures
        write_outcome(view, ino, offset, data, append) matches Ok(contents) ==> {
            let after = with_contents(view, ino, contents, now);
            &&& after.nodes[ino].size == contents.len()
            &&& after.cache[ino] == contents
            &&& append ==> contents == view.cache[ino] + data
        },
{
    if let Ok(contents) = write_outcome(view, ino, offset, data, append) {
        if append {
            assert(contents =~= view.cache[ino] + data);
        }
    }
}

/// A commit that fails loses nothing: the contents are back as they were.
pub proof fn law_failed_commit_loses_nothing(view: FsView, ino: u64, now: Timestamp)
    requires
        view.cache.contains_key(ino),
    ensures
        committed(
            FsView { cache: view.cache.remove(ino), ..view },
            ino,
            view.cache[ino],
            now,
            false,
        ) == view,
{
    assert(view.cache.remove(ino).insert(ino, view.cache[ino]) =~= view.cache);
}

/// Of a file that has a path, a commit hands over just the contents' length, and the place under
/// which a read will look for them.
pub proof fn law_commit_records_contents(
    nodes: Map<u64, NodeView>,
    ino: u64,
    length: nat,
    now: Timestamp,
)
    requires
        nodes.contains_key(ino),
        path_of(nodes, ino) is Ok,
        length <= u64::MAX,
    ensures
        commit_entry(nodes, ino, length, now) matches Ok(entry) && entry.path == path_of(
            nodes,
            ino,
        )->Ok_0 && entry.meta.block_length == length && entry.meta.kind == nodes[ino].kind,
{
}

/// A name leads to one node.
proof fn lemma_found(nodes: Map<u64, NodeView>, next: u64, parent: u64, c: u64)
    requires
        is_tree(nodes, next),
        is_child(nodes, c, parent),
    ensures
        child_named(nodes, parent, nodes[c].name) == Some(c),
{
    let name = nodes[c].name;
    assert(is_child(nodes, c, parent) && nodes[c].name == name);
    let d = choose|d: u64| is_child(nodes, d, parent) && (#[trigger] nodes[d]).name == name;
    assert(is_child(nodes, d, parent));
}

/// Notes of a change in a directory change no name.
proof fn lemma_touched_names(nodes: Map<u64, NodeView>, ino: u64, now: Timestamp)
    ensures
        touched(nodes, ino, now).dom() == nodes.dom(),
        forall|c: u64| #[trigger]
            nodes.contains_key(c) ==> touched(nodes, ino, now)[c].name == nodes[c].name && touched(
                nodes,
                ino,
                now,
            )[c].parent == nodes[c].parent && touched(nodes, ino, now)[c].kind == nodes[c].kind,
        forall|c: u64, p: u64| #[trigger]
            is_child(touched(nodes, ino, now), c, p) <==> is_child(nodes, c, p),
{
    assert(touched(nodes, ino, now).dom() =~= nodes.dom());
}

/// Notes of a change in a directory keep the tree a tree.
proof fn lemma_touched_tree(nodes: Map<u64, NodeView>, next: u64, ino: u64, now: Timestamp)
    requires
        is_tree(nodes, next),
    ensures
        is_tree(touched(nodes, ino, now), next),
        is_tidy(nodes) ==> is_tidy(touched(nodes, ino, now)),
{
    if nodes.contains_key(ino) {
        law_update_keeps_tree(
            nodes,
            next,
            ino,
            NodeView { mtime: now, ctime: now, ..nodes[ino] },
        );
    }
}

/// What was made is found under its name, with the attributes that were asked for.
pub proof fn law_create_then_lookup(
    view: FsView,
    parent: u64,
    name: Seq<char>,
    kind: EntryKind,
    mode: u32,
    uid: u32,
    gid: u32,
    now: Timestamp,
    later: Timestamp,
)
    requires
        is_tree(view.nodes, view.next_inode),
        view.next_inode < u64::MAX,
    ensures
        ({
            let (after, outcome) = created(view, parent, Some(name), kind, mode, uid, gid, now);
            let done = touched(after.nodes, parent, later);
            outcome is Ok ==> {
                &&& found(view.nodes, parent, Some(name)) == Err::<u64, Errno>(Errno::NoEntry)
                &&& found(done, parent, Some(name)) == Ok::<u64, Errno>(view.next_inode)
                &&& done[view.next_inode] == new_node(parent, name, kind, mode, uid, gid, now)
                &&& is_tree(done, after.next_inode)
                &&& is_tidy(view.nodes) ==> is_tidy(done)
            }
        }),
{
    let (after, outcome) = created(view, parent, Some(name), kind, mode, uid, gid, now);
    if outcome is Ok {
        let ino = view.next_inode;
        let node = new_node(parent, name, kind, mode, uid, gid, now);
        let done = touched(after.nodes, parent, later);
        assert forall|c: u64| is_child(view.nodes, c, parent) implies (
        #[trigger] view.nodes[c]).name != name by {
            assert(child_named(view.nodes, parent, name) is None);
        }
        law_insert_keeps_tree(view.nodes, ino, node);
        lemma_touched_tree(after.nodes, after.next_inode, parent, later);
        lemma_touched_names(after.nodes, parent, later);
        assert(is_child(after.nodes, ino, parent));
        assert(is_child(done, ino, parent));
        lemma_found(done, after.next_inode, parent, ino);
        assert(view.nodes.contains_key(parent));
        assert(parent != ino);
    }
}

/// What was removed is not found any more, and everything else is found as before.
pub proof fn law_remove_then_lookup(
    view: FsView,
    parent: u64,
    name: Seq<char>,
    directory: bool,
    now: Timestamp,
    other_parent: u64,
    other: Seq<char>,
)
    requires
        is_tree(view.nodes, view.next_inode),
        is_tidy(view.nodes),
        forall|p: u64| #[trigger]
            view.nodes.contains_key(p) ==> is_child_list(
                child_list(view.nodes, p),
                view.nodes,
                p,
            ),
    ensures
        removable(view.nodes, parent, Some(name), directory) matches Ok((ino, path)) ==> {
            let after = without(view, parent, ino, now);
            &&& found(after.nodes, parent, Some(name)) == Err::<u64, Errno>(Errno::NoEntry)
            &&& !after.cache.contains_key(ino)
            &&& is_tree(after.nodes, view.next_inode)
            &&& is_tidy(after.nodes)
            &&& (other_parent != parent || other != name) && found(
                view.nodes,
                other_parent,
                Some(other),
            ) is Ok ==> found(after.nodes, other_parent, Some(other)) == found(
                view.nodes,
                other_parent,
                Some(other),
            )
        },
{
    if let Ok((ino, path)) = removable(view.nodes, parent, Some(name), directory) {
        let nodes = view.nodes;
        let cut = nodes.remove(ino);
        let after = without(view, parent, ino, now);
        lemma_named(nodes, parent, name);
        lemma_no_children(nodes, ino);
        law_remove_keeps_tree(nodes, view.next_inode, ino);
        lemma_touched_tree(cut, view.next_inode, parent, now);
        lemma_touched_names(cut, parent, now);
        assert(nodes.contains_key(parent));
        if child_named(after.nodes, parent, name) is Some {
            lemma_named(after.nodes, parent, name);
            let c = child_named(after.nodes, parent, name)->Some_0;
            assert(is_child(cut, c, parent));
            assert(is_child(nodes, c, parent));
        }
        assert(parent != ino) by {
            if parent == ino {
                assert(is_child(nodes, ino, ino));
            }
        }
        if (other_parent != parent || other != name) && found(
            nodes,
            other_parent,
            Some(other),
        ) is Ok {
            let c = found(nodes, other_parent, Some(other))->Ok_0;
            lemma_named(nodes, other_parent, other);
            assert(c != ino);
            assert(other_parent != ino) by {
                if other_parent == ino {
                    assert(is_child(nodes, c, ino));
                }
            }
            assert(is_child(cut, c, other_parent));
            assert(is_child(after.nodes, c, other_parent));
            lemma_found(after.nodes, view.next_inode, other_parent, c);
        }
    }
}

/// What a name leads to stands in the directory under that name.
proof fn lemma_named(nodes: Map<u64, NodeView>, parent: u64, name: Seq<char>)
    ensures
        child_named(nodes, parent, name) matches Some(c) ==> is_child(nodes, c, parent)
            && nodes[c].name == name,
{
}

/// In a tidy tree nothing stands in what is not a directory, and nothing in an empty one.
proof fn lemma_no_children(nodes: Map<u64, NodeView>, ino: u64)
    requires
        is_tidy(nodes),
        nodes.contains_key(ino),
        is_child_list(child_list(nodes, ino), nodes, ino),
        nodes[ino].kind !is Directory || child_list(nodes, ino).len() == 0,
    ensures
        forall|c: u64| !#[trigger] is_child(nodes, c, ino),
{
    assert forall|c: u64| !#[trigger] is_child(nodes, c, ino) by {
        if is_child(nodes, c, ino) {
            assert(child_list(nodes, ino).contains(c));
            assert(nodes.contains_key(c));
        }
    }
}

/// The tree to which a planned move applies: without what the move replaces.
pub open spec fn cleared(nodes: Map<u64, NodeView>, plan: RenameView, now: Timestamp) -> Map<
    u64,
    NodeView,
> {
    match plan.replaced {
        Some((other, _)) => touched(nodes.remove(other), plan.new_parent, now),
        None => nodes,
    }
}

/// A move that was found possible fits the tree once what it replaces is gone.
proof fn lemma_plan_fits(
    nodes: Map<u64, NodeView>,
    next: u64,
    parent: u64,
    name: Seq<char>,
    new_parent: u64,
    new_name: Seq<char>,
    flags: u32,
    now: Timestamp,
)
    requires
        is_tree(nodes, next),
        is_tidy(nodes),
        forall|p: u64| #[trigger]
            nodes.contains_key(p) ==> is_child_list(child_list(nodes, p), nodes, p),
    ensures
        rename_checked(nodes, parent, Some(name), new_parent, Some(new_name), flags) matches Ok(
            Some(plan),
        ) ==> {
            let clear = cleared(nodes, plan, now);
            &&& is_tree(clear, next)
            &&& is_tidy(clear)
            &&& plan.ino != ROOT_INODE
            &&& clear.contains_key(plan.ino)
            &&& clear.contains_key(new_parent)
            &&& clear[new_parent].kind is Directory
            &&& is_child(clear, plan.ino, parent)
            &&& clear[plan.ino].name == name
            &&& forall|c: u64|
                is_child(clear, c, new_parent) ==> (#[trigger] clear[c]).name != new_name
            &&& !is_below(nodes, new_parent, plan.ino)
            &&& !is_below(clear, new_parent, plan.ino)
            &&& plan.new_parent == new_parent && plan.parent == parent && plan.new_name == new_name
            &&& plan.replaced matches Some((other, _)) ==> {
                &&& is_child(nodes, other, new_parent)
                &&& nodes[other].name == new_name
                &&& other != plan.ino
                &&& forall|c: u64| !#[trigger] is_child(nodes, c, other)
            }
            &&& plan.replaced is None ==> child_named(nodes, new_parent, new_name) is None
        },
{
    if let Ok(Some(plan)) = rename_checked(
        nodes,
        parent,
        Some(name),
        new_parent,
        Some(new_name),
        flags,
    ) {
        let ino = plan.ino;
        let clear = cleared(nodes, plan, now);
        lemma_named(nodes, parent, name);
        lemma_named(nodes, new_parent, new_name);
        law_climb_finds_cycles(nodes, next, new_parent, ino);
        if nodes[ino].kind !is Directory {
            lemma_not_below_file(nodes, next, new_parent, ino);
        }
        match plan.replaced {
            None => {
                assert forall|c: u64| is_child(clear, c, new_parent) implies (
                #[trigger] clear[c]).name != new_name by {
                    assert(child_named(nodes, new_parent, new_name) is None);
                }
            },
            Some((other, path)) => {
                lemma_no_children(nodes, other);
                let cut = nodes.remove(other);
                law_remove_keeps_tree(nodes, next, other);
                lemma_touched_tree(cut, next, new_parent, now);
                lemma_touched_names(cut, new_parent, now);
                assert forall|c: u64| is_child(clear, c, new_parent) implies (
                #[trigger] clear[c]).name != new_name by {
                    assert(is_child(cut, c, new_parent));
                    assert(is_child(nodes, c, new_parent) && is_child(nodes, other, new_parent));
                }
                assert(parent != other) by {
                    if parent == other {
                        assert(is_child(nodes, ino, other));
                    }
                }
                assert(new_parent != other) by {
                    if new_parent == other {
                        assert(is_child(nodes, other, other));
                    }
                }
                assert(is_child(cut, ino, parent));
                lemma_below_cut(nodes, clear, next, other, new_parent, ino);
            },
        }
    }
}

/// In a tidy tree nothing but a file itself is below it.
proof fn lemma_not_below_file(nodes: Map<u64, NodeView>, next: u64, x: u64, ino: u64)
    requires
        is_tree(nodes, next),
        is_tidy(nodes),
        nodes.contains_key(x),
        nodes.contains_key(ino),
        nodes[ino].kind !is Directory,
        nodes[x].kind is Directory,
    ensures
        !is_below(nodes, x, ino),
{
    let rank = choose|rank: Map<u64, nat>| is_ranked(nodes, rank);
    lemma_not_below_file_ranked(nodes, rank, x, ino);
}

proof fn lemma_not_below_file_ranked(
    nodes: Map<u64, NodeView>,
    rank: Map<u64, nat>,
    x: u64,
    ino: u64,
)
    requires
        is_ranked(nodes, rank),
        is_tidy(nodes),
        nodes.contains_key(ROOT_INODE),
        nodes[ROOT_INODE].kind is Directory,
        nodes.contains_key(x),
        nodes[ino].kind !is Directory,
        nodes[x].kind is Directory,
    ensures
        !is_below(nodes, x, ino),
    decreases rank[x],
{
    if x == ROOT_INODE {
        lemma_below_root(nodes, ino);
    } else {
        lemma_below_step(nodes, x, ino);
        lemma_not_below_file_ranked(nodes, rank, nodes[x].parent, ino);
    }
}

/// Taking away a node in which nothing stands changes nothing about what is below what.
proof fn lemma_below_cut(
    nodes: Map<u64, NodeView>,
    clear: Map<u64, NodeView>,
    next: u64,
    other: u64,
    x: u64,
    ino: u64,
)
    requires
        is_tree(nodes, next),
        forall|c: u64| #[trigger]
            clear.contains_key(c) ==> nodes.contains_key(c) && c != other && clear[c].parent
                == nodes[c].parent,
        forall|c: u64| nodes.contains_key(c) && c != other ==> #[trigger] clear.contains_key(c),
        forall|c: u64| !#[trigger] is_child(nodes, c, other),
        is_tidy(nodes),
        nodes.contains_key(x),
        x != other,
        !is_below(nodes, x, ino),
    ensures
        !is_below(clear, x, ino),
{
    let rank = choose|rank: Map<u64, nat>| is_ranked(nodes, rank);
    lemma_below_cut_ranked(nodes, clear, rank, other, x, ino);
}

proof fn lemma_below_cut_ranked(
    nodes: Map<u64, NodeView>,
    clear: Map<u64, NodeView>,
    rank: Map<u64, nat>,
    other: u64,
    x: u64,
    ino: u64,
)
    requires
        is_ranked(nodes, rank),
        forall|c: u64| #[trigger]
            clear.contains_key(c) ==> nodes.contains_key(c) && c != other && clear[c].parent
                == nodes[c].parent,
        forall|c: u64| nodes.contains_key(c) && c != other ==> #[trigger] clear.contains_key(c),
        forall|c: u64| !#[trigger] is_child(nodes, c, other),
        is_tidy(nodes),
        nodes.contains_key(x),
        x != other,
        !is_below(nodes, x, ino),
    ensures
        !is_below(clear, x, ino),
    decreases rank[x],
{
    if x == ROOT_INODE {
        lemma_below_root(nodes, ino);
        lemma_below_root(clear, ino);
    } else {
        lemma_below_step(nodes, x, ino);
        assert(clear.contains_key(x));
        lemma_below_step(clear, x, ino);
        let parent = nodes[x].parent;
        assert(parent != other) by {
            if parent == other {
                assert(is_child(nodes, x, other));
            }
        }
        lemma_below_cut_ranked(nodes, clear, rank, other, parent, ino);
    }
}

/// A node that moved to a free name is found there, and not under its old name.
#[verifier::spinoff_prover]
#[verifier::rlimit(40)]
proof fn lemma_relocated_found(
    clear: Map<u64, NodeView>,
    next: u64,
    plan: RenameView,
    name: Seq<char>,
    now: Timestamp,
)
    requires
        is_tree(clear, next),
        is_tidy(clear),
        plan.ino != ROOT_INODE,
        is_child(clear, plan.ino, plan.parent),
        clear[plan.ino].name == name,
        clear.contains_key(plan.new_parent),
        clear[plan.new_parent].kind is Directory,
        is_name(plan.new_name),
        forall|c: u64|
            is_child(clear, c, plan.new_parent) ==> (#[trigger] clear[c]).name != plan.new_name,
        !is_below(clear, plan.new_parent, plan.ino),
    ensures
        ({
            let after = after_rename(clear, plan, now);
            &&& is_tree(after, next)
            &&& is_tidy(after)
            &&& found(after, plan.new_parent, Some(plan.new_name)) == Ok::<u64, Errno>(plan.ino)
            &&& found(after, plan.parent, Some(name)) == Err::<u64, Errno>(Errno::NoEntry)
        }),
{
    let ino = plan.ino;
    let parent = plan.parent;
    let new_parent = plan.new_parent;
    let new_name = plan.new_name;
    let node = NodeView { name: new_name, parent: new_parent, ctime: now, ..clear[ino] };
    let mid = relocated(clear, ino, new_parent, new_name, now);
    let one = touched(mid, parent, now);
    let after = after_rename(clear, plan, now);
    law_relocate_keeps_tree(clear, next, ino, node);
    lemma_touched_tree(mid, next, parent, now);
    lemma_touched_names(mid, parent, now);
    lemma_touched_tree(one, next, new_parent, now);
    lemma_touched_names(one, new_parent, now);
    assert(is_child(mid, ino, new_parent));
    assert(is_child(one, ino, new_parent));
    assert(is_child(after, ino, new_parent));
    lemma_found(after, next, new_parent, ino);
    assert(new_parent != ino) by {
        if new_parent == ino {
            assert(ancestor(clear, ino, 0) == ino);
        }
    }
    assert(clear.contains_key(ino));
    assert(parent != ino) by {
        if parent == ino {
            let rank = choose|rank: Map<u64, nat>| is_ranked(clear, rank);
            assert(clear.contains_key(ino));
        }
    }
    if child_named(after, parent, name) is Some {
        let c = child_named(after, parent, name)->Some_0;
        lemma_named(after, parent, name);
        assert(is_child(one, c, parent));
        assert(is_child(mid, c, parent));
        if c == ino {
            assert(new_parent == parent && new_name == name);
            assert(clear[ino].name != new_name);
        } else {
            assert(is_child(clear, c, parent) && is_child(clear, ino, parent));
        }
    }
}

/// A move takes a node from its old name to its new one: there it is found, with the attributes
/// that it had, and under the old name nothing is.
pub proof fn law_rename_then_lookup(
    nodes: Map<u64, NodeView>,
    next: u64,
    parent: u64,
    name: Seq<char>,
    new_parent: u64,
    new_name: Seq<char>,
    flags: u32,
    now: Timestamp,
)
    requires
        is_tree(nodes, next),
        is_tidy(nodes),
        forall|p: u64| #[trigger]
            nodes.contains_key(p) ==> is_child_list(child_list(nodes, p), nodes, p),
    ensures
        rename_checked(nodes, parent, Some(name), new_parent, Some(new_name), flags) matches Ok(
            Some(plan),
        ) ==> {
            let after = after_rename(cleared(nodes, plan, now), plan, now);
            &&& is_tree(after, next)
            &&& is_tidy(after)
            &&& found(after, new_parent, Some(new_name)) == Ok::<u64, Errno>(plan.ino)
            &&& after[plan.ino].kind == nodes[plan.ino].kind
            &&& after[plan.ino].size == nodes[plan.ino].size
            &&& found(after, parent, Some(name)) == Err::<u64, Errno>(Errno::NoEntry)
        },
{
    if let Ok(Some(plan)) = rename_checked(
        nodes,
        parent,
        Some(name),
        new_parent,
        Some(new_name),
        flags,
    ) {
        lemma_plan_fits(nodes, next, parent, name, new_parent, new_name, flags, now);
        lemma_named(nodes, parent, name);
        lemma_named(nodes, new_parent, new_name);
        let ino = plan.ino;
        let clear = cleared(nodes, plan, now);
        lemma_relocated_found(clear, next, plan, name, now);
        lemma_kept_attributes(nodes, clear, plan, now);
    }
}

/// What a move does to the node that it moves.
proof fn lemma_kept_attributes(
    nodes: Map<u64, NodeView>,
    clear: Map<u64, NodeView>,
    plan: RenameView,
    now: Timestamp,
)
    requires
        clear == cleared(nodes, plan, now),
        nodes.contains_key(plan.ino),
        plan.replaced matches Some((other, _)) ==> other != plan.ino,
    ensures
        after_rename(clear, plan, now)[plan.ino].kind == nodes[plan.ino].kind,
        after_rename(clear, plan, now)[plan.ino].size == nodes[plan.ino].size,
{
}

/// The tree and the archive are in step: every entry is shown by a node of its kind, and everything
/// that is shown and is not a directory has an entry.
pub open spec fn in_step(nodes: Map<u64, NodeView>, entries: Map<Seq<char>, Meta>) -> bool {
    &&& forall|path: Seq<char>| #[trigger]
        entries.contains_key(path) ==> exists|ino: u64|
            shows(nodes, ino, path) && nodes[ino].kind == entries[path].kind
    &&& forall|ino: u64| #[trigger]
        nodes.contains_key(ino) && nodes[ino].kind !is Directory ==> entries.contains_key(
            path_of(nodes, ino)->Ok_0,
        )
}

/// `ino` has the given path.
pub open spec fn shows(nodes: Map<u64, NodeView>, ino: u64, path: Seq<char>) -> bool {
    nodes.contains_key(ino) && ino != ROOT_INODE && path_of(nodes, ino) == Ok::<Seq<char>, Errno>(
        path,
    )
}

/// Nodes that keep names and parents all the way up keep their paths.
proof fn lemma_same_path(
    a: Map<u64, NodeView>,
    b: Map<u64, NodeView>,
    m: u64,
    n: u64,
    rank: Map<u64, nat>,
    x: u64,
)
    requires
        is_tree(a, m),
        is_tidy(a),
        is_tree(b, n),
        is_tidy(b),
        is_ranked(a, rank),
        forall|c: u64| #[trigger]
            a.contains_key(c) && b.contains_key(c) ==> a[c].name == b[c].name && a[c].parent
                == b[c].parent,
        a.contains_key(x),
        b.contains_key(x),
    ensures
        path_of(a, x) == path_of(b, x),
    decreases rank[x],
{
    law_every_node_has_a_path(a, m, x);
    law_every_node_has_a_path(b, n, x);
    if x != ROOT_INODE {
        lemma_same_path(a, b, m, n, rank, a[x].parent);
    } else {
        assert(path_of(a, x)->Ok_0 =~= path_of(b, x)->Ok_0);
    }
}

/// Nodes that keep names, parents and kinds stay in step.
proof fn lemma_in_step_kept(
    a: Map<u64, NodeView>,
    b: Map<u64, NodeView>,
    n: u64,
    entries: Map<Seq<char>, Meta>,
)
    requires
        is_tree(a, n),
        is_tidy(a),
        is_tree(b, n),
        is_tidy(b),
        a.dom() == b.dom(),
        forall|c: u64| #[trigger]
            a.contains_key(c) ==> a[c].name == b[c].name && a[c].parent == b[c].parent && a[c].kind
                == b[c].kind,
        in_step(a, entries),
    ensures
        in_step(b, entries),
{
    let rank = choose|rank: Map<u64, nat>| is_ranked(a, rank);
    assert forall|ino: u64| #[trigger] a.contains_key(ino) implies path_of(a, ino) == path_of(
        b,
        ino,
    ) by {
        assert(a.dom().contains(ino));
        assert(b.dom().contains(ino));
        lemma_same_path(a, b, n, n, rank, ino);
    }
    assert forall|path: Seq<char>| #[trigger] entries.contains_key(path) implies exists|ino: u64|
        shows(b, ino, path) && b[ino].kind == entries[path].kind by {
        let ino = choose|ino: u64| shows(a, ino, path) && a[ino].kind == entries[path].kind;
        assert(a.dom().contains(ino));
        assert(b.contains_key(ino));
        assert(shows(b, ino, path) && b[ino].kind == entries[path].kind);
    }
    assert forall|ino: u64| #[trigger]
        b.contains_key(ino) && b[ino].kind !is Directory implies entries.contains_key(
        path_of(b, ino)->Ok_0,
    ) by {
        assert(b.dom().contains(ino));
        assert(a.contains_key(ino));
    }
}

/// In the tree of an archive every path belongs to the node with its number.
proof fn lemma_laid_out_path(
    root: NodeView,
    listing: Seq<EntryView>,
    uid: u32,
    gid: u32,
    next: u64,
    path: Seq<char>,
)
    requires
        all_canonical(listing),
        needed(listing).len() + 2 < u64::MAX,
        is_tree(laid_out(root, needed(listing), listing, uid, gid), next),
        is_tidy(laid_out(root, needed(listing), listing, uid, gid)),
        needed(listing).contains(path),
    ensures
        shows(
            laid_out(root, needed(listing), listing, uid, gid),
            number_of(needed(listing), path),
            path,
        ),
    decreases path.len(),
{
    let paths = needed(listing);
    let nodes = laid_out(root, paths, listing, uid, gid);
    lemma_needed(listing);
    let n = paths.index_of(path);
    assert(paths[n] == path);
    assert(is_canonical(paths[n]));
    lemma_canonical_nonempty(path);
    lemma_parent_and_name(path);
    let ino = number_of(paths, path);
    assert(nodes.contains_key(ino));
    law_every_node_has_a_path(nodes, next, ino);
    let above = parent_of(path);
    assert(nodes[ino].parent == number_of(paths, above));
    assert(nodes[ino].name == name_of(path));
    if above.len() > 0 {
        lemma_laid_out_path(root, listing, uid, gid, next, above);
    } else {
        law_every_node_has_a_path(nodes, next, ROOT_INODE);
        assert(path_of(nodes, ROOT_INODE)->Ok_0 =~= above);
    }
}

/// A freshly mounted archive is in step with its tree, where nothing lies below an entry that is
/// not a directory.
pub proof fn law_mount_is_in_step(
    fs: MossFS,
    root: NodeView,
    listing: Seq<EntryView>,
    uid: u32,
    gid: u32,
)
    requires
        fs.wf(),
        fs@.nodes == laid_out(root, needed(listing), listing, uid, gid),
        is_sorted(paths_of(listing)),
        all_canonical(listing),
        is_tidy_listing(listing),
        needed(listing).len() + 2 < u64::MAX,
        root.kind is Directory,
        root.parent == ROOT_INODE,
    ensures
        is_tidy(fs@.nodes),
        in_step(fs@.nodes, listing_map(listing)),
{
    let nodes = fs@.nodes;
    let next = fs@.next_inode;
    let paths = needed(listing);
    let entries = listing_map(listing);
    fs.lemma_wf();
    law_tree_is_tidy(root, listing, uid, gid);
    lemma_needed(listing);
    lemma_sorted_listing(listing);
    lemma_listing_map(listing);
    assert forall|path: Seq<char>| #[trigger] entries.contains_key(path) implies exists|ino: u64|
        shows(nodes, ino, path) && nodes[ino].kind == entries[path].kind by {
        let i = choose|i: int| 0 <= i < listing.len() && (#[trigger] listing[i]).path == path;
        assert(is_canonical(listing[i].path));
        law_tree_shows_archive(root, listing, uid, gid, path);
        assert(is_under(listing[i].path, path));
        lemma_laid_out_path(root, listing, uid, gid, next, path);
        let ino = number_of(paths, path);
        assert(shows(nodes, ino, path) && nodes[ino].kind == entries[path].kind);
    }
    assert forall|ino: u64| #[trigger]
        nodes.contains_key(ino) && nodes[ino].kind !is Directory implies entries.contains_key(
        path_of(nodes, ino)->Ok_0,
    ) by {
        let path = paths[ino - 2];
        assert(is_canonical(path));
        assert(paths.contains(path));
        lemma_laid_out_path(root, listing, uid, gid, next, path);
        lemma_canonical_nonempty(path);
        assert(paths.index_of(path) == ino - 2);
        lemma_first_under(listing, path);
        let entry = first_under(listing, path)->Some_0;
        assert(entry.path == path);
        let i = choose|i: int| 0 <= i < listing.len() && #[trigger] listing[i] == entry;
        assert(entries.contains_key(listing[i].path));
    }
}

/// One more node, and an entry with its path, keep tree and archive in step.
#[verifier::spinoff_prover]
proof fn lemma_grown_in_step(
    a: Map<u64, NodeView>,
    b: Map<u64, NodeView>,
    ino: u64,
    entries: Map<Seq<char>, Meta>,
    path: Seq<char>,
    meta: Meta,
)
    requires
        is_tree(a, ino),
        is_tidy(a),
        ino < u64::MAX,
        is_tree(b, (ino + 1) as u64),
        is_tidy(b),
        b == a.insert(ino, b[ino]),
        !a.contains_key(ino),
        in_step(a, entries),
        path_of(b, ino) == Ok::<Seq<char>, Errno>(path),
        b[ino].kind == meta.kind,
    ensures
        in_step(b, entries.insert(path, meta)),
{
    let grown = entries.insert(path, meta);
    let rank = choose|rank: Map<u64, nat>| is_ranked(a, rank);
    assert forall|c: u64| #[trigger] a.contains_key(c) implies path_of(a, c) == path_of(b, c) by {
        lemma_same_path(a, b, ino, (ino + 1) as u64, rank, c);
    }
    assert(shows(b, ino, path));
    assert forall|p: Seq<char>| #[trigger] grown.contains_key(p) implies exists|c: u64|
        shows(b, c, p) && b[c].kind == grown[p].kind by {
        if p == path {
            assert(shows(b, ino, p) && b[ino].kind == grown[p].kind);
        } else {
            let c = choose|c: u64| shows(a, c, p) && a[c].kind == entries[p].kind;
            assert(shows(b, c, p) && b[c].kind == grown[p].kind);
        }
    }
    assert forall|c: u64| #[trigger]
        b.contains_key(c) && b[c].kind !is Directory implies grown.contains_key(
        path_of(b, c)->Ok_0,
    ) by {
        if c != ino {
            assert(a.contains_key(c));
        }
    }
}

/// Making a node and recording it keeps tree and archive in step.
#[verifier::spinoff_prover]
#[verifier::rlimit(40)]
pub proof fn law_create_keeps_in_step(
    view: FsView,
    entries: Map<Seq<char>, Meta>,
    parent: u64,
    name: Seq<char>,
    kind: EntryKind,
    mode: u32,
    uid: u32,
    gid: u32,
    now: Timestamp,
    meta: Meta,
)
    requires
        is_tree(view.nodes, view.next_inode),
        is_tidy(view.nodes),
        view.next_inode < u64::MAX,
        in_step(view.nodes, entries),
        meta.kind == kind,
    ensures
        ({
            let (after, outcome) = created(view, parent, Some(name), kind, mode, uid, gid, now);
            outcome matches Ok(entry) ==> in_step(
                touched(after.nodes, parent, now),
                entries.insert(entry.path, meta),
            )
        }),
{
    let (after, outcome) = created(view, parent, Some(name), kind, mode, uid, gid, now);
    if let Ok(entry) = outcome {
        let a = view.nodes;
        let b = after.nodes;
        let ino = view.next_inode;
        let grown = entries.insert(entry.path, meta);
        law_create_then_lookup(view, parent, name, kind, mode, uid, gid, now, now);
        assert forall|c: u64| is_child(a, c, parent) implies (#[trigger] a[c]).name != name by {
            assert(child_named(a, parent, name) is None);
        }
        law_insert_keeps_tree(a, ino, new_node(parent, name, kind, mode, uid, gid, now));
        lemma_grown_in_step(a, b, ino, entries, entry.path, meta);
        lemma_touched_names(b, parent, now);
        lemma_touched_tree(b, (ino + 1) as u64, parent, now);
        lemma_in_step_kept(b, touched(b, parent, now), (ino + 1) as u64, grown);
    }
}

/// Whatever changes a node but its name, its directory and its kind, such as writing, committing
/// and setting attributes, keeps tree and archive in step, also when the archive records the node
/// anew.
pub proof fn law_change_keeps_in_step(
    view: FsView,
    entries: Map<Seq<char>, Meta>,
    ino: u64,
    node: NodeView,
    meta: Meta,
)
    requires
        is_tree(view.nodes, view.next_inode),
        is_tidy(view.nodes),
        in_step(view.nodes, entries),
        view.nodes.contains_key(ino),
        ino != ROOT_INODE,
        node.name == view.nodes[ino].name,
        node.parent == view.nodes[ino].parent,
        node.kind == view.nodes[ino].kind,
        meta.kind == node.kind,
    ensures
        ({
            let after = view.nodes.insert(ino, node);
            &&& path_of(after, ino) == path_of(view.nodes, ino)
            &&& in_step(after, entries)
            &&& in_step(after, entries.insert(path_of(after, ino)->Ok_0, meta))
        }),
{
    let before = view.nodes;
    let after = before.insert(ino, node);
    let next = view.next_inode;
    law_update_keeps_tree(before, next, ino, node);
    assert(before.dom() =~= after.dom());
    lemma_in_step_kept(before, after, next, entries);
    let rank = choose|rank: Map<u64, nat>| is_ranked(before, rank);
    lemma_same_path(before, after, next, next, rank, ino);
    law_every_node_has_a_path(after, next, ino);
    let path = path_of(after, ino)->Ok_0;
    let anew = entries.insert(path, meta);
    assert forall|p: Seq<char>| #[trigger] anew.contains_key(p) implies exists|c: u64|
        shows(after, c, p) && after[c].kind == anew[p].kind by {
        if p == path {
            assert(shows(after, ino, p) && after[ino].kind == anew[p].kind);
        } else {
            assert(entries.contains_key(p));
        }
    }
}

/// Removing a node and what the archive has at its path keeps tree and archive in step.
pub proof fn law_remove_keeps_in_step(
    view: FsView,
    entries: Map<Seq<char>, Meta>,
    parent: u64,
    name: Seq<char>,
    directory: bool,
    now: Timestamp,
)
    requires
        is_tree(view.nodes, view.next_inode),
        is_tidy(view.nodes),
        forall|p: u64| #[trigger]
            view.nodes.contains_key(p) ==> is_child_list(
                child_list(view.nodes, p),
                view.nodes,
                p,
            ),
        in_step(view.nodes, entries),
    ensures
        removable(view.nodes, parent, Some(name), directory) matches Ok((ino, path)) ==> in_step(
            without(view, parent, ino, now).nodes,
            without_tree(entries, path),
        ),
{
    if let Ok((ino, path)) = removable(view.nodes, parent, Some(name), directory) {
        let a = view.nodes;
        let b = a.remove(ino);
        let next = view.next_inode;
        lemma_named(a, parent, name);
        lemma_no_children(a, ino);
        law_remove_keeps_tree(a, next, ino);
        lemma_cut_in_step(a, b, next, ino, path, entries);
        lemma_touched_names(b, parent, now);
        lemma_touched_tree(b, next, parent, now);
        lemma_in_step_kept(b, touched(b, parent, now), next, without_tree(entries, path));
    }
}

proof fn lemma_cut_in_step(
    a: Map<u64, NodeView>,
    b: Map<u64, NodeView>,
    next: u64,
    ino: u64,
    path: Seq<char>,
    entries: Map<Seq<char>, Meta>,
)
    requires
        is_tree(a, next),
        is_tidy(a),
        is_tree(b, next),
        is_tidy(b),
        b == a.remove(ino),
        shows(a, ino, path),
        forall|c: u64| !#[trigger] is_child(a, c, ino),
        in_step(a, entries),
    ensures
        in_step(b, without_tree(entries, path)),
{
    let less = without_tree(entries, path);
    let rank = choose|rank: Map<u64, nat>| is_ranked(a, rank);
    assert forall|c: u64| #[trigger] b.contains_key(c) implies path_of(a, c) == path_of(b, c)
        && !is_under(path_of(a, c)->Ok_0, path) by {
        lemma_same_path(a, b, next, next, rank, c);
        law_below_is_under(a, next, c, ino);
        lemma_alone(a, rank, ino, c);
    }
    assert forall|p: Seq<char>| #[trigger] less.contains_key(p) implies exists|c: u64|
        shows(b, c, p) && b[c].kind == less[p].kind by {
        assert(entries.contains_key(p));
        let c = choose|c: u64| shows(a, c, p) && a[c].kind == entries[p].kind;
        assert(c != ino);
        assert(b.contains_key(c));
        assert(shows(b, c, p) && b[c].kind == less[p].kind);
    }
    assert forall|c: u64| #[trigger]
        b.contains_key(c) && b[c].kind !is Directory implies less.contains_key(
        path_of(b, c)->Ok_0,
    ) by {
        assert(a.contains_key(c));
    }
}

/// Nothing is below a node in which nothing stands, but that node.
proof fn lemma_alone(nodes: Map<u64, NodeView>, rank: Map<u64, nat>, ino: u64, x: u64)
    requires
        is_ranked(nodes, rank),
        is_tidy(nodes),
        nodes.contains_key(x),
        ino != ROOT_INODE,
        forall|c: u64| !#[trigger] is_child(nodes, c, ino),
        x != ino,
    ensures
        !is_below(nodes, x, ino),
    decreases rank[x],
{
    if x == ROOT_INODE {
        lemma_below_root(nodes, ino);
    } else {
        lemma_below_step(nodes, x, ino);
        assert(!is_child(nodes, x, ino));
        lemma_alone(nodes, rank, ino, nodes[x].parent);
    }
}

/// Paths that move as the archive's entries do stay in step with them.
proof fn lemma_moved_in_step(
    nodes: Map<u64, NodeView>,
    after: Map<u64, NodeView>,
    entries: Map<Seq<char>, Meta>,
    from: Seq<char>,
    to: Seq<char>,
    now: Timestamp,
)
    requires
        in_step(nodes, entries),
        nodes.dom() == after.dom(),
        forall|c: u64| #[trigger]
            nodes.contains_key(c) ==> {
                let path = path_of(nodes, c)->Ok_0;
                &&& after[c].kind == nodes[c].kind
                &&& path_of(nodes, c) is Ok
                &&& path_of(after, c) == Ok::<Seq<char>, Errno>(
                    if is_under(path, from) {
                        moved(path, from, to)
                    } else {
                        path
                    },
                )
            },
    ensures
        in_step(after, moved_entries(entries, from, to, now)),
{
    let goal = moved_entries(entries, from, to, now);
    assert forall|p: Seq<char>| #[trigger] goal.contains_key(p) implies exists|c: u64|
        shows(after, c, p) && after[c].kind == goal[p].kind by {
        if came_from(entries, p, from, to) {
            let source = moved(p, to, from);
            law_moved_back(p, to, from);
            let c = choose|c: u64| shows(nodes, c, source) && nodes[c].kind == entries[source].kind;
            assert(nodes.dom().contains(c));
            assert(after.contains_key(c));
            assert(shows(after, c, p) && after[c].kind == goal[p].kind);
        } else {
            let c = choose|c: u64| shows(nodes, c, p) && nodes[c].kind == entries[p].kind;
            assert(nodes.dom().contains(c));
            assert(after.contains_key(c));
            assert(shows(after, c, p) && after[c].kind == goal[p].kind);
        }
    }
    assert forall|c: u64| #[trigger]
        after.contains_key(c) && after[c].kind !is Directory implies goal.contains_key(
        path_of(after, c)->Ok_0,
    ) by {
        assert(after.dom().contains(c));
        assert(nodes.contains_key(c));
        let path = path_of(nodes, c)->Ok_0;
        assert(entries.contains_key(path));
        if is_under(path, from) {
            law_moved_back(path, from, to);
            assert(came_from(entries, moved(path, from, to), from, to));
        }
    }
}

/// Moving a node, and what the archive has at and below its path, keeps tree and archive in step.
#[verifier::spinoff_prover]
#[verifier::rlimit(40)]
pub proof fn law_rename_keeps_in_step(
    nodes: Map<u64, NodeView>,
    next: u64,
    entries: Map<Seq<char>, Meta>,
    ino: u64,
    new_parent: u64,
    new_name: Seq<char>,
    now: Timestamp,
)
    requires
        is_tree(nodes, next),
        is_tidy(nodes),
        in_step(nodes, entries),
        ino != ROOT_INODE,
        nodes.contains_key(ino),
        nodes.contains_key(new_parent),
        nodes[new_parent].kind is Directory,
        is_name(new_name),
        forall|c: u64| is_child(nodes, c, new_parent) ==> (#[trigger] nodes[c]).name != new_name,
        !is_below(nodes, new_parent, ino),
    ensures
        ({
            let from = path_of(nodes, ino)->Ok_0;
            let to = child_path(path_of(nodes, new_parent)->Ok_0, new_name);
            in_step(
                relocated(nodes, ino, new_parent, new_name, now),
                moved_entries(entries, from, to, now),
            )
        }),
{
    let from = path_of(nodes, ino)->Ok_0;
    let to = child_path(path_of(nodes, new_parent)->Ok_0, new_name);
    let node = NodeView { name: new_name, parent: new_parent, ctime: now, ..nodes[ino] };
    let after = relocated(nodes, ino, new_parent, new_name, now);
    assert(after == nodes.insert(ino, node));
    assert forall|c: u64| #[trigger] nodes.contains_key(c) implies {
        let path = path_of(nodes, c)->Ok_0;
        &&& path_of(nodes, c) is Ok
        &&& path_of(after, c) == Ok::<Seq<char>, Errno>(
            if is_under(path, from) {
                moved(path, from, to)
            } else {
                path
            },
        )
    } by {
        law_every_node_has_a_path(nodes, next, c);
        law_relocate_moves_paths(nodes, next, ino, node, c);
    }
    assert(after.dom() =~= nodes.dom());
    lemma_moved_in_step(nodes, after, entries, from, to, now);
}

} // verus!
