//! What a mounted archive shows of its entries, before anything is asked of it.
use vstd::prelude::*;
use crate::entry::{EntryKind, EntryView, Meta};
use crate::index::{lemma_listing_exists, lemma_listing_map, listing_of, paths_of};
use crate::layout::{all_canonical, first_under, laid_out, lemma_first_is_entry, lemma_first_under,
    lemma_needed, lemma_prefix, needed, number_of, prefix_path, with_prefixes};
use crate::path::{is_canonical, is_under, lemma_canonical_nonempty, lemma_parent_and_name,
    lemma_split_pieces, name_of, parent_of, split};
use crate::pathmap::{is_sorted, lemma_sorted_distinct, lemma_sorted_unique};
use crate::text::precedes;
use crate::time::Timestamp;
use crate::tree::{NodeView, ROOT_INODE};
use crate::windows_driver::{node_paths, sum_of_sizes, used_space, win_nodes, WinNode};

verus! {

/// The first entry under a path comes before all others under it.
proof fn lemma_nothing_earlier(listing: Seq<EntryView>, path: Seq<char>) -> (i: int)
    requires
        first_under(listing, path) is Some,
    ensures
        0 <= i < listing.len(),
        first_under(listing, path) == Some(listing[i]),
        is_under(listing[i].path, path),
        forall|j: int| 0 <= j < i ==> !is_under((#[trigger] listing[j]).path, path),
    decreases listing.len(),
{
    let less = listing.drop_last();
    lemma_first_under(less, path);
    if first_under(less, path) is Some {
        let i = lemma_nothing_earlier(less, path);
        assert forall|j: int| 0 <= j < i implies !is_under((#[trigger] listing[j]).path, path) by {
            assert(less[j] == listing[j]);
        }
        i
    } else {
        assert forall|j: int| 0 <= j < less.len() implies !is_under(
            (#[trigger] listing[j]).path,
            path,
        ) by {
            assert(less[j] == listing[j]);
        }
        listing.len() - 1
    }
}

/// An entry is mounted with all its attributes. A directory gets no size.
pub proof fn law_mounted_entry(
    root: NodeView,
    listing: Seq<EntryView>,
    uid: u32,
    gid: u32,
    i: int,
)
    requires
        is_sorted(paths_of(listing)),
        all_canonical(listing),
        needed(listing).len() + 2 < u64::MAX,
        0 <= i < listing.len(),
    ensures
        ({
            let paths = needed(listing);
            let nodes = laid_out(root, paths, listing, uid, gid);
            let entry = listing[i];
            let ino = number_of(paths, entry.path);
            let node = nodes[ino];
            &&& nodes.contains_key(ino) && ino != ROOT_INODE
            &&& nodes[ROOT_INODE] == root
            &&& node.kind == entry.meta.kind && node.mode == entry.meta.mode
            &&& node.uid == entry.meta.uid && node.gid == entry.meta.gid
            &&& node.atime == entry.meta.atime && node.mtime == entry.meta.mtime
            &&& node.ctime == entry.meta.ctime
            &&& node.size == if entry.meta.kind == EntryKind::Directory {
                0
            } else {
                entry.meta.block_length
            }
            &&& entry.path == if parent_of(entry.path).len() == 0 {
                node.name
            } else {
                parent_of(entry.path) + seq!['/'] + node.name
            }
            &&& parent_of(entry.path).len() == 0 ==> node.parent == ROOT_INODE
            &&& node.parent == number_of(paths, parent_of(entry.path))
        }),
{
    let paths = needed(listing);
    let path = listing[i].path;
    lemma_needed(listing);
    assert(is_canonical(path));
    lemma_canonical_nonempty(path);
    lemma_first_is_entry(listing, i);
    assert(paths.contains(path));
    let n = paths.index_of(path);
    assert(paths[n] == path);
    lemma_parent_and_name(path);
    if parent_of(path).len() > 0 {
        assert(parent_of(path).push('/') + name_of(path) =~= parent_of(path) + seq!['/'] + name_of(
            path,
        ));
    }
}

/// A directory that has no entry is mounted because something lies below it: with the given owner,
/// and with the times of the first entry below it.
pub proof fn law_mounted_implied_directory(
    root: NodeView,
    listing: Seq<EntryView>,
    uid: u32,
    gid: u32,
    path: Seq<char>,
)
    requires
        is_sorted(paths_of(listing)),
        all_canonical(listing),
        needed(listing).len() + 2 < u64::MAX,
        is_canonical(path),
        exists|i: int| 0 <= i < listing.len() && is_under((#[trigger] listing[i]).path, path),
        forall|i: int| 0 <= i < listing.len() ==> (#[trigger] listing[i]).path != path,
    ensures
        ({
            let paths = needed(listing);
            let nodes = laid_out(root, paths, listing, uid, gid);
            let ino = number_of(paths, path);
            let node = nodes[ino];
            &&& nodes.contains_key(ino) && ino != ROOT_INODE
            &&& node.kind == EntryKind::Directory && node.mode == 0o755 && node.size == 0
            &&& node.uid == uid && node.gid == gid
            &&& node.parent == number_of(paths, parent_of(path)) && node.name == name_of(path)
            &&& exists|i: int|
                0 <= i < listing.len() && is_under((#[trigger] listing[i]).path, path)
                    && node.atime == listing[i].meta.atime && node.mtime == listing[i].meta.mtime
                    && node.ctime == listing[i].meta.ctime && forall|j: int|
                    0 <= j < i ==> !is_under((#[trigger] listing[j]).path, path)
        }),
{
    let paths = needed(listing);
    lemma_needed(listing);
    lemma_canonical_nonempty(path);
    lemma_first_under(listing, path);
    let i = lemma_nothing_earlier(listing, path);
    assert(listing[i].path != path);
    assert(paths.contains(path));
    let n = paths.index_of(path);
    assert(paths[n] == path);
}

/// Only entries and the directories above them are mounted, and each once.
pub proof fn law_nothing_else_is_mounted(
    root: NodeView,
    listing: Seq<EntryView>,
    uid: u32,
    gid: u32,
    ino: u64,
)
    requires
        all_canonical(listing),
        needed(listing).len() + 2 < u64::MAX,
        laid_out(root, needed(listing), listing, uid, gid).contains_key(ino),
        ino != ROOT_INODE,
    ensures
        exists|path: Seq<char>| #[trigger]
            is_canonical(path) && number_of(needed(listing), path) == ino && exists|i: int|
                0 <= i < listing.len() && is_under((#[trigger] listing[i]).path, path),
{
    let paths = needed(listing);
    lemma_needed(listing);
    let path = paths[ino - 2];
    assert(is_canonical(path) && first_under(listing, path) is Some);
    lemma_canonical_nonempty(path);
    assert(paths.contains(path));
    let n = paths.index_of(path);
    assert(paths[n] == path);
    assert(n == ino - 2);
    lemma_first_under(listing, path);
}

/// The paths that are mounted are numbered one after the other from two on; one is the root's number.
pub proof fn law_numbers(paths: Seq<Seq<char>>, i: int)
    requires
        paths.no_duplicates(),
        paths.len() + 2 < u64::MAX,
        0 <= i < paths.len(),
        paths[i].len() > 0,
    ensures
        number_of(paths, paths[i]) == i + 2,
        number_of(paths, Seq::<char>::empty()) == 1,
{
    let path = paths[i];
    assert(paths.contains(path));
    let n = paths.index_of(path);
    assert(paths[n] == path);
}

proof fn lemma_added_prefixes(paths: Seq<Seq<char>>, parts: Seq<Seq<char>>, k: nat)
    ensures
        with_prefixes(paths, parts, k).len() >= paths.len(),
        with_prefixes(paths, parts, k).take(paths.len() as int) == paths,
        forall|n: int|
            paths.len() <= n < with_prefixes(paths, parts, k).len() ==> exists|j: int|
                1 <= j <= k && #[trigger] prefix_path(parts, j) == #[trigger] with_prefixes(
                    paths,
                    parts,
                    k,
                )[n],
    decreases k,
{
    let all = with_prefixes(paths, parts, k);
    if k == 0 {
        assert(all.take(paths.len() as int) =~= paths);
    } else {
        lemma_added_prefixes(paths, parts, (k - 1) as nat);
        let before = with_prefixes(paths, parts, (k - 1) as nat);
        assert(all.take(paths.len() as int) =~= before.take(paths.len() as int));
        assert forall|n: int| paths.len() <= n < all.len() implies exists|j: int|
            1 <= j <= k && #[trigger] prefix_path(parts, j) == #[trigger] all[n] by {
            if n < before.len() {
                assert(all[n] == before[n]);
                let j = choose|j: int|
                    1 <= j <= k - 1 && #[trigger] prefix_path(parts, j) == before[n];
                assert(prefix_path(parts, j) == all[n]);
            } else {
                assert(prefix_path(parts, k as int) == all[n]);
            }
        }
    }
}

/// An entry is mounted behind all that come before it in the listing, with the directories above it
/// that are not mounted yet just before it.
pub proof fn law_mounted_in_order(listing: Seq<EntryView>)
    requires
        is_sorted(paths_of(listing)),
        all_canonical(listing),
        listing.len() > 0,
    ensures
        ({
            let before = needed(listing.drop_last());
            let all = needed(listing);
            let path = listing.last().path;
            &&& before.len() < all.len()
            &&& all.take(before.len() as int) == before
            &&& all.last() == path
            &&& forall|n: int| before.len() <= n < all.len() ==> is_under(path, #[trigger] all[n])
        }),
        needed(Seq::<EntryView>::empty()).len() == 0,
{
    let less = listing.drop_last();
    let path = listing.last().path;
    let parts = split(path);
    let before = needed(less);
    let all = needed(listing);
    assert(is_canonical(listing[listing.len() - 1].path));
    assert forall|i: int| 0 <= i < less.len() implies is_canonical((#[trigger] less[i]).path) by {
        assert(is_canonical(listing[i].path));
    }
    lemma_needed(less);
    lemma_split_pieces(path);
    lemma_added_prefixes(before, parts, parts.len());
    lemma_first_is_entry(listing, listing.len() - 1);
    lemma_sorted_distinct(paths_of(listing));
    let first = lemma_nothing_earlier(listing, path);
    assert(paths_of(listing)[first] == paths_of(listing)[listing.len() - 1]);
    assert(first == listing.len() - 1);
    lemma_first_under(less, path);
    if first_under(less, path) is Some {
        let i = lemma_nothing_earlier(less, path);
        assert(is_under(listing[i].path, path));
    }
    assert(!before.contains(path)) by {
        if before.contains(path) {
            let n = choose|n: int| 0 <= n < before.len() && before[n] == path;
            assert(first_under(less, before[n]) is Some);
        }
    }
    let some = with_prefixes(before, parts, (parts.len() - 1) as nat);
    lemma_added_prefixes(before, parts, (parts.len() - 1) as nat);
    lemma_prefix(path, parts.len() as int);
    assert(!some.contains(path)) by {
        if some.contains(path) {
            let n = choose|n: int| 0 <= n < some.len() && some[n] == path;
            if n < before.len() {
                assert(some.take(before.len() as int)[n] == before[n]);
                assert(before.contains(path));
            } else {
                let j = choose|j: int|
                    1 <= j <= parts.len() - 1 && #[trigger] prefix_path(parts, j) == some[n];
                lemma_prefix(path, j);
                assert(split(path).len() == parts.take(j).len());
            }
        }
    }
    assert(all == some.push(path));
    assert forall|n: int| before.len() <= n < all.len() implies is_under(
        path,
        #[trigger] all[n],
    ) by {
        let j = choose|j: int| 1 <= j <= parts.len() && #[trigger] prefix_path(parts, j) == all[n];
        lemma_prefix(path, j);
    }
}

/// An entry is on the drive with its attributes, and those that its mode shows. A directory gets no
/// size. The root is an empty directory that is as old as the mount.
pub proof fn law_entry_on_drive(listing: Seq<EntryView>, now: Timestamp, i: int)
    requires
        is_sorted(paths_of(listing)),
        all_canonical(listing),
        0 <= i < listing.len(),
    ensures
        ({
            let nodes = win_nodes(needed(listing), listing, now);
            let entry = listing[i];
            let node = nodes[entry.path];
            let top = nodes[Seq::<char>::empty()];
            &&& nodes.contains_key(entry.path)
            &&& node.kind == entry.meta.kind && node.mode == entry.meta.mode
            &&& node.atime == entry.meta.atime && node.mtime == entry.meta.mtime
            &&& node.ctime == entry.meta.ctime
            &&& node.size == if entry.meta.kind == EntryKind::Directory {
                0
            } else {
                entry.meta.block_length
            }
            &&& node.attrs == if entry.meta.kind == EntryKind::Directory {
                0x10u32
            } else if entry.meta.mode & 0o222 == 0 {
                0x1u32
            } else {
                0x80u32
            }
            &&& nodes.contains_key(Seq::<char>::empty())
            &&& top.kind == EntryKind::Directory && top.size == 0 && top.mode == 0o755
            &&& top.attrs == 0x10 && top.atime == now && top.mtime == now && top.ctime == now
        }),
{
    let paths = needed(listing);
    let path = listing[i].path;
    lemma_needed(listing);
    assert(is_canonical(path));
    lemma_canonical_nonempty(path);
    lemma_first_is_entry(listing, i);
    assert(paths.contains(path));
}

/// A directory that has no entry is on the drive because something lies below it, with the times of
/// the first entry below it; and nothing is there without a reason.
pub proof fn law_implied_directory_on_drive(
    listing: Seq<EntryView>,
    now: Timestamp,
    path: Seq<char>,
)
    requires
        is_sorted(paths_of(listing)),
        all_canonical(listing),
        is_canonical(path),
        forall|i: int| 0 <= i < listing.len() ==> (#[trigger] listing[i]).path != path,
    ensures
        ({
            let nodes = win_nodes(needed(listing), listing, now);
            let node = nodes[path];
            &&& nodes.contains_key(path) <==> exists|i: int|
                0 <= i < listing.len() && is_under((#[trigger] listing[i]).path, path)
            &&& nodes.contains_key(path) ==> {
                &&& node.kind == EntryKind::Directory && node.mode == 0o755 && node.size == 0
                &&& node.attrs == 0x10
                &&& exists|i: int|
                    0 <= i < listing.len() && is_under((#[trigger] listing[i]).path, path)
                        && node.atime == listing[i].meta.atime && node.mtime
                        == listing[i].meta.mtime && node.ctime == listing[i].meta.ctime
                        && forall|j: int|
                        0 <= j < i ==> !is_under((#[trigger] listing[j]).path, path)
            }
        }),
{
    let paths = needed(listing);
    lemma_needed(listing);
    lemma_canonical_nonempty(path);
    lemma_first_under(listing, path);
    if first_under(listing, path) is Some {
        let i = lemma_nothing_earlier(listing, path);
        assert(listing[i].path != path);
        assert(paths.contains(path));
    } else if paths.contains(path) {
        let n = paths.index_of(path);
        assert(paths[n] == path);
        assert(first_under(listing, path) is Some);
    }
}

/// Finitely many texts have an order.
proof fn lemma_paths_exist(nodes: Map<Seq<char>, WinNode>)
    requires
        nodes.dom().finite(),
    ensures
        is_sorted(node_paths(nodes)),
        forall|path: Seq<char>| #[trigger]
            node_paths(nodes).contains(path) <==> nodes.contains_key(path),
{
    let any = arbitrary::<Meta>();
    let map = Map::<Seq<char>, Meta>::new(
        |path: Seq<char>| nodes.contains_key(path),
        |path: Seq<char>| any,
    );
    assert(map.dom() =~= nodes.dom());
    lemma_listing_exists(map);
    let listing = listing_of(map);
    let paths = paths_of(listing);
    lemma_listing_map(listing);
    assert forall|path: Seq<char>| #[trigger] paths.contains(path) <==> nodes.contains_key(path) by {
        if paths.contains(path) {
            let i = choose|i: int| 0 <= i < paths.len() && paths[i] == path;
            assert(listing[i].path == path);
            assert(map.contains_key(path));
        }
        if nodes.contains_key(path) {
            assert(map.contains_key(path));
            let i = choose|i: int| 0 <= i < listing.len() && (#[trigger] listing[i]).path == path;
            assert(paths[i] == path);
        }
    }
}

/// A sum is the sum without one of its parts, and that part.
proof fn lemma_sum_without(nodes: Seq<WinNode>, i: int)
    requires
        0 <= i < nodes.len(),
    ensures
        sum_of_sizes(nodes) == sum_of_sizes(nodes.remove(i)) + nodes[i].size,
    decreases nodes.len(),
{
    let less = nodes.drop_last();
    if i == nodes.len() - 1 {
        assert(nodes.remove(i) =~= less);
    } else {
        lemma_sum_without(less, i);
        assert(nodes.remove(i).drop_last() =~= less.remove(i));
        assert(nodes.remove(i).last() == nodes.last());
    }
}

/// The space in use is the sum of all sizes: each node counts once.
pub proof fn law_space_adds_up(nodes: Map<Seq<char>, WinNode>, path: Seq<char>, node: WinNode)
    requires
        nodes.dom().finite(),
        !nodes.contains_key(path),
    ensures
        used_space(nodes.insert(path, node)) == used_space(nodes) + node.size,
        used_space(Map::<Seq<char>, WinNode>::empty()) == 0,
{
    let more = nodes.insert(path, node);
    let none = Map::<Seq<char>, WinNode>::empty();
    lemma_paths_exist(nodes);
    lemma_paths_exist(more);
    lemma_paths_exist(none);
    let all = node_paths(more);
    assert(all.contains(path));
    let i = choose|i: int| 0 <= i < all.len() && all[i] == path;
    let rest = all.remove(i);
    lemma_sorted_distinct(all);
    assert(is_sorted(rest)) by {
        assert forall|a: int, b: int| 0 <= a < b < rest.len() implies precedes(
            #[trigger] rest[a],
            #[trigger] rest[b],
        ) by {
            let c = if a < i { a } else { a + 1 };
            let d = if b < i { b } else { b + 1 };
            assert(rest[a] == all[c]);
            assert(rest[b] == all[d]);
        }
    }
    assert forall|k: Seq<char>| #[trigger] rest.contains(k) <==> node_paths(nodes).contains(k) by {
        if rest.contains(k) {
            let j = choose|j: int| 0 <= j < rest.len() && rest[j] == k;
            let c = if j < i { j } else { j + 1 };
            assert(all[c] == k);
            assert(all.contains(k));
            assert(all[c] != all[i]);
        }
        if node_paths(nodes).contains(k) {
            assert(more.contains_key(k));
            assert(all.contains(k));
            let c = choose|c: int| 0 <= c < all.len() && all[c] == k;
            let j = if c < i { c } else { c - 1 };
            assert(rest[j] == k);
        }
    }
    lemma_sorted_unique(rest, node_paths(nodes));
    let sizes = all.map_values(|path: Seq<char>| more[path]);
    lemma_sum_without(sizes, i);
    assert(sizes.remove(i) =~= rest.map_values(|path: Seq<char>| nodes[path])) by {
        assert forall|j: int| 0 <= j < rest.len() implies sizes.remove(i)[j] == nodes[
        #[trigger] rest[j]] by {
            assert(rest.contains(rest[j]));
            assert(nodes.contains_key(rest[j]));
        }
    }
    if node_paths(none).len() > 0 {
        assert(node_paths(none).contains(node_paths(none)[0]));
    }
}

} // verus!
