//! The tree that an archive is shown as: its entries, and the directories above them.
use vstd::prelude::*;
use crate::entry::{EntryKind, EntryView, IndexEntry};
use crate::index::paths_of;
use crate::laws::lemma_under_chars;
use crate::path::{components, is_canonical, is_name, is_under, joined, lemma_canonical_nonempty,
    lemma_joined_canonical, lemma_joined_split, lemma_parent_and_name, lemma_split_pieces,
    lemma_under_parts, name_of, parent_of, split};
use crate::pathmap::{is_sorted, lemma_push_contains, PathMap};
use crate::text::{from_chars, lemma_prefix_precedes, precedes, precedes_asymmetric, to_chars};
use crate::tree::{child_named, is_child, FsNode, InodeTree, NodeView, ROOT_INODE};
use crate::treelaws::{is_tidy, is_tree, law_insert_keeps_tree, law_root_is_tree};

verus! {

/// The mode of a directory that is there only because something lies below it.
pub const IMPLIED_MODE: u16 = 0o755;

/// The first entry of a listing that is `path` or lies below it.
pub open spec fn first_under(listing: Seq<EntryView>, path: Seq<char>) -> Option<EntryView>
    decreases listing.len(),
{
    if listing.len() == 0 {
        None
    } else {
        match first_under(listing.drop_last(), path) {
            Some(entry) => Some(entry),
            None => if is_under(listing.last().path, path) {
                Some(listing.last())
            } else {
                None
            },
        }
    }
}

/// The path made of the first `k` of `parts`.
pub open spec fn prefix_path(parts: Seq<Seq<char>>, k: int) -> Seq<char> {
    joined(parts.take(k))
}

/// `paths`, and behind them those that are not among them yet of the paths made of the first one
/// of `parts`, the first two, and so on to the first `k`.
pub open spec fn with_prefixes(paths: Seq<Seq<char>>, parts: Seq<Seq<char>>, k: nat) -> Seq<
    Seq<char>,
>
    decreases k,
{
    if k == 0 {
        paths
    } else {
        let before = with_prefixes(paths, parts, (k - 1) as nat);
        let path = prefix_path(parts, k as int);
        if before.contains(path) {
            before
        } else {
            before.push(path)
        }
    }
}

/// The paths of all entries and of all directories above them, in the order in which a walk
/// through the listing comes across them.
pub open spec fn needed(listing: Seq<EntryView>) -> Seq<Seq<char>>
    decreases listing.len(),
{
    if listing.len() == 0 {
        Seq::<Seq<char>>::empty()
    } else {
        let parts = split(listing.last().path);
        with_prefixes(needed(listing.drop_last()), parts, parts.len())
    }
}

/// The number of a path: the root is the first, and the others follow in order.
pub open spec fn number_of(paths: Seq<Seq<char>>, path: Seq<char>) -> u64 {
    if path.len() == 0 {
        ROOT_INODE
    } else {
        (2 + paths.index_of(path)) as u64
    }
}

/// The node for a path: the entry that has it, or a directory with the given owner and the times
/// of the first entry below it.
pub open spec fn node_at(
    paths: Seq<Seq<char>>,
    listing: Seq<EntryView>,
    path: Seq<char>,
    uid: u32,
    gid: u32,
) -> NodeView {
    let entry = first_under(listing, path)->Some_0;
    let listed = entry.path == path;
    NodeView {
        name: name_of(path),
        parent: number_of(paths, parent_of(path)),
        kind: if listed {
            entry.meta.kind
        } else {
            EntryKind::Directory
        },
        mode: if listed {
            entry.meta.mode
        } else {
            IMPLIED_MODE
        },
        uid: if listed {
            entry.meta.uid
        } else {
            uid
        },
        gid: if listed {
            entry.meta.gid
        } else {
            gid
        },
        size: if listed && entry.meta.kind !is Directory {
            entry.meta.block_length
        } else {
            0
        },
        atime: entry.meta.atime,
        mtime: entry.meta.mtime,
        ctime: entry.meta.ctime,
    }
}

/// The nodes for `paths`, and a root.
pub open spec fn laid_out(
    root: NodeView,
    paths: Seq<Seq<char>>,
    listing: Seq<EntryView>,
    uid: u32,
    gid: u32,
) -> Map<u64, NodeView> {
    Map::new(
        |n: u64| n == ROOT_INODE || 2 <= n < 2 + paths.len(),
        |n: u64|
            if n == ROOT_INODE {
                root
            } else {
                node_at(paths, listing, paths[n - 2], uid, gid)
            },
    )
}

/// The paths of all entries are canonical.
pub open spec fn all_canonical(listing: Seq<EntryView>) -> bool {
    forall|i: int| 0 <= i < listing.len() ==> is_canonical((#[trigger] listing[i]).path)
}

/// No path stands twice, each comes behind the directory in which it lies, and each has an entry at
/// it or below it.
pub open spec fn is_closed(paths: Seq<Seq<char>>, listing: Seq<EntryView>) -> bool {
    &&& paths.no_duplicates()
    &&& forall|i: int|
        0 <= i < paths.len() ==> {
            let path = #[trigger] paths[i];
            &&& is_canonical(path)
            &&& first_under(listing, path) is Some
            &&& parent_of(path).len() == 0 || paths.contains(parent_of(path))
        }
}

/// Every path with an entry at it or below it is among `paths`.
pub open spec fn covers(paths: Seq<Seq<char>>, listing: Seq<EntryView>) -> bool {
    forall|path: Seq<char>|
        is_canonical(path) && #[trigger] first_under(listing, path) is Some ==> paths.contains(path)
}

/// The first entry under a path is one of the listing.
pub proof fn lemma_first_under(listing: Seq<EntryView>, path: Seq<char>)
    ensures
        match first_under(listing, path) {
            Some(entry) => is_under(entry.path, path) && exists|i: int|
                0 <= i < listing.len() && #[trigger] listing[i] == entry,
            None => forall|i: int|
                0 <= i < listing.len() ==> !is_under((#[trigger] listing[i]).path, path),
        },
    decreases listing.len(),
{
    if listing.len() > 0 {
        let less = listing.drop_last();
        lemma_first_under(less, path);
        match first_under(less, path) {
            Some(entry) => {
                let i = choose|i: int| 0 <= i < less.len() && #[trigger] less[i] == entry;
                assert(listing[i] == entry);
            },
            None => {
                assert forall|i: int| 0 <= i < listing.len() - 1 implies !is_under(
                    (#[trigger] listing[i]).path,
                    path,
                ) by {
                    assert(less[i] == listing[i]);
                }
                assert(listing[listing.len() - 1] == listing.last());
            },
        }
    }
}

/// In a listing in order, an entry comes before all that lies below it.
pub proof fn lemma_entry_first(listing: Seq<EntryView>, entry: EntryView)
    requires
        is_sorted(paths_of(listing.push(entry))),
    ensures
        first_under(listing, entry.path) is None,
{
    lemma_first_under(listing, entry.path);
    if let Some(other) = first_under(listing, entry.path) {
        let more = listing.push(entry);
        let i = choose|i: int| 0 <= i < listing.len() && #[trigger] listing[i] == other;
        let paths = paths_of(more);
        assert(precedes(paths[i], paths[listing.len() as int]));
        precedes_asymmetric(other.path, entry.path);
        let rest = other.path.skip(entry.path.len() as int);
        lemma_under_chars(other.path, entry.path);
        assert(other.path =~= entry.path + rest);
        lemma_prefix_precedes(entry.path, rest);
    }
}

/// The paths made of the first components of an entry's path.
pub proof fn lemma_prefix(path: Seq<char>, k: int)
    requires
        is_canonical(path),
        1 <= k <= split(path).len(),
    ensures
        is_canonical(prefix_path(split(path), k)),
        split(prefix_path(split(path), k)) == split(path).take(k),
        is_under(path, prefix_path(split(path), k)),
        k == split(path).len() ==> prefix_path(split(path), k) == path,
        k > 1 ==> parent_of(prefix_path(split(path), k)) == prefix_path(split(path), k - 1),
        k == 1 ==> parent_of(prefix_path(split(path), k)).len() == 0,
        name_of(prefix_path(split(path), k)) == split(path)[k - 1],
{
    let parts = split(path);
    let some = parts.take(k);
    lemma_joined_split(path);
    assert forall|i: int| 0 <= i < some.len() implies is_name(#[trigger] some[i]) by {
        assert(is_name(parts[i]));
    }
    lemma_joined_canonical(some);
    lemma_under_parts(path, joined(some));
    assert(some.drop_last() =~= parts.take(k - 1));
    if k == parts.len() {
        assert(some =~= parts);
    }
}

/// A path whose directory is among the paths can be added to them.
proof fn lemma_closed_push(paths: Seq<Seq<char>>, listing: Seq<EntryView>, path: Seq<char>)
    requires
        is_closed(paths, listing),
        is_canonical(path),
        !paths.contains(path),
        parent_of(path).len() == 0 || paths.contains(parent_of(path)),
        first_under(listing, path) is Some,
    ensures
        is_closed(paths.push(path), listing),
{
    let more = paths.push(path);
    assert forall|i: int| 0 <= i < more.len() implies {
        let path = #[trigger] more[i];
        &&& is_canonical(path)
        &&& first_under(listing, path) is Some
        &&& parent_of(path).len() == 0 || more.contains(parent_of(path))
    } by {
        if i < paths.len() {
            assert(more[i] == paths[i]);
        }
        lemma_push_contains(paths, path, parent_of(more[i]));
    }
    assert(more.no_duplicates()) by {
        assert forall|i: int, j: int| 0 <= i < more.len() && 0 <= j < more.len() && i
            != j implies more[i] != more[j] by {
            if i < paths.len() && j < paths.len() {
                assert(paths[i] != paths[j]);
            } else if i < paths.len() {
                assert(paths.contains(paths[i]));
            } else {
                assert(paths.contains(paths[j]));
            }
        }
    }
}

proof fn lemma_prefixes_closed(
    paths: Seq<Seq<char>>,
    listing: Seq<EntryView>,
    entry: EntryView,
    k: nat,
)
    requires
        is_closed(paths, listing.push(entry)),
        is_canonical(entry.path),
        k <= split(entry.path).len(),
    ensures
        is_closed(with_prefixes(paths, split(entry.path), k), listing.push(entry)),
    decreases k,
{
    if k > 0 {
        let parts = split(entry.path);
        let before = with_prefixes(paths, parts, (k - 1) as nat);
        let path = prefix_path(parts, k as int);
        lemma_prefixes_closed(paths, listing, entry, (k - 1) as nat);
        lemma_prefix(entry.path, k as int);
        lemma_prefixes_grow(paths, parts, (k - 1) as nat, (k - 1) as nat);
        assert(listing.push(entry).drop_last() =~= listing);
        if !before.contains(path) {
            lemma_closed_push(before, listing.push(entry), path);
        }
    }
}

/// The needed paths are closed, and they are all that have an entry at them or below them.
pub proof fn lemma_needed(listing: Seq<EntryView>)
    requires
        all_canonical(listing),
    ensures
        is_closed(needed(listing), listing),
        covers(needed(listing), listing),
    decreases listing.len(),
{
    if listing.len() > 0 {
        let less = listing.drop_last();
        let entry = listing.last();
        let paths = needed(less);
        let parts = split(entry.path);
        assert forall|i: int| 0 <= i < less.len() implies is_canonical(
            (#[trigger] less[i]).path,
        ) by {
            assert(is_canonical(listing[i].path));
        }
        lemma_needed(less);
        assert(is_canonical(listing[listing.len() - 1].path));
        assert(less.push(entry) =~= listing);
        assert forall|i: int| 0 <= i < paths.len() implies first_under(
            listing,
            #[trigger] paths[i],
        ) is Some by {
            assert(first_under(less, paths[i]) is Some);
        }
        lemma_prefixes_closed(paths, less, entry, parts.len());
        lemma_prefixes_grow(paths, parts, 0, parts.len());
        lemma_covers_push(paths, needed(listing), less, entry);
    }
}

/// One more path is laid out as one more node.
proof fn lemma_laid_out_push(
    root: NodeView,
    paths: Seq<Seq<char>>,
    listing: Seq<EntryView>,
    path: Seq<char>,
    uid: u32,
    gid: u32,
)
    requires
        is_closed(paths, listing),
        paths.len() + 2 < u64::MAX,
        is_canonical(path),
        !paths.contains(path),
        parent_of(path).len() == 0 || paths.contains(parent_of(path)),
        first_under(listing, path) is Some,
    ensures
        is_closed(paths.push(path), listing),
        number_of(paths.push(path), path) == paths.len() + 2,
        laid_out(root, paths.push(path), listing, uid, gid) == laid_out(
            root,
            paths,
            listing,
            uid,
            gid,
        ).insert((paths.len() + 2) as u64, node_at(paths, listing, path, uid, gid)),
        laid_out(root, paths, listing, uid, gid).contains_key(number_of(paths, parent_of(path))),
        forall|c: u64|
            is_child(
                laid_out(root, paths, listing, uid, gid),
                c,
                number_of(paths, parent_of(path)),
            ) ==> (#[trigger] laid_out(root, paths, listing, uid, gid)[c]).name != name_of(path),
{
    let more = paths.push(path);
    let nodes = laid_out(root, paths, listing, uid, gid);
    let grown = laid_out(root, more, listing, uid, gid);
    let new = (paths.len() + 2) as u64;
    lemma_closed_push(paths, listing, path);
    assert(more[paths.len() as int] == path);
    assert(more.index_of(path) == paths.len());
    assert forall|q: Seq<char>| paths.contains(q) implies #[trigger] paths.index_of(q)
        == more.index_of(q) by {
        let i = paths.index_of(q);
        assert(paths[i] == q);
        assert(more[i] == q);
    }
    assert forall|n: u64| #[trigger] grown.contains_key(n) implies grown[n] == nodes.insert(
        new,
        node_at(paths, listing, path, uid, gid),
    )[n] by {
        if n != ROOT_INODE {
            let q = more[n - 2];
            if n < new {
                assert(paths[n - 2] == q);
            }
            assert(parent_of(q).len() == 0 || paths.contains(parent_of(q)));
            assert(number_of(paths, parent_of(q)) == number_of(more, parent_of(q)));
        }
    }
    assert(grown =~= nodes.insert(new, node_at(paths, listing, path, uid, gid)));
    let parent = number_of(paths, parent_of(path));
    if parent_of(path).len() > 0 {
        let i = paths.index_of(parent_of(path));
        assert(paths[i] == parent_of(path));
    }
    assert forall|c: u64| is_child(nodes, c, parent) implies (#[trigger] nodes[c]).name != name_of(
        path,
    ) by {
        let q = paths[c - 2];
        assert(is_canonical(q));
        lemma_parent_and_name(q);
        lemma_parent_and_name(path);
        if name_of(q) == name_of(path) {
            if parent_of(q).len() > 0 {
                let j = paths.index_of(parent_of(q));
                assert(paths[j] == parent_of(q));
            }
            if parent_of(path).len() > 0 && parent_of(q).len() > 0 {
                assert(parent_of(q) == parent_of(path));
            } else {
                assert(parent_of(q) =~= parent_of(path));
            }
            assert(q == path);
            assert(paths.contains(q));
        }
    }
}

/// One more entry changes nothing about paths that have an entry already.
proof fn lemma_laid_out_listing(
    root: NodeView,
    paths: Seq<Seq<char>>,
    listing: Seq<EntryView>,
    entry: EntryView,
    uid: u32,
    gid: u32,
)
    requires
        is_closed(paths, listing),
    ensures
        is_closed(paths, listing.push(entry)),
        laid_out(root, paths, listing.push(entry), uid, gid) == laid_out(
            root,
            paths,
            listing,
            uid,
            gid,
        ),
{
    let more = listing.push(entry);
    assert(more.drop_last() =~= listing);
    assert forall|i: int| 0 <= i < paths.len() implies first_under(more, #[trigger] paths[i])
        == first_under(listing, paths[i]) by {
        assert(first_under(listing, paths[i]) is Some);
    }
    assert(laid_out(root, paths, more, uid, gid) =~= laid_out(root, paths, listing, uid, gid));
}

/// When all first components of an entry's path are there, every path above the entry is.
pub proof fn lemma_covers_push(
    paths: Seq<Seq<char>>,
    all: Seq<Seq<char>>,
    listing: Seq<EntryView>,
    entry: EntryView,
)
    requires
        covers(paths, listing),
        is_canonical(entry.path),
        forall|p: Seq<char>| #[trigger] paths.contains(p) ==> all.contains(p),
        forall|k: int|
            1 <= k <= split(entry.path).len() ==> all.contains(
                #[trigger] prefix_path(split(entry.path), k),
            ),
    ensures
        covers(all, listing.push(entry)),
{
    let more = listing.push(entry);
    assert(more.drop_last() =~= listing);
    assert forall|path: Seq<char>|
        is_canonical(path) && #[trigger] first_under(more, path) is Some implies all.contains(
        path,
    ) by {
        if first_under(listing, path) is Some {
            assert(paths.contains(path));
        } else {
            assert(is_under(entry.path, path));
            lemma_under_parts(entry.path, path);
            lemma_split_pieces(path);
            assert(path == prefix_path(split(entry.path), split(path).len() as int));
        }
    }
}

/// More components, more paths.
pub proof fn lemma_prefixes_grow(paths: Seq<Seq<char>>, parts: Seq<Seq<char>>, k: nat, n: nat)
    requires
        k <= n,
    ensures
        with_prefixes(paths, parts, k).len() <= with_prefixes(paths, parts, n).len(),
        forall|p: Seq<char>| #[trigger]
            with_prefixes(paths, parts, k).contains(p) ==> with_prefixes(paths, parts, n).contains(
                p,
            ),
        forall|j: int|
            1 <= j <= n ==> with_prefixes(paths, parts, n).contains(
                #[trigger] prefix_path(parts, j),
            ),
    decreases n,
{
    if n > 0 {
        let before = with_prefixes(paths, parts, (n - 1) as nat);
        let path = prefix_path(parts, n as int);
        if k < n {
            lemma_prefixes_grow(paths, parts, k, (n - 1) as nat);
        } else {
            lemma_prefixes_grow(paths, parts, (k - 1) as nat, (n - 1) as nat);
        }
        assert forall|p: Seq<char>| before.contains(p) implies #[trigger] with_prefixes(
            paths,
            parts,
            n,
        ).contains(p) by {
            lemma_push_contains(before, path, p);
        }
        lemma_push_contains(before, path, path);
    }
}

/// More entries need no fewer paths.
proof fn lemma_needed_grows(listing: Seq<EntryView>, i: int)
    requires
        0 <= i <= listing.len(),
    ensures
        needed(listing.take(i)).len() <= needed(listing).len(),
    decreases listing.len(),
{
    if i < listing.len() {
        lemma_needed_grows(listing.drop_last(), i);
        assert(listing.drop_last().take(i) =~= listing.take(i));
        let parts = split(listing.last().path);
        lemma_prefixes_grow(needed(listing.drop_last()), parts, 0, parts.len());
    } else {
        assert(listing.take(i) =~= listing);
    }
}

/// The state of a tree that is being laid out.
pub open spec fn is_built(
    tree: InodeTree,
    numbers: PathMap<u64>,
    root: NodeView,
    paths: Seq<Seq<char>>,
    listing: Seq<EntryView>,
    uid: u32,
    gid: u32,
) -> bool {
    &&& tree.wf()
    &&& numbers.wf()
    &&& is_closed(paths, listing)
    &&& paths.len() + 2 <= u64::MAX
    &&& tree@ == laid_out(root, paths, listing, uid, gid)
    &&& is_tree(tree@, (paths.len() + 2) as u64)
    &&& forall|p: Seq<char>| #[trigger] numbers@.contains_key(p) <==> paths.contains(p)
    &&& forall|p: Seq<char>| #[trigger]
        numbers@.contains_key(p) ==> numbers@[p] == number_of(paths, p)
}

/// The listing that some entries make up.
pub open spec fn listed(entries: Seq<&IndexEntry>) -> Seq<EntryView> {
    entries.map_values(|entry: &IndexEntry| entry@)
}

/// Adds the node for a path that has none yet.
fn add_node(
    tree: &mut InodeTree,
    numbers: &mut PathMap<u64>,
    next: &mut u64,
    node: FsNode,
    path: String,
    uid: u32,
    gid: u32,
    Ghost(root): Ghost<NodeView>,
    Ghost(paths): Ghost<Seq<Seq<char>>>,
    Ghost(listing): Ghost<Seq<EntryView>>,
)
    requires
        is_built(*old(tree), *old(numbers), root, paths, listing, uid, gid),
        *old(next) == paths.len() + 2,
        paths.len() + 3 < u64::MAX,
        node.ino == *old(next),
        node@ == node_at(paths, listing, path@, uid, gid),
        is_canonical(path@),
        !paths.contains(path@),
        parent_of(path@).len() == 0 || paths.contains(parent_of(path@)),
        first_under(listing, path@) is Some,
    ensures
        is_built(*final(tree), *final(numbers), root, paths.push(path@), listing, uid, gid),
        *final(next) == paths.len() + 3,
        number_of(paths.push(path@), path@) == *old(next),
{
    let ghost view = node@;
    let ghost text = path@;
    proof {
        lemma_laid_out_push(root, paths, listing, text, uid, gid);
        lemma_parent_and_name(text);
        law_insert_keeps_tree(tree@, *next, view);
        if let Some(c) = child_named(tree@, view.parent, view.name) {
            assert(tree@[c].name == view.name);
        }
    }
    tree.insert(node);
    numbers.insert(path, *next);
    proof {
        let more = paths.push(text);
        assert forall|p: Seq<char>| #[trigger] numbers@.contains_key(p) <==> more.contains(p) by {
            lemma_push_contains(paths, text, p);
        }
        assert forall|p: Seq<char>| #[trigger] numbers@.contains_key(p) implies numbers@[p]
            == number_of(more, p) by {
            if p != text {
                assert(paths.contains(p));
                let a = paths.index_of(p);
                assert(paths[a] == p);
                assert(more[a] == p);
                let b = more.index_of(p);
                assert(more[b] == p);
                assert(a == b);
                assert(is_canonical(paths[a]));
                lemma_canonical_nonempty(p);
            }
        }
    }
    *next = *next + 1;
}

/// Adds the nodes for an entry and for the directories above it, as far as there are none yet.
fn add_entry(
    tree: &mut InodeTree,
    numbers: &mut PathMap<u64>,
    next: &mut u64,
    entry: &IndexEntry,
    uid: u32,
    gid: u32,
    Ghost(root): Ghost<NodeView>,
    Ghost(paths): Ghost<Seq<Seq<char>>>,
    Ghost(done): Ghost<Seq<EntryView>>,
)
    requires
        is_built(*old(tree), *old(numbers), root, paths, done.push(entry@), uid, gid),
        covers(paths, done),
        is_canonical(entry@.path),
        first_under(done, entry@.path) is None,
        *old(next) == paths.len() + 2,
        with_prefixes(paths, split(entry@.path), split(entry@.path).len()).len() + 2 < u64::MAX,
    ensures
        is_built(
            *final(tree),
            *final(numbers),
            root,
            with_prefixes(paths, split(entry@.path), split(entry@.path).len()),
            done.push(entry@),
            uid,
            gid,
        ),
        *final(next) == with_prefixes(
            paths,
            split(entry@.path),
            split(entry@.path).len(),
        ).len() + 2,
{
    let ghost seen = done.push(entry@);
    let ghost pieces = split(entry@.path);
    let parts: Vec<Vec<char>> = components(to_chars(entry.virtual_path.as_str()).as_slice());
    let mut current: Vec<char> = Vec::new();
    let mut parent: u64 = ROOT_INODE;
    let mut k: usize = 0;
    assert(pieces.take(0) =~= Seq::<Seq<char>>::empty());
    assert(parts.len() == pieces.len());
    #[verifier::loop_isolation(false)]
    while k < parts.len()
        invariant
            k <= parts.len(),
            *next == with_prefixes(paths, pieces, k as nat).len() + 2,
            is_built(
                *tree,
                *numbers,
                root,
                with_prefixes(paths, pieces, k as nat),
                seen,
                uid,
                gid,
            ),
            current@ == prefix_path(pieces, k as int),
            k == 0 ==> parent == ROOT_INODE,
            k > 0 ==> with_prefixes(paths, pieces, k as nat).contains(current@) && parent
                == number_of(with_prefixes(paths, pieces, k as nat), current@),
        decreases parts.len() - k,
    {
        let ghost before = with_prefixes(paths, pieces, k as nat);
        let ghost path = prefix_path(pieces, k + 1);
        proof {
            lemma_prefix(entry@.path, k + 1);
            if k > 0 {
                lemma_prefix(entry@.path, k as int);
                lemma_canonical_nonempty(current@);
            }
            lemma_prefixes_grow(paths, pieces, (k + 1) as nat, pieces.len());
            lemma_parent_and_name(path);
            lemma_canonical_nonempty(path);
            assert(parts@[k as int]@ == pieces[k as int]);
        }
        if current.len() > 0 {
            current.push('/');
        }
        current.extend_from_slice(parts[k].as_slice());
        assert(current@ =~= path);
        let last: bool = k + 1 == parts.len();
        let text: String = from_chars(current.as_slice());
        match numbers.get(text.as_str()) {
            Some(number) => {
                parent = *number;
            },
            None => {
                let node = FsNode {
                    ino: *next,
                    name: from_chars(parts[k].as_slice()),
                    parent,
                    kind: if last {
                        entry.kind
                    } else {
                        EntryKind::Directory
                    },
                    mode: if last {
                        entry.mode
                    } else {
                        IMPLIED_MODE
                    },
                    uid: if last {
                        entry.uid
                    } else {
                        uid
                    },
                    gid: if last {
                        entry.gid
                    } else {
                        gid
                    },
                    size: if last && !matches!(entry.kind, EntryKind::Directory) {
                        entry.block_length
                    } else {
                        0
                    },
                    atime: entry.atime,
                    mtime: entry.mtime,
                    ctime: entry.ctime,
                };
                proof {
                    lemma_first_of_new(paths, before, done, entry@, k as int);
                    if !last {
                        lemma_shorter(entry@.path, k + 1);
                    }
                    assert(node@ =~= node_at(before, seen, path, uid, gid));
                }
                let number: u64 = *next;
                add_node(
                    tree,
                    numbers,
                    next,
                    node,
                    text,
                    uid,
                    gid,
                    Ghost(root),
                    Ghost(before),
                    Ghost(seen),
                );
                proof {
                    lemma_push_contains(before, path, path);
                }
                parent = number;
            },
        }
        k += 1;
    }
}

/// Lays an archive's entries out as a tree; also tells the next free number. Directories that
/// have no entry of their own get the given owner.
pub fn build_tree(entries: &Vec<&IndexEntry>, root: FsNode, uid: u32, gid: u32) -> (r: (
    InodeTree,
    u64,
))
    requires
        root.ino == ROOT_INODE,
        root.parent == ROOT_INODE,
        root.kind is Directory,
        all_canonical(listed(entries@)),
        is_sorted(paths_of(listed(entries@))),
        needed(listed(entries@)).len() + 2 < u64::MAX,
    ensures
        r.0.wf(),
        r.0@ == laid_out(root@, needed(listed(entries@)), listed(entries@), uid, gid),
        r.1 == needed(listed(entries@)).len() + 2,
        is_tree(r.0@, r.1),
{
    let ghost listing = listed(entries@);
    let ghost top = root@;
    let mut tree: InodeTree = InodeTree::new(root);
    let mut numbers: PathMap<u64> = PathMap::new();
    let mut next: u64 = 2;
    let mut i: usize = 0;
    proof {
        let none = Seq::<Seq<char>>::empty();
        assert(listing.take(0) =~= Seq::<EntryView>::empty());
        law_root_is_tree(top);
        assert(tree@ =~= laid_out(top, none, listing.take(0), uid, gid));
    }
    #[verifier::loop_isolation(false)]
    while i < entries.len()
        invariant
            i <= entries.len(),
            next == needed(listing.take(i as int)).len() + 2,
            is_built(
                tree,
                numbers,
                top,
                needed(listing.take(i as int)),
                listing.take(i as int),
                uid,
                gid,
            ),
            covers(needed(listing.take(i as int)), listing.take(i as int)),
        decreases entries.len() - i,
    {
        let entry: &IndexEntry = entries[i];
        let ghost done = listing.take(i as int);
        let ghost paths = needed(done);
        let ghost seen = listing.take(i + 1);
        let ghost pieces = split(entry@.path);
        proof {
            assert(entry@ == listing[i as int]);
            assert(seen =~= done.push(entry@));
            assert(seen.drop_last() =~= done);
            lemma_laid_out_listing(top, paths, done, entry@, uid, gid);
            lemma_needed_grows(listing, i + 1);
            assert(needed(seen) == with_prefixes(paths, pieces, pieces.len()));
            assert(is_sorted(paths_of(done.push(entry@)))) by {
                let some = paths_of(done.push(entry@));
                assert forall|a: int, b: int| 0 <= a < b < some.len() implies precedes(
                    #[trigger] some[a],
                    #[trigger] some[b],
                ) by {
                    assert(some[a] == paths_of(listing)[a]);
                    assert(some[b] == paths_of(listing)[b]);
                }
            }
            lemma_entry_first(done, entry@);
        }
        add_entry(
            &mut tree,
            &mut numbers,
            &mut next,
            entry,
            uid,
            gid,
            Ghost(top),
            Ghost(paths),
            Ghost(done),
        );
        proof {
            lemma_prefixes_grow(paths, pieces, 0, pieces.len());
            lemma_covers_push(paths, needed(seen), done, entry@);
        }
        i += 1;
    }
    assert(listing.take(i as int) =~= listing);
    (tree, next)
}

/// A path that a walk has not come across yet has no entry at it or below it but the present one.
pub proof fn lemma_first_of_new(
    paths: Seq<Seq<char>>,
    before: Seq<Seq<char>>,
    done: Seq<EntryView>,
    entry: EntryView,
    k: int,
)
    requires
        covers(paths, done),
        is_canonical(entry.path),
        0 <= k < split(entry.path).len(),
        before == with_prefixes(paths, split(entry.path), k as nat),
        !before.contains(prefix_path(split(entry.path), k + 1)),
    ensures
        first_under(done.push(entry), prefix_path(split(entry.path), k + 1)) == Some(entry),
{
    let path = prefix_path(split(entry.path), k + 1);
    lemma_prefix(entry.path, k + 1);
    lemma_prefixes_grow(paths, split(entry.path), 0, k as nat);
    assert(done.push(entry).drop_last() =~= done);
    if first_under(done, path) is Some {
        assert(paths.contains(path));
    }
}

/// A path made of some of the first components is not the whole path.
pub proof fn lemma_shorter(path: Seq<char>, k: int)
    requires
        is_canonical(path),
        1 <= k < split(path).len(),
    ensures
        prefix_path(split(path), k) != path,
{
    lemma_prefix(path, k);
}

/// The tree of an archive has just one node for every entry and for every directory above one, with
/// the attributes of the entry where there is one.
pub proof fn law_tree_shows_archive(
    root: NodeView,
    listing: Seq<EntryView>,
    uid: u32,
    gid: u32,
    path: Seq<char>,
)
    requires
        is_sorted(paths_of(listing)),
        all_canonical(listing),
        needed(listing).len() + 2 < u64::MAX,
        is_canonical(path),
    ensures
        ({
            let paths = needed(listing);
            let nodes = laid_out(root, paths, listing, uid, gid);
            &&& paths.contains(path) <==> exists|i: int|
                0 <= i < listing.len() && is_under((#[trigger] listing[i]).path, path)
            &&& forall|i: int|
                0 <= i < listing.len() && (#[trigger] listing[i]).path == path ==> {
                    let node = nodes[number_of(paths, path)];
                    &&& nodes.contains_key(number_of(paths, path))
                    &&& node.kind == listing[i].meta.kind
                    &&& node.mode == listing[i].meta.mode
                    &&& node.mtime == listing[i].meta.mtime
                    &&& node.kind !is Directory ==> node.size == listing[i].meta.block_length
                }
        }),
{
    let paths = needed(listing);
    let nodes = laid_out(root, paths, listing, uid, gid);
    lemma_needed(listing);
    lemma_first_under(listing, path);
    lemma_canonical_nonempty(path);
    if paths.contains(path) {
        let n = paths.index_of(path);
        assert(paths[n] == path);
        assert(first_under(listing, path) is Some);
        let entry = first_under(listing, path)->Some_0;
        let i = choose|i: int| 0 <= i < listing.len() && #[trigger] listing[i] == entry;
        assert(is_under(listing[i].path, path));
    }
    assert forall|i: int| 0 <= i < listing.len() && (#[trigger] listing[i]).path == path implies {
        let node = nodes[number_of(paths, path)];
        &&& nodes.contains_key(number_of(paths, path))
        &&& node.kind == listing[i].meta.kind
        &&& node.mode == listing[i].meta.mode
        &&& node.mtime == listing[i].meta.mtime
        &&& node.kind !is Directory ==> node.size == listing[i].meta.block_length
    } by {
        assert(is_under(listing[i].path, path));
        assert(first_under(listing, path) is Some);
        let n = paths.index_of(path);
        assert(paths[n] == path);
        lemma_first_is_entry(listing, i);
    }
}

/// Nothing lies below an entry that is not a directory.
pub open spec fn is_tidy_listing(listing: Seq<EntryView>) -> bool {
    forall|i: int, j: int|
        0 <= i < listing.len() && 0 <= j < listing.len() && i != j && is_under(
            (#[trigger] listing[j]).path,
            (#[trigger] listing[i]).path,
        ) ==> listing[i].meta.kind is Directory
}

/// The tree of an archive is tidy where nothing lies below an entry that is not a directory.
pub proof fn law_tree_is_tidy(root: NodeView, listing: Seq<EntryView>, uid: u32, gid: u32)
    requires
        all_canonical(listing),
        is_tidy_listing(listing),
        needed(listing).len() + 2 < u64::MAX,
        root.kind is Directory,
        root.parent == ROOT_INODE,
    ensures
        is_tidy(laid_out(root, needed(listing), listing, uid, gid)),
{
    let paths = needed(listing);
    let nodes = laid_out(root, paths, listing, uid, gid);
    lemma_needed(listing);
    assert forall|c: u64| #[trigger] nodes.contains_key(c) implies nodes.contains_key(
        nodes[c].parent,
    ) && nodes[nodes[c].parent].kind is Directory by {
        if c != ROOT_INODE {
            let p = paths[c - 2];
            let q = parent_of(p);
            assert(is_canonical(p) && first_under(listing, p) is Some);
            lemma_parent_and_name(p);
            if q.len() > 0 {
                let n = paths.index_of(q);
                assert(paths[n] == q);
                lemma_first_under(listing, q);
                lemma_first_under(listing, p);
                let e = first_under(listing, q)->Some_0;
                let f = first_under(listing, p)->Some_0;
                let i = choose|i: int| 0 <= i < listing.len() && #[trigger] listing[i] == e;
                let j = choose|j: int| 0 <= j < listing.len() && #[trigger] listing[j] == f;
                lemma_under_parts(f.path, p);
                lemma_under_parts(p, q);
                lemma_under_parts(f.path, q);
                assert(split(f.path).take(split(q).len() as int) =~= split(f.path).take(
                    split(p).len() as int,
                ).take(split(q).len() as int));
                assert(split(p).drop_last() =~= split(p).take(split(q).len() as int));
                assert(is_under(f.path, q));
                assert(f.path != q);
            }
        }
    }
}

/// In a listing in order, the first entry at or below an entry's path is that entry.
pub proof fn lemma_first_is_entry(listing: Seq<EntryView>, i: int)
    requires
        0 <= i < listing.len(),
        is_sorted(paths_of(listing)),
    ensures
        first_under(listing, listing[i].path) == Some(listing[i]),
    decreases listing.len(),
{
    let less = listing.drop_last();
    assert(is_sorted(paths_of(less))) by {
        let some = paths_of(less);
        assert forall|a: int, b: int| 0 <= a < b < some.len() implies precedes(
            #[trigger] some[a],
            #[trigger] some[b],
        ) by {
            assert(some[a] == paths_of(listing)[a]);
            assert(some[b] == paths_of(listing)[b]);
        }
    }
    if i < less.len() {
        lemma_first_is_entry(less, i);
        assert(less[i] == listing[i]);
    } else {
        assert(less.push(listing[i]) =~= listing);
        lemma_entry_first(less, listing[i]);
    }
}

} // verus!
