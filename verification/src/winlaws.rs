//! What holds of an archive that is mounted as a drive, whatever requests come.
use vstd::prelude::*;
use vstd::utf8::*;
use crate::entry::{EntryView, Meta};
use crate::fuse_driver::read_part;
use crate::fuselaws::law_read_after_write;
use crate::index::{lemma_listing_map, lemma_sorted_listing, listing_map, paths_of};
use crate::laws::{lemma_under_both, lemma_under_chars};
use crate::layout::{all_canonical, first_under, lemma_entry_first, lemma_first_under, lemma_needed,
    needed};
use crate::path::{child_path, is_canonical, is_under, law_moved_back, law_moved_canonical,
    lemma_canonical_nonempty, lemma_joined_split, lemma_parent_and_name, lemma_split_pieces,
    lemma_under_parts, moved, name_of, parent_of, split};
use crate::pathmap::{is_sorted, lemma_push_contains, lemma_sorted_distinct};
use crate::storage::{came_from, moved_entries, without_tree};
use crate::text::{precedes, precedes_at, precedes_transitive};
use crate::time::Timestamp;
use crate::windows_driver::{has_members, is_member_list, is_tree_list, law_tree_list_unique,
    lemma_canonical_parts, lemma_parent_text, move_checked, parent_text, relocated_map, tree_list,
    win_cleaned_up, win_moved, win_nodes, win_opened, win_with_contents, win_without_tree,
    win_write_outcome, with_member, with_members, without_member, without_members, without_path,
    NtStatus, WinNode, WinView};

verus! {

/// Every path of a node is canonical, and leads through nodes from the root.
pub open spec fn is_rooted(nodes: Map<Seq<char>, WinNode>) -> bool {
    &&& nodes.dom().finite()
    &&& forall|c: Seq<char>| #[trigger]
        nodes.contains_key(c) && c.len() > 0 ==> {
            &&& is_canonical(c)
            &&& parent_text(c).len() == 0 || nodes.contains_key(parent_text(c))
        }
}

/// `c` is in the list of what stands in `p`.
pub open spec fn is_listed_in(
    children: Map<Seq<char>, Seq<Seq<char>>>,
    c: Seq<char>,
    p: Seq<char>,
) -> bool {
    children.contains_key(p) && children[p].contains(c)
}

/// Every node is listed once, in the directory in which it stands, and nothing else is listed.
pub open spec fn is_listed(view: WinView) -> bool {
    &&& is_rooted(view.nodes)
    &&& forall|c: Seq<char>, p: Seq<char>| #[trigger]
        is_listed_in(view.children, c, p) <==> view.nodes.contains_key(c) && c.len() > 0
            && parent_text(c) == p
    &&& forall|p: Seq<char>| #[trigger]
        view.children.contains_key(p) ==> view.children[p].no_duplicates()
}

/// What `without_path` leaves.
proof fn lemma_without_path(list: Seq<Seq<char>>, path: Seq<char>)
    ensures
        forall|c: Seq<char>| #[trigger]
            without_path(list, path).contains(c) <==> list.contains(c) && c != path,
        list.no_duplicates() ==> without_path(list, path).no_duplicates(),
    decreases list.len(),
{
    reveal(Seq::filter);
    if list.len() > 0 {
        let less = list.drop_last();
        lemma_without_path(less, path);
        let kept = without_path(less, path);
        assert(less.push(list.last()) =~= list);
        assert forall|c: Seq<char>| #[trigger] without_path(list, path).contains(
            c,
        ) <==> list.contains(c) && c != path by {
            lemma_push_contains(less, list.last(), c);
            lemma_push_contains(kept, list.last(), c);
        }
        if list.no_duplicates() {
            assert(less.no_duplicates()) by {
                assert forall|i: int, j: int|
                    0 <= i < less.len() && 0 <= j < less.len() && i != j implies less[i]
                    != less[j] by {
                    assert(list[i] != list[j]);
                }
            }
            assert(!less.contains(list.last())) by {
                if less.contains(list.last()) {
                    let i = choose|i: int| 0 <= i < less.len() && less[i] == list.last();
                    assert(list[i] != list[list.len() - 1]);
                }
            }
            if list.last() != path {
                let more = kept.push(list.last());
                assert(without_path(list, path) =~= more);
                assert(!kept.contains(list.last()));
                assert forall|i: int, j: int|
                    0 <= i < more.len() && 0 <= j < more.len() && i != j implies more[i]
                    != more[j] by {
                    if i < kept.len() && j < kept.len() {
                        assert(kept[i] != kept[j]);
                    } else if i < kept.len() {
                        assert(kept.contains(kept[i]));
                    } else if j < kept.len() {
                        assert(kept.contains(kept[j]));
                    }
                }
            }
        }
    }
}

/// A list without duplicates gets one more member that it does not hold.
proof fn lemma_push_distinct(list: Seq<Seq<char>>, x: Seq<char>)
    requires
        list.no_duplicates(),
        !list.contains(x),
    ensures
        list.push(x).no_duplicates(),
{
    let more = list.push(x);
    assert forall|i: int, j: int|
        0 <= i < more.len() && 0 <= j < more.len() && i != j implies more[i] != more[j] by {
        if i < list.len() && j < list.len() {
            assert(list[i] != list[j]);
        } else if i < list.len() {
            assert(list.contains(list[i]));
        } else if j < list.len() {
            assert(list.contains(list[j]));
        }
    }
}

/// What adding to the lists does.
proof fn lemma_with_member(children: Map<Seq<char>, Seq<Seq<char>>>, path: Seq<char>)
    ensures
        forall|c: Seq<char>, p: Seq<char>| #[trigger]
            is_listed_in(with_member(children, path), c, p) <==> is_listed_in(children, c, p) || (c
                == path && p == parent_text(path)),
        !is_listed_in(children, path, parent_text(path)) && (forall|p: Seq<char>| #[trigger]
            children.contains_key(p) ==> children[p].no_duplicates()) ==> forall|p: Seq<char>|
         #[trigger]
            with_member(children, path).contains_key(p) ==> with_member(
                children,
                path,
            )[p].no_duplicates(),
{
    let after = with_member(children, path);
    let q = parent_text(path);
    assert forall|c: Seq<char>, p: Seq<char>| #[trigger] is_listed_in(after, c, p) <==> is_listed_in(
        children,
        c,
        p,
    ) || (c == path && p == q) by {
        if p == q {
            if children.contains_key(q) {
                lemma_push_contains(children[q], path, c);
            } else {
                assert(seq![path][0] == path);
                if after[q].contains(c) {
                    let i = choose|i: int| 0 <= i < after[q].len() && after[q][i] == c;
                }
            }
        }
    }
    if children.contains_key(q) && children[q].no_duplicates() && !children[q].contains(path) {
        lemma_push_distinct(children[q], path);
    }
}

/// What taking out of the lists does.
proof fn lemma_without_member(children: Map<Seq<char>, Seq<Seq<char>>>, path: Seq<char>)
    ensures
        forall|c: Seq<char>, p: Seq<char>| #[trigger]
            is_listed_in(without_member(children, path), c, p) <==> {
                &&& is_listed_in(children, c, p)
                &&& p != path
                &&& !(c == path && p == parent_text(path))
            },
        (forall|p: Seq<char>| #[trigger]
            children.contains_key(p) ==> children[p].no_duplicates()) ==> forall|p: Seq<char>|
         #[trigger]
            without_member(children, path).contains_key(p) ==> without_member(
                children,
                path,
            )[p].no_duplicates(),
{
    let less = children.remove(path);
    let q = parent_text(path);
    if less.contains_key(q) {
        lemma_without_path(less[q], path);
    }
}

/// What taking several paths out of the lists does.
proof fn lemma_without_members(children: Map<Seq<char>, Seq<Seq<char>>>, paths: Seq<Seq<char>>)
    ensures
        forall|c: Seq<char>, p: Seq<char>| #[trigger]
            is_listed_in(without_members(children, paths), c, p) <==> {
                &&& is_listed_in(children, c, p)
                &&& !paths.contains(p)
                &&& !(paths.contains(c) && p == parent_text(c))
            },
        (forall|p: Seq<char>| #[trigger]
            children.contains_key(p) ==> children[p].no_duplicates()) ==> forall|p: Seq<char>|
         #[trigger]
            without_members(children, paths).contains_key(p) ==> without_members(
                children,
                paths,
            )[p].no_duplicates(),
    decreases paths.len(),
{
    if paths.len() > 0 {
        let less = paths.drop_last();
        let path = paths.last();
        lemma_without_members(children, less);
        lemma_without_member(without_members(children, less), path);
        assert(less.push(path) =~= paths);
        assert forall|c: Seq<char>| #[trigger] paths.contains(c) <==> less.contains(c) || c
            == path by {
            lemma_push_contains(less, path, c);
        }
    }
}

/// What adding several paths to the lists does.
proof fn lemma_with_members(children: Map<Seq<char>, Seq<Seq<char>>>, paths: Seq<Seq<char>>)
    requires
        paths.no_duplicates(),
        forall|i: int|
            0 <= i < paths.len() ==> !is_listed_in(
                children,
                #[trigger] paths[i],
                parent_text(paths[i]),
            ),
        forall|p: Seq<char>| #[trigger]
            children.contains_key(p) ==> children[p].no_duplicates(),
    ensures
        forall|c: Seq<char>, p: Seq<char>| #[trigger]
            is_listed_in(with_members(children, paths), c, p) <==> is_listed_in(children, c, p) || (
            paths.contains(c) && p == parent_text(c)),
        forall|p: Seq<char>| #[trigger]
            with_members(children, paths).contains_key(p) ==> with_members(
                children,
                paths,
            )[p].no_duplicates(),
    decreases paths.len(),
{
    if paths.len() > 0 {
        let less = paths.drop_last();
        let path = paths.last();
        assert(less.no_duplicates()) by {
            assert forall|i: int, j: int|
                0 <= i < less.len() && 0 <= j < less.len() && i != j implies less[i]
                != less[j] by {
                assert(paths[i] != paths[j]);
            }
        }
        assert forall|i: int| 0 <= i < less.len() implies !is_listed_in(
            children,
            #[trigger] less[i],
            parent_text(less[i]),
        ) by {
            assert(less[i] == paths[i]);
        }
        lemma_with_members(children, less);
        assert(!less.contains(path)) by {
            if less.contains(path) {
                let i = choose|i: int| 0 <= i < less.len() && less[i] == path;
                assert(paths[i] != paths[paths.len() - 1]);
            }
        }
        assert(path == paths[paths.len() - 1]);
        assert(!is_listed_in(with_members(children, less), path, parent_text(path)));
        lemma_with_member(with_members(children, less), path);
        assert(less.push(path) =~= paths);
        assert forall|c: Seq<char>| #[trigger] paths.contains(c) <==> less.contains(c) || c
            == path by {
            lemma_push_contains(less, path, c);
        }
    }
}

/// Of two different texts one precedes the other.
proof fn lemma_total(a: Seq<char>, b: Seq<char>)
    requires
        a != b,
    ensures
        precedes(a, b) || precedes(b, a),
{
    let x: Seq<u8> = encode_utf8(a);
    let y: Seq<u8> = encode_utf8(b);
    encode_utf8_decode_utf8(a);
    encode_utf8_decode_utf8(b);
    assert(x != y);
    lemma_differ(x, y, 0);
}

proof fn lemma_differ(x: Seq<u8>, y: Seq<u8>, i: int)
    requires
        x != y,
        0 <= i <= x.len(),
        i <= y.len(),
        forall|k: int| 0 <= k < i ==> #[trigger] x[k] == y[k],
    ensures
        (exists|j: int| #[trigger] precedes_at(x, y, j)) || (exists|j: int| #[trigger]
            precedes_at(y, x, j)),
    decreases x.len() - i,
{
    if i == x.len() || i == y.len() {
        if i == x.len() && i == y.len() {
            assert(x =~= y);
        } else if i == x.len() {
            assert(precedes_at(x, y, i));
        } else {
            assert(precedes_at(y, x, i));
        }
    } else if x[i] == y[i] {
        lemma_differ(x, y, i + 1);
    } else if x[i] < y[i] {
        assert(precedes_at(x, y, i));
    } else {
        assert(precedes_at(y, x, i));
    }
}

/// A sorted list has a place for one more text.
proof fn lemma_place_for(list: Seq<Seq<char>>, x: Seq<char>, i: int) -> (more: Seq<Seq<char>>)
    requires
        is_sorted(list),
        !list.contains(x),
        0 <= i <= list.len(),
        forall|k: int| 0 <= k < i ==> precedes(#[trigger] list[k], x),
    ensures
        is_sorted(more),
        forall|c: Seq<char>| #[trigger] more.contains(c) <==> list.contains(c) || c == x,
    decreases list.len() - i,
{
    if i < list.len() && precedes(list[i], x) {
        lemma_place_for(list, x, i + 1)
    } else {
        let more = list.take(i).push(x) + list.skip(i);
        if i < list.len() {
            assert(list.contains(list[i]));
            lemma_total(list[i], x);
        }
        assert forall|j: int, k: int| 0 <= j < k < more.len() implies precedes(
            #[trigger] more[j],
            #[trigger] more[k],
        ) by {
            let before = if j < i {
                list[j]
            } else {
                list[j - 1]
            };
            if j == i {
                assert(more[k] == list[k - 1]);
                if k - 1 > i {
                    assert(precedes(list[i], list[k - 1]));
                    precedes_transitive(x, list[i], list[k - 1]);
                }
            } else if k == i {
                assert(more[j] == list[j]);
            } else {
                assert(more[j] == before);
            }
        }
        assert forall|c: Seq<char>| #[trigger] more.contains(c) <==> list.contains(c) || c == x by {
            if list.contains(c) {
                let k = choose|k: int| 0 <= k < list.len() && list[k] == c;
                assert(more[if k < i {
                    k
                } else {
                    k + 1
                }] == c);
            }
            if more.contains(c) && c != x {
                let k = choose|k: int| 0 <= k < more.len() && more[k] == c;
                assert(list[if k < i {
                    k
                } else {
                    k - 1
                }] == c);
            }
            assert(more[i] == x);
        }
        more
    }
}

/// Finitely many texts can be put in order.
proof fn lemma_sortable(all: Set<Seq<char>>) -> (list: Seq<Seq<char>>)
    requires
        all.finite(),
    ensures
        is_sorted(list),
        forall|c: Seq<char>| #[trigger] list.contains(c) <==> all.contains(c),
    decreases all.len(),
{
    if all.len() == 0 {
        assert(all =~= Set::<Seq<char>>::empty());
        Seq::<Seq<char>>::empty()
    } else {
        let x = all.choose();
        let less = lemma_sortable(all.remove(x));
        lemma_place_for(less, x, 0)
    }
}

/// The paths at and below another can be listed.
pub proof fn lemma_tree_list<V>(map: Map<Seq<char>, V>, top: Seq<char>)
    requires
        map.dom().finite(),
    ensures
        is_tree_list(tree_list(map, top), map, top),
        tree_list(map, top).no_duplicates(),
{
    let all = map.dom().filter(|k: Seq<char>| is_under(k, top));
    let list = lemma_sortable(all);
    assert(is_tree_list(list, map, top));
    law_tree_list_unique(list, map, top);
    lemma_sorted_distinct(list);
}

/// What lies below a directory lies below it through its own directory.
proof fn lemma_parent_under(c: Seq<char>, top: Seq<char>)
    requires
        is_canonical(c),
        is_canonical(top),
        is_under(c, top),
        c != top,
    ensures
        parent_text(c).len() > 0,
        is_under(parent_text(c), top),
{
    lemma_canonical_parts(c);
    lemma_parent_and_name(c);
    lemma_under_parts(c, top);
    let parts = split(c);
    let above = split(top);
    if above.len() == parts.len() {
        assert(parts.take(above.len() as int) =~= parts);
        lemma_joined_split(c);
        lemma_joined_split(top);
    }
    lemma_split_pieces(top);
    lemma_under_parts(parent_of(c), top);
    assert(split(parent_of(c)).take(above.len() as int) =~= parts.take(above.len() as int));
}

/// What stands in a directory that lies below another lies below it too.
proof fn lemma_child_under(c: Seq<char>, top: Seq<char>)
    requires
        is_canonical(c),
        is_canonical(top),
        is_under(parent_text(c), top),
    ensures
        is_under(c, top),
{
    lemma_canonical_parts(c);
    lemma_parent_and_name(c);
    lemma_canonical_nonempty(top);
    lemma_under_chars(parent_of(c), top);
    let p = parent_of(c);
    assert(p.len() >= top.len());
    assert(c == p.push('/') + name_of(c));
    if p == top {
        assert(top.push('/') =~= c.subrange(0, top.len() as int + 1));
    } else {
        assert(top.push('/') =~= p.subrange(0, top.len() as int + 1));
        assert(top.push('/') =~= c.subrange(0, top.len() as int + 1));
    }
}

/// Where there is something below a path there is something at it.
proof fn lemma_top_exists(nodes: Map<Seq<char>, WinNode>, c: Seq<char>, top: Seq<char>)
    requires
        is_rooted(nodes),
        is_canonical(top),
        nodes.contains_key(c),
        c.len() > 0,
        is_under(c, top),
    ensures
        nodes.contains_key(top),
    decreases c.len(),
{
    if c != top {
        lemma_parent_under(c, top);
        lemma_canonical_parts(c);
        lemma_parent_and_name(c);
        lemma_top_exists(nodes, parent_text(c), top);
    }
}

/// An archive that was just mounted is listed in full.
pub proof fn law_mount_is_listed(view: WinView, listing: Seq<EntryView>, now: Timestamp)
    requires
        all_canonical(listing),
        view.nodes == win_nodes(needed(listing), listing, now),
        view.children.dom() == view.nodes.dom(),
        forall|p: Seq<char>| #[trigger]
            view.children.contains_key(p) ==> is_member_list(view.children[p], view.nodes, p),
    ensures
        is_listed(view),
{
    let paths = needed(listing);
    lemma_needed(listing);
    let all = paths.to_set().insert(Seq::<char>::empty());
    vstd::seq_lib::seq_to_set_is_finite(paths);
    assert forall|c: Seq<char>| #[trigger] view.nodes.contains_key(c) implies all.contains(c) by {
        if c.len() == 0 {
            assert(c =~= Seq::<char>::empty());
        } else {
            assert(paths.to_set().contains(c));
        }
    }
    assert(view.nodes.dom().subset_of(all));
    vstd::set_lib::lemma_len_subset(view.nodes.dom(), all);
    assert forall|c: Seq<char>| #[trigger] view.nodes.contains_key(c) && c.len() > 0 implies {
        &&& is_canonical(c)
        &&& parent_text(c).len() == 0 || view.nodes.contains_key(parent_text(c))
    } by {
        let i = choose|i: int| 0 <= i < paths.len() && paths[i] == c;
        lemma_canonical_parts(c);
    }
    assert forall|c: Seq<char>, p: Seq<char>| #[trigger] is_listed_in(
        view.children,
        c,
        p,
    ) <==> view.nodes.contains_key(c) && c.len() > 0 && parent_text(c) == p by {
        if view.children.contains_key(p) {
            assert(is_member_list(view.children[p], view.nodes, p));
        } else if view.nodes.contains_key(c) && c.len() > 0 && parent_text(c) == p {
            assert(view.nodes.contains_key(p));
        }
    }
    assert forall|p: Seq<char>| #[trigger] view.children.contains_key(
        p,
    ) implies view.children[p].no_duplicates() by {
        assert(is_member_list(view.children[p], view.nodes, p));
        lemma_sorted_distinct(view.children[p]);
    }
}

/// Opening and creating keep everything listed, and what is created is listed in its directory.
pub proof fn law_open_keeps_listed(
    view: WinView,
    path: Seq<char>,
    attributes: u32,
    disposition: u32,
    options: u32,
    now: Timestamp,
)
    requires
        is_listed(view),
        path.len() == 0 || is_canonical(path),
    ensures
        ({
            let (after, answer) = win_opened(view, path, attributes, disposition, options, now);
            &&& is_listed(after)
            &&& answer is Err ==> after == view
            &&& answer matches Ok(opened) ==> {
                &&& opened.path == path
                &&& opened.new_file_created ==> {
                    &&& !view.nodes.contains_key(path)
                    &&& after.nodes.contains_key(path)
                    &&& is_listed_in(after.children, path, parent_text(path))
                    &&& opened.record matches Some(entry) && entry.path == path
                }
                &&& !opened.new_file_created && path.len() > 0 ==> view.nodes.contains_key(path)
                    && opened.record is None
            }
        }),
{
    let (after, answer) = win_opened(view, path, attributes, disposition, options, now);
    if answer is Ok && (answer->Ok_0).new_file_created {
        let lists = if view.children.contains_key(path) {
            view.children
        } else {
            view.children.insert(path, Seq::<Seq<char>>::empty())
        };
        assert forall|c: Seq<char>, p: Seq<char>| #[trigger] is_listed_in(
            lists,
            c,
            p,
        ) <==> is_listed_in(view.children, c, p) by {}
        assert forall|p: Seq<char>| #[trigger] lists.contains_key(
            p,
        ) implies lists[p].no_duplicates() by {}
        assert(!is_listed_in(view.children, path, parent_text(path)));
        lemma_with_member(lists, path);
        assert(is_rooted(after.nodes));
    }
}

/// Closing a handle that deletes keeps everything listed, and what is deleted is no longer listed.
/// Left out are files that have something below them, which an archive can hold: they are deleted
/// as if nothing were there.
pub proof fn law_cleanup_keeps_listed(view: WinView, path: Seq<char>)
    requires
        is_listed(view),
        is_canonical(path),
        has_members(view, path) ==> view.nodes.contains_key(path) && view.nodes[path].kind
            is Directory,
    ensures
        ({
            let (after, gone) = win_cleaned_up(view, path);
            &&& is_listed(after)
            &&& gone ==> !after.nodes.contains_key(path) && !is_listed_in(
                after.children,
                path,
                parent_text(path),
            )
            &&& gone <==> !has_members(view, path)
            &&& forall|c: Seq<char>|
                c != path ==> (#[trigger] after.nodes.contains_key(c) <==> view.nodes.contains_key(
                    c,
                )) && after.nodes[c] == view.nodes[c]
        }),
{
    let (after, gone) = win_cleaned_up(view, path);
    lemma_canonical_nonempty(path);
    if gone {
        assert forall|c: Seq<char>| !#[trigger] is_listed_in(view.children, c, path) by {
            if is_listed_in(view.children, c, path) {
                let i = choose|i: int|
                    0 <= i < view.children[path].len() && view.children[path][i] == c;
            }
        }
        lemma_without_member(view.children, path);
        assert forall|c: Seq<char>| #[trigger] after.nodes.contains_key(c) && c.len() > 0 implies {
            &&& is_canonical(c)
            &&& parent_text(c).len() == 0 || after.nodes.contains_key(parent_text(c))
        } by {
            assert(view.nodes.contains_key(c));
            assert(is_listed_in(view.children, c, parent_text(c)));
        }
        assert forall|c: Seq<char>, p: Seq<char>| #[trigger] is_listed_in(
            after.children,
            c,
            p,
        ) <==> after.nodes.contains_key(c) && c.len() > 0 && parent_text(c) == p by {}
    }
}

/// Taking away a path with all that lies below it keeps everything else listed.
proof fn lemma_without_tree_listed(view: WinView, top: Seq<char>)
    requires
        is_listed(view),
        is_canonical(top),
    ensures
        is_listed(win_without_tree(view, top)),
        forall|c: Seq<char>| #[trigger]
            win_without_tree(view, top).nodes.contains_key(c) <==> view.nodes.contains_key(c)
                && !is_under(c, top),
{
    let list = tree_list(view.nodes, top);
    let after = win_without_tree(view, top);
    lemma_tree_list(view.nodes, top);
    lemma_without_members(view.children, list);
    assert forall|c: Seq<char>| #[trigger] after.nodes.contains_key(c) <==> view.nodes.contains_key(
        c,
    ) && !is_under(c, top) by {
        assert(list.to_set().contains(c) <==> list.contains(c));
    }
    vstd::set_lib::lemma_len_subset(after.nodes.dom(), view.nodes.dom());
    lemma_canonical_nonempty(top);
    assert forall|c: Seq<char>| #[trigger] after.nodes.contains_key(c) && c.len() > 0 implies {
        &&& is_canonical(c)
        &&& parent_text(c).len() == 0 || after.nodes.contains_key(parent_text(c))
    } by {
        assert(view.nodes.contains_key(c));
        if is_under(parent_text(c), top) {
            lemma_child_under(c, top);
        }
    }
    assert forall|c: Seq<char>, p: Seq<char>| #[trigger] is_listed_in(
        after.children,
        c,
        p,
    ) <==> after.nodes.contains_key(c) && c.len() > 0 && parent_text(c) == p by {
        if view.nodes.contains_key(c) && c.len() > 0 && parent_text(c) == p {
            assert(is_listed_in(view.children, c, p));
            if list.contains(p) {
                lemma_child_under(c, top);
            }
        }
    }
}

/// Where something lies below a path, something stands in it.
proof fn lemma_has_member(view: WinView, c: Seq<char>, top: Seq<char>)
    requires
        is_listed(view),
        is_canonical(top),
        view.nodes.contains_key(c),
        c.len() > 0,
        is_under(c, top),
        c != top,
    ensures
        has_members(view, top),
    decreases c.len(),
{
    lemma_parent_under(c, top);
    lemma_canonical_parts(c);
    lemma_parent_and_name(c);
    if parent_text(c) == top {
        assert(is_listed_in(view.children, c, top));
    } else {
        lemma_has_member(view, parent_text(c), top);
    }
}

/// The directory of what is moved moves along.
proof fn lemma_moved_parent(c: Seq<char>, from: Seq<char>, to: Seq<char>)
    requires
        is_canonical(c),
        is_canonical(from),
        is_canonical(to),
        is_under(c, from),
        c != from,
    ensures
        parent_text(moved(c, from, to)) == moved(parent_text(c), from, to),
        is_under(parent_text(c), from),
        moved(c, from, to) != to,
{
    lemma_parent_under(c, from);
    lemma_canonical_parts(c);
    lemma_parent_and_name(c);
    law_moved_canonical(c, from, to);
    law_moved_back(c, from, to);
    if moved(c, from, to) == to {
        assert(moved(to, to, from) =~= from);
    }
    let p = parent_of(c);
    lemma_under_chars(p, from);
    lemma_canonical_nonempty(from);
    lemma_canonical_nonempty(to);
    assert(c == p.push('/') + name_of(c));
    assert(moved(c, from, to) =~= moved(p, from, to).push('/') + name_of(c));
    law_moved_canonical(p, from, to);
    lemma_canonical_nonempty(moved(p, from, to));
    assert(child_path(moved(p, from, to), name_of(c)) == moved(c, from, to));
    lemma_parent_text(moved(p, from, to), name_of(c));
}

/// What is where after a move to a place at which there is nothing.
proof fn lemma_moved_listed(view: WinView, from: Seq<char>, to: Seq<char>)
    requires
        is_listed(view),
        is_canonical(from),
        is_canonical(to),
        view.nodes.contains_key(from),
        parent_text(to).len() == 0 || view.nodes.contains_key(parent_text(to)),
        !is_under(to, from),
        forall|c: Seq<char>| #[trigger] view.nodes.contains_key(c) ==> !is_under(c, to),
    ensures
        is_listed(win_moved(view, from, to)),
{
    let list = tree_list(view.nodes, from);
    let targets = list.map_values(|path: Seq<char>| moved(path, from, to));
    let base = without_members(view.children, list);
    let after = win_moved(view, from, to);
    lemma_canonical_nonempty(from);
    lemma_canonical_nonempty(to);
    lemma_tree_list(view.nodes, from);
    lemma_without_members(view.children, list);
    assert forall|c: Seq<char>| #[trigger] targets.contains(c) <==> is_under(c, to)
        && view.nodes.contains_key(moved(c, to, from)) by {
        if targets.contains(c) {
            let i = choose|i: int| 0 <= i < targets.len() && targets[i] == c;
            assert(list.contains(list[i]));
            law_moved_back(list[i], from, to);
        }
        if is_under(c, to) && view.nodes.contains_key(moved(c, to, from)) {
            law_moved_back(c, to, from);
            let k = moved(c, to, from);
            assert(list.contains(k));
            let i = choose|i: int| 0 <= i < list.len() && list[i] == k;
            assert(targets[i] == c);
        }
    }
    assert(targets.no_duplicates()) by {
        assert forall|i: int, j: int|
            0 <= i < targets.len() && 0 <= j < targets.len() && i != j implies targets[i]
            != targets[j] by {
            assert(list.contains(list[i]));
            assert(list.contains(list[j]));
            law_moved_back(list[i], from, to);
            law_moved_back(list[j], from, to);
        }
    }
    assert forall|i: int| 0 <= i < targets.len() implies !is_listed_in(
        base,
        #[trigger] targets[i],
        parent_text(targets[i]),
    ) by {
        assert(targets.contains(targets[i]));
        if is_listed_in(base, targets[i], parent_text(targets[i])) {
            assert(is_listed_in(view.children, targets[i], parent_text(targets[i])));
            assert(view.nodes.contains_key(targets[i]));
        }
    }
    lemma_with_members(base, targets);
    lemma_moved_rooted(view, from, to);
    assert forall|c: Seq<char>, p: Seq<char>| #[trigger] is_listed_in(
        after.children,
        c,
        p,
    ) <==> after.nodes.contains_key(c) && c.len() > 0 && parent_text(c) == p by {
        if view.nodes.contains_key(c) && c.len() > 0 && parent_text(c) == p && !is_under(c, from) {
            assert(is_listed_in(view.children, c, p));
            if list.contains(p) {
                lemma_child_under(c, from);
            }
        }
        if is_listed_in(base, c, p) {
            assert(is_listed_in(view.children, c, p));
            assert(!list.contains(c));
        }
        if targets.contains(c) {
            lemma_under_chars(c, to);
        }
    }
}

proof fn lemma_moved_rooted(view: WinView, from: Seq<char>, to: Seq<char>)
    requires
        is_listed(view),
        is_canonical(from),
        is_canonical(to),
        view.nodes.contains_key(from),
        parent_text(to).len() == 0 || view.nodes.contains_key(parent_text(to)),
        !is_under(to, from),
        forall|c: Seq<char>| #[trigger] view.nodes.contains_key(c) ==> !is_under(c, to),
    ensures
        is_rooted(relocated_map(view.nodes, from, to)),
{
    let after = relocated_map(view.nodes, from, to);
    let all = view.nodes.dom();
    let places = all.map(|k: Seq<char>| moved(k, from, to));
    all.lemma_map_finite(|k: Seq<char>| moved(k, from, to));
    lemma_canonical_nonempty(from);
    assert forall|c: Seq<char>| #[trigger] after.contains_key(c) implies all.union(
        places,
    ).contains(c) by {
        if is_under(c, to) && view.nodes.contains_key(moved(c, to, from)) {
            law_moved_back(c, to, from);
            assert(all.contains(moved(c, to, from)));
        }
    }
    assert(after.dom().subset_of(all.union(places)));
    vstd::set_lib::lemma_len_subset(after.dom(), all.union(places));
    assert forall|c: Seq<char>| #[trigger] after.contains_key(c) && c.len() > 0 implies {
        &&& is_canonical(c)
        &&& parent_text(c).len() == 0 || after.contains_key(parent_text(c))
    } by {
        if is_under(c, to) && view.nodes.contains_key(moved(c, to, from)) {
            let k = moved(c, to, from);
            law_moved_back(c, to, from);
            lemma_under_chars(k, from);
            law_moved_canonical(k, from, to);
            if k == from {
                assert(c =~= to);
                if is_under(parent_text(to), from) && parent_text(to).len() > 0 {
                    lemma_child_under(to, from);
                }
            } else {
                lemma_moved_parent(k, from, to);
                law_moved_back(parent_text(k), from, to);
                assert(view.nodes.contains_key(parent_text(k)));
            }
        } else {
            assert(view.nodes.contains_key(c));
            if is_under(parent_text(c), from) && parent_text(c).len() > 0 {
                lemma_child_under(c, from);
            }
        }
    }
}

/// The drive when what a move replaces is gone.
pub open spec fn win_ready(view: WinView, from: Seq<char>, to: Seq<char>, replace: bool) -> WinView {
    if move_checked(view, from, to, replace) == Ok::<bool, NtStatus>(true) {
        win_without_tree(view, to)
    } else {
        view
    }
}

/// The drive after a move and all that it takes.
pub open spec fn win_after_move(
    view: WinView,
    from: Seq<char>,
    to: Seq<char>,
    replace: bool,
) -> WinView {
    win_moved(win_ready(view, from, to, replace), from, to)
}

/// A move keeps everything listed and takes everything along: each node that was at or below the
/// old path is at or below the new one, as it was, with the contents that the archive does not
/// have yet, and nothing is left at the old path. Left out are moves onto a file that has something
/// below it, which an archive can hold.
pub proof fn law_move_keeps_listed(view: WinView, from: Seq<char>, to: Seq<char>, replace: bool)
    requires
        is_listed(view),
        is_canonical(from),
        is_canonical(to),
        move_checked(view, from, to, replace) is Ok,
        has_members(view, to) ==> view.nodes.contains_key(to) && view.nodes[to].kind is Directory,
    ensures
        ({
            let after = win_after_move(view, from, to, replace);
            &&& is_listed(win_ready(view, from, to, replace))
            &&& is_listed(after)
            &&& forall|c: Seq<char>| #[trigger]
                view.nodes.contains_key(c) && is_under(c, from) ==> {
                    &&& after.nodes.contains_key(moved(c, from, to))
                    &&& after.nodes[moved(c, from, to)] == view.nodes[c]
                }
            &&& forall|c: Seq<char>| #[trigger]
                view.cache.contains_key(c) && is_under(c, from) ==> {
                    &&& after.cache.contains_key(moved(c, from, to))
                    &&& after.cache[moved(c, from, to)] == view.cache[c]
                }
            &&& forall|c: Seq<char>|
                #![trigger win_after_move(view, from, to, replace).nodes.contains_key(c)]
                after.nodes.contains_key(c) ==> !is_under(c, from)
            &&& forall|c: Seq<char>|
                #![trigger win_after_move(view, from, to, replace).cache.contains_key(c)]
                after.cache.contains_key(c) ==> !is_under(c, from)
        }),
{
    let replaced = move_checked(view, from, to, replace) == Ok::<bool, NtStatus>(true);
    let ready = win_ready(view, from, to, replace);
    let after = win_after_move(view, from, to, replace);
    lemma_canonical_nonempty(from);
    lemma_canonical_nonempty(to);
    if is_under(from, to) {
        lemma_top_exists(view.nodes, from, to);
        lemma_has_member(view, from, to);
    }
    lemma_without_tree_listed(view, to);
    if !replaced {
        assert forall|c: Seq<char>| #[trigger] view.nodes.contains_key(c) implies !is_under(
            c,
            to,
        ) by {
            if is_under(c, to) {
                lemma_under_chars(c, to);
                lemma_top_exists(view.nodes, c, to);
            }
        }
    }
    if parent_text(to).len() > 0 {
        if is_under(parent_text(to), to) {
            lemma_canonical_parts(to);
            lemma_parent_and_name(to);
            lemma_under_chars(parent_text(to), to);
        }
    }
    lemma_moved_listed(ready, from, to);
    assert forall|c: Seq<char>| #[trigger] view.nodes.contains_key(c) && is_under(
        c,
        from,
    ) implies after.nodes.contains_key(moved(c, from, to)) && after.nodes[moved(c, from, to)]
        == view.nodes[c] by {
        law_moved_back(c, from, to);
        if is_under(c, to) {
            lemma_under_both(c, from, to);
        }
        assert(ready.nodes.contains_key(c));
        assert(ready.nodes[c] == view.nodes[c]);
    }
    assert forall|c: Seq<char>| #[trigger] view.cache.contains_key(c) && is_under(
        c,
        from,
    ) implies after.cache.contains_key(moved(c, from, to)) && after.cache[moved(c, from, to)]
        == view.cache[c] by {
        law_moved_back(c, from, to);
    }
    assert forall|c: Seq<char>|
        after.nodes.contains_key(c) || after.cache.contains_key(c) implies !is_under(c, from) by {
        if is_under(c, from) && is_under(c, to) {
            lemma_under_both(c, from, to);
        }
    }
}

/// The drive and the archive are in step: every entry is shown by a node of its kind, and everything
/// that is shown and is not a directory has an entry.
pub open spec fn is_in_step(
    nodes: Map<Seq<char>, WinNode>,
    entries: Map<Seq<char>, Meta>,
) -> bool {
    &&& forall|path: Seq<char>| #[trigger]
        entries.contains_key(path) ==> nodes.contains_key(path) && nodes[path].kind
            == entries[path].kind
    &&& forall|path: Seq<char>| #[trigger]
        nodes.contains_key(path) && nodes[path].kind !is Directory ==> entries.contains_key(path)
}

/// A freshly mounted archive is in step with its drive.
pub proof fn law_drive_mount_is_in_step(listing: Seq<EntryView>, now: Timestamp)
    requires
        all_canonical(listing),
        is_sorted(paths_of(listing)),
    ensures
        is_in_step(win_nodes(needed(listing), listing, now), listing_map(listing)),
{
    let paths = needed(listing);
    let nodes = win_nodes(paths, listing, now);
    let entries = listing_map(listing);
    lemma_needed(listing);
    lemma_listing_map(listing);
    lemma_sorted_listing(listing);
    assert forall|path: Seq<char>| #[trigger] entries.contains_key(path) implies nodes.contains_key(
        path,
    ) && nodes[path].kind == entries[path].kind by {
        let i = choose|i: int| 0 <= i < listing.len() && (#[trigger] listing[i]).path == path;
        lemma_canonical_nonempty(path);
        lemma_own_entry_first(listing, i);
        assert(first_under(listing, path) is Some);
        assert(paths.contains(path));
    }
    assert forall|path: Seq<char>| #[trigger] nodes.contains_key(path) && nodes[path].kind
        !is Directory implies entries.contains_key(path) by {
        let i = choose|i: int| 0 <= i < paths.len() && paths[i] == path;
        lemma_first_under(listing, path);
        let entry = first_under(listing, path)->0;
        assert(entry.path == path);
    }
}

/// In a sorted listing an entry comes before all that lies below it.
proof fn lemma_own_entry_first(listing: Seq<EntryView>, i: int)
    requires
        is_sorted(paths_of(listing)),
        0 <= i < listing.len(),
    ensures
        first_under(listing, listing[i].path) == Some(listing[i]),
    decreases listing.len(),
{
    let less = listing.drop_last();
    assert(less.push(listing.last()) =~= listing);
    if i == less.len() {
        lemma_entry_first(less, listing.last());
    } else {
        assert(paths_of(less) =~= paths_of(listing).drop_last());
        assert(is_sorted(paths_of(less))) by {
            assert forall|j: int, k: int| 0 <= j < k < paths_of(less).len() implies precedes(
                #[trigger] paths_of(less)[j],
                #[trigger] paths_of(less)[k],
            ) by {
                assert(precedes(paths_of(listing)[j], paths_of(listing)[k]));
            }
        }
        lemma_own_entry_first(less, i);
    }
}

/// Opening and creating keep drive and archive in step, where what is created is recorded.
pub proof fn law_open_keeps_in_step(
    view: WinView,
    entries: Map<Seq<char>, Meta>,
    path: Seq<char>,
    attributes: u32,
    disposition: u32,
    options: u32,
    now: Timestamp,
    meta: Meta,
)
    requires
        is_in_step(view.nodes, entries),
    ensures
        ({
            let (after, answer) = win_opened(view, path, attributes, disposition, options, now);
            let recorded = match answer {
                Ok(opened) => opened.record,
                Err(_) => None,
            };
            is_in_step(
                after.nodes,
                match recorded {
                    Some(entry) => entries.insert(
                        entry.path,
                        Meta { kind: entry.meta.kind, ..meta },
                    ),
                    None => entries,
                },
            )
        }),
{
}

/// Closing a handle that deletes keeps drive and archive in step, when the archive removes the path
/// as told.
pub proof fn law_cleanup_keeps_in_step(
    view: WinView,
    entries: Map<Seq<char>, Meta>,
    path: Seq<char>,
)
    requires
        is_listed(view),
        is_canonical(path),
        is_in_step(view.nodes, entries),
        has_members(view, path) ==> view.nodes.contains_key(path) && view.nodes[path].kind
            is Directory,
    ensures
        ({
            let (after, gone) = win_cleaned_up(view, path);
            is_in_step(
                after.nodes,
                if gone {
                    without_tree(entries, path)
                } else {
                    entries
                },
            )
        }),
{
    let (after, gone) = win_cleaned_up(view, path);
    lemma_canonical_nonempty(path);
    if gone {
        assert forall|c: Seq<char>| #[trigger] view.nodes.contains_key(c) && c != path implies !is_under(
            c,
            path,
        ) by {
            if is_under(c, path) {
                lemma_under_chars(c, path);
                lemma_has_member(view, c, path);
            }
        }
        assert(is_under(path, path));
    }
}

/// A move keeps drive and archive in step, when the archive moves the path too.
pub proof fn law_move_keeps_in_step(
    view: WinView,
    entries: Map<Seq<char>, Meta>,
    from: Seq<char>,
    to: Seq<char>,
    replace: bool,
    now: Timestamp,
)
    requires
        is_listed(view),
        is_in_step(view.nodes, entries),
        is_canonical(from),
        is_canonical(to),
        move_checked(view, from, to, replace) is Ok,
        has_members(view, to) ==> view.nodes.contains_key(to) && view.nodes[to].kind is Directory,
    ensures
        is_in_step(
            win_after_move(view, from, to, replace).nodes,
            moved_entries(entries, from, to, now),
        ),
{
    let replaced = move_checked(view, from, to, replace) == Ok::<bool, NtStatus>(true);
    let ready = win_ready(view, from, to, replace);
    let after = win_after_move(view, from, to, replace).nodes;
    let goal = moved_entries(entries, from, to, now);
    lemma_canonical_nonempty(from);
    lemma_canonical_nonempty(to);
    lemma_without_tree_listed(view, to);
    assert(!is_under(from, to)) by {
        if is_under(from, to) {
            lemma_top_exists(view.nodes, from, to);
            lemma_has_member(view, from, to);
        }
    }
    assert forall|c: Seq<char>| #[trigger] view.nodes.contains_key(c) && is_under(
        c,
        to,
    ) implies c == to && replaced by {
        lemma_under_chars(c, to);
        lemma_top_exists(view.nodes, c, to);
        if c != to {
            lemma_has_member(view, c, to);
        }
    }
    assert forall|c: Seq<char>| #[trigger] view.nodes.contains_key(c) && is_under(
        c,
        from,
    ) implies ready.nodes.contains_key(c) && ready.nodes[c] == view.nodes[c] by {
        if is_under(c, to) {
            lemma_under_both(c, from, to);
        }
    }
    assert(is_under(to, to) && is_under(from, from));
    assert(moved(to, to, from) =~= from);
    assert forall|p: Seq<char>| #[trigger] goal.contains_key(p) implies after.contains_key(p)
        && after[p].kind == goal[p].kind by {
        if came_from(entries, p, from, to) {
            law_moved_back(p, to, from);
            assert(view.nodes.contains_key(moved(p, to, from)));
        } else {
            assert(view.nodes.contains_key(p));
            if is_under(p, to) {
                assert(p == to);
                assert(view.nodes.contains_key(from));
                assert(view.nodes[from].kind is Directory);
            }
        }
    }
    assert forall|p: Seq<char>| #[trigger] after.contains_key(p) && after[p].kind
        !is Directory implies goal.contains_key(p) by {
        if is_under(p, to) && ready.nodes.contains_key(moved(p, to, from)) {
            law_moved_back(p, to, from);
            assert(view.nodes.contains_key(moved(p, to, from)));
        } else {
            assert(view.nodes.contains_key(p));
        }
    }
}

/// What is written to a file is what is read from it, and the rest of it stays as it was.
pub proof fn law_drive_read_after_write(
    view: WinView,
    path: Seq<char>,
    offset: i64,
    data: Seq<u8>,
    to_eof: bool,
    now: Timestamp,
)
    requires
        view.cache.contains_key(path) ==> view.cache[path].len() <= usize::MAX,
    ensures
        win_write_outcome(view, path, offset, data, to_eof) matches Ok(contents) ==> {
            let after = win_with_contents(view, path, contents, now);
            let start = if to_eof {
                view.cache[path].len() as int
            } else {
                offset as int
            };
            &&& after.cache.contains_key(path)
            &&& data.len() > 0 ==> read_part(after.cache[path], start, data.len() as int) == data
            &&& forall|i: int|
                0 <= i < view.cache[path].len() && !(start <= i < start + data.len())
                    ==> #[trigger] after.cache[path][i] == view.cache[path][i]
            &&& after.nodes[path].size == after.cache[path].len()
        },
{
    if let Ok(contents) = win_write_outcome(view, path, offset, data, to_eof) {
        let start = if to_eof {
            view.cache[path].len() as int
        } else {
            offset as int
        };
        law_read_after_write(view.cache[path], start, data);
    }
}

} // verus!
