//! What makes nodes a tree, and what keeps them one.
use vstd::prelude::*;
use vstd::set_lib::lemma_len_subset;
use crate::errno::Errno;
use crate::laws::lemma_under_chars;
use crate::path::{child_path, is_canonical, is_name, is_under, lemma_canonical_nonempty,
    lemma_child_canonical, lemma_joined_split, lemma_split_pieces, moved, split};
use crate::tree::{climbed, is_child, path_of, path_within, NodeView, ROOT_INODE};

verus! {

/// Every node has a higher rank than its parent.
pub open spec fn is_ranked(nodes: Map<u64, NodeView>, rank: Map<u64, nat>) -> bool {
    forall|c: u64| #[trigger]
        nodes.contains_key(c) && c != ROOT_INODE ==> rank[nodes[c].parent] < rank[c]
}

/// The nodes have a root, proper names that no two siblings share, and no cycles; and the numbers
/// from `next` on are not in use.
pub open spec fn is_tree(nodes: Map<u64, NodeView>, next: u64) -> bool {
    &&& nodes.dom().finite()
    &&& next > ROOT_INODE
    &&& nodes.contains_key(ROOT_INODE)
    &&& nodes[ROOT_INODE].kind is Directory
    &&& nodes[ROOT_INODE].parent == ROOT_INODE
    &&& forall|c: u64| #[trigger] nodes.contains_key(c) ==> c < next && nodes[c].parent < next
    &&& forall|c: u64| #[trigger]
        nodes.contains_key(c) && c != ROOT_INODE ==> is_name(nodes[c].name)
    &&& forall|a: u64, b: u64, p: u64|
        #[trigger] is_child(nodes, a, p) && #[trigger] is_child(nodes, b, p) && nodes[a].name
            == nodes[b].name ==> a == b
    &&& exists|rank: Map<u64, nat>| is_ranked(nodes, rank)
}

/// Every node stands in a directory.
pub open spec fn is_tidy(nodes: Map<u64, NodeView>) -> bool {
    forall|c: u64| #[trigger]
        nodes.contains_key(c) ==> nodes.contains_key(nodes[c].parent)
            && nodes[nodes[c].parent].kind is Directory
}

/// What is met after `n` steps upwards.
pub open spec fn ancestor(nodes: Map<u64, NodeView>, x: u64, n: nat) -> u64
    decreases n,
{
    if n == 0 || x == ROOT_INODE || !nodes.contains_key(x) {
        x
    } else {
        ancestor(nodes, nodes[x].parent, (n - 1) as nat)
    }
}

/// `x` is `top` or stands somewhere below it.
pub open spec fn is_below(nodes: Map<u64, NodeView>, x: u64, top: u64) -> bool {
    exists|n: nat| #[trigger] ancestor(nodes, x, n) == top
}

/// A node is below another when its parent is, or when it is the other itself.
pub proof fn lemma_below_step(nodes: Map<u64, NodeView>, x: u64, top: u64)
    requires
        nodes.contains_key(x),
        x != ROOT_INODE,
    ensures
        is_below(nodes, x, top) <==> x == top || is_below(nodes, nodes[x].parent, top),
{
    if is_below(nodes, x, top) && x != top {
        let n = choose|n: nat| #[trigger] ancestor(nodes, x, n) == top;
        assert(ancestor(nodes, nodes[x].parent, (n - 1) as nat) == top);
    }
    if x == top {
        assert(ancestor(nodes, x, 0) == top);
    }
    if is_below(nodes, nodes[x].parent, top) {
        let n = choose|n: nat| #[trigger] ancestor(nodes, nodes[x].parent, n) == top;
        assert(ancestor(nodes, x, n + 1) == top);
    }
}

/// Nothing but the root is above the root.
pub proof fn lemma_below_root(nodes: Map<u64, NodeView>, top: u64)
    ensures
        is_below(nodes, ROOT_INODE, top) <==> top == ROOT_INODE,
{
    if is_below(nodes, ROOT_INODE, top) {
        let n = choose|n: nat| #[trigger] ancestor(nodes, ROOT_INODE, n) == top;
    }
    assert(ancestor(nodes, ROOT_INODE, 0) == ROOT_INODE);
}

/// A tree with nothing but a root.
pub proof fn law_root_is_tree(root: NodeView)
    requires
        root.kind is Directory,
        root.parent == ROOT_INODE,
    ensures
        is_tree(Map::<u64, NodeView>::empty().insert(ROOT_INODE, root), 2),
        is_tidy(Map::<u64, NodeView>::empty().insert(ROOT_INODE, root)),
{
    let nodes = Map::<u64, NodeView>::empty().insert(ROOT_INODE, root);
    assert(is_ranked(nodes, Map::<u64, nat>::empty()));
}

/// A new node under the next number keeps the tree a tree.
pub proof fn law_insert_keeps_tree(nodes: Map<u64, NodeView>, next: u64, node: NodeView)
    requires
        is_tree(nodes, next),
        next < u64::MAX,
        nodes.contains_key(node.parent),
        is_name(node.name),
        forall|c: u64|
            is_child(nodes, c, node.parent) ==> (#[trigger] nodes[c]).name != node.name,
    ensures
        is_tree(nodes.insert(next, node), (next + 1) as u64),
        is_tidy(nodes) && nodes[node.parent].kind is Directory ==> is_tidy(
            nodes.insert(next, node),
        ),
        forall|c: u64| !#[trigger] is_child(nodes, c, next),
{
    let after = nodes.insert(next, node);
    let rank = choose|rank: Map<u64, nat>| is_ranked(nodes, rank);
    let ranked = rank.insert(next, rank[node.parent] + 1);
    assert forall|c: u64| #[trigger] after.contains_key(c) && c != ROOT_INODE implies ranked[
    after[c].parent] < ranked[c] by {
        if c != next {
            assert(nodes.contains_key(c));
        }
    }
    assert(is_ranked(after, ranked));
    assert forall|c: u64| !#[trigger] is_child(nodes, c, next) by {
        if nodes.contains_key(c) {
            assert(nodes[c].parent < next);
        }
    }
    assert forall|a: u64, b: u64, p: u64|
        #[trigger] is_child(after, a, p) && #[trigger] is_child(after, b, p) && after[a].name
            == after[b].name implies a == b by {
        if a != next && b != next {
            assert(is_child(nodes, a, p) && is_child(nodes, b, p));
        } else if a != next {
            assert(is_child(nodes, a, p));
            assert(nodes[a].name != node.name);
        } else if b != next {
            assert(is_child(nodes, b, p));
            assert(nodes[b].name != node.name);
        }
    }
    assert forall|c: u64| #[trigger] after.contains_key(c) implies c < next + 1 && after[c].parent
        < next + 1 by {
        if c != next {
            assert(nodes.contains_key(c));
        }
    }
}

/// Taking a node away keeps the tree a tree.
pub proof fn law_remove_keeps_tree(nodes: Map<u64, NodeView>, next: u64, ino: u64)
    requires
        is_tree(nodes, next),
        ino != ROOT_INODE,
    ensures
        is_tree(nodes.remove(ino), next),
        is_tidy(nodes) && (forall|c: u64| !#[trigger] is_child(nodes, c, ino)) ==> is_tidy(
            nodes.remove(ino),
        ),
{
    let after = nodes.remove(ino);
    let rank = choose|rank: Map<u64, nat>| is_ranked(nodes, rank);
    assert forall|c: u64| #[trigger] after.contains_key(c) && c != ROOT_INODE implies rank[
    after[c].parent] < rank[c] by {
        assert(nodes.contains_key(c));
    }
    assert(is_ranked(after, rank));
    assert forall|a: u64, b: u64, p: u64|
        #[trigger] is_child(after, a, p) && #[trigger] is_child(after, b, p) && after[a].name
            == after[b].name implies a == b by {
        assert(is_child(nodes, a, p) && is_child(nodes, b, p));
    }
    assert forall|c: u64| #[trigger] after.contains_key(c) implies c < next && after[c].parent
        < next by {
        assert(nodes.contains_key(c));
    }
    if is_tidy(nodes) && (forall|c: u64| !#[trigger] is_child(nodes, c, ino)) {
        assert forall|c: u64| #[trigger] after.contains_key(c) implies after.contains_key(
            after[c].parent,
        ) && after[after[c].parent].kind is Directory by {
            assert(nodes.contains_key(c));
            assert(!is_child(nodes, c, ino));
        }
    }
}

/// Changing what a node says, but not its name, parent or kind, keeps the tree a tree.
pub proof fn law_update_keeps_tree(nodes: Map<u64, NodeView>, next: u64, ino: u64, node: NodeView)
    requires
        is_tree(nodes, next),
        nodes.contains_key(ino),
        node.name == nodes[ino].name,
        node.parent == nodes[ino].parent,
        node.kind == nodes[ino].kind,
    ensures
        is_tree(nodes.insert(ino, node), next),
        is_tidy(nodes) ==> is_tidy(nodes.insert(ino, node)),
{
    let after = nodes.insert(ino, node);
    let rank = choose|rank: Map<u64, nat>| is_ranked(nodes, rank);
    assert forall|c: u64| #[trigger] after.contains_key(c) implies nodes.contains_key(c)
        && after[c].parent == nodes[c].parent && after[c].name == nodes[c].name && after[c].kind
        == nodes[c].kind by {}
    assert(is_ranked(after, rank));
    assert forall|a: u64, b: u64, p: u64|
        #[trigger] is_child(after, a, p) && #[trigger] is_child(after, b, p) && after[a].name
            == after[b].name implies a == b by {
        assert(is_child(nodes, a, p) && is_child(nodes, b, p));
    }
    if is_tidy(nodes) {
        assert forall|c: u64| #[trigger] after.contains_key(c) implies after.contains_key(
            after[c].parent,
        ) && after[after[c].parent].kind is Directory by {
            assert(nodes.contains_key(c));
        }
    }
}

/// Moving a node to where it is not below itself keeps the tree a tree.
pub proof fn law_relocate_keeps_tree(nodes: Map<u64, NodeView>, next: u64, ino: u64, node: NodeView)
    requires
        is_tree(nodes, next),
        ino != ROOT_INODE,
        nodes.contains_key(ino),
        nodes.contains_key(node.parent),
        node.kind == nodes[ino].kind,
        is_name(node.name),
        forall|c: u64|
            is_child(nodes, c, node.parent) && c != ino ==> (#[trigger] nodes[c]).name != node.name,
        !is_below(nodes, node.parent, ino),
    ensures
        is_tree(nodes.insert(ino, node), next),
        is_tidy(nodes) && nodes[node.parent].kind is Directory ==> is_tidy(
            nodes.insert(ino, node),
        ),
{
    let after = nodes.insert(ino, node);
    let rank = choose|rank: Map<u64, nat>| is_ranked(nodes, rank);
    let lift = rank[node.parent] + 1;
    let ranked = Map::<u64, nat>::new(
        |c: u64| true,
        |c: u64|
            if is_below(nodes, c, ino) {
                rank[c] + lift
            } else {
                rank[c]
            },
    );
    assert forall|c: u64| #[trigger] after.contains_key(c) && c != ROOT_INODE implies ranked[
    after[c].parent] < ranked[c] by {
        assert(nodes.contains_key(c));
        lemma_below_step(nodes, c, ino);
        if c == ino {
            assert(ranked[ino] == rank[ino] + lift);
            assert(ranked[node.parent] == rank[node.parent]);
        } else {
            assert(rank[nodes[c].parent] < rank[c]);
        }
    }
    assert(is_ranked(after, ranked));
    assert forall|a: u64, b: u64, p: u64|
        #[trigger] is_child(after, a, p) && #[trigger] is_child(after, b, p) && after[a].name
            == after[b].name implies a == b by {
        if a != ino && b != ino {
            assert(is_child(nodes, a, p) && is_child(nodes, b, p));
        } else if a != ino {
            assert(is_child(nodes, a, p));
            assert(nodes[a].name != node.name);
        } else if b != ino {
            assert(is_child(nodes, b, p));
            assert(nodes[b].name != node.name);
        }
    }
    assert forall|c: u64| #[trigger] after.contains_key(c) implies c < next && after[c].parent
        < next by {
        assert(nodes.contains_key(c));
    }
    if is_tidy(nodes) && nodes[node.parent].kind is Directory {
        assert forall|c: u64| #[trigger] after.contains_key(c) implies after.contains_key(
            after[c].parent,
        ) && after[after[c].parent].kind is Directory by {
            assert(nodes.contains_key(c));
        }
    }
}

/// More fuel than enough changes nothing.
proof fn lemma_more_fuel(nodes: Map<u64, NodeView>, ino: u64, f: nat, g: nat)
    requires
        path_within(nodes, ino, f) is Ok,
        f <= g,
    ensures
        path_within(nodes, ino, g) == path_within(nodes, ino, f),
    decreases f,
{
    if ino != ROOT_INODE {
        lemma_more_fuel(nodes, nodes[ino].parent, (f - 1) as nat, (g - 1) as nat);
    }
}

/// The way from a node to the root: how long it is, and which nodes other than the root it meets.
proof fn lemma_way_up(
    nodes: Map<u64, NodeView>,
    next: u64,
    rank: Map<u64, nat>,
    ino: u64,
) -> (way: (nat, Set<u64>))
    requires
        is_tree(nodes, next),
        is_tidy(nodes),
        is_ranked(nodes, rank),
        nodes.contains_key(ino),
    ensures
        way.1.finite(),
        way.1.len() == way.0,
        way.1.subset_of(nodes.dom()),
        !way.1.contains(ROOT_INODE),
        forall|c: u64| #[trigger] way.1.contains(c) ==> rank[c] <= rank[ino],
        path_within(nodes, ino, way.0) is Ok,
        path_within(nodes, ino, way.0) matches Ok(p) ==> (if ino == ROOT_INODE {
            p.len() == 0
        } else {
            is_canonical(p)
        }),
    decreases rank[ino],
{
    if ino == ROOT_INODE {
        (0, Set::<u64>::empty())
    } else {
        let parent = nodes[ino].parent;
        let (f, met) = lemma_way_up(nodes, next, rank, parent);
        assert(!met.contains(ino));
        let path = path_within(nodes, parent, f)->Ok_0;
        assert(path_within(nodes, ino, f + 1) == Ok::<Seq<char>, Errno>(
            child_path(path, nodes[ino].name),
        ));
        lemma_child_canonical(path, nodes[ino].name);
        (f + 1, met.insert(ino))
    }
}

/// Every node of a tidy tree has a path: the root the empty one, and any other that of the
/// directory in which it stands, with its name behind it.
pub proof fn law_every_node_has_a_path(nodes: Map<u64, NodeView>, next: u64, ino: u64)
    requires
        is_tree(nodes, next),
        is_tidy(nodes),
        nodes.contains_key(ino),
    ensures
        path_of(nodes, ino) matches Ok(path) && if ino == ROOT_INODE {
            path.len() == 0
        } else {
            &&& is_canonical(path)
            &&& path_of(nodes, nodes[ino].parent) matches Ok(above)
            &&& path == child_path(above, nodes[ino].name)
            &&& above.len() == 0 || is_canonical(above)
        },
{
    let rank = choose|rank: Map<u64, nat>| is_ranked(nodes, rank);
    let (f, met) = lemma_way_up(nodes, next, rank, ino);
    lemma_enough_fuel(nodes, ino, f, met);
    if ino != ROOT_INODE {
        let parent = nodes[ino].parent;
        let (g, others) = lemma_way_up(nodes, next, rank, parent);
        lemma_enough_fuel(nodes, parent, g, others);
        lemma_more_fuel(nodes, parent, g, (nodes.len() - 1) as nat);
    }
}

proof fn lemma_enough_fuel(nodes: Map<u64, NodeView>, ino: u64, f: nat, met: Set<u64>)
    requires
        nodes.dom().finite(),
        nodes.contains_key(ROOT_INODE),
        met.finite(),
        met.len() == f,
        met.subset_of(nodes.dom()),
        !met.contains(ROOT_INODE),
        path_within(nodes, ino, f) is Ok,
    ensures
        f < nodes.len(),
        path_of(nodes, ino) == path_within(nodes, ino, f),
{
    let all = met.insert(ROOT_INODE);
    assert(all.subset_of(nodes.dom()));
    lemma_len_subset(all, nodes.dom());
    lemma_more_fuel(nodes, ino, f, nodes.len());
}

/// In a tidy tree no two nodes have one path.
pub proof fn law_paths_are_distinct(nodes: Map<u64, NodeView>, next: u64, a: u64, b: u64)
    requires
        is_tree(nodes, next),
        is_tidy(nodes),
        nodes.contains_key(a),
        nodes.contains_key(b),
        path_of(nodes, a) == path_of(nodes, b),
    ensures
        a == b,
{
    let rank = choose|rank: Map<u64, nat>| is_ranked(nodes, rank);
    lemma_paths_distinct(nodes, next, rank, a, b);
}

proof fn lemma_paths_distinct(
    nodes: Map<u64, NodeView>,
    next: u64,
    rank: Map<u64, nat>,
    a: u64,
    b: u64,
)
    requires
        is_tree(nodes, next),
        is_tidy(nodes),
        is_ranked(nodes, rank),
        nodes.contains_key(a),
        nodes.contains_key(b),
        path_of(nodes, a) == path_of(nodes, b),
    ensures
        a == b,
    decreases rank[a],
{
    law_every_node_has_a_path(nodes, next, a);
    law_every_node_has_a_path(nodes, next, b);
    let path = path_of(nodes, a)->Ok_0;
    if path.len() > 0 {
        assert(a != ROOT_INODE && b != ROOT_INODE);
        let p = path_of(nodes, nodes[a].parent)->Ok_0;
        let q = path_of(nodes, nodes[b].parent)->Ok_0;
        lemma_last_name(p, nodes[a].name, q, nodes[b].name);
        lemma_paths_distinct(nodes, next, rank, nodes[a].parent, nodes[b].parent);
        assert(is_child(nodes, a, nodes[a].parent) && is_child(nodes, b, nodes[a].parent));
    } else {
        if a != ROOT_INODE {
            lemma_canonical_nonempty(path);
        }
        if b != ROOT_INODE {
            lemma_canonical_nonempty(path);
        }
    }
}

/// A path tells its last name and what stands before it.
pub proof fn lemma_last_name(p: Seq<char>, a: Seq<char>, q: Seq<char>, b: Seq<char>)
    requires
        p.len() == 0 || is_canonical(p),
        q.len() == 0 || is_canonical(q),
        is_name(a),
        is_name(b),
        child_path(p, a) == child_path(q, b),
    ensures
        p == q,
        a == b,
{
    lemma_child_canonical(p, a);
    lemma_child_canonical(q, b);
    let parts = split(child_path(p, a));
    if p.len() > 0 {
        assert(parts.last() == a);
        assert(parts.drop_last() =~= split(p));
        lemma_split_pieces(p);
    } else {
        assert(parts.last() == a);
        assert(parts.len() == 1);
    }
    if q.len() > 0 {
        assert(parts.last() == b);
        assert(parts.drop_last() =~= split(q));
        lemma_split_pieces(q);
    } else {
        assert(parts.last() == b);
        assert(parts.len() == 1);
    }
    if p.len() > 0 {
        lemma_joined_split(p);
        lemma_joined_split(q);
    } else {
        assert(p =~= q);
    }
}

/// The check that a directory is not moved below itself finds out just that.
pub proof fn law_climb_finds_cycles(nodes: Map<u64, NodeView>, next: u64, x: u64, top: u64)
    requires
        is_tree(nodes, next),
        is_tidy(nodes),
        nodes.contains_key(x),
    ensures
        climbed(nodes, x, top, nodes.len()) == if is_below(nodes, x, top) {
            Err::<(), Errno>(Errno::Invalid)
        } else {
            Ok::<(), Errno>(())
        },
{
    let rank = choose|rank: Map<u64, nat>| is_ranked(nodes, rank);
    let (f, met) = lemma_way_up(nodes, next, rank, x);
    lemma_enough_fuel(nodes, x, f, met);
    lemma_climb(nodes, x, top, nodes.len());
}

/// Where there is a path, a climb finds out whether a node is below another.
pub proof fn lemma_climb(nodes: Map<u64, NodeView>, x: u64, top: u64, fuel: nat)
    requires
        path_within(nodes, x, fuel) is Ok,
    ensures
        climbed(nodes, x, top, fuel) == if is_below(nodes, x, top) {
            Err::<(), Errno>(Errno::Invalid)
        } else {
            Ok::<(), Errno>(())
        },
    decreases fuel,
{
    if x == top {
        assert(ancestor(nodes, x, 0) == top);
    } else if x == ROOT_INODE {
        lemma_below_root(nodes, top);
    } else {
        lemma_below_step(nodes, x, top);
        lemma_climb(nodes, nodes[x].parent, top, (fuel - 1) as nat);
    }
}

/// Standing below a node is having a path below its path.
pub proof fn law_below_is_under(nodes: Map<u64, NodeView>, next: u64, x: u64, top: u64)
    requires
        is_tree(nodes, next),
        is_tidy(nodes),
        nodes.contains_key(x),
        nodes.contains_key(top),
        top != ROOT_INODE,
    ensures
        is_below(nodes, x, top) <==> is_under(
            path_of(nodes, x)->Ok_0,
            path_of(nodes, top)->Ok_0,
        ),
{
    let rank = choose|rank: Map<u64, nat>| is_ranked(nodes, rank);
    lemma_below_under(nodes, next, rank, x, top);
}

proof fn lemma_below_under(
    nodes: Map<u64, NodeView>,
    next: u64,
    rank: Map<u64, nat>,
    x: u64,
    top: u64,
)
    requires
        is_tree(nodes, next),
        is_tidy(nodes),
        is_ranked(nodes, rank),
        nodes.contains_key(x),
        nodes.contains_key(top),
        top != ROOT_INODE,
    ensures
        is_below(nodes, x, top) <==> is_under(
            path_of(nodes, x)->Ok_0,
            path_of(nodes, top)->Ok_0,
        ),
    decreases rank[x],
{
    law_every_node_has_a_path(nodes, next, x);
    law_every_node_has_a_path(nodes, next, top);
    let p = path_of(nodes, x)->Ok_0;
    let t = path_of(nodes, top)->Ok_0;
    lemma_canonical_nonempty(t);
    if x == ROOT_INODE {
        lemma_below_root(nodes, top);
        if is_under(p, t) {
            lemma_under_chars(p, t);
        }
    } else {
        let parent = nodes[x].parent;
        let above = path_of(nodes, parent)->Ok_0;
        lemma_below_step(nodes, x, top);
        lemma_below_under(nodes, next, rank, parent, top);
        lemma_under_child(above, nodes[x].name, t);
        if p == t {
            law_paths_are_distinct(nodes, next, x, top);
        }
    }
}

/// A name in a directory is under a path when it is that path or the directory is under it.
pub proof fn lemma_under_child(above: Seq<char>, name: Seq<char>, top: Seq<char>)
    requires
        is_name(name),
        top.len() > 0,
        above.len() == 0 || is_canonical(above),
    ensures
        is_under(child_path(above, name), top) <==> child_path(above, name) == top || is_under(
            above,
            top,
        ),
{
    let p = child_path(above, name);
    if is_under(above, top) {
        lemma_under_chars(above, top);
        assert(above.len() > 0);
        let prefix = top.push('/');
        assert(prefix.is_prefix_of(p)) by {
            assert(prefix =~= p.subrange(0, prefix.len() as int));
        }
    }
    if is_under(p, top) && p != top {
        lemma_under_chars(p, top);
        let n = top.len() as int;
        assert(p[n] == '/');
        if above.len() == 0 {
            assert(name[n] == '/');
        } else if n > above.len() {
            assert(name[n - above.len() - 1] == '/');
        } else if n == above.len() {
            assert(above =~= top);
        } else {
            let prefix = top.push('/');
            assert(prefix =~= above.subrange(0, prefix.len() as int));
        }
    }
}

/// After a node has moved, what stands below it has its path moved with it, and all else has the
/// path that it had: the tree moves as the archive does.
pub proof fn law_relocate_moves_paths(
    nodes: Map<u64, NodeView>,
    next: u64,
    ino: u64,
    node: NodeView,
    x: u64,
)
    requires
        is_tree(nodes, next),
        is_tidy(nodes),
        ino != ROOT_INODE,
        nodes.contains_key(ino),
        nodes.contains_key(node.parent),
        nodes[node.parent].kind is Directory,
        node.kind == nodes[ino].kind,
        is_name(node.name),
        forall|c: u64|
            is_child(nodes, c, node.parent) && c != ino ==> (#[trigger] nodes[c]).name != node.name,
        !is_below(nodes, node.parent, ino),
        nodes.contains_key(x),
    ensures
        ({
            let from = path_of(nodes, ino)->Ok_0;
            let to = child_path(path_of(nodes, node.parent)->Ok_0, node.name);
            let path = path_of(nodes, x)->Ok_0;
            path_of(nodes.insert(ino, node), x) == Ok::<Seq<char>, Errno>(
                if is_under(path, from) {
                    moved(path, from, to)
                } else {
                    path
                },
            )
        }),
{
    let rank = choose|rank: Map<u64, nat>| is_ranked(nodes, rank);
    lemma_moved_path(nodes, next, rank, ino, node, x);
}

/// A name moves with the directory in which it stands.
proof fn lemma_moved_child(above: Seq<char>, name: Seq<char>, from: Seq<char>, to: Seq<char>)
    requires
        is_under(above, from),
        from.len() > 0,
        to.len() > 0,
    ensures
        child_path(moved(above, from, to), name) == moved(child_path(above, name), from, to),
{
    lemma_under_chars(above, from);
    assert(child_path(moved(above, from, to), name) =~= moved(child_path(above, name), from, to));
}

#[verifier::spinoff_prover]
#[verifier::rlimit(60)]
proof fn lemma_moved_path(
    nodes: Map<u64, NodeView>,
    next: u64,
    rank: Map<u64, nat>,
    ino: u64,
    node: NodeView,
    x: u64,
)
    requires
        is_tree(nodes, next),
        is_tidy(nodes),
        is_ranked(nodes, rank),
        ino != ROOT_INODE,
        nodes.contains_key(ino),
        nodes.contains_key(node.parent),
        nodes[node.parent].kind is Directory,
        node.kind == nodes[ino].kind,
        is_name(node.name),
        forall|c: u64|
            is_child(nodes, c, node.parent) && c != ino ==> (#[trigger] nodes[c]).name != node.name,
        !is_below(nodes, node.parent, ino),
        nodes.contains_key(x),
    ensures
        ({
            let from = path_of(nodes, ino)->Ok_0;
            let to = child_path(path_of(nodes, node.parent)->Ok_0, node.name);
            let path = path_of(nodes, x)->Ok_0;
            path_of(nodes.insert(ino, node), x) == Ok::<Seq<char>, Errno>(
                if is_under(path, from) {
                    moved(path, from, to)
                } else {
                    path
                },
            )
        }),
    decreases
            (if is_below(nodes, x, ino) {
                1nat
            } else {
                0nat
            }),
            rank[x],
{
    let after = nodes.insert(ino, node);
    law_relocate_keeps_tree(nodes, next, ino, node);
    law_every_node_has_a_path(nodes, next, x);
    law_every_node_has_a_path(nodes, next, ino);
    law_every_node_has_a_path(after, next, x);
    law_below_is_under(nodes, next, x, ino);
    let from = path_of(nodes, ino)->Ok_0;
    let to = child_path(path_of(nodes, node.parent)->Ok_0, node.name);
    let path = path_of(nodes, x)->Ok_0;
    if x == ROOT_INODE {
        lemma_below_root(nodes, ino);
        assert(path_of(after, x)->Ok_0 =~= path);
    } else if x == ino {
        assert(is_under(path, from));
        law_below_is_under(nodes, next, node.parent, ino);
        assert(ancestor(nodes, ino, 0) == ino);
        lemma_moved_path(nodes, next, rank, ino, node, node.parent);
        assert(moved(path, from, to) =~= to);
    } else {
        let parent = nodes[x].parent;
        let above = path_of(nodes, parent)->Ok_0;
        lemma_below_step(nodes, x, ino);
        law_below_is_under(nodes, next, parent, ino);
        lemma_moved_path(nodes, next, rank, ino, node, parent);
        if is_below(nodes, x, ino) {
            lemma_canonical_nonempty(from);
            law_every_node_has_a_path(nodes, next, node.parent);
            lemma_child_canonical(path_of(nodes, node.parent)->Ok_0, node.name);
            lemma_canonical_nonempty(to);
            lemma_moved_child(above, nodes[x].name, from, to);
        }
    }
}

} // verus!
