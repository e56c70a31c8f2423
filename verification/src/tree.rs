//! The tree of nodes that a mounted archive shows: each node has a number and knows its parent.
use std::collections::HashMap;
use vstd::prelude::*;
use crate::entry::EntryKind;
use crate::errno::Errno;
use crate::path::child_path;
use crate::pathmap::{is_sorted, lemma_push_contains, lemma_sorted_distinct, lemma_sorted_unique};
use crate::text::{from_chars, order_of, precedes, precedes_transitive, same_text, to_chars, Order};
use crate::time::Timestamp;

verus! {

broadcast use vstd::std_specs::hash::group_hash_axioms;

/// The number of the root.
pub const ROOT_INODE: u64 = 1;

/// A file, directory or symbolic link of a mounted archive.
#[derive(Debug)]
pub struct FsNode {
    pub ino: u64,
    pub name: String,
    pub parent: u64,
    pub kind: EntryKind,
    pub mode: u16,
    pub uid: u32,
    pub gid: u32,
    pub size: u64,
    pub atime: Timestamp,
    pub mtime: Timestamp,
    pub ctime: Timestamp,
}

/// A node as a mathematical value.
#[verifier::ext_equal]
pub struct NodeView {
    pub name: Seq<char>,
    pub parent: u64,
    pub kind: EntryKind,
    pub mode: u16,
    pub uid: u32,
    pub gid: u32,
    pub size: u64,
    pub atime: Timestamp,
    pub mtime: Timestamp,
    pub ctime: Timestamp,
}

impl FsNode {
    pub open spec fn view(self) -> NodeView {
        NodeView {
            name: self.name@,
            parent: self.parent,
            kind: self.kind,
            mode: self.mode,
            uid: self.uid,
            gid: self.gid,
            size: self.size,
            atime: self.atime,
            mtime: self.mtime,
            ctime: self.ctime,
        }
    }
}

impl Clone for FsNode {
    fn clone(&self) -> (r: Self)
        ensures
            r@ == self@,
            r.ino == self.ino,
    {
        FsNode {
            ino: self.ino,
            name: self.name.clone(),
            parent: self.parent,
            kind: self.kind,
            mode: self.mode,
            uid: self.uid,
            gid: self.gid,
            size: self.size,
            atime: self.atime,
            mtime: self.mtime,
            ctime: self.ctime,
        }
    }
}

/// `c` stands in the directory `p`.
pub open spec fn is_child(nodes: Map<u64, NodeView>, c: u64, p: u64) -> bool {
    nodes.contains_key(c) && c != ROOT_INODE && nodes[c].parent == p
}

/// The names of some nodes.
pub open spec fn names_of(list: Seq<u64>, nodes: Map<u64, NodeView>) -> Seq<Seq<char>> {
    list.map_values(|c: u64| nodes[c].name)
}

/// `list` holds what stands in `p`, in the byte order of the names. No name occurs twice.
pub open spec fn is_child_list(list: Seq<u64>, nodes: Map<u64, NodeView>, p: u64) -> bool {
    &&& is_sorted(names_of(list, nodes))
    &&& forall|c: u64| #[trigger] list.contains(c) <==> is_child(nodes, c, p)
}

/// What stands in `p`, in the byte order of the names.
pub open spec fn child_list(nodes: Map<u64, NodeView>, p: u64) -> Seq<u64> {
    choose|list: Seq<u64>| is_child_list(list, nodes, p)
}

/// What is called `name` in `p`.
pub open spec fn child_named(nodes: Map<u64, NodeView>, p: u64, name: Seq<char>) -> Option<u64> {
    if exists|c: u64| is_child(nodes, c, p) && (#[trigger] nodes[c]).name == name {
        Some(choose|c: u64| is_child(nodes, c, p) && (#[trigger] nodes[c]).name == name)
    } else {
        None
    }
}

/// The path of `ino`, looked for in at most `fuel` steps upwards.
pub open spec fn path_within(nodes: Map<u64, NodeView>, ino: u64, fuel: nat) -> Result<
    Seq<char>,
    Errno,
>
    decreases fuel,
{
    if ino == ROOT_INODE {
        Ok(Seq::<char>::empty())
    } else if fuel == 0 {
        Err(Errno::Io)
    } else if !nodes.contains_key(ino) {
        Err(Errno::NoEntry)
    } else {
        match path_within(nodes, nodes[ino].parent, (fuel - 1) as nat) {
            Ok(path) => Ok(child_path(path, nodes[ino].name)),
            Err(error) => Err(error),
        }
    }
}

/// The path of `ino`; the root has the empty path.
pub open spec fn path_of(nodes: Map<u64, NodeView>, ino: u64) -> Result<Seq<char>, Errno> {
    path_within(nodes, ino, nodes.len())
}

/// Whether `top` is not met on the way up from `x` in at most `fuel` steps.
pub open spec fn climbed(nodes: Map<u64, NodeView>, x: u64, top: u64, fuel: nat) -> Result<(), Errno>
    decreases fuel,
{
    if x == top {
        Err(Errno::Invalid)
    } else if x == ROOT_INODE {
        Ok(())
    } else if fuel == 0 {
        Err(Errno::Io)
    } else if !nodes.contains_key(x) {
        Err(Errno::NoEntry)
    } else {
        climbed(nodes, nodes[x].parent, top, (fuel - 1) as nat)
    }
}

/// `base` with names added to it; the first of `names` comes last.
spec fn descended(base: Seq<char>, names: Seq<Seq<char>>) -> Seq<char>
    decreases names.len(),
{
    if names.len() == 0 {
        base
    } else {
        child_path(descended(base, names.drop_first()), names[0])
    }
}

proof fn lemma_descended_push(base: Seq<char>, names: Seq<Seq<char>>, name: Seq<char>)
    ensures
        descended(base, names.push(name)) == descended(child_path(base, name), names),
    decreases names.len(),
{
    if names.len() > 0 {
        lemma_descended_push(base, names.drop_first(), name);
        assert(names.push(name).drop_first() =~= names.drop_first().push(name));
        assert(names.push(name)[0] == names[0]);
    } else {
        let one = names.push(name);
        reveal_with_fuel(descended, 2);
        assert(one.drop_first().len() == 0);
        assert(one[0] == name);
    }
}

/// The sum of the sizes of all nodes.
pub open spec fn total_size(nodes: Map<u64, NodeView>) -> nat
    decreases nodes.dom().len(),
    when nodes.dom().finite()
{
    if nodes.dom().len() == 0 {
        0
    } else {
        let k = nodes.dom().choose();
        nodes[k].size as nat + total_size(nodes.remove(k))
    }
}

/// The sum does not depend on the order in which it is taken.
pub proof fn lemma_total_size(nodes: Map<u64, NodeView>, k: u64)
    requires
        nodes.dom().finite(),
        nodes.contains_key(k),
    ensures
        total_size(nodes) == nodes[k].size + total_size(nodes.remove(k)),
    decreases nodes.dom().len(),
{
    let c = nodes.dom().choose();
    assert(nodes.dom().contains(k));
    assert(nodes.dom().len() > 0);
    assert(nodes.dom().contains(c));
    if c != k {
        assert(nodes.remove(c).dom() =~= nodes.dom().remove(c));
        assert(nodes.remove(k).dom() =~= nodes.dom().remove(k));
        lemma_total_size(nodes.remove(c), k);
        lemma_total_size(nodes.remove(k), c);
        assert(nodes.remove(c).remove(k) =~= nodes.remove(k).remove(c));
    }
}

/// Two nodes have no common number, and siblings no common name.
pub proof fn lemma_list_distinct(list: Seq<u64>, nodes: Map<u64, NodeView>, p: u64)
    requires
        is_child_list(list, nodes, p),
    ensures
        list.no_duplicates(),
        forall|a: u64, b: u64|
            is_child(nodes, a, p) && is_child(nodes, b, p) && (#[trigger] nodes[a]).name == (
            #[trigger] nodes[b]).name ==> a == b,
{
    let names = names_of(list, nodes);
    lemma_sorted_distinct(names);
    assert forall|i: int, j: int| 0 <= i < list.len() && 0 <= j < list.len() && i != j implies list[i]
        != list[j] by {
        assert(names[i] != names[j]);
    }
    assert forall|a: u64, b: u64|
        is_child(nodes, a, p) && is_child(nodes, b, p) && (#[trigger] nodes[a]).name == (
        #[trigger] nodes[b]).name implies a == b by {
        assert(list.contains(a) && list.contains(b));
        let i = choose|i: int| 0 <= i < list.len() && list[i] == a;
        let j = choose|j: int| 0 <= j < list.len() && list[j] == b;
        assert(names[i] == names[j]);
    }
}

/// There is at most one list of what stands in a directory.
pub proof fn law_child_list_unique(a: Seq<u64>, nodes: Map<u64, NodeView>, p: u64)
    requires
        is_child_list(a, nodes, p),
    ensures
        child_list(nodes, p) == a,
{
    let b = child_list(nodes, p);
    assert(is_child_list(b, nodes, p));
    let m = names_of(a, nodes);
    let n = names_of(b, nodes);
    assert forall|k: Seq<char>| #[trigger] m.contains(k) <==> n.contains(k) by {
        if m.contains(k) {
            let i = choose|i: int| 0 <= i < m.len() && m[i] == k;
            assert(a.contains(a[i]));
            assert(b.contains(a[i]));
            let j = choose|j: int| 0 <= j < b.len() && b[j] == a[i];
            assert(n[j] == k);
        }
        if n.contains(k) {
            let i = choose|i: int| 0 <= i < n.len() && n[i] == k;
            assert(b.contains(b[i]));
            assert(a.contains(b[i]));
            let j = choose|j: int| 0 <= j < a.len() && a[j] == b[i];
            assert(m[j] == k);
        }
    }
    lemma_sorted_unique(m, n);
    lemma_list_distinct(a, nodes, p);
    assert forall|i: int| 0 <= i < a.len() implies a[i] == b[i] by {
        assert(m[i] == n[i]);
        assert(a.contains(a[i]));
        assert(b.contains(b[i]));
        assert(is_child(nodes, a[i], p) && is_child(nodes, b[i], p));
        assert(nodes[a[i]].name == nodes[b[i]].name);
    }
    assert(a =~= b);
}

/// A list stays right when nothing changes about what it lists.
proof fn lemma_list_kept(
    list: Seq<u64>,
    before: Map<u64, NodeView>,
    after: Map<u64, NodeView>,
    p: u64,
)
    requires
        is_child_list(list, before, p),
        forall|c: u64| #[trigger] is_child(before, c, p) <==> is_child(after, c, p),
        forall|c: u64| #[trigger] is_child(before, c, p) ==> before[c].name == after[c].name,
    ensures
        is_child_list(list, after, p),
{
    assert(names_of(list, after) =~= names_of(list, before)) by {
        assert forall|i: int| 0 <= i < list.len() implies before[#[trigger] list[i]].name
            == after[list[i]].name by {
            assert(list.contains(list[i]));
            assert(is_child(before, list[i], p));
        }
    }
}

/// A list stays right when one node is added to it at the right place.
proof fn lemma_list_grown(
    list: Seq<u64>,
    before: Map<u64, NodeView>,
    after: Map<u64, NodeView>,
    p: u64,
    c: u64,
    at: int,
)
    requires
        is_child_list(list, before, p),
        !is_child(before, c, p),
        is_child(after, c, p),
        forall|k: u64| k != c ==> (#[trigger] is_child(before, k, p) <==> is_child(after, k, p)),
        forall|k: u64| #[trigger] is_child(before, k, p) ==> before[k].name == after[k].name,
        0 <= at <= list.len(),
        forall|i: int| 0 <= i < at ==> precedes(before[#[trigger] list[i]].name, after[c].name),
        forall|i: int|
            at <= i < list.len() ==> precedes(after[c].name, before[#[trigger] list[i]].name),
    ensures
        is_child_list(list.insert(at, c), after, p),
{
    let grown = list.insert(at, c);
    let old_names = names_of(list, before);
    let names = names_of(grown, after);
    assert forall|i: int| 0 <= i < list.len() implies before[#[trigger] list[i]].name
        == after[list[i]].name && list[i] != c by {
        assert(list.contains(list[i]));
        assert(is_child(before, list[i], p));
    }
    assert forall|i: int, j: int| 0 <= i < j < names.len() implies precedes(
        #[trigger] names[i],
        #[trigger] names[j],
    ) by {
        let a = if i < at {
            i
        } else {
            i - 1
        };
        let b = if j < at {
            j
        } else {
            j - 1
        };
        if i == at {
            assert(grown[j] == list[b]);
        } else if j == at {
            assert(grown[i] == list[a]);
        } else {
            assert(grown[i] == list[a]);
            assert(grown[j] == list[b]);
            assert(precedes(old_names[a], old_names[b]));
        }
    }
    assert forall|k: u64| #[trigger] grown.contains(k) <==> is_child(after, k, p) by {
        if grown.contains(k) && k != c {
            let i = choose|i: int| 0 <= i < grown.len() && grown[i] == k;
            let a = if i < at {
                i
            } else {
                i - 1
            };
            assert(list[a] == k);
            assert(list.contains(k));
            assert(is_child(before, k, p));
        }
        if k == c {
            assert(grown[at] == c);
        } else if is_child(after, k, p) {
            assert(is_child(before, k, p));
            assert(list.contains(k));
            let i = choose|i: int| 0 <= i < list.len() && list[i] == k;
            assert(grown[if i < at {
                i
            } else {
                i + 1
            }] == k);
        }
    }
}

/// A list stays right when one node is taken out of it.
proof fn lemma_list_shrunk(
    list: Seq<u64>,
    before: Map<u64, NodeView>,
    after: Map<u64, NodeView>,
    p: u64,
    at: int,
)
    requires
        is_child_list(list, before, p),
        0 <= at < list.len(),
        !is_child(after, list[at], p),
        forall|k: u64|
            k != list[at] ==> (#[trigger] is_child(before, k, p) <==> is_child(after, k, p)),
        forall|k: u64|
            k != list[at] && #[trigger] is_child(before, k, p) ==> before[k].name == after[k].name,
    ensures
        is_child_list(list.remove(at), after, p),
{
    let shrunk = list.remove(at);
    let old_names = names_of(list, before);
    let names = names_of(shrunk, after);
    lemma_list_distinct(list, before, p);
    assert forall|i: int, j: int| 0 <= i < j < names.len() implies precedes(
        #[trigger] names[i],
        #[trigger] names[j],
    ) by {
        let a = if i < at {
            i
        } else {
            i + 1
        };
        let b = if j < at {
            j
        } else {
            j + 1
        };
        assert(shrunk[i] == list[a] && shrunk[j] == list[b]);
        assert(list.contains(list[a]) && list.contains(list[b]));
        assert(is_child(before, list[a], p) && is_child(before, list[b], p));
        assert(precedes(old_names[a], old_names[b]));
    }
    assert forall|k: u64| #[trigger] shrunk.contains(k) <==> is_child(after, k, p) by {
        if shrunk.contains(k) {
            let i = choose|i: int| 0 <= i < shrunk.len() && shrunk[i] == k;
            let a = if i < at {
                i
            } else {
                i + 1
            };
            assert(list[a] == k);
            assert(list.contains(k));
            assert(is_child(before, k, p));
        }
        if is_child(after, k, p) {
            assert(is_child(before, k, p));
            assert(list.contains(k));
            let i = choose|i: int| 0 <= i < list.len() && list[i] == k;
            assert(shrunk[if i < at {
                i
            } else {
                i - 1
            }] == k);
        }
    }
}

/// Nodes by number, and for each the numbers of what stands in it.
pub struct InodeTree {
    nodes: HashMap<u64, FsNode>,
    children: HashMap<u64, Vec<u64>>,
}

impl InodeTree {
    /// The nodes.
    pub closed spec fn view(self) -> Map<u64, NodeView> {
        self.nodes@.map_values(|node: FsNode| node@)
    }

    /// Each node is stored under its number, and there is a list of what stands in it.
    pub closed spec fn wf(self) -> bool {
        &&& forall|k: u64| #[trigger] self.nodes@.contains_key(k) ==> self.nodes@[k].ino == k
        &&& self.children@.dom() == self.nodes@.dom()
        &&& forall|p: u64| #[trigger]
            self.children@.contains_key(p) ==> is_child_list(self.children@[p]@, self@, p)
    }

    /// In a well-formed tree the lists are what they should be, and there are finitely many nodes.
    pub proof fn lemma_lists(self)
        requires
            self.wf(),
        ensures
            self@.dom().finite(),
            forall|p: u64| #[trigger]
                self@.contains_key(p) ==> is_child_list(child_list(self@, p), self@, p),
    {
        assert(self@.dom() =~= self.nodes@.dom());
        assert forall|p: u64| #[trigger] self@.contains_key(p) implies is_child_list(
            child_list(self@, p),
            self@,
            p,
        ) by {
            assert(self.children@.contains_key(p));
            assert(is_child_list(self.children@[p]@, self@, p));
        }
    }

    /// A tree that holds a root and nothing else.
    pub fn new(root: FsNode) -> (r: Self)
        requires
            root.ino == ROOT_INODE,
        ensures
            r.wf(),
            r@ == Map::<u64, NodeView>::empty().insert(ROOT_INODE, root@),
    {
        let mut nodes: HashMap<u64, FsNode> = HashMap::new();
        let mut children: HashMap<u64, Vec<u64>> = HashMap::new();
        let ghost view = root@;
        nodes.insert(ROOT_INODE, root);
        children.insert(ROOT_INODE, Vec::new());
        let r = InodeTree { nodes, children };
        proof {
            assert(r@ =~= Map::<u64, NodeView>::empty().insert(ROOT_INODE, view));
            assert(r.children@.dom() =~= r.nodes@.dom());
            assert(names_of(Seq::<u64>::empty(), r@) =~= Seq::<Seq<char>>::empty());
        }
        r
    }

    /// The number of nodes.
    pub fn len(&self) -> (r: usize)
        ensures
            r == self@.len(),
    {
        assert(self@.dom() =~= self.nodes@.dom());
        self.nodes.len()
    }

    /// The node with the given number.
    pub fn get(&self, ino: u64) -> (r: Option<&FsNode>)
        requires
            self.wf(),
        ensures
            match r {
                Some(node) => self@.contains_key(ino) && node@ == self@[ino] && node.ino == ino,
                None => !self@.contains_key(ino),
            },
    {
        self.nodes.get(&ino)
    }

    /// Whether there is a node with the given number.
    pub fn contains(&self, ino: u64) -> (r: bool)
        ensures
            r == self@.contains_key(ino),
    {
        self.nodes.contains_key(&ino)
    }

    /// What stands in `ino`, in the byte order of the names.
    pub fn children(&self, ino: u64) -> (r: Option<&Vec<u64>>)
        requires
            self.wf(),
        ensures
            match r {
                Some(list) => {
                    &&& self@.contains_key(ino)
                    &&& list@ == child_list(self@, ino)
                    &&& is_child_list(list@, self@, ino)
                },
                None => !self@.contains_key(ino),
            },
    {
        let r = self.children.get(&ino);
        proof {
            if let Some(list) = r {
                assert(self.children@.contains_key(ino));
                law_child_list_unique(list@, self@, ino);
            }
        }
        r
    }

    /// What is called `name` in `parent`.
    pub fn find_child(&self, parent: u64, name: &str) -> (r: Option<u64>)
        requires
            self.wf(),
            self@.contains_key(parent),
        ensures
            r == child_named(self@, parent, name@),
            r matches Some(c) ==> is_child(self@, c, parent) && self@[c].name == name@,
    {
        let list = match self.children(parent) {
            Some(list) => list,
            None => return None,
        };
        let mut i: usize = 0;
        proof {
            lemma_list_distinct(list@, self@, parent);
        }
        #[verifier::loop_isolation(false)]
        while i < list.len()
            invariant
                i <= list.len(),
                forall|k: int| 0 <= k < i ==> self@[#[trigger] list@[k]].name != name@,
            decreases list.len() - i,
        {
            let c: u64 = list[i];
            assert(list@.contains(c));
            assert(is_child(self@, c, parent));
            match self.get(c) {
                Some(node) => {
                    if same_text(node.name.as_str(), name) {
                        assert(self@[c].name == name@);
                        return Some(c);
                    }
                },
                None => {},
            }
            i += 1;
        }
        proof {
            assert forall|c: u64| is_child(self@, c, parent) implies (#[trigger] self@[c]).name
                != name@ by {
                assert(list@.contains(c));
                let k = choose|k: int| 0 <= k < list@.len() && list@[k] == c;
                assert(self@[list@[k]].name != name@);
            }
        }
        None
    }

    /// The place in `list` at which `name` belongs, which is not among the listed names.
    fn place(&self, list: &Vec<u64>, name: &str) -> (at: usize)
        requires
            is_sorted(names_of(list@, self@)),
            forall|i: int|
                0 <= i < list.len() ==> self@.contains_key(#[trigger] list@[i])
                    && self@[list@[i]].name != name@,
        ensures
            at <= list.len(),
            forall|i: int| 0 <= i < at ==> precedes(self@[#[trigger] list@[i]].name, name@),
            forall|i: int|
                at <= i < list.len() ==> precedes(name@, self@[#[trigger] list@[i]].name),
    {
        let ghost names = names_of(list@, self@);
        let mut low: usize = 0;
        let mut high: usize = list.len();
        #[verifier::loop_isolation(false)]
        while low < high
            invariant
                low <= high <= list.len(),
                forall|i: int| 0 <= i < low ==> precedes(#[trigger] names[i], name@),
                forall|i: int| high <= i < list.len() ==> precedes(name@, #[trigger] names[i]),
            decreases high - low,
        {
            let middle: usize = low + (high - low) / 2;
            assert(self@.contains_key(list@[middle as int]));
            match self.nodes.get(&list[middle]) {
                None => {
                    high = middle;
                },
                Some(node) => {
                    assert(names[middle as int] == node.name@);
                    match order_of(node.name.as_str(), name) {
                        Order::Before => {
                            assert forall|i: int| 0 <= i <= middle implies precedes(
                                #[trigger] names[i],
                                name@,
                            ) by {
                                if i < middle {
                                    precedes_transitive(names[i], names[middle as int], name@);
                                }
                            }
                            low = middle + 1;
                        },
                        Order::Same => {
                            high = middle;
                        },
                        Order::After => {
                            assert forall|i: int| middle <= i < list.len() implies precedes(
                                name@,
                                #[trigger] names[i],
                            ) by {
                                if i > middle {
                                    precedes_transitive(name@, names[middle as int], names[i]);
                                }
                            }
                            high = middle;
                        },
                    }
                },
            }
        }
        proof {
            assert forall|i: int| 0 <= i < low implies precedes(
                self@[#[trigger] list@[i]].name,
                name@,
            ) by {
                assert(precedes(names[i], name@));
            }
            assert forall|i: int| low <= i < list.len() implies precedes(
                name@,
                self@[#[trigger] list@[i]].name,
            ) by {
                assert(precedes(name@, names[i]));
            }
        }
        low
    }

    /// Adds a node under a number that is not in use.
    pub fn insert(&mut self, node: FsNode)
        requires
            old(self).wf(),
            node.ino != ROOT_INODE,
            !old(self)@.contains_key(node.ino),
            old(self)@.contains_key(node.parent),
            child_named(old(self)@, node.parent, node@.name) is None,
            forall|c: u64| !#[trigger] is_child(old(self)@, c, node.ino),
        ensures
            final(self).wf(),
            final(self)@ == old(self)@.insert(node.ino, node@),
    {
        let ghost before = self@;
        let ghost after = before.insert(node.ino, node@);
        let ino: u64 = node.ino;
        let parent: u64 = node.parent;
        let ghost view = node@;
        let ghost lists = self.children@;
        let at: usize = match self.children(parent) {
            Some(list) => {
                proof {
                    assert forall|i: int| 0 <= i < list.len() implies self@.contains_key(
                        #[trigger] list@[i],
                    ) && self@[list@[i]].name != node@.name by {
                        assert(list@.contains(list@[i]));
                        assert(is_child(self@, list@[i], parent));
                    }
                }
                self.place(list, node.name.as_str())
            },
            None => 0,
        };
        self.nodes.insert(ino, node);
        match self.children.remove(&parent) {
            Some(mut list) => {
                proof {
                    assert(lists.contains_key(parent));
                    assert(list@ == lists[parent]@);
                    law_child_list_unique(list@, before, parent);
                    assert(!is_child(before, ino, parent));
                    lemma_list_grown(list@, before, after, parent, ino, at as int);
                }
                list.insert(at, ino);
                self.children.insert(parent, list);
            },
            None => {},
        }
        self.children.insert(ino, Vec::new());
        proof {
            assert(self@ =~= after);
            assert(self.children@.dom() =~= self.nodes@.dom());
            assert forall|p: u64| #[trigger] self.children@.contains_key(p) implies is_child_list(
                self.children@[p]@,
                self@,
                p,
            ) by {
                if p == ino {
                    assert(names_of(Seq::<u64>::empty(), self@) =~= Seq::<Seq<char>>::empty());
                    assert(!is_child(after, ino, ino));
                    assert forall|c: u64| !is_child(after, c, ino) by {
                        assert(!is_child(before, c, ino));
                    }
                    assert(self.children@[p]@ =~= Seq::<u64>::empty());
                } else if p != parent {
                    assert(lists.contains_key(p));
                    lemma_list_kept(lists[p]@, before, after, p);
                }
            }
        }
    }

    /// Takes `c` out of the list of what stands in `parent`.
    fn unlist(&mut self, parent: u64, c: u64)
        requires
            old(self).children@.contains_key(parent) ==> old(self).children@[parent]@.no_duplicates(),
        ensures
            final(self).nodes@ == old(self).nodes@,
            final(self).children@.dom() == old(self).children@.dom(),
            forall|p: u64|
                p != parent && #[trigger] old(self).children@.contains_key(p)
                    ==> final(self).children@[p] == old(self).children@[p],
            old(self).children@.contains_key(parent) ==> is_without(
                final(self).children@[parent]@,
                old(self).children@[parent]@,
                c,
            ),
    {
        match self.children.remove(&parent) {
            Some(list) => {
                let ghost all = list@;
                let mut list: Vec<u64> = list;
                let mut i: usize = 0;
                #[verifier::loop_isolation(false)]
                while i < list.len() && list[i] != c
                    invariant
                        i <= list.len(),
                        list@ == all,
                        forall|k: int| 0 <= k < i ==> list@[k] != c,
                    decreases list.len() - i,
                {
                    i += 1;
                }
                if i < list.len() {
                    list.remove(i);
                    assert(list@ == all.remove(i as int));
                    assert(all[i as int] == c);
                } else {
                    assert(!all.contains(c));
                }
                self.children.insert(parent, list);
            },
            None => {},
        }
        assert(self.children@.dom() =~= old(self).children@.dom());
    }

    /// Takes a node away. What stands in it keeps its parent's number.
    pub fn remove(&mut self, ino: u64)
        requires
            old(self).wf(),
            ino != ROOT_INODE,
        ensures
            final(self).wf(),
            final(self)@ == old(self)@.remove(ino),
    {
        let ghost before = self@;
        let ghost lists = self.children@;
        let parent: u64 = match self.nodes.get(&ino) {
            Some(node) => node.parent,
            None => {
                assert(before.remove(ino) =~= before);
                return;
            },
        };
        proof {
            if lists.contains_key(parent) {
                lemma_list_distinct(lists[parent]@, before, parent);
            }
        }
        self.unlist(parent, ino);
        self.nodes.remove(&ino);
        self.children.remove(&ino);
        proof {
            let after = before.remove(ino);
            assert(self@ =~= after);
            assert(self.children@.dom() =~= self.nodes@.dom());
            assert forall|p: u64| #[trigger] self.children@.contains_key(p) implies is_child_list(
                self.children@[p]@,
                self@,
                p,
            ) by {
                assert(lists.contains_key(p));
                if p == parent {
                    assert(is_child(before, ino, p));
                    assert(lists[p]@.contains(ino));
                    let at = lists[p]@.index_of(ino);
                    assert(is_without(self.children@[p]@, lists[p]@, ino));
                    lemma_list_shrunk(lists[p]@, before, after, p, at);
                } else {
                    lemma_list_kept(lists[p]@, before, after, p);
                }
            }
        }
    }

    /// Replaces a node by one that has the same name and parent.
    pub fn update(&mut self, node: FsNode)
        requires
            old(self).wf(),
            old(self)@.contains_key(node.ino),
            old(self)@[node.ino].name == node@.name,
            old(self)@[node.ino].parent == node.parent,
        ensures
            final(self).wf(),
            final(self)@ == old(self)@.insert(node.ino, node@),
    {
        let ghost before = self@;
        let ghost after = before.insert(node.ino, node@);
        let ino: u64 = node.ino;
        self.nodes.insert(ino, node);
        proof {
            assert(self@ =~= after);
            assert(self.children@.dom() =~= self.nodes@.dom());
            assert forall|p: u64| #[trigger] self.children@.contains_key(p) implies is_child_list(
                self.children@[p]@,
                self@,
                p,
            ) by {
                lemma_list_kept(self.children@[p]@, before, after, p);
            }
        }
    }

    /// Gives a node another name or another parent.
    pub fn relocate(&mut self, node: FsNode)
        requires
            old(self).wf(),
            node.ino != ROOT_INODE,
            old(self)@.contains_key(node.ino),
            old(self)@.contains_key(node.parent),
            child_named(old(self)@, node.parent, node@.name) is None,
        ensures
            final(self).wf(),
            final(self)@ == old(self)@.insert(node.ino, node@),
    {
        let ghost before = self@;
        let ghost after = before.insert(node.ino, node@);
        let ghost lists = self.children@;
        let ino: u64 = node.ino;
        let source: u64 = match self.nodes.get(&ino) {
            Some(old_node) => old_node.parent,
            None => ROOT_INODE,
        };
        let parent: u64 = node.parent;
        proof {
            assert(lists.contains_key(parent));
            law_child_list_unique(lists[parent]@, before, parent);
            lemma_list_distinct(lists[parent]@, before, parent);
            if lists.contains_key(source) {
                lemma_list_distinct(lists[source]@, before, source);
            }
        }
        let ghost middle = before.remove(ino);
        self.unlist(source, ino);
        let ghost cut = self.children@;
        proof {
            assert forall|p: u64| #[trigger] cut.contains_key(p) implies is_child_list(
                cut[p]@,
                middle,
                p,
            ) by {
                assert(lists.contains_key(p));
                if p == source {
                    assert(is_child(before, ino, p));
                    assert(lists[p]@.contains(ino));
                    assert(is_without(cut[p]@, lists[p]@, ino));
                    lemma_list_shrunk(lists[p]@, before, middle, p, lists[p]@.index_of(ino));
                } else {
                    lemma_list_kept(lists[p]@, before, middle, p);
                }
            }
            assert(cut.contains_key(parent));
            assert(names_of(cut[parent]@, before) =~= names_of(cut[parent]@, middle)) by {
                assert forall|i: int| 0 <= i < cut[parent]@.len() implies before[
                #[trigger] cut[parent]@[i]].name == middle[cut[parent]@[i]].name by {
                    assert(cut[parent]@.contains(cut[parent]@[i]));
                    assert(is_child(middle, cut[parent]@[i], parent));
                }
            }
        }
        match self.children.remove(&parent) {
            Some(list) => {
                let mut list: Vec<u64> = list;
                assert(list@ == cut[parent]@);
                proof {
                    assert forall|i: int| 0 <= i < list.len() implies self@.contains_key(
                        #[trigger] list@[i],
                    ) && self@[list@[i]].name != node@.name by {
                        assert(list@.contains(list@[i]));
                        assert(is_child(middle, list@[i], parent));
                        assert(is_child(before, list@[i], parent));
                    }
                }
                let at: usize = self.place(&list, node.name.as_str());
                proof {
                    assert(is_child(after, ino, parent));
                    assert(!is_child(middle, ino, parent));
                    assert forall|i: int| 0 <= i < list.len() implies middle[
                    #[trigger] list@[i]].name == self@[list@[i]].name by {
                        assert(list@.contains(list@[i]));
                        assert(is_child(middle, list@[i], parent));
                        assert(middle[list@[i]] == before[list@[i]]);
                        assert(self@ == before);
                    }
                    lemma_list_grown(list@, middle, after, parent, ino, at as int);
                }
                list.insert(at, ino);
                self.children.insert(parent, list);
            },
            None => {},
        }
        self.nodes.insert(ino, node);
        proof {
            assert(self@ =~= after);
            assert(self.children@.dom() =~= self.nodes@.dom());
            assert forall|p: u64| #[trigger] self.children@.contains_key(p) implies is_child_list(
                self.children@[p]@,
                self@,
                p,
            ) by {
                if p != parent {
                    assert(cut.contains_key(p));
                    lemma_list_kept(cut[p]@, middle, after, p);
                }
            }
        }
    }
}

impl InodeTree {
    /// The path of a node.
    pub fn path(&self, ino: u64) -> (r: Result<String, Errno>)
        requires
            self.wf(),
        ensures
            match path_of(self@, ino) {
                Ok(path) => r matches Ok(s) && s@ == path,
                Err(error) => r == Err::<String, Errno>(error),
            },
    {
        let limit: usize = self.len();
        let mut names: Vec<Vec<char>> = Vec::new();
        let mut current: u64 = ino;
        let mut steps: usize = 0;
        let ghost mut above: Seq<Seq<char>> = Seq::empty();
        #[verifier::loop_isolation(false)]
        while current != ROOT_INODE
            invariant
                steps <= limit,
                above == names@.map_values(|name: Vec<char>| name@),
                match path_within(self@, current, (limit - steps) as nat) {
                    Ok(path) => path_of(self@, ino) == Ok::<Seq<char>, Errno>(
                        descended(path, above),
                    ),
                    Err(error) => path_of(self@, ino) == Err::<Seq<char>, Errno>(error),
                },
            decreases limit - steps,
        {
            if steps == limit {
                return Err(Errno::Io);
            }
            match self.get(current) {
                None => {
                    return Err(Errno::NoEntry);
                },
                Some(node) => {
                    let ghost before = names@;
                    names.push(to_chars(node.name.as_str()));
                    proof {
                        let path = path_within(self@, node.parent, (limit - steps - 1) as nat);
                        if let Ok(path) = path {
                            lemma_descended_push(path, above, node.name@);
                        }
                        above = above.push(node.name@);
                        assert(above =~= names@.map_values(|name: Vec<char>| name@));
                    }
                    current = node.parent;
                    steps += 1;
                },
            }
        }
        let mut out: Vec<char> = Vec::new();
        let mut i: usize = names.len();
        assert(above.take(i as int) =~= above);
        #[verifier::loop_isolation(false)]
        while i > 0
            invariant
                i <= names.len(),
                above == names@.map_values(|name: Vec<char>| name@),
                descended(out@, above.take(i as int)) == descended(Seq::<char>::empty(), above),
            decreases i,
        {
            i -= 1;
            let ghost before = out@;
            if out.len() > 0 {
                out.push('/');
            }
            out.extend_from_slice(names[i].as_slice());
            proof {
                assert(out@ =~= child_path(before, above[i as int]));
                assert(above.take(i + 1) =~= above.take(i as int).push(above[i as int]));
                lemma_descended_push(before, above.take(i as int), above[i as int]);
            }
        }
        assert(above.take(0) =~= Seq::<Seq<char>>::empty());
        Ok(from_chars(out.as_slice()))
    }

    /// Whether `top` is not met on the way up from `x`.
    pub fn climb(&self, x: u64, top: u64) -> (r: Result<(), Errno>)
        requires
            self.wf(),
        ensures
            r == climbed(self@, x, top, self@.len()),
    {
        let limit: usize = self.len();
        let mut current: u64 = x;
        let mut steps: usize = 0;
        #[verifier::loop_isolation(false)]
        while current != top
            invariant
                steps <= limit,
                climbed(self@, x, top, limit as nat) == climbed(
                    self@,
                    current,
                    top,
                    (limit - steps) as nat,
                ),
            decreases limit - steps,
        {
            if current == ROOT_INODE {
                return Ok(());
            }
            if steps == limit {
                return Err(Errno::Io);
            }
            match self.get(current) {
                None => {
                    return Err(Errno::NoEntry);
                },
                Some(node) => {
                    current = node.parent;
                    steps += 1;
                },
            }
        }
        Err(Errno::Invalid)
    }

    /// The sum of the sizes of all nodes, or the largest number where that is smaller.
    pub fn used_bytes(&self) -> (r: u64)
        ensures
            r == if total_size(self@) > u64::MAX {
                u64::MAX as nat
            } else {
                total_size(self@)
            },
    {
        let numbers: Vec<u64> = keys_of(&self.nodes);
        let ghost keys = numbers@;
        let mut sum: u64 = 0;
        let mut i: usize = 0;
        assert(self@.dom() =~= self.nodes@.dom());
        assert(self@.remove_keys(keys.take(0).to_set()) =~= self@);
        #[verifier::loop_isolation(false)]
        while i < numbers.len()
            invariant
                i <= numbers.len(),
                ({
                    let rest = self@.remove_keys(keys.take(i as int).to_set());
                    let counted = total_size(self@) - total_size(rest);
                    &&& rest.dom().finite()
                    &&& counted >= 0
                    &&& sum == if counted > u64::MAX {
                        u64::MAX as int
                    } else {
                        counted
                    }
                }),
            decreases numbers.len() - i,
        {
            let k: u64 = numbers[i];
            let ghost rest = self@.remove_keys(keys.take(i as int).to_set());
            let ghost less = self@.remove_keys(keys.take(i + 1).to_set());
            proof {
                assert(keys.contains(k));
                assert(self.nodes@.contains_key(k));
                assert(!keys.take(i as int).contains(k)) by {
                    if keys.take(i as int).contains(k) {
                        let j = choose|j: int| 0 <= j < i && keys.take(i as int)[j] == k;
                        assert(keys[j] == keys[i as int]);
                    }
                }
                assert(rest.contains_key(k));
                assert forall|x: u64| keys.take(i + 1).to_set().contains(x) <==> keys.take(
                    i as int,
                ).to_set().insert(k).contains(x) by {
                    assert(keys.take(i + 1) =~= keys.take(i as int).push(k));
                    lemma_push_contains(keys.take(i as int), k, x);
                }
                assert(keys.take(i + 1).to_set() =~= keys.take(i as int).to_set().insert(k));
                assert(less =~= rest.remove(k));
                lemma_total_size(rest, k);
            }
            match self.nodes.get(&k) {
                Some(node) => {
                    sum = sum.saturating_add(node.size);
                },
                None => {},
            }
            i += 1;
        }
        proof {
            let rest = self@.remove_keys(keys.take(i as int).to_set());
            assert(keys.take(i as int) =~= keys);
            assert forall|k: u64| !rest.contains_key(k) by {
                if self@.contains_key(k) {
                    assert(keys.contains(k));
                }
            }
            assert(rest.dom() =~= Set::<u64>::empty());
        }
        sum
    }
}

/// The keys of a map, in whatever order it yields them.
pub fn keys_of<V>(map: &HashMap<u64, V>) -> (r: Vec<u64>)
    ensures
        r@.no_duplicates(),
        forall|k: u64| #[trigger] r@.contains(k) <==> map@.contains_key(k),
{
    let mut r: Vec<u64> = Vec::new();
    for k in it: map.keys()
        invariant
            r@.len() == it.index(),
            r@ == it.seq().unref().take(it.index() as int),
            it.seq().unref().len() == it.seq().len(),
            it.seq().unref().take(it.seq().len() as int) == it.seq().unref(),
            it.seq().unref().to_set() == map@.dom(),
            it.seq().no_duplicates(),
    {
        r.push(*k);
    }
    proof {
        assert forall|k: u64| #[trigger] r@.contains(k) <==> map@.contains_key(k) by {
            assert(r@.to_set().contains(k) <==> map@.dom().contains(k));
        }
    }
    r
}

/// `rest` is `list` without `c`, where `c` occurs in it.
spec fn is_without(rest: Seq<u64>, list: Seq<u64>, c: u64) -> bool {
    if list.contains(c) {
        rest == list.remove(list.index_of(c))
    } else {
        rest == list
    }
}

} // verus!
