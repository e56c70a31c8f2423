//! The list of files that the browser shows, and how it is searched.
use vstd::arithmetic::div_mod::{lemma_fundamental_div_mod, lemma_fundamental_div_mod_converse};
use vstd::prelude::*;
use crate::entry::{EntryKind, EntryView, IndexEntry, Meta};
use crate::index::{is_table, lemma_listing, listing, listing_of, metas};
use crate::layout::{lemma_prefix, needed, prefix_path, with_prefixes};
use crate::path::{components, is_canonical, lemma_canonical_nonempty, lemma_parent_and_name,
    name_of, split};
use crate::pathmap::{lemma_push_contains, texts, PathMap};
use crate::text::{from_chars, to_chars};

verus! {

/// A line in the list of files.
pub struct TreeNode {
    pub name: String,
    pub path: String,
    pub kind: EntryKind,
    pub depth: usize,
}

/// A line in the list of files as a mathematical value.
#[verifier::ext_equal]
pub struct TreeNodeView {
    pub name: Seq<char>,
    pub path: Seq<char>,
    pub kind: EntryKind,
    pub depth: nat,
}

impl TreeNode {
    pub open spec fn view(self) -> TreeNodeView {
        TreeNodeView {
            name: self.name@,
            path: self.path@,
            kind: self.kind,
            depth: self.depth as nat,
        }
    }
}

/// The line for a path: a directory unless it is recorded as something else.
pub open spec fn line_for(entries: Map<Seq<char>, Meta>, path: Seq<char>) -> TreeNodeView {
    TreeNodeView {
        name: name_of(path),
        path,
        kind: if entries.contains_key(path) {
            entries[path].kind
        } else {
            EntryKind::Directory
        },
        depth: (split(path).len() - 1) as nat,
    }
}

/// The list of files: every entry, with the directories above it before it.
pub open spec fn file_lines(entries: Map<Seq<char>, Meta>) -> Seq<TreeNodeView> {
    needed(listing_of(entries)).map_values(|path: Seq<char>| line_for(entries, path))
}

/// Lines as mathematical values.
pub open spec fn lines_view(lines: Seq<TreeNode>) -> Seq<TreeNodeView> {
    lines.map_values(|line: TreeNode| line@)
}

/// The list of files: every entry, with the directories above it before it.
pub fn build_tree(entries: &PathMap<IndexEntry>) -> (nodes: Vec<TreeNode>)
    requires
        is_table(*entries),
    ensures
        lines_view(nodes@) == file_lines(metas(entries@)),
{
    let ghost all = listing(*entries);
    let ghost table = metas(entries@);
    let n: usize = entries.len();
    let mut nodes: Vec<TreeNode> = Vec::new();
    let mut added: PathMap<bool> = PathMap::new();
    let mut i: usize = 0;
    proof {
        lemma_listing(*entries);
        assert(all.take(0) =~= Seq::<EntryView>::empty());
        assert(lines_view(nodes@) =~= Seq::<TreeNodeView>::empty());
    }
    #[verifier::loop_isolation(false)]
    while i < n
        invariant
            i <= n,
            added.wf(),
            forall|p: Seq<char>| #[trigger]
                added@.contains_key(p) <==> needed(all.take(i as int)).contains(p),
            lines_view(nodes@) == needed(all.take(i as int)).map_values(
                |path: Seq<char>| line_for(table, path),
            ),
        decreases n - i,
    {
        let entry: &IndexEntry = entries.value(i);
        proof {
            assert(entry@ == all[i as int]);
            assert(all.take(i + 1).drop_last() =~= all.take(i as int));
            assert(all.take(i + 1).last() == entry@);
        }
        add_lines(
            &mut nodes,
            &mut added,
            entry.virtual_path.as_str(),
            entries,
            Ghost(needed(all.take(i as int))),
        );
        i += 1;
    }
    assert(all.take(i as int) =~= all);
    nodes
}

/// Adds the lines for a path and for the directories above it, as far as they are not there yet.
fn add_lines(
    nodes: &mut Vec<TreeNode>,
    added: &mut PathMap<bool>,
    path: &str,
    entries: &PathMap<IndexEntry>,
    Ghost(paths): Ghost<Seq<Seq<char>>>,
)
    requires
        is_table(*entries),
        is_canonical(path@),
        old(added).wf(),
        forall|p: Seq<char>| #[trigger] old(added)@.contains_key(p) <==> paths.contains(p),
        lines_view(old(nodes)@) == paths.map_values(
            |path: Seq<char>| line_for(metas(entries@), path),
        ),
    ensures
        final(added).wf(),
        forall|p: Seq<char>| #[trigger]
            final(added)@.contains_key(p) <==> with_prefixes(
                paths,
                split(path@),
                split(path@).len(),
            ).contains(p),
        lines_view(final(nodes)@) == with_prefixes(
            paths,
            split(path@),
            split(path@).len(),
        ).map_values(|path: Seq<char>| line_for(metas(entries@), path)),
{
    let ghost pieces = split(path@);
    let ghost table = metas(entries@);
    let ghost line = |path: Seq<char>| line_for(table, path);
    let parts: Vec<Vec<char>> = components(to_chars(path).as_slice());
    let mut current: Vec<char> = Vec::new();
    let mut k: usize = 0;
    assert(pieces.take(0) =~= Seq::<Seq<char>>::empty());
    assert(parts.len() == pieces.len());
    #[verifier::loop_isolation(false)]
    while k < parts.len()
        invariant
            k <= parts.len(),
            added.wf(),
            forall|p: Seq<char>| #[trigger]
                added@.contains_key(p) <==> with_prefixes(paths, pieces, k as nat).contains(p),
            lines_view(nodes@) == with_prefixes(paths, pieces, k as nat).map_values(line),
            current@ == prefix_path(pieces, k as int),
        decreases parts.len() - k,
    {
        let ghost before = with_prefixes(paths, pieces, k as nat);
        let ghost here = prefix_path(pieces, k + 1);
        proof {
            lemma_prefix(path@, k + 1);
            if k > 0 {
                lemma_prefix(path@, k as int);
                lemma_canonical_nonempty(current@);
            }
            lemma_parent_and_name(here);
            assert(parts@[k as int]@ == pieces[k as int]);
        }
        if current.len() > 0 {
            current.push('/');
        }
        current.extend_from_slice(parts[k].as_slice());
        assert(current@ =~= here);
        let text: String = from_chars(current.as_slice());
        if !added.contains(text.as_str()) {
            let kind: EntryKind = match entries.get(text.as_str()) {
                Some(entry) => entry.kind,
                None => EntryKind::Directory,
            };
            let copy: String = text.clone();
            let node = TreeNode {
                name: from_chars(parts[k].as_slice()),
                path: copy,
                kind,
                depth: k,
            };
            proof {
                assert(node@ =~= line_for(table, here));
            }
            let ghost held = nodes@;
            nodes.push(node);
            added.insert(text, true);
            proof {
                assert(lines_view(nodes@) =~= lines_view(held).push(node@));
                assert(before.push(here).map_values(line) =~= before.map_values(line).push(
                    line_for(table, here),
                ));
                assert forall|p: Seq<char>| #[trigger] added@.contains_key(p) <==> before.push(
                    here,
                ).contains(p) by {
                    lemma_push_contains(before, here, p);
                }
            }
        }
        k += 1;
    }
}

/// `needle` occurs in `text`.
pub open spec fn contains_text(text: Seq<char>, needle: Seq<char>) -> bool {
    exists|i: int| #[trigger] occurs_at(text, needle, i)
}

/// `needle` stands in `text` at `i`.
pub open spec fn occurs_at(text: Seq<char>, needle: Seq<char>, i: int) -> bool {
    0 <= i && i + needle.len() <= text.len() && text.subrange(i, i + needle.len()) == needle
}

/// Whether `needle` occurs in `text`.
fn has_text(text: &[char], needle: &[char]) -> (r: bool)
    ensures
        r == contains_text(text@, needle@),
{
    if needle.len() > text.len() {
        return false;
    }
    let last: usize = text.len() - needle.len();
    let mut i: usize = 0;
    #[verifier::loop_isolation(false)]
    while i <= last
        invariant
            i <= last + 1,
            forall|k: int| 0 <= k < i ==> !#[trigger] occurs_at(text@, needle@, k),
        decreases last + 1 - i,
    {
        let mut j: usize = 0;
        #[verifier::loop_isolation(false)]
        while j < needle.len() && text[i + j] == needle[j]
            invariant
                j <= needle.len(),
                forall|k: int| 0 <= k < j ==> text@[i + k] == needle@[k],
            decreases needle.len() - j,
        {
            j += 1;
        }
        if j == needle.len() {
            assert(text@.subrange(i as int, i + needle@.len()) =~= needle@);
            assert(occurs_at(text@, needle@, i as int));
            return true;
        }
        proof {
            if occurs_at(text@, needle@, i as int) {
                assert(text@.subrange(i as int, i + needle@.len())[j as int] == needle@[j as int]);
            }
        }
        if i == last {
            assert forall|k: int| !#[trigger] occurs_at(text@, needle@, k) by {}
            return false;
        }
        i += 1;
    }
    false
}

/// What `str::to_lowercase` makes of a text.
pub uninterp spec fn lowercased(text: Seq<char>) -> Seq<char>;

/// `str::to_lowercase`: the text with every character replaced by its lowercase form, as Unicode
/// defines it.
#[verifier::external_body]
pub(crate) fn lowercase(text: &str) -> (r: String)
    ensures
        r@ == lowercased(text@),
{
    text.to_lowercase()
}

/// The places at which `needle` occurs in one of `texts`.
pub open spec fn matching(texts: Seq<Seq<char>>, needle: Seq<char>) -> Seq<usize>
    decreases texts.len(),
{
    if texts.len() == 0 {
        Seq::<usize>::empty()
    } else {
        let before = matching(texts.drop_last(), needle);
        if contains_text(texts.last(), needle) {
            before.push((texts.len() - 1) as usize)
        } else {
            before
        }
    }
}

/// The places at which `needle` occurs in one of `texts`.
pub fn matching_places(paths: &Vec<String>, needle: &str) -> (r: Vec<usize>)
    ensures
        r@ == matching(texts(paths@), needle@),
        forall|k: int| 0 <= k < r.len() ==> #[trigger] r@[k] < paths.len(),
{
    let ghost all = texts(paths@);
    let wanted: Vec<char> = to_chars(needle);
    let mut r: Vec<usize> = Vec::new();
    let mut i: usize = 0;
    assert(all.take(0) =~= Seq::<Seq<char>>::empty());
    #[verifier::loop_isolation(false)]
    while i < paths.len()
        invariant
            i <= paths.len(),
            r@ == matching(all.take(i as int), needle@),
            forall|k: int| 0 <= k < r.len() ==> #[trigger] r@[k] < i,
        decreases paths.len() - i,
    {
        proof {
            assert(all.take(i + 1).drop_last() =~= all.take(i as int));
            assert(all.take(i + 1).last() == paths@[i as int]@);
        }
        if has_text(to_chars(paths[i].as_str()).as_slice(), wanted.as_slice()) {
            r.push(i);
        }
        i += 1;
    }
    assert(all.take(i as int) =~= all);
    r
}

/// The place that lies `dir` lines further, where the first line follows the last.
pub fn next_selectable(n: usize, current: usize, dir: i32) -> (r: usize)
    ensures
        r == if n == 0 {
            0
        } else {
            (current + dir) % (n as int)
        },
        n > 0 ==> r < n,
{
    if n == 0 {
        return 0;
    }
    let sum: i128 = current as i128 + dir as i128;
    let count: i128 = n as i128;
    if sum >= 0 {
        (sum % count) as usize
    } else {
        let back: i128 = (-sum) % count;
        let r: i128 = if back == 0 {
            0
        } else {
            count - back
        };
        proof {
            let turns = (-sum) / (count as int);
            lemma_fundamental_div_mod(-sum, count as int);
            let whole = if back == 0 {
                -turns
            } else {
                -turns - 1
            };
            assert(sum == whole * count + r) by (nonlinear_arith)
                requires
                    -sum == count * turns + back,
                    (back == 0 && whole == -turns && r == 0) || (back != 0 && whole == -turns - 1
                        && r == count - back),
            ;
            lemma_fundamental_div_mod_converse(sum as int, count as int, whole, r as int);
        }
        r as usize
    }
}

} // verus!
