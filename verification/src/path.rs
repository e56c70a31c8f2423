//! Virtual paths: how they are cleaned up, split and joined.
use vstd::prelude::*;
use vstd::utf8::{encode_utf8, encode_utf8_first_scalar};
use crate::error::StorageError;
use crate::text::{from_chars, lemma_encode_concat, push_chars, push_text, to_chars};

verus! {

/// Both slashes separate the components of a path.
pub open spec fn is_separator(c: char) -> bool {
    c == '/' || c == '\\'
}

/// The pieces of `s` between separators; `n` separators make `n + 1` pieces.
pub open spec fn split(s: Seq<char>) -> Seq<Seq<char>>
    decreases s.len(),
{
    if s.len() == 0 {
        seq![Seq::<char>::empty()]
    } else {
        let before = split(s.drop_last());
        if is_separator(s.last()) {
            before.push(Seq::<char>::empty())
        } else {
            before.drop_last().push(before.last().push(s.last()))
        }
    }
}

/// `parts` with a `/` between each two neighbours.
pub open spec fn joined(parts: Seq<Seq<char>>) -> Seq<char>
    decreases parts.len(),
{
    if parts.len() == 0 {
        Seq::<char>::empty()
    } else if parts.len() == 1 {
        parts[0]
    } else {
        joined(parts.drop_last()).push('/') + parts.last()
    }
}

/// Empty components and `.` add nothing to a path.
pub open spec fn is_skipped(part: Seq<char>) -> bool {
    part.len() == 0 || part == seq!['.']
}

/// The components of `parts` that add to a path, in order.
pub open spec fn kept(parts: Seq<Seq<char>>) -> Seq<Seq<char>>
    decreases parts.len(),
{
    if parts.len() == 0 {
        parts
    } else if is_skipped(parts.last()) {
        kept(parts.drop_last())
    } else {
        kept(parts.drop_last()).push(parts.last())
    }
}

/// Why `part` may not stand in a path.
pub open spec fn fault_in(part: Seq<char>) -> Option<StorageError> {
    if part == seq!['.', '.'] {
        Some(StorageError::ParentTraversal)
    } else if part.contains('\0') {
        Some(StorageError::NulByte)
    } else {
        None
    }
}

/// The fault of the first component in `parts` that has one.
pub open spec fn first_fault(parts: Seq<Seq<char>>) -> Option<StorageError>
    decreases parts.len(),
{
    if parts.len() == 0 {
        None
    } else {
        match first_fault(parts.drop_last()) {
            Some(fault) => Some(fault),
            None => fault_in(parts.last()),
        }
    }
}

/// `path` without empty and `.` components and with `/` as its only separator. The root becomes
/// the empty path.
pub open spec fn cleaned(path: Seq<char>) -> Result<Seq<char>, StorageError> {
    match first_fault(split(path)) {
        Some(fault) => Err(fault),
        None => Ok(joined(kept(split(path)))),
    }
}

/// The path under which an archive keeps what is called `path`.
pub open spec fn normalized(path: Seq<char>) -> Result<Seq<char>, StorageError> {
    match first_fault(split(path)) {
        Some(fault) => Err(fault),
        None => if kept(split(path)).len() == 0 {
            Err(StorageError::RootPath)
        } else {
            Ok(joined(kept(split(path))))
        },
    }
}

/// `name` can stand as one component of a path.
pub open spec fn is_name(name: Seq<char>) -> bool {
    &&& name.len() > 0
    &&& name != seq!['.']
    &&& name != seq!['.', '.']
    &&& forall|i: int|
        0 <= i < name.len() ==> name[i] != '/' && name[i] != '\\' && name[i] != '\0'
}

/// `path` is one or more names with `/` between them: the form in which an archive keeps paths.
pub open spec fn is_canonical(path: Seq<char>) -> bool {
    &&& !path.contains('\\')
    &&& forall|i: int| 0 <= i < split(path).len() ==> is_name(#[trigger] split(path)[i])
}

/// `path` is `directory` or lies somewhere below it.
pub open spec fn is_under(path: Seq<char>, directory: Seq<char>) -> bool {
    path == directory || directory.push('/').is_prefix_of(path)
}

/// Where `path`, which is `from` or lies below it, ends up when `from` becomes `to`.
pub open spec fn moved(path: Seq<char>, from: Seq<char>, to: Seq<char>) -> Seq<char> {
    to + path.skip(from.len() as int)
}

/// The path of `name` in the directory `parent`; the root is the empty path.
pub open spec fn child_path(parent: Seq<char>, name: Seq<char>) -> Seq<char> {
    if parent.len() == 0 {
        name
    } else {
        parent.push('/') + name
    }
}

/// A sequence of characters without separators.
pub open spec fn unseparated(s: Seq<char>) -> bool {
    forall|i: int| 0 <= i < s.len() ==> !is_separator(#[trigger] s[i])
}

pub proof fn lemma_split_pieces(s: Seq<char>)
    ensures
        split(s).len() > 0,
        forall|i: int| 0 <= i < split(s).len() ==> unseparated(#[trigger] split(s)[i]),
    decreases s.len(),
{
    if s.len() > 0 {
        lemma_split_pieces(s.drop_last());
        let before = split(s.drop_last());
        assert forall|i: int| 0 <= i < split(s).len() implies unseparated(
            #[trigger] split(s)[i],
        ) by {
            if i < before.len() {
                assert(unseparated(before[i]));
            }
        }
    }
}

/// Splitting around a separator splits both sides.
pub proof fn lemma_split_around(a: Seq<char>, c: char, b: Seq<char>)
    requires
        is_separator(c),
    ensures
        split(a.push(c) + b) == split(a) + split(b),
    decreases b.len(),
{
    lemma_split_pieces(a);
    lemma_split_pieces(b);
    let whole = a.push(c) + b;
    if b.len() == 0 {
        assert(whole =~= a.push(c));
        assert(whole.drop_last() =~= a);
        assert(split(whole) =~= split(a) + split(b));
    } else {
        lemma_split_around(a, c, b.drop_last());
        lemma_split_pieces(b.drop_last());
        assert(whole.drop_last() =~= a.push(c) + b.drop_last());
        assert(whole.last() == b.last());
        assert(split(whole) =~= split(a) + split(b));
    }
}

/// A piece without separators is not split.
pub proof fn lemma_split_single(s: Seq<char>)
    requires
        unseparated(s),
    ensures
        split(s) == seq![s],
    decreases s.len(),
{
    if s.len() > 0 {
        assert(unseparated(s.drop_last())) by {
            assert forall|i: int| 0 <= i < s.len() - 1 implies !is_separator(
                #[trigger] s.drop_last()[i],
            ) by {
                assert(s.drop_last()[i] == s[i]);
            }
        }
        lemma_split_single(s.drop_last());
        assert(!is_separator(s[s.len() - 1]));
        assert(s.drop_last().push(s.last()) =~= s);
        assert(split(s) =~= seq![s]);
    } else {
        assert(s =~= Seq::<char>::empty());
    }
}

/// Splitting undoes joining.
pub proof fn lemma_split_joined(parts: Seq<Seq<char>>)
    requires
        parts.len() > 0,
        forall|i: int| 0 <= i < parts.len() ==> unseparated(#[trigger] parts[i]),
    ensures
        split(joined(parts)) == parts,
    decreases parts.len(),
{
    if parts.len() == 1 {
        assert(unseparated(parts[0]));
        lemma_split_single(parts[0]);
        assert(seq![parts[0]] =~= parts);
    } else {
        let before = parts.drop_last();
        assert forall|i: int| 0 <= i < before.len() implies unseparated(#[trigger] before[i]) by {
            assert(unseparated(parts[i]));
        }
        lemma_split_joined(before);
        assert(unseparated(parts[parts.len() - 1]));
        lemma_split_single(parts.last());
        lemma_split_around(joined(before), '/', parts.last());
        assert(before + seq![parts.last()] =~= parts);
    }
}

/// Joining undoes splitting where `/` is the only separator.
pub proof fn lemma_joined_split(s: Seq<char>)
    requires
        !s.contains('\\'),
    ensures
        joined(split(s)) == s,
    decreases s.len(),
{
    if s.len() > 0 {
        let rest = s.drop_last();
        assert(!rest.contains('\\')) by {
            assert forall|i: int| 0 <= i < rest.len() implies rest[i] != '\\' by {
                assert(rest[i] == s[i]);
                assert(s.contains(s[i]));
            }
        }
        lemma_joined_split(rest);
        lemma_split_pieces(rest);
        assert(s.contains(s[s.len() - 1]));
        let before = split(rest);
        assert(rest.push(s.last()) =~= s);
        if is_separator(s.last()) {
            assert(split(s).drop_last() =~= before);
            assert(joined(split(s)) =~= s);
        } else {
            assert(split(s).drop_last() =~= before.drop_last());
            assert(split(s).last() == before.last().push(s.last()));
            if before.len() == 1 {
                assert(joined(split(s)) =~= s);
            } else {
                assert(joined(split(s)) =~= s);
            }
        }
    }
}

/// Without faults, what is kept are names.
pub proof fn lemma_kept_names(parts: Seq<Seq<char>>)
    requires
        first_fault(parts) is None,
        forall|i: int| 0 <= i < parts.len() ==> unseparated(#[trigger] parts[i]),
    ensures
        forall|i: int| 0 <= i < kept(parts).len() ==> is_name(#[trigger] kept(parts)[i]),
    decreases parts.len(),
{
    if parts.len() > 0 {
        let before = parts.drop_last();
        assert forall|i: int| 0 <= i < before.len() implies unseparated(#[trigger] before[i]) by {
            assert(unseparated(parts[i]));
        }
        lemma_kept_names(before);
        let last = parts.last();
        assert(unseparated(parts[parts.len() - 1]));
        if !is_skipped(last) {
            assert forall|i: int| 0 <= i < last.len() implies last[i] != '/' && last[i] != '\\'
                && last[i] != '\0' by {
                assert(!is_separator(last[i]));
                assert(last.contains(last[i]));
            }
            assert(is_name(last));
        }
        assert forall|i: int| 0 <= i < kept(parts).len() implies is_name(
            #[trigger] kept(parts)[i],
        ) by {
            if i < kept(before).len() {
                assert(is_name(kept(before)[i]));
            }
        }
    }
}

/// Names are all kept and have no fault.
pub proof fn lemma_names_kept(parts: Seq<Seq<char>>)
    requires
        forall|i: int| 0 <= i < parts.len() ==> is_name(#[trigger] parts[i]),
    ensures
        first_fault(parts) is None,
        kept(parts) == parts,
    decreases parts.len(),
{
    if parts.len() > 0 {
        let before = parts.drop_last();
        assert forall|i: int| 0 <= i < before.len() implies is_name(#[trigger] before[i]) by {
            assert(is_name(parts[i]));
        }
        lemma_names_kept(before);
        assert(is_name(parts[parts.len() - 1]));
        assert(kept(parts) =~= parts);
    }
}

/// A join of names is canonical.
pub proof fn lemma_joined_canonical(parts: Seq<Seq<char>>)
    requires
        parts.len() > 0,
        forall|i: int| 0 <= i < parts.len() ==> is_name(#[trigger] parts[i]),
    ensures
        is_canonical(joined(parts)),
        split(joined(parts)) == parts,
        joined(parts).len() > 0,
{
    lemma_names_unseparated(parts);
    lemma_split_joined(parts);
    lemma_joined_plain(parts);
}

proof fn lemma_names_unseparated(parts: Seq<Seq<char>>)
    requires
        forall|i: int| 0 <= i < parts.len() ==> is_name(#[trigger] parts[i]),
    ensures
        forall|i: int| 0 <= i < parts.len() ==> unseparated(#[trigger] parts[i]),
{
    assert forall|i: int| 0 <= i < parts.len() implies unseparated(#[trigger] parts[i]) by {
        assert(is_name(parts[i]));
    }
}

proof fn lemma_joined_plain(parts: Seq<Seq<char>>)
    requires
        forall|i: int| 0 <= i < parts.len() ==> is_name(#[trigger] parts[i]),
    ensures
        !joined(parts).contains('\\'),
        parts.len() > 0 ==> joined(parts).len() > 0,
    decreases parts.len(),
{
    if parts.len() > 0 {
        let before = parts.drop_last();
        assert forall|i: int| 0 <= i < before.len() implies is_name(#[trigger] before[i]) by {
            assert(is_name(parts[i]));
        }
        lemma_joined_plain(before);
        assert(is_name(parts[parts.len() - 1]));
        let j = joined(parts);
        assert forall|i: int| 0 <= i < j.len() implies j[i] != '\\' by {
            if parts.len() > 1 {
                let b = joined(before);
                if i < b.len() {
                    assert(b.contains(b[i]));
                } else if i > b.len() {
                    assert(j[i] == parts.last()[i - b.len() - 1]);
                }
            }
        }
    }
}

/// How many bytes some texts take, with one more for each.
spec fn bytes_in(parts: Seq<Seq<char>>) -> nat
    decreases parts.len(),
{
    if parts.len() == 0 {
        0
    } else {
        bytes_in(parts.drop_last()) + encode_utf8(parts.last()).len() + 1
    }
}

proof fn lemma_one_byte(s: Seq<char>, c: char)
    requires
        c == '/' || c == '\\',
    ensures
        encode_utf8(s.push(c)).len() == encode_utf8(s).len() + 1,
{
    lemma_encode_concat(s, seq![c]);
    assert(s + seq![c] =~= s.push(c));
    assert(seq![c].drop_first().len() == 0);
    encode_utf8_first_scalar(seq![c]);
    assert(encode_utf8(seq![c].drop_first()).len() == 0);
}

proof fn lemma_bytes_in_split(s: Seq<char>)
    ensures
        bytes_in(split(s)) == encode_utf8(s).len() + 1,
    decreases s.len(),
{
    lemma_split_pieces(s);
    if s.len() == 0 {
        assert(bytes_in(split(s).drop_last()) == 0);
        assert(encode_utf8(split(s).last()).len() == 0);
    } else {
        let less = s.drop_last();
        lemma_bytes_in_split(less);
        lemma_split_pieces(less);
        let before = split(less);
        assert(less.push(s.last()) =~= s);
        if is_separator(s.last()) {
            lemma_one_byte(less, s.last());
            assert(split(s).drop_last() =~= before);
            assert(encode_utf8(Seq::<char>::empty()).len() == 0);
        } else {
            let last = before.last();
            assert(split(s).drop_last() =~= before.drop_last());
            assert(last + seq![s.last()] =~= last.push(s.last()));
            assert(less + seq![s.last()] =~= s);
            lemma_encode_concat(last, seq![s.last()]);
            lemma_encode_concat(less, seq![s.last()]);
        }
    }
}

proof fn lemma_bytes_in_kept(parts: Seq<Seq<char>>)
    ensures
        bytes_in(kept(parts)) <= bytes_in(parts),
    decreases parts.len(),
{
    if parts.len() > 0 {
        lemma_bytes_in_kept(parts.drop_last());
        let before = kept(parts.drop_last());
        if !is_skipped(parts.last()) {
            assert(before.push(parts.last()).drop_last() =~= before);
        }
    }
}

proof fn lemma_bytes_in_joined(parts: Seq<Seq<char>>)
    requires
        parts.len() > 0,
    ensures
        encode_utf8(joined(parts)).len() + 1 == bytes_in(parts),
    decreases parts.len(),
{
    if parts.len() == 1 {
        assert(bytes_in(parts.drop_last()) == 0);
    } else {
        let before = parts.drop_last();
        lemma_bytes_in_joined(before);
        lemma_encode_concat(joined(before).push('/'), parts.last());
        lemma_one_byte(joined(before), '/');
    }
}

/// A path does not take more bytes in the form in which an archive keeps it.
pub proof fn law_normalizing_never_lengthens(path: Seq<char>)
    ensures
        normalized(path) matches Ok(p) ==> encode_utf8(p).len() <= encode_utf8(path).len(),
{
    if normalized(path) is Ok {
        lemma_bytes_in_split(path);
        lemma_bytes_in_kept(split(path));
        lemma_bytes_in_joined(kept(split(path)));
    }
}

/// What normalization yields is canonical.
pub proof fn law_normalized_is_canonical(path: Seq<char>)
    ensures
        normalized(path) matches Ok(p) ==> is_canonical(p) && p.len() > 0,
{
    if normalized(path) is Ok {
        lemma_split_pieces(path);
        lemma_kept_names(split(path));
        lemma_joined_canonical(kept(split(path)));
    }
}

/// Canonical paths, and no others, are left as they are.
pub proof fn law_canonical_is_fixed(path: Seq<char>)
    ensures
        is_canonical(path) <==> normalized(path) == Ok::<Seq<char>, StorageError>(path),
{
    if is_canonical(path) {
        lemma_split_pieces(path);
        lemma_names_kept(split(path));
        lemma_joined_split(path);
    }
    law_normalized_is_canonical(path);
}

/// Normalizing twice is normalizing once.
pub proof fn law_normalize_idempotent(path: Seq<char>)
    ensures
        normalized(path) matches Ok(p) ==> normalized(p) == Ok::<Seq<char>, StorageError>(p),
{
    law_normalized_is_canonical(path);
    if let Ok(p) = normalized(path) {
        law_canonical_is_fixed(p);
    }
}

/// A canonical path is not empty.
pub proof fn lemma_canonical_nonempty(path: Seq<char>)
    requires
        is_canonical(path),
    ensures
        path.len() > 0,
{
    if path.len() == 0 {
        assert(split(path)[0] == Seq::<char>::empty());
        assert(is_name(split(path)[0]));
    }
}

/// A name in a directory has a canonical path.
pub proof fn lemma_child_canonical(parent: Seq<char>, name: Seq<char>)
    requires
        parent.len() == 0 || is_canonical(parent),
        is_name(name),
    ensures
        is_canonical(child_path(parent, name)),
        parent.len() == 0 ==> split(child_path(parent, name)) == seq![name],
        parent.len() > 0 ==> split(child_path(parent, name)) == split(parent).push(name),
{
    assert(unseparated(name));
    lemma_split_single(name);
    let p = child_path(parent, name);
    assert forall|i: int| 0 <= i < p.len() implies p[i] != '\\' by {
        if parent.len() > 0 {
            if i < parent.len() {
                assert(parent.contains(parent[i]));
            } else if i > parent.len() {
                assert(p[i] == name[i - parent.len() - 1]);
            }
        }
    }
    if parent.len() > 0 {
        lemma_split_around(parent, '/', name);
        assert(split(p) =~= split(parent).push(name));
    }
    assert forall|i: int| 0 <= i < split(p).len() implies is_name(#[trigger] split(p)[i]) by {
        if parent.len() > 0 && i < split(parent).len() {
            assert(is_name(split(parent)[i]));
        }
    }
}

/// Moving there and back leaves a path as it was.
pub proof fn law_moved_back(path: Seq<char>, from: Seq<char>, to: Seq<char>)
    requires
        is_under(path, from),
    ensures
        is_under(moved(path, from, to), to),
        moved(moved(path, from, to), to, from) == path,
        from.len() <= path.len(),
{
    let target = moved(path, from, to);
    let rest = path.skip(from.len() as int);
    if path == from {
        assert(target =~= to);
    } else {
        assert(from.push('/').is_prefix_of(path));
        assert forall|i: int| 0 <= i <= from.len() implies from.push('/')[i] == path[i] by {
            assert(from.push('/')[i] == path.subrange(0, from.len() as int + 1)[i]);
        }
        assert(target[to.len() as int] == path[from.len() as int]);
        assert(to.push('/') =~= target.subrange(0, to.len() as int + 1));
    }
    assert(target.skip(to.len() as int) =~= rest);
    assert(from + rest =~= path);
}

/// What lies below a moved path keeps a canonical path.
pub proof fn law_moved_canonical(path: Seq<char>, from: Seq<char>, to: Seq<char>)
    requires
        is_canonical(path),
        is_canonical(to),
        is_under(path, from),
    ensures
        is_canonical(moved(path, from, to)),
{
    let target = moved(path, from, to);
    law_moved_back(path, from, to);
    if path == from {
        assert(target =~= to);
    } else {
        let below = path.skip(from.len() as int + 1);
        assert(path =~= from.push('/') + below);
        lemma_split_around(from, '/', below);
        assert(target =~= to.push('/') + below);
        lemma_split_around(to, '/', below);
        assert forall|i: int| 0 <= i < target.len() implies target[i] != '\\' by {
            if i < to.len() {
                assert(to.contains(to[i]));
            } else if i > to.len() {
                assert(target[i] == path[from.len() + i - to.len()]);
                assert(path.contains(path[from.len() + i - to.len()]));
            }
        }
        assert forall|i: int| 0 <= i < split(target).len() implies is_name(
            #[trigger] split(target)[i],
        ) by {
            if i < split(to).len() {
                assert(is_name(split(to)[i]));
            } else {
                let k = i - split(to).len();
                assert(split(path)[split(from).len() + k] == split(below)[k]);
                assert(is_name(split(path)[split(from).len() + k]));
            }
        }
    }
}

/// The first fault of a sequence is the first fault of any longer one.
proof fn lemma_fault_persists(a: Seq<Seq<char>>, b: Seq<Seq<char>>)
    requires
        first_fault(a) is Some,
    ensures
        first_fault(a + b) == first_fault(a),
    decreases b.len(),
{
    if b.len() == 0 {
        assert(a + b =~= a);
    } else {
        lemma_fault_persists(a, b.drop_last());
        assert((a + b).drop_last() =~= a + b.drop_last());
    }
}

/// Adds one component to a path that is being built.
fn add_component(out: &mut Vec<char>, part: &[char]) -> (r: Result<(), StorageError>)
    ensures
        match fault_in(part@) {
            Some(fault) => r == Err::<(), StorageError>(fault),
            None => r is Ok && final(out)@ == if is_skipped(part@) {
                old(out)@
            } else {
                child_path(old(out)@, part@)
            },
        },
{
    let n: usize = part.len();
    if n == 0 || (n == 1 && part[0] == '.') {
        assert(n == 1 ==> part@ =~= seq!['.']);
        assert(part@ != seq!['.', '.']);
        assert(!part@.contains('\0'));
        return Ok(());
    }
    assert(!is_skipped(part@));
    if n == 2 && part[0] == '.' && part[1] == '.' {
        assert(part@ =~= seq!['.', '.']);
        return Err(StorageError::ParentTraversal);
    }
    assert(part@ != seq!['.', '.']);
    let mut i: usize = 0;
    while i < n
        invariant
            n == part.len(),
            i <= n,
            part@ != seq!['.', '.'],
            forall|k: int| 0 <= k < i ==> part@[k] != '\0',
        decreases n - i,
    {
        if part[i] == '\0' {
            assert(part@.contains(part@[i as int]));
            return Err(StorageError::NulByte);
        }
        i += 1;
    }
    let ghost before = out@;
    if out.len() > 0 {
        out.push('/');
    }
    out.extend_from_slice(part);
    assert(out@ =~= child_path(before, part@));
    Ok(())
}

/// Cleans up a path; the root becomes the empty path.
pub fn clean_path(path: &[char]) -> (r: Result<Vec<char>, StorageError>)
    ensures
        match cleaned(path@) {
            Ok(p) => r matches Ok(v) && v@ == p,
            Err(error) => r == Err::<Vec<char>, StorageError>(error),
        },
        r matches Ok(v) ==> (v@.len() == 0 <==> kept(split(path@)).len() == 0),
{
    let n: usize = path.len();
    let mut out: Vec<char> = Vec::new();
    let mut start: usize = 0;
    let mut i: usize = 0;
    proof {
        assert(path@.take(0) =~= Seq::<char>::empty());
        assert(split(path@.take(0)).drop_last() =~= Seq::<Seq<char>>::empty());
        assert(path@.subrange(0, 0) =~= Seq::<char>::empty());
    }
    #[verifier::loop_isolation(false)]
    while i < n
        invariant
            start <= i <= n,
            n == path.len(),
            ({
                let parts = split(path@.take(i as int));
                &&& parts.len() > 0
                &&& first_fault(parts.drop_last()) is None
                &&& out@ == joined(kept(parts.drop_last()))
                &&& out@.len() == 0 <==> kept(parts.drop_last()).len() == 0
                &&& parts.last() == path@.subrange(start as int, i as int)
            }),
        decreases n - i,
    {
        let ghost parts = split(path@.take(i as int));
        proof {
            assert(path@.take(i + 1).drop_last() =~= path@.take(i as int));
            assert(path@.take(i + 1).last() == path@[i as int]);
        }
        if path[i] == '/' || path[i] == '\\' {
            let part = vstd::slice::slice_subrange(path, start, i);
            proof {
                lemma_split_around(path@.take(i as int), path@[i as int], path@.skip(i + 1));
                assert(path@.take(i as int).push(path@[i as int]) + path@.skip(i + 1) =~= path@);
                assert(split(path@.take(i + 1)).drop_last() =~= parts);
            }
            match add_component(&mut out, part) {
                Ok(()) => {
                    proof {
                        lemma_join_step(parts);
                    }
                },
                Err(error) => {
                    proof {
                        lemma_fault_persists(parts, split(path@.skip(i + 1)));
                    }
                    return Err(error);
                },
            }
            start = i + 1;
            assert(path@.subrange(start as int, i + 1) =~= Seq::<char>::empty());
        } else {
            proof {
                assert(split(path@.take(i + 1)).drop_last() =~= parts.drop_last());
                assert(path@.subrange(start as int, i + 1) =~= path@.subrange(
                    start as int,
                    i as int,
                ).push(path@[i as int]));
            }
        }
        i += 1;
    }
    let ghost parts = split(path@);
    assert(path@.take(n as int) =~= path@);
    let part = vstd::slice::slice_subrange(path, start, n);
    match add_component(&mut out, part) {
        Ok(()) => {
            proof {
                lemma_join_step(parts);
            }
        },
        Err(error) => {
            return Err(error);
        },
    }
    Ok(out)
}

/// How the join of what is kept grows with one more component.
proof fn lemma_join_step(parts: Seq<Seq<char>>)
    requires
        parts.len() > 0,
        joined(kept(parts.drop_last())).len() == 0 <==> kept(parts.drop_last()).len() == 0,
    ensures
        joined(kept(parts)) == if is_skipped(parts.last()) {
            joined(kept(parts.drop_last()))
        } else {
            child_path(joined(kept(parts.drop_last())), parts.last())
        },
        joined(kept(parts)).len() == 0 <==> kept(parts).len() == 0,
{
    if !is_skipped(parts.last()) {
        let before = kept(parts.drop_last());
        assert(kept(parts).drop_last() =~= before);
    }
}

/// The path of the directory in which `path` lies; the empty path for what lies in the root.
pub open spec fn parent_of(path: Seq<char>) -> Seq<char> {
    joined(split(path).drop_last())
}

/// The last component of a path.
pub open spec fn name_of(path: Seq<char>) -> Seq<char> {
    split(path).last()
}

/// A canonical path is its directory's path with its name behind it.
pub proof fn lemma_parent_and_name(path: Seq<char>)
    requires
        is_canonical(path),
    ensures
        is_name(name_of(path)),
        parent_of(path).len() == 0 || is_canonical(parent_of(path)),
        parent_of(path).len() == 0 <==> split(path).len() == 1,
        parent_of(path).len() > 0 ==> split(parent_of(path)) == split(path).drop_last(),
        path == child_path(parent_of(path), name_of(path)),
        parent_of(path).len() < path.len(),
{
    let parts = split(path);
    lemma_split_pieces(path);
    lemma_joined_split(path);
    assert(is_name(parts[parts.len() - 1]));
    let above = parts.drop_last();
    assert forall|i: int| 0 <= i < above.len() implies is_name(#[trigger] above[i]) by {
        assert(is_name(parts[i]));
    }
    if above.len() > 0 {
        lemma_joined_canonical(above);
    }
}

/// What lies below a path begins with the components of that path.
pub proof fn lemma_under_parts(path: Seq<char>, top: Seq<char>)
    requires
        is_canonical(path),
        is_canonical(top),
    ensures
        is_under(path, top) <==> split(top).len() <= split(path).len() && split(path).take(
            split(top).len() as int,
        ) == split(top),
        is_under(path, top) ==> top == joined(split(path).take(split(top).len() as int)),
{
    let parts = split(path);
    let above = split(top);
    lemma_joined_split(path);
    lemma_joined_split(top);
    lemma_split_pieces(path);
    lemma_split_pieces(top);
    if is_under(path, top) && path != top {
        let rest = path.skip(top.len() as int + 1);
        assert(top.push('/').is_prefix_of(path));
        assert(path =~= top.push('/') + rest);
        lemma_split_around(top, '/', rest);
        assert(parts.take(above.len() as int) =~= above);
    }
    if path == top {
        assert(parts.take(above.len() as int) =~= above);
    }
    if above.len() <= parts.len() && parts.take(above.len() as int) == above {
        if above.len() == parts.len() {
            assert(parts.take(above.len() as int) =~= parts);
        } else {
            let rest = parts.skip(above.len() as int);
            assert forall|i: int| 0 <= i < rest.len() implies is_name(#[trigger] rest[i]) by {
                assert(is_name(parts[above.len() + i]));
            }
            lemma_joined_canonical(rest);
            lemma_split_around(top, '/', joined(rest));
            assert(above + rest =~= parts);
            let whole = top.push('/') + joined(rest);
            assert(!whole.contains('\\')) by {
                assert forall|i: int| 0 <= i < whole.len() implies whole[i] != '\\' by {
                    if i < top.len() {
                        assert(top.contains(top[i]));
                    } else if i > top.len() {
                        assert(joined(rest).contains(joined(rest)[i - top.len() - 1]));
                    }
                }
            }
            lemma_joined_split(whole);
            assert(whole == path);
            assert(top.push('/') =~= path.subrange(0, top.len() as int + 1));
        }
    }
}

/// The components of a path.
pub fn components(path: &[char]) -> (r: Vec<Vec<char>>)
    ensures
        r@.map_values(|part: Vec<char>| part@) == split(path@),
        r.len() > 0,
{
    let n: usize = path.len();
    let mut r: Vec<Vec<char>> = Vec::new();
    let mut part: Vec<char> = Vec::new();
    let mut i: usize = 0;
    assert(path@.take(0) =~= Seq::<char>::empty());
    assert(r@.map_values(|part: Vec<char>| part@).push(part@) =~= split(path@.take(0)));
    #[verifier::loop_isolation(false)]
    while i < n
        invariant
            i <= n,
            r@.map_values(|part: Vec<char>| part@).push(part@) == split(path@.take(i as int)),
        decreases n - i,
    {
        let ghost done = r@.map_values(|part: Vec<char>| part@);
        proof {
            assert(path@.take(i + 1).drop_last() =~= path@.take(i as int));
            assert(path@.take(i + 1).last() == path@[i as int]);
            assert(done.push(part@).drop_last() =~= done);
        }
        if path[i] == '/' || path[i] == '\\' {
            let ghost last = part@;
            r.push(part);
            part = Vec::new();
            assert(r@.map_values(|part: Vec<char>| part@) =~= done.push(last));
            assert(part@ =~= Seq::<char>::empty());
        } else {
            part.push(path[i]);
        }
        i += 1;
    }
    let ghost done = r@.map_values(|part: Vec<char>| part@);
    let ghost last = part@;
    r.push(part);
    assert(path@.take(n as int) =~= path@);
    assert(r@.map_values(|part: Vec<char>| part@) =~= done.push(last));
    r
}

/// Whether `path` is `directory` or lies below it.
pub fn lies_under(path: &[char], directory: &[char]) -> (r: bool)
    ensures
        r == is_under(path@, directory@),
{
    let n: usize = directory.len();
    let ghost prefix = directory@.push('/');
    if path.len() < n {
        proof {
            if prefix.is_prefix_of(path@) {
                assert(prefix.len() <= path@.len());
            }
        }
        return false;
    }
    let mut i: usize = 0;
    while i < n
        invariant
            i <= n <= path.len(),
            n == directory.len(),
            prefix == directory@.push('/'),
            forall|k: int| 0 <= k < i ==> path@[k] == directory@[k],
        decreases n - i,
    {
        if path[i] != directory[i] {
            proof {
                if prefix.is_prefix_of(path@) {
                    assert(prefix[i as int] == path@.subrange(0, n + 1)[i as int]);
                }
            }
            return false;
        }
        i += 1;
    }
    if path.len() == n {
        assert(path@ =~= directory@);
        return true;
    }
    let below: bool = path[n] == '/';
    proof {
        if below {
            assert(prefix =~= path@.subrange(0, n + 1));
        } else if prefix.is_prefix_of(path@) {
            assert(prefix[n as int] == path@.subrange(0, n + 1)[n as int]);
        }
    }
    below
}

/// Where `path`, which is `from` or lies below it, ends up when `from` becomes `to`.
pub fn moved_path(path: &str, from: &str, to: &str) -> (r: String)
    requires
        is_under(path@, from@),
    ensures
        r@ == moved(path@, from@, to@),
{
    proof {
        law_moved_back(path@, from@, to@);
    }
    let chars: Vec<char> = to_chars(path);
    let skipped: usize = to_chars(from).len();
    let mut r: String = String::new();
    push_text(&mut r, to);
    push_chars(&mut r, vstd::slice::slice_subrange(chars.as_slice(), skipped, chars.len()));
    assert(r@ =~= moved(path@, from@, to@));
    r
}

/// Turns a path into the form under which an archive keeps it: components separated by single
/// slashes, with neither `.` nor `..` nor NUL among them.
pub fn normalize_virtual_path(path: &str) -> (r: Result<String, StorageError>)
    ensures
        match normalized(path@) {
            Ok(p) => r matches Ok(s) && s@ == p,
            Err(error) => r == Err::<String, StorageError>(error),
        },
        r matches Ok(s) ==> is_canonical(s@),
{
    let chars: Vec<char> = to_chars(path);
    proof {
        law_normalized_is_canonical(path@);
    }
    match clean_path(chars.as_slice()) {
        Ok(out) => {
            if out.len() == 0 {
                return Err(StorageError::RootPath);
            }
            Ok(from_chars(out.as_slice()))
        },
        Err(error) => Err(error),
    }
}

} // verus!
