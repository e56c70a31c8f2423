//! What an archive owes to each call: when it succeeds, what it records, and what its file looks
//! like.
use vstd::prelude::*;
use vstd::set_lib::{lemma_len_subset, lemma_set_disjoint_lens};
use vstd::utf8::*;
use crate::bytes::{law_le_round_trip, le_bytes, le_value, lemma_byte_range, lemma_le_bytes_len,
    lemma_le_value_bound, to_signed, to_unsigned};
use crate::entry::{fresh, kind_byte, kind_from, EntryKind, EntryView, Meta};
use crate::errno::{errno_of_kind, Errno};
use crate::error::{kind_of, message_text, ErrorKind, StorageError};
use crate::file::{decoded_header, header_bytes, lemma_locator_len, Header, OpView};
use crate::index::{decoded_entries, decoded_entry, decoded_fields, decoded_index, decoded_legacy,
    decoded_legacy_entry, entry_bytes, index_bytes, legacy_meta, lemma_field_bytes, listing_of,
    range_fault};
use crate::path::{cleaned, first_fault, is_canonical, is_under, joined, kept,
    law_canonical_is_fixed, law_moved_back, lemma_canonical_nonempty, lemma_split_around,
    lemma_split_single, moved, normalized, split, unseparated};
use crate::number::decimal;
use crate::storage::{all_fit, file_written, flush_ops, flushed_view, is_due, is_outcome, is_plan,
    located, marked, moved_entries, opened, recorded, removed, renamed, tree, upserted,
    with_metadata, without_tree, Extent, MossView, Pending};
use crate::time::Timestamp;

verus! {

proof fn lemma_kept_concat(a: Seq<Seq<char>>, b: Seq<Seq<char>>)
    ensures
        kept(a + b) == kept(a) + kept(b),
        first_fault(a + b) == match first_fault(a) {
            Some(fault) => Some(fault),
            None => first_fault(b),
        },
    decreases b.len(),
{
    if b.len() == 0 {
        assert(a + b =~= a);
        assert(kept(a) + kept(b) =~= kept(a));
    } else {
        lemma_kept_concat(a, b.drop_last());
        assert((a + b).drop_last() =~= a + b.drop_last());
        assert(kept(a + b) =~= kept(a) + kept(b));
    }
}

proof fn lemma_kept_nonempty(parts: Seq<Seq<char>>)
    ensures
        forall|i: int| 0 <= i < kept(parts).len() ==> (#[trigger] kept(parts)[i]).len() > 0,
    decreases parts.len(),
{
    if parts.len() > 0 {
        let less = kept(parts.drop_last());
        lemma_kept_nonempty(parts.drop_last());
        assert forall|i: int| 0 <= i < kept(parts).len() implies (
        #[trigger] kept(parts)[i]).len() > 0 by {
            if i < less.len() {
                assert(kept(parts)[i] == less[i]);
            }
        }
    }
}

proof fn lemma_joined_concat(a: Seq<Seq<char>>, b: Seq<Seq<char>>)
    requires
        a.len() > 0,
        b.len() > 0,
    ensures
        joined(a + b) == joined(a) + seq!['/'] + joined(b),
    decreases b.len(),
{
    let all = a + b;
    assert(all.drop_last() =~= a + b.drop_last());
    assert(all.last() == b.last());
    if b.len() == 1 {
        assert(all.drop_last() =~= a);
        assert(joined(all) =~= joined(a) + seq!['/'] + joined(b));
    } else {
        lemma_joined_concat(a, b.drop_last());
        assert(joined(all) =~= joined(a) + seq!['/'] + joined(b));
    }
}

proof fn lemma_joined_empty(parts: Seq<Seq<char>>)
    requires
        forall|i: int| 0 <= i < parts.len() ==> (#[trigger] parts[i]).len() > 0,
    ensures
        joined(parts).len() == 0 <==> parts.len() == 0,
{
    if parts.len() > 1 {
        assert(parts[parts.len() - 1].len() > 0);
    } else if parts.len() == 1 {
        assert(parts[0].len() > 0);
    }
}

/// One component of a path stands for itself. An empty one and `.` add nothing, `..` is refused, and
/// so is a NUL.
pub proof fn law_clean_component(part: Seq<char>)
    requires
        forall|i: int| 0 <= i < part.len() ==> part[i] != '/' && part[i] != '\\',
    ensures
        part.len() == 0 || part == seq!['.'] ==> cleaned(part) == Ok::<Seq<char>, StorageError>(
            Seq::<char>::empty(),
        ),
        part == seq!['.', '.'] ==> cleaned(part) == Err::<Seq<char>, StorageError>(
            StorageError::ParentTraversal,
        ),
        part.contains('\0') ==> cleaned(part) == Err::<Seq<char>, StorageError>(
            StorageError::NulByte,
        ),
        part.len() > 0 && part != seq!['.'] && part != seq!['.', '.'] && !part.contains('\0')
            ==> cleaned(part) == Ok::<Seq<char>, StorageError>(part),
{
    assert(unseparated(part));
    lemma_split_single(part);
    let parts = seq![part];
    reveal_with_fuel(first_fault, 2);
    reveal_with_fuel(kept, 2);
    assert(parts.drop_last() =~= Seq::<Seq<char>>::empty());
    assert(kept(Seq::<Seq<char>>::empty()).push(part) =~= seq![part]);
    if part == seq!['.', '.'] {
        assert(part[0] == '.' && part[1] == '.');
        assert(!part.contains('\0'));
    }
    if part == seq!['.'] {
        assert(part[0] == '.');
        assert(!part.contains('\0'));
        assert(part.len() == 1);
    }
    if part.len() == 0 {
        assert(!part.contains('\0'));
        assert(part != seq!['.', '.']) by {
            assert(seq!['.', '.'].len() == 2);
        }
    }
    assert(seq!['.', '.'].len() == 2);
    assert(seq!['.'].len() == 1);
}

/// A path made of two with a slash or backslash between them is cleaned piece by piece; the two
/// cleaned pieces are joined by one slash. The first fault counts.
pub proof fn law_clean_concat(a: Seq<char>, separator: char, b: Seq<char>)
    requires
        separator == '/' || separator == '\\',
    ensures
        cleaned(a.push(separator) + b) == match (cleaned(a), cleaned(b)) {
            (Err(error), _) => Err::<Seq<char>, StorageError>(error),
            (_, Err(error)) => Err::<Seq<char>, StorageError>(error),
            (Ok(x), Ok(y)) => Ok::<Seq<char>, StorageError>(
                if x.len() == 0 {
                    y
                } else if y.len() == 0 {
                    x
                } else {
                    x + seq!['/'] + y
                },
            ),
        },
{
    let p = split(a);
    let q = split(b);
    lemma_split_around(a, separator, b);
    lemma_kept_concat(p, q);
    lemma_kept_nonempty(p);
    lemma_kept_nonempty(q);
    lemma_joined_empty(kept(p));
    lemma_joined_empty(kept(q));
    if kept(p).len() == 0 {
        assert(kept(p) + kept(q) =~= kept(q));
    } else if kept(q).len() == 0 {
        assert(kept(p) + kept(q) =~= kept(p));
    } else {
        lemma_joined_concat(kept(p), kept(q));
    }
}

/// The path of an entry is the cleaned path; the root is no entry.
pub proof fn law_normalized_is_cleaned(path: Seq<char>)
    ensures
        normalized(path) == match cleaned(path) {
            Err(error) => Err::<Seq<char>, StorageError>(error),
            Ok(p) => if p.len() == 0 {
                Err::<Seq<char>, StorageError>(StorageError::RootPath)
            } else {
                Ok::<Seq<char>, StorageError>(p)
            },
        },
{
    lemma_kept_nonempty(split(path));
    lemma_joined_empty(kept(split(path)));
}

/// A path lies under a directory when it is the directory, or goes on behind it with a slash.
pub proof fn law_under(path: Seq<char>, directory: Seq<char>, rest: Seq<char>)
    ensures
        is_under(directory, directory),
        is_under(directory + seq!['/'] + rest, directory),
        is_under(path, directory) && path != directory ==> path == directory + seq!['/']
            + path.skip(directory.len() as int + 1),
        moved(directory + rest, directory, path) == path + rest,
{
    let below = directory + seq!['/'] + rest;
    assert(directory.push('/') =~= below.subrange(0, directory.len() as int + 1));
    assert((directory + rest).skip(directory.len() as int) =~= rest);
    if is_under(path, directory) && path != directory {
        let start = directory.push('/');
        assert(start =~= path.subrange(0, start.len() as int));
        assert(path =~= start + path.skip(start.len() as int));
        assert(path =~= directory + seq!['/'] + path.skip(directory.len() as int + 1));
    }
}

/// Data is written under every proper path that is no directory's: at the end of the file, which
/// grows by just the data. A file that is there keeps its mode, owner and time of access; a new one
/// gets mode 644, the given owner and the present time.
pub proof fn law_write_records(
    entries: Map<Seq<char>, Meta>,
    virtual_path: Seq<char>,
    data: Seq<u8>,
    end: u64,
    uid: u32,
    gid: u32,
    now: Timestamp,
)
    requires
        data.len() <= u64::MAX,
    ensures
        ({
            let outcome = file_written(entries, virtual_path, data, end, uid, gid, now);
            match normalized(virtual_path) {
                Err(error) => outcome == Err::<(EntryView, Seq<OpView>), StorageError>(error),
                Ok(path) => if entries.contains_key(path) && entries[path].kind
                    == EntryKind::Directory {
                    outcome == Err::<(EntryView, Seq<OpView>), StorageError>(
                        StorageError::ReplaceDirectory,
                    )
                } else {
                    &&& outcome matches Ok((entry, steps))
                    &&& steps == seq![OpView::Append(data)]
                    &&& entry.path == path
                    &&& entry.meta.kind == EntryKind::File
                    &&& entry.meta.start_byte == end && entry.meta.block_length == data.len()
                    &&& entry.meta.mtime == now && entry.meta.ctime == now
                    &&& entries.contains_key(path) ==> entry.meta.mode == entries[path].mode
                        && entry.meta.uid == entries[path].uid && entry.meta.gid
                        == entries[path].gid && entry.meta.atime == entries[path].atime
                    &&& !entries.contains_key(path) ==> entry.meta.mode == 0o644 && entry.meta.uid
                        == uid && entry.meta.gid == gid && entry.meta.atime == now
                },
            }
        }),
{
}

/// An entry is recorded with the attributes that it comes with. A directory has no payload. Data
/// goes to the end of the file; without data a file keeps the payload that its path had, and a new
/// one has none.
pub proof fn law_upsert_records(
    entries: Map<Seq<char>, Meta>,
    entry: EntryView,
    data: Option<Seq<u8>>,
    end: u64,
)
    requires
        data matches Some(bytes) ==> bytes.len() <= u64::MAX,
    ensures
        ({
            let outcome = upserted(entries, entry, data, end);
            let is_dir = entry.meta.kind == EntryKind::Directory;
            match normalized(entry.path) {
                Err(error) => outcome == Err::<(EntryView, Seq<OpView>), StorageError>(error),
                Ok(path) => if !is_dir && data is None && !entries.contains_key(path)
                    && entry.meta.block_length != 0 {
                    outcome == Err::<(EntryView, Seq<OpView>), StorageError>(
                        StorageError::MissingPayload,
                    )
                } else {
                    &&& outcome matches Ok((stored, steps))
                    &&& stored.path == path
                    &&& stored.meta.kind == entry.meta.kind && stored.meta.mode == entry.meta.mode
                    &&& stored.meta.uid == entry.meta.uid && stored.meta.gid == entry.meta.gid
                    &&& stored.meta.atime == entry.meta.atime && stored.meta.mtime
                        == entry.meta.mtime && stored.meta.ctime == entry.meta.ctime
                    &&& is_dir ==> stored.meta.start_byte == 0 && stored.meta.block_length == 0
                        && steps.len() == 0
                    &&& !is_dir && data is Some ==> stored.meta.start_byte == end
                        && stored.meta.block_length == data->0.len() && steps
                        == seq![OpView::Append(data->0)]
                    &&& !is_dir && data is None ==> steps.len() == 0
                    &&& !is_dir && data is None && entries.contains_key(path)
                        ==> stored.meta.start_byte == entries[path].start_byte
                        && stored.meta.block_length == entries[path].block_length
                    &&& !is_dir && data is None && !entries.contains_key(path)
                        ==> stored.meta.block_length == 0 && stored.meta.start_byte
                        == entry.meta.start_byte
                },
            }
        }),
{
}

/// Attributes can be changed of every entry, and of nothing else. Those that are given are set, the
/// others stay, and the time of change is new.
pub proof fn law_metadata_succeeds(
    view: MossView,
    virtual_path: Seq<char>,
    mode: Option<u16>,
    atime: Option<Timestamp>,
    mtime: Option<Timestamp>,
    now: Timestamp,
)
    ensures
        ({
            let outcome = with_metadata(view, virtual_path, mode, atime, mtime, now);
            match normalized(virtual_path) {
                Err(error) => outcome == Err::<MossView, StorageError>(error),
                Ok(path) => if view.entries.contains_key(path) {
                    &&& outcome matches Ok(after)
                    &&& after.dirty && after.index_pointer == view.index_pointer
                    &&& after.mutations == marked(view).mutations
                    &&& after.entries == view.entries.insert(
                        path,
                        Meta {
                            mode: mode.unwrap_or(view.entries[path].mode),
                            atime: atime.unwrap_or(view.entries[path].atime),
                            mtime: mtime.unwrap_or(view.entries[path].mtime),
                            ctime: now,
                            ..view.entries[path]
                        },
                    )
                } else {
                    outcome == Err::<MossView, StorageError>(StorageError::NotFound)
                },
            }
        }),
{
}

/// A file or link is read from where its entry says, all of it. A directory is not read, nor what is
/// not there.
pub proof fn law_read_finds_payload(entries: Map<Seq<char>, Meta>, path: Seq<char>)
    ensures
        ({
            let outcome = located(entries, path);
            let meta = entries[path];
            &&& !entries.contains_key(path) ==> outcome == Err::<Extent, StorageError>(
                StorageError::NotFound,
            )
            &&& entries.contains_key(path) && meta.kind == EntryKind::Directory ==> outcome
                == Err::<Extent, StorageError>(StorageError::ReadDirectory)
            &&& entries.contains_key(path) && meta.kind != EntryKind::Directory && meta.block_length
                <= usize::MAX ==> {
                &&& outcome matches Ok(extent)
                &&& extent.start == meta.start_byte && extent.length == meta.block_length
            }
            &&& entries.contains_key(path) && meta.kind != EntryKind::Directory && meta.block_length
                > usize::MAX ==> outcome == Err::<Extent, StorageError>(
                StorageError::EntryTooLarge,
            )
        }),
{
}

/// A removal tells how many entries went: all that are the path or lie below it. Where there are
/// none it succeeds and changes nothing.
pub proof fn law_removal_counts(view: MossView, virtual_path: Seq<char>)
    requires
        view.entries.dom().finite(),
    ensures
        match normalized(virtual_path) {
            Err(error) => removed(view, virtual_path) == Err::<(MossView, nat), StorageError>(error),
            Ok(path) => {
                let gone = view.entries.dom().filter(
                    |k: Seq<char>| k == path || path.push('/').is_prefix_of(k),
                );
                &&& removed(view, virtual_path) matches Ok((after, count))
                &&& count == gone.len()
                &&& count == 0 ==> after == view
                &&& count > 0 ==> after.entries.dom() == view.entries.dom().difference(gone)
                    && after.dirty && after.mutations == marked(view).mutations
                &&& after.index_pointer == view.index_pointer
                &&& after.entries.dom().len() + count == view.entries.dom().len()
                &&& forall|k: Seq<char>| #[trigger]
                    after.entries.contains_key(k) ==> after.entries[k] == view.entries[k]
            },
        },
{
    if let Ok(path) = normalized(virtual_path) {
        let gone = view.entries.dom().filter(
            |k: Seq<char>| k == path || path.push('/').is_prefix_of(k),
        );
        let all = tree(view.entries, path);
        assert(all =~= gone);
        let rest = without_tree(view.entries, path);
        assert(rest.dom() =~= view.entries.dom().difference(gone));
        lemma_len_subset(gone, view.entries.dom());
        lemma_len_subset(rest.dom(), view.entries.dom());
        assert(rest.dom().union(gone) =~= view.entries.dom());
        lemma_set_disjoint_lens(rest.dom(), gone);
        if gone.len() == 0 {
            assert(gone =~= Set::<Seq<char>>::empty());
        }
    }
}

/// A move succeeds where there is something to move and it does not lead below itself. A move to
/// where it already is changes nothing.
pub proof fn law_rename_succeeds(
    view: MossView,
    old_path: Seq<char>,
    new_path: Seq<char>,
    now: Timestamp,
)
    requires
        view.entries.dom().finite(),
    ensures
        ({
            let outcome = renamed(view, old_path, new_path, now);
            match (normalized(old_path), normalized(new_path)) {
                (Err(error), _) => outcome == Err::<MossView, StorageError>(error),
                (_, Err(error)) => outcome == Err::<MossView, StorageError>(error),
                (Ok(from), Ok(to)) => {
                    let has_any = exists|k: Seq<char>| #[trigger]
                        view.entries.contains_key(k) && is_under(k, from);
                    &&& from == to ==> outcome == Ok::<MossView, StorageError>(view)
                    &&& from != to && is_under(to, from) ==> outcome == Err::<
                        MossView,
                        StorageError,
                    >(StorageError::MoveIntoItself)
                    &&& !is_under(to, from) && !has_any ==> outcome == Err::<
                        MossView,
                        StorageError,
                    >(StorageError::NotFound)
                    &&& !is_under(to, from) && has_any ==> {
                        &&& outcome matches Ok(after)
                        &&& after.entries == moved_entries(view.entries, from, to, now)
                        &&& after.dirty && after.index_pointer == view.index_pointer
                        &&& after.mutations == marked(view).mutations
                    }
                },
            }
        }),
{
    if let (Ok(from), Ok(to)) = (normalized(old_path), normalized(new_path)) {
        let all = tree(view.entries, from);
        assert(all.subset_of(view.entries.dom()));
        lemma_len_subset(all, view.entries.dom());
        if exists|k: Seq<char>| #[trigger] view.entries.contains_key(k) && is_under(k, from) {
            let k = choose|k: Seq<char>| #[trigger]
                view.entries.contains_key(k) && is_under(k, from);
            assert(all.contains(k));
        } else if all.len() > 0 {
            let k = all.choose();
            assert(all.contains(k));
        }
    }
}

/// A change leaves the index to be written: at once with the 4096th change, or where the last time
/// was five seconds ago. Once it is written nothing waits.
pub proof fn law_changes_wait(view: MossView, elapsed: u64, path: Seq<char>, meta: Meta, end: u64)
    ensures
        marked(view).dirty,
        marked(view).entries == view.entries,
        marked(view).index_pointer == view.index_pointer,
        view.mutations < u64::MAX ==> marked(view).mutations == view.mutations + 1,
        view.mutations == u64::MAX ==> marked(view).mutations == u64::MAX,
        is_due(view, elapsed) <==> view.mutations >= 4096 || elapsed >= 5,
        recorded(view, path, meta).entries == view.entries.insert(path, meta),
        recorded(view, path, meta).dirty,
        flushed_view(view, end).entries == view.entries,
        !flushed_view(view, end).dirty,
        flushed_view(view, end).mutations == 0,
        flushed_view(view, end).index_pointer == end,
{
}

/// A new entry has the attributes it was given, no payload, and one time for all three.
pub proof fn law_fresh_entry(kind: EntryKind, mode: u16, uid: u32, gid: u32, now: Timestamp)
    ensures
        ({
            let meta = fresh(kind, mode, uid, gid, now);
            &&& meta.kind == kind && meta.mode == mode && meta.uid == uid && meta.gid == gid
            &&& meta.start_byte == 0 && meta.block_length == 0
            &&& meta.atime == now && meta.mtime == now && meta.ctime == now
        }),
{
}

/// The first byte of a number is the least significant one, and each next counts 256 times as much.
pub proof fn law_bytes_count(n: nat, width: nat)
    requires
        width > 0,
    ensures
        le_bytes(n, width).len() == width,
        le_bytes(n, width)[0] == n % 256,
        le_bytes(n, width).skip(1) == le_bytes(n / 256, (width - 1) as nat),
        le_value(seq![(n % 256) as u8]) == n % 256,
{
    lemma_le_bytes_len(n, width);
    assert(le_bytes(n, width).skip(1) =~= le_bytes(n / 256, (width - 1) as nat));
    reveal_with_fuel(le_value, 2);
    assert(seq![(n % 256) as u8].drop_first().len() == 0);
}

/// A negative number of seconds is written as its two's complement.
pub proof fn law_signed_numbers(value: i64)
    ensures
        value >= 0 ==> to_unsigned(value) == value,
        value < 0 ==> to_unsigned(value) == value + 0x1_0000_0000_0000_0000,
        to_signed(to_unsigned(value)) == value,
{
}

/// An archive begins with `MOSS`, the version 2 and the place of the index, and has 64 bytes of
/// header.
pub proof fn law_header_layout(pointer: u64)
    ensures
        header_bytes(pointer).len() == 64,
        header_bytes(pointer).take(4) == seq![77u8, 79u8, 83u8, 83u8],
        header_bytes(pointer).subrange(4, 6) == seq![2u8, 0u8],
        header_bytes(pointer).subrange(6, 14) == le_bytes(pointer as nat, 8),
        forall|i: int| 14 <= i < 64 ==> #[trigger] header_bytes(pointer)[i] == 0,
{
    lemma_locator_len(pointer);
    lemma_le_bytes_len(2, 2);
    lemma_le_bytes_len(pointer as nat, 8);
    reveal_with_fuel(le_bytes, 3);
    let header = header_bytes(pointer);
    assert(header.take(4) =~= seq![77u8, 79u8, 83u8, 83u8]);
    assert(header.subrange(4, 6) =~= le_bytes(2, 2));
    assert(le_bytes(2, 2) =~= seq![2u8, 0u8]);
    assert(header.subrange(6, 14) =~= le_bytes(pointer as nat, 8));
}

/// A header is read where the file is long enough, begins with `MOSS`, is of version 1 or 2, and has
/// its index in the file behind the header. Else it is told what is wrong.
pub proof fn law_header_is_checked(image: Seq<u8>, file_length: u64)
    requires
        image.len() >= 14,
    ensures
        ({
            let outcome = decoded_header(image, file_length);
            let version = le_value(image.subrange(4, 6));
            let pointer = le_value(image.subrange(6, 14));
            let signed = image.take(4) == seq![77u8, 79u8, 83u8, 83u8];
            &&& file_length < 64 ==> outcome == Err::<Header, StorageError>(
                StorageError::HeaderTooSmall,
            )
            &&& file_length >= 64 && !signed ==> outcome == Err::<Header, StorageError>(
                StorageError::BadSignature,
            )
            &&& file_length >= 64 && signed && version != 1 && version != 2 ==> outcome == Err::<
                Header,
                StorageError,
            >(StorageError::UnsupportedVersion(version as u16))
            &&& file_length >= 64 && signed && (version == 1 || version == 2) && (pointer < 64
                || pointer > file_length) ==> outcome == Err::<Header, StorageError>(
                StorageError::PointerOutOfRange,
            )
            &&& file_length >= 64 && signed && (version == 1 || version == 2) && 64 <= pointer
                <= file_length ==> {
                &&& outcome matches Ok(header)
                &&& header.version == version && header.index_pointer == pointer
            }
        }),
{
    lemma_byte_range();
    lemma_le_value_bound(image.subrange(4, 6));
    lemma_le_value_bound(image.subrange(6, 14));
}

/// Kinds are written as 0, 1 and 2, and no other byte is a kind.
pub proof fn law_kind_bytes(byte: u8)
    ensures
        kind_byte(EntryKind::File) == 0,
        kind_byte(EntryKind::Directory) == 1,
        kind_byte(EntryKind::Symlink) == 2,
        kind_from(0) == Some(EntryKind::File),
        kind_from(1) == Some(EntryKind::Directory),
        kind_from(2) == Some(EntryKind::Symlink),
        byte > 2 ==> kind_from(byte) is None,
{
}

/// An index begins with `MOSI` and the number of its entries in eight bytes. An entry is the length
/// of its path in four bytes, the path, and 63 bytes: its kind, the place and the length of its
/// payload, its mode, its owner and group, and its times of access, change of contents and change.
pub proof fn law_index_layout(listing: Seq<EntryView>, entry: EntryView)
    ensures
        index_bytes(listing).take(4) == seq![77u8, 79u8, 83u8, 73u8],
        index_bytes(listing).subrange(4, 12) == le_bytes(listing.len(), 8),
        ({
            let path = encode_utf8(entry.path);
            let n = path.len() as int;
            let bytes = entry_bytes(entry);
            &&& bytes.len() == 4 + n + 63
            &&& bytes.take(4) == le_bytes(path.len(), 4)
            &&& bytes.subrange(4, 4 + n) == path
            &&& bytes[4 + n] == kind_byte(entry.meta.kind)
            &&& bytes.subrange(5 + n, 13 + n) == le_bytes(entry.meta.start_byte as nat, 8)
            &&& bytes.subrange(13 + n, 21 + n) == le_bytes(entry.meta.block_length as nat, 8)
            &&& bytes.subrange(21 + n, 23 + n) == le_bytes(entry.meta.mode as nat, 2)
            &&& bytes.subrange(23 + n, 27 + n) == le_bytes(entry.meta.uid as nat, 4)
            &&& bytes.subrange(27 + n, 31 + n) == le_bytes(entry.meta.gid as nat, 4)
            &&& bytes.subrange(31 + n, 39 + n) == le_bytes(to_unsigned(entry.meta.atime.seconds), 8)
            &&& bytes.subrange(39 + n, 43 + n) == le_bytes(entry.meta.atime.nanoseconds as nat, 4)
            &&& bytes.subrange(43 + n, 51 + n) == le_bytes(to_unsigned(entry.meta.mtime.seconds), 8)
            &&& bytes.subrange(51 + n, 55 + n) == le_bytes(entry.meta.mtime.nanoseconds as nat, 4)
            &&& bytes.subrange(55 + n, 63 + n) == le_bytes(to_unsigned(entry.meta.ctime.seconds), 8)
            &&& bytes.subrange(63 + n, 67 + n) == le_bytes(entry.meta.ctime.nanoseconds as nat, 4)
        }),
{
    lemma_le_bytes_len(listing.len(), 8);
    assert(index_bytes(listing).take(4) =~= seq![77u8, 79u8, 83u8, 73u8]);
    assert(index_bytes(listing).subrange(4, 12) =~= le_bytes(listing.len(), 8));
    let meta = entry.meta;
    let path = encode_utf8(entry.path);
    let n = path.len() as int;
    let bytes = entry_bytes(entry);
    lemma_le_bytes_len(path.len(), 4);
    lemma_field_bytes(meta);
    lemma_le_bytes_len(meta.start_byte as nat, 8);
    lemma_le_bytes_len(meta.block_length as nat, 8);
    lemma_le_bytes_len(meta.mode as nat, 2);
    lemma_le_bytes_len(meta.uid as nat, 4);
    lemma_le_bytes_len(meta.gid as nat, 4);
    lemma_le_bytes_len(to_unsigned(meta.atime.seconds), 8);
    lemma_le_bytes_len(meta.atime.nanoseconds as nat, 4);
    lemma_le_bytes_len(to_unsigned(meta.mtime.seconds), 8);
    lemma_le_bytes_len(meta.mtime.nanoseconds as nat, 4);
    lemma_le_bytes_len(to_unsigned(meta.ctime.seconds), 8);
    lemma_le_bytes_len(meta.ctime.nanoseconds as nat, 4);
    assert(bytes.take(4) =~= le_bytes(path.len(), 4));
    assert(bytes.subrange(4, 4 + n) =~= path);
    assert(bytes.subrange(5 + n, 13 + n) =~= le_bytes(meta.start_byte as nat, 8));
    assert(bytes.subrange(13 + n, 21 + n) =~= le_bytes(meta.block_length as nat, 8));
    assert(bytes.subrange(21 + n, 23 + n) =~= le_bytes(meta.mode as nat, 2));
    assert(bytes.subrange(23 + n, 27 + n) =~= le_bytes(meta.uid as nat, 4));
    assert(bytes.subrange(27 + n, 31 + n) =~= le_bytes(meta.gid as nat, 4));
    assert(bytes.subrange(31 + n, 39 + n) =~= le_bytes(to_unsigned(meta.atime.seconds), 8));
    assert(bytes.subrange(39 + n, 43 + n) =~= le_bytes(meta.atime.nanoseconds as nat, 4));
    assert(bytes.subrange(43 + n, 51 + n) =~= le_bytes(to_unsigned(meta.mtime.seconds), 8));
    assert(bytes.subrange(51 + n, 55 + n) =~= le_bytes(meta.mtime.nanoseconds as nat, 4));
    assert(bytes.subrange(55 + n, 63 + n) =~= le_bytes(to_unsigned(meta.ctime.seconds), 8));
    assert(bytes.subrange(63 + n, 67 + n) =~= le_bytes(meta.ctime.nanoseconds as nat, 4));
}

/// An index that is no index, lists too many entries, lists a path twice, or has a payload that
/// reaches into it, is refused.
pub proof fn law_index_is_checked(
    rest: Seq<u8>,
    pointer: u64,
    count: nat,
    found: Map<Seq<char>, Meta>,
    meta: Meta,
)
    ensures
        rest.len() < 4 ==> decoded_index(rest, pointer) == Err::<
            Map<Seq<char>, Meta>,
            StorageError,
        >(StorageError::UnexpectedEnd),
        rest.len() >= 4 && rest.take(4) != seq![77u8, 79u8, 83u8, 73u8] ==> decoded_index(
            rest,
            pointer,
        ) == Err::<Map<Seq<char>, Meta>, StorageError>(StorageError::BadIndexSignature),
        rest.len() >= 12 && rest.take(4) == seq![77u8, 79u8, 83u8, 73u8] && le_value(
            rest.subrange(4, 12),
        ) > 10_000_000 ==> decoded_index(rest, pointer) == Err::<
            Map<Seq<char>, Meta>,
            StorageError,
        >(StorageError::TooManyEntries),
        count > 0 ==> match decoded_entry(rest, pointer) {
            Err(error) => decoded_entries(rest, count, pointer, found) == Err::<
                Map<Seq<char>, Meta>,
                StorageError,
            >(error),
            Ok((entry, used)) => found.contains_key(entry.path) ==> decoded_entries(
                rest,
                count,
                pointer,
                found,
            ) == Err::<Map<Seq<char>, Meta>, StorageError>(StorageError::DuplicatePath),
        },
        meta.kind != EntryKind::Directory && meta.start_byte + meta.block_length > u64::MAX
            ==> range_fault(meta, pointer) == Some(StorageError::RangeOverflow),
        meta.kind != EntryKind::Directory && pointer < meta.start_byte + meta.block_length
            <= u64::MAX ==> range_fault(meta, pointer) == Some(StorageError::PayloadOutOfRange),
        meta.kind == EntryKind::Directory || meta.start_byte + meta.block_length <= pointer
            ==> range_fault(meta, pointer) is None,
{
}

/// A legacy index lists files only, each with the length of its path in two bytes, the path, the
/// place and the length of its payload, and eight bytes that do not count. A file gets mode 644, the
/// given owner and the present time; of two with one path the last counts.
pub proof fn law_legacy_entry(
    path: Seq<char>,
    start: u64,
    length: u64,
    unused: Seq<u8>,
    rest: Seq<u8>,
    pointer: u64,
    uid: u32,
    gid: u32,
    now: Timestamp,
    found: Map<Seq<char>, Meta>,
)
    requires
        is_canonical(path),
        encode_utf8(path).len() < 0x1_0000,
        unused.len() == 8,
        start + length <= pointer,
    ensures
        ({
            let name = encode_utf8(path);
            let entry = le_bytes(name.len(), 2) + name + le_bytes(start as nat, 8) + le_bytes(
                length as nat,
                8,
            ) + unused;
            let meta = legacy_meta(start, length, uid, gid, now);
            &&& decoded_legacy(entry + rest, pointer, uid, gid, now, found) == decoded_legacy(
                rest,
                pointer,
                uid,
                gid,
                now,
                found.insert(path, meta),
            )
            &&& decoded_legacy(Seq::<u8>::empty(), pointer, uid, gid, now, found) == Ok::<
                Map<Seq<char>, Meta>,
                StorageError,
            >(found)
            &&& meta.kind == EntryKind::File && meta.mode == 0o644
            &&& meta.start_byte == start && meta.block_length == length
            &&& meta.uid == uid && meta.gid == gid
            &&& meta.atime == now && meta.mtime == now && meta.ctime == now
        }),
{
    broadcast use encode_utf8_decode_utf8;

    let name = encode_utf8(path);
    let n = name.len() as int;
    let entry = le_bytes(name.len(), 2) + name + le_bytes(start as nat, 8) + le_bytes(
        length as nat,
        8,
    ) + unused;
    let all = entry + rest;
    lemma_byte_range();
    lemma_le_bytes_len(name.len(), 2);
    lemma_le_bytes_len(start as nat, 8);
    lemma_le_bytes_len(length as nat, 8);
    law_le_round_trip(name.len(), 2);
    law_le_round_trip(start as nat, 8);
    law_le_round_trip(length as nat, 8);
    lemma_canonical_nonempty(path);
    law_canonical_is_fixed(path);
    encode_utf8_first_scalar(path);
    assert(all.take(2) =~= le_bytes(name.len(), 2));
    assert(all.subrange(2, 2 + n) =~= name);
    assert(all.subrange(2 + n, 10 + n) =~= le_bytes(start as nat, 8));
    assert(all.subrange(10 + n, 18 + n) =~= le_bytes(length as nat, 8));
    assert(decode_utf8(name) == path);
    encode_utf8_valid_utf8(path);
    assert(decoded_legacy_entry(all, pointer) == Ok::<(Seq<char>, u64, u64, nat), StorageError>(
        (path, start, length, (26 + n) as nat),
    ));
    assert(all.skip(26 + n) =~= rest);
}

/// A file of version 1 is read as a legacy archive, and one of version 2 as one with an index.
pub proof fn law_versions(
    header: Header,
    rest: Seq<u8>,
    uid: u32,
    gid: u32,
    now: Timestamp,
)
    ensures
        header.version == 1 ==> opened(header, rest, uid, gid, now) == decoded_legacy(
            rest,
            header.index_pointer,
            uid,
            gid,
            now,
            Map::<Seq<char>, Meta>::empty(),
        ),
        header.version == 2 ==> opened(header, rest, uid, gid, now) == decoded_index(
            rest,
            header.index_pointer,
        ),
{
}

/// What is not there is not found; what may not be asked is invalid input; a file that ends too
/// early ends unexpectedly; payloads that no file can hold are a matter of their own; and other faults
/// of a file are invalid data.
pub proof fn law_classes_of_failures(version: u16)
    ensures
        kind_of(StorageError::NotFound) == ErrorKind::NotFound,
        kind_of(StorageError::ParentTraversal) == ErrorKind::InvalidInput,
        kind_of(StorageError::NulByte) == ErrorKind::InvalidInput,
        kind_of(StorageError::RootPath) == ErrorKind::InvalidInput,
        kind_of(StorageError::PathTooLong) == ErrorKind::InvalidInput,
        kind_of(StorageError::ReadDirectory) == ErrorKind::InvalidInput,
        kind_of(StorageError::ReplaceDirectory) == ErrorKind::InvalidInput,
        kind_of(StorageError::MoveIntoItself) == ErrorKind::InvalidInput,
        kind_of(StorageError::UnexpectedEnd) == ErrorKind::UnexpectedEof,
        kind_of(StorageError::MissingPayload) == ErrorKind::InvalidData,
        kind_of(StorageError::EntryTooLarge) == ErrorKind::InvalidData,
        kind_of(StorageError::HeaderTooSmall) == ErrorKind::InvalidData,
        kind_of(StorageError::BadSignature) == ErrorKind::InvalidData,
        kind_of(StorageError::UnsupportedVersion(version)) == ErrorKind::InvalidData,
        kind_of(StorageError::PointerOutOfRange) == ErrorKind::InvalidData,
        kind_of(StorageError::BadIndexSignature) == ErrorKind::InvalidData,
        kind_of(StorageError::TooManyEntries) == ErrorKind::InvalidData,
        kind_of(StorageError::BadPathLength) == ErrorKind::InvalidData,
        kind_of(StorageError::PathNotUtf8) == ErrorKind::InvalidData,
        kind_of(StorageError::BadKind) == ErrorKind::InvalidData,
        kind_of(StorageError::BadTimestamp) == ErrorKind::InvalidData,
        kind_of(StorageError::RangeOverflow) == ErrorKind::InvalidData,
        kind_of(StorageError::PayloadOutOfRange) == ErrorKind::InvalidData,
        kind_of(StorageError::DuplicatePath) == ErrorKind::InvalidData,
        kind_of(StorageError::LegacyTruncated) == ErrorKind::InvalidData,
        kind_of(StorageError::LegacyBadEntry) == ErrorKind::InvalidData,
        kind_of(StorageError::LegacyPathNotUtf8) == ErrorKind::InvalidData,
        kind_of(StorageError::LegacyRangeOverflow) == ErrorKind::InvalidData,
        kind_of(StorageError::LegacyOutOfRange) == ErrorKind::InvalidData,
        kind_of(StorageError::CursorOverflow) == ErrorKind::InvalidData,
        kind_of(StorageError::TruncatedInteger) == ErrorKind::InvalidData,
        kind_of(StorageError::ArchiveTooLarge) == ErrorKind::Other,
{
}

/// A mounted archive answers a failure by its class: what is not there has no entry, what exists
/// exists, what may not be is refused, and what is wrong is invalid.
pub proof fn law_numbers_of_failures()
    ensures
        errno_of_kind(ErrorKind::NotFound) == Errno::NoEntry,
        errno_of_kind(ErrorKind::PermissionDenied) == Errno::Access,
        errno_of_kind(ErrorKind::AlreadyExists) == Errno::Exists,
        errno_of_kind(ErrorKind::InvalidInput) == Errno::Invalid,
        errno_of_kind(ErrorKind::InvalidData) == Errno::Invalid,
        errno_of_kind(ErrorKind::Unsupported) == Errno::NotSupported,
        errno_of_kind(ErrorKind::UnexpectedEof) == Errno::Io,
        errno_of_kind(ErrorKind::Other) == Errno::Io,
{
}

/// Every failure has a message that says what is wrong; an unsupported version is named in it.
pub proof fn law_messages(version: u16)
    ensures
        message_text(StorageError::UnsupportedVersion(version)) == "Unsupported Moss version: "@
            + decimal(version as nat),
        message_text(StorageError::ParentTraversal) == "Parent traversal is not allowed in virtual paths"@,
        message_text(StorageError::NulByte) == "Virtual paths cannot contain NUL bytes"@,
        message_text(StorageError::RootPath) == "The storage root cannot be used as an entry path"@,
        message_text(StorageError::PathTooLong) == "Virtual path is too long"@,
        message_text(StorageError::NotFound) == "Storage entry not found"@,
        message_text(StorageError::ReadDirectory) == "Cannot read a directory as a file"@,
        message_text(StorageError::ReplaceDirectory) == "Cannot replace a directory with file data"@,
        message_text(StorageError::MoveIntoItself) == "Cannot move a directory into itself"@,
        message_text(StorageError::MissingPayload) == "A new non-empty entry must include payload data"@,
        message_text(StorageError::EntryTooLarge) == "Storage entry is too large for this platform"@,
        message_text(StorageError::ArchiveTooLarge) == "Storage payloads are too large for one archive"@,
        message_text(StorageError::HeaderTooSmall) == "Moss file is smaller than its header"@,
        message_text(StorageError::BadSignature) == "Invalid Moss file signature"@,
        message_text(StorageError::PointerOutOfRange) == "Moss index pointer is out of range"@,
        message_text(StorageError::BadIndexSignature) == "Invalid Moss index signature"@,
        message_text(StorageError::TooManyEntries) == "Moss index contains too many entries"@,
        message_text(StorageError::BadPathLength) == "Invalid virtual path length"@,
        message_text(StorageError::PathNotUtf8) == "Virtual path is not valid UTF-8"@,
        message_text(StorageError::BadKind) == "Invalid entry type in Moss index"@,
        message_text(StorageError::BadTimestamp) == "Invalid timestamp nanosecond value"@,
        message_text(StorageError::RangeOverflow) == "Storage entry range overflow"@,
        message_text(StorageError::PayloadOutOfRange) == "Storage payload overlaps or exceeds the active index"@,
        message_text(StorageError::DuplicatePath) == "Duplicate path in Moss index"@,
        message_text(StorageError::UnexpectedEnd) == "failed to fill whole buffer"@,
        message_text(StorageError::LegacyTruncated) == "Truncated legacy index"@,
        message_text(StorageError::LegacyBadEntry) == "Invalid legacy index entry"@,
        message_text(StorageError::LegacyPathNotUtf8) == "Legacy path is not valid UTF-8"@,
        message_text(StorageError::LegacyRangeOverflow) == "Legacy entry range overflow"@,
        message_text(StorageError::LegacyOutOfRange) == "Legacy entry points outside payload data"@,
        message_text(StorageError::CursorOverflow) == "Index cursor overflow"@,
        message_text(StorageError::TruncatedInteger) == "Truncated index integer"@,
{
}

/// A call that fails changes nothing and hands its failure on. One that succeeds makes its change,
/// and tells whether the index is to be written now.
pub proof fn law_outcome(
    r: Result<bool, StorageError>,
    before: MossView,
    after: MossView,
    next: MossView,
    error: StorageError,
    elapsed: u64,
)
    ensures
        is_outcome(r, before, after, Err::<MossView, StorageError>(error), elapsed) <==> after
            == before && r == Err::<bool, StorageError>(error),
        is_outcome(r, before, after, Ok::<MossView, StorageError>(next), elapsed) <==> after == next
            && r == Ok::<bool, StorageError>(next.mutations >= 4096 || elapsed >= 5),
{
}

/// What is planned is the entry and the steps that were worked out, or the failure.
pub proof fn law_plan(
    r: Result<Pending, StorageError>,
    entry: EntryView,
    steps: Seq<OpView>,
    error: StorageError,
)
    ensures
        is_plan(r, Err::<(EntryView, Seq<OpView>), StorageError>(error)) <==> r == Err::<
            Pending,
            StorageError,
        >(error),
        is_plan(r, Ok::<(EntryView, Seq<OpView>), StorageError>((entry, steps))) ==> r is Ok
            && r->Ok_0.entry() == entry && r->Ok_0.steps() == steps,
{
}

/// An index holds paths of up to a mebibyte, and no empty one.
pub proof fn law_paths_that_fit(entries: Map<Seq<char>, Meta>, path: Seq<char>)
    ensures
        all_fit(entries) && entries.contains_key(path) ==> 0 < encode_utf8(path).len() <= 0x10_0000,
        (forall|p: Seq<char>| #[trigger]
            entries.contains_key(p) ==> 0 < encode_utf8(p).len() <= 0x10_0000) ==> all_fit(entries),
{
}

/// A path in an index is refused where its length is none or too large, where it is cut short, where
/// it is no text, and where it is no path.
pub proof fn law_path_is_checked(rest: Seq<u8>, pointer: u64)
    ensures
        ({
            let n = le_value(rest.take(4));
            let raw = rest.subrange(4, 4 + n as int);
            let r = decoded_entry(rest, pointer);
            &&& rest.len() < 4 ==> r == Err::<(EntryView, nat), StorageError>(
                StorageError::UnexpectedEnd,
            )
            &&& rest.len() >= 4 && (n == 0 || n > 0x10_0000) ==> r == Err::<
                (EntryView, nat),
                StorageError,
            >(StorageError::BadPathLength)
            &&& 4 <= rest.len() < 4 + n && n <= 0x10_0000 ==> r == Err::<
                (EntryView, nat),
                StorageError,
            >(StorageError::UnexpectedEnd)
            &&& rest.len() >= 4 + n && 0 < n <= 0x10_0000 && !valid_utf8(raw) ==> r == Err::<
                (EntryView, nat),
                StorageError,
            >(StorageError::PathNotUtf8)
            &&& rest.len() >= 4 + n && 0 < n <= 0x10_0000 && valid_utf8(raw) && normalized(
                decode_utf8(raw),
            ) is Err ==> r == Err::<(EntryView, nat), StorageError>(
                normalized(decode_utf8(raw))->Err_0,
            )
        }),
{
}

/// The attributes in an index are refused where they are cut short, where the kind is none, and where
/// the nanoseconds of a time make up a second.
pub proof fn law_fields_are_checked(rest: Seq<u8>)
    ensures
        rest.len() == 0 ==> decoded_fields(rest) == Err::<Meta, StorageError>(
            StorageError::UnexpectedEnd,
        ),
        rest.len() > 0 && rest[0] >= 3 ==> decoded_fields(rest) == Err::<Meta, StorageError>(
            StorageError::BadKind,
        ),
        0 < rest.len() < 39 && rest[0] < 3 ==> decoded_fields(rest) == Err::<Meta, StorageError>(
            StorageError::UnexpectedEnd,
        ),
        rest.len() >= 63 && rest[0] < 3 ==> (decoded_fields(rest) is Ok <==> {
            &&& le_value(rest.subrange(35, 39)) < 1_000_000_000
            &&& le_value(rest.subrange(47, 51)) < 1_000_000_000
            &&& le_value(rest.subrange(59, 63)) < 1_000_000_000
        }),
        rest.len() >= 63 && rest[0] < 3 && decoded_fields(rest) is Err ==> decoded_fields(rest)
            == Err::<Meta, StorageError>(StorageError::BadTimestamp),
        rest.len() < 63 ==> decoded_fields(rest) is Err,
{
    assert(rest.len() > 0 ==> (kind_from(rest[0]) is None <==> rest[0] >= 3));
    if rest.len() >= 63 {
        lemma_byte_range();
        lemma_le_value_bound(rest.subrange(35, 39));
        lemma_le_value_bound(rest.subrange(47, 51));
        lemma_le_value_bound(rest.subrange(59, 63));
        assert(rest.subrange(27, 39).subrange(8, 12) =~= rest.subrange(35, 39));
        assert(rest.subrange(39, 51).subrange(8, 12) =~= rest.subrange(47, 51));
        assert(rest.subrange(51, 63).subrange(8, 12) =~= rest.subrange(59, 63));
    }
}

/// A legacy entry is refused where it is cut short, where its path is empty, no text or no path, and
/// where its payload reaches into the index.
pub proof fn law_legacy_is_checked(
    rest: Seq<u8>,
    pointer: u64,
    uid: u32,
    gid: u32,
    now: Timestamp,
    found: Map<Seq<char>, Meta>,
)
    ensures
        ({
            let n = le_value(rest.take(2));
            let raw = rest.subrange(2, 2 + n as int);
            let start = le_value(rest.subrange(2 + n as int, 10 + n as int));
            let length = le_value(rest.subrange(10 + n as int, 18 + n as int));
            let r = decoded_legacy(rest, pointer, uid, gid, now, found);
            let whole = rest.len() >= 26 + n && n > 0;
            let named = whole && valid_utf8(raw) && normalized(decode_utf8(raw)) is Ok;
            &&& rest.len() == 1 ==> r == Err::<Map<Seq<char>, Meta>, StorageError>(
                StorageError::LegacyTruncated,
            )
            &&& rest.len() >= 2 && !whole ==> r == Err::<Map<Seq<char>, Meta>, StorageError>(
                StorageError::LegacyBadEntry,
            )
            &&& whole && !valid_utf8(raw) ==> r == Err::<Map<Seq<char>, Meta>, StorageError>(
                StorageError::LegacyPathNotUtf8,
            )
            &&& whole && valid_utf8(raw) && normalized(decode_utf8(raw)) is Err ==> r == Err::<
                Map<Seq<char>, Meta>,
                StorageError,
            >(normalized(decode_utf8(raw))->Err_0)
            &&& named && start + length > u64::MAX ==> r == Err::<
                Map<Seq<char>, Meta>,
                StorageError,
            >(StorageError::LegacyRangeOverflow)
            &&& named && pointer < start + length <= u64::MAX ==> r == Err::<
                Map<Seq<char>, Meta>,
                StorageError,
            >(StorageError::LegacyOutOfRange)
        }),
{
}

/// After a move what was at or below the old path is at or below the new one, in the place of what
/// was there, with a new time of change and else as it was. All other entries are as they were.
pub proof fn law_entries_move(
    entries: Map<Seq<char>, Meta>,
    from: Seq<char>,
    to: Seq<char>,
    now: Timestamp,
    k: Seq<char>,
)
    requires
        !is_under(to, from),
    ensures
        ({
            let after = moved_entries(entries, from, to, now);
            let target = to + k.skip(from.len() as int);
            let source = from + k.skip(to.len() as int);
            &&& entries.contains_key(k) && is_under(k, from) ==> after.contains_key(target)
                && after[target] == (Meta { ctime: now, ..entries[k] })
            &&& entries.contains_key(k) && !is_under(k, from) && !(is_under(k, to)
                && entries.contains_key(source)) ==> after.contains_key(k) && after[k] == entries[k]
            &&& is_under(k, from) && !is_under(k, to) ==> !after.contains_key(k)
            &&& after.contains_key(k) ==> entries.contains_key(k) || is_under(k, to)
                && entries.contains_key(source)
        }),
{
    if entries.contains_key(k) && is_under(k, from) {
        law_moved_back(k, from, to);
        assert(moved(k, from, to) == to + k.skip(from.len() as int));
    }
    assert(moved(k, to, from) == from + k.skip(to.len() as int));
}

/// An index is written behind all that is there and waited for, before the header is made to point
/// to it; that is waited for too. Nothing but the place of the pointer is written over.
pub proof fn law_flush_order(entries: Map<Seq<char>, Meta>, end: u64)
    ensures
        ({
            let steps = flush_ops(entries, end);
            &&& steps.len() == 4
            &&& steps[0] == OpView::Append(index_bytes(listing_of(entries)))
            &&& steps[1] is SyncData
            &&& steps[2] is Patch
            &&& steps[2]->position == 4
            &&& header_bytes(end).subrange(4, 14) == steps[2]->bytes
            &&& steps[2]->bytes.len() == 10
            &&& steps[3] is SyncData
        }),
{
    lemma_locator_len(end);
    let patch = flush_ops(entries, end)[2]->bytes;
    assert(header_bytes(end).subrange(4, 14) =~= patch);
}

} // verus!
