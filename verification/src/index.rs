//! The index of an archive as bytes.
use vstd::prelude::*;
use vstd::slice::slice_subrange;
use vstd::utf8::*;
use crate::bytes::{get_le, law_le_round_trip, law_timestamp_bytes_round_trip, le_bytes, le_value,
    lemma_byte_range, lemma_le_bytes_len, push_le, read_timestamp, read_u16, read_u32, read_u64,
    read_u64_slice, timestamp_bytes, timestamp_in, write_timestamp};
use crate::entry::{kind_byte, kind_from, EntryKind, EntryView, IndexEntry, Meta};
use crate::error::StorageError;
use crate::path::{is_canonical, law_canonical_is_fixed, normalize_virtual_path, normalized};
use crate::pathmap::{is_sorted, lemma_sorted_distinct, lemma_sorted_unique, lemma_zipped, PathMap};
use crate::text::{decode_text, precedes, precedes_total, precedes_transitive};
use crate::time::Timestamp;

verus! {

/// The longest path that an index can hold, in bytes.
pub const MAX_PATH_LENGTH: usize = 1048576;

/// The largest number of entries that an index can hold.
pub const MAX_ENTRY_COUNT: u64 = 10_000_000;

/// The bytes that an index begins with: `MOSI`.
pub open spec fn index_magic() -> Seq<u8> {
    seq![77u8, 79u8, 83u8, 73u8]
}

/// What follows the path of an entry: 63 bytes.
pub open spec fn field_bytes(meta: Meta) -> Seq<u8> {
    seq![kind_byte(meta.kind)] + le_bytes(meta.start_byte as nat, 8) + le_bytes(
        meta.block_length as nat,
        8,
    ) + le_bytes(meta.mode as nat, 2) + le_bytes(meta.uid as nat, 4) + le_bytes(meta.gid as nat, 4)
        + timestamp_bytes(meta.atime) + timestamp_bytes(meta.mtime) + timestamp_bytes(meta.ctime)
}

/// An entry as an index holds it.
pub open spec fn entry_bytes(entry: EntryView) -> Seq<u8> {
    let path = encode_utf8(entry.path);
    le_bytes(path.len(), 4) + path + field_bytes(entry.meta)
}

/// The entries of an index, one after the other.
pub open spec fn entries_bytes(listing: Seq<EntryView>) -> Seq<u8>
    decreases listing.len(),
{
    if listing.len() == 0 {
        Seq::<u8>::empty()
    } else {
        entry_bytes(listing[0]) + entries_bytes(listing.drop_first())
    }
}

/// A whole index.
pub open spec fn index_bytes(listing: Seq<EntryView>) -> Seq<u8> {
    index_magic() + le_bytes(listing.len(), 8) + entries_bytes(listing)
}

/// The path fits into an index.
pub open spec fn path_fits(path: Seq<char>) -> bool {
    0 < encode_utf8(path).len() <= MAX_PATH_LENGTH
}

/// The attributes in the 63 bytes that follow a path.
pub open spec fn fields_in(rest: Seq<u8>) -> Meta {
    Meta {
        kind: kind_from(rest[0]).unwrap(),
        start_byte: le_value(rest.subrange(1, 9)) as u64,
        block_length: le_value(rest.subrange(9, 17)) as u64,
        mode: le_value(rest.subrange(17, 19)) as u16,
        uid: le_value(rest.subrange(19, 23)) as u32,
        gid: le_value(rest.subrange(23, 27)) as u32,
        atime: timestamp_in(rest.subrange(27, 39)),
        mtime: timestamp_in(rest.subrange(39, 51)),
        ctime: timestamp_in(rest.subrange(51, 63)),
    }
}

/// The attributes at the beginning of `rest`, or what is wrong with them.
pub open spec fn decoded_fields(rest: Seq<u8>) -> Result<Meta, StorageError> {
    if rest.len() < 1 {
        Err(StorageError::UnexpectedEnd)
    } else if kind_from(rest[0]) is None {
        Err(StorageError::BadKind)
    } else if rest.len() < 39 {
        Err(StorageError::UnexpectedEnd)
    } else if !timestamp_in(rest.subrange(27, 39)).is_valid() {
        Err(StorageError::BadTimestamp)
    } else if rest.len() < 51 {
        Err(StorageError::UnexpectedEnd)
    } else if !timestamp_in(rest.subrange(39, 51)).is_valid() {
        Err(StorageError::BadTimestamp)
    } else if rest.len() < 63 {
        Err(StorageError::UnexpectedEnd)
    } else if !timestamp_in(rest.subrange(51, 63)).is_valid() {
        Err(StorageError::BadTimestamp)
    } else {
        Ok(fields_in(rest))
    }
}

/// A payload has to lie before the index; directories have none.
pub open spec fn range_fault(meta: Meta, pointer: u64) -> Option<StorageError> {
    if meta.kind is Directory {
        None
    } else if meta.start_byte + meta.block_length > u64::MAX {
        Some(StorageError::RangeOverflow)
    } else if meta.start_byte + meta.block_length > pointer {
        Some(StorageError::PayloadOutOfRange)
    } else {
        None
    }
}

/// The path at the beginning of `rest`, which starts with its length, and the number of bytes
/// that both take.
pub open spec fn decoded_path(rest: Seq<u8>) -> Result<(Seq<char>, nat), StorageError> {
    let length = le_value(rest.take(4));
    if rest.len() < 4 {
        Err(StorageError::UnexpectedEnd)
    } else if length == 0 || length > MAX_PATH_LENGTH {
        Err(StorageError::BadPathLength)
    } else if rest.len() < 4 + length {
        Err(StorageError::UnexpectedEnd)
    } else if !valid_utf8(rest.subrange(4, 4 + length as int)) {
        Err(StorageError::PathNotUtf8)
    } else {
        match normalized(decode_utf8(rest.subrange(4, 4 + length as int))) {
            Ok(path) => Ok((path, 4 + length)),
            Err(error) => Err(error),
        }
    }
}

/// The entry at the beginning of `rest`, and the number of bytes that it takes.
pub open spec fn decoded_entry(rest: Seq<u8>, pointer: u64) -> Result<
    (EntryView, nat),
    StorageError,
> {
    match decoded_path(rest) {
        Err(error) => Err(error),
        Ok((path, used)) => match decoded_fields(rest.skip(used as int)) {
            Err(error) => Err(error),
            Ok(meta) => match range_fault(meta, pointer) {
                Some(error) => Err(error),
                None => Ok((EntryView { path, meta }, used + 63)),
            },
        },
    }
}

/// The `count` entries at the beginning of `rest`, together with those that were `found` before.
pub open spec fn decoded_entries(
    rest: Seq<u8>,
    count: nat,
    pointer: u64,
    found: Map<Seq<char>, Meta>,
) -> Result<Map<Seq<char>, Meta>, StorageError>
    decreases count,
{
    if count == 0 {
        Ok(found)
    } else {
        match decoded_entry(rest, pointer) {
            Err(error) => Err(error),
            Ok((entry, used)) => if found.contains_key(entry.path) {
                Err(StorageError::DuplicatePath)
            } else {
                decoded_entries(
                    rest.skip(used as int),
                    (count - 1) as nat,
                    pointer,
                    found.insert(entry.path, entry.meta),
                )
            },
        }
    }
}

/// The entries of the index that begins at `pointer`, where the archive goes on with `rest`.
pub open spec fn decoded_index(rest: Seq<u8>, pointer: u64) -> Result<
    Map<Seq<char>, Meta>,
    StorageError,
> {
    if rest.len() < 4 {
        Err(StorageError::UnexpectedEnd)
    } else if rest.take(4) != index_magic() {
        Err(StorageError::BadIndexSignature)
    } else if rest.len() < 12 {
        Err(StorageError::UnexpectedEnd)
    } else if le_value(rest.subrange(4, 12)) > MAX_ENTRY_COUNT {
        Err(StorageError::TooManyEntries)
    } else {
        decoded_entries(
            rest.skip(12),
            le_value(rest.subrange(4, 12)),
            pointer,
            Map::<Seq<char>, Meta>::empty(),
        )
    }
}

/// The entry can be written to an index at `pointer` and read back.
pub open spec fn is_storable(entry: EntryView, pointer: u64) -> bool {
    &&& is_canonical(entry.path)
    &&& path_fits(entry.path)
    &&& entry.meta.atime.is_valid()
    &&& entry.meta.mtime.is_valid()
    &&& entry.meta.ctime.is_valid()
    &&& range_fault(entry.meta, pointer) is None
}

/// The map from the paths of `listing` to their attributes; of two entries with one path the
/// later counts.
pub open spec fn listing_map(listing: Seq<EntryView>) -> Map<Seq<char>, Meta>
    decreases listing.len(),
{
    if listing.len() == 0 {
        Map::<Seq<char>, Meta>::empty()
    } else {
        listing_map(listing.drop_last()).insert(listing.last().path, listing.last().meta)
    }
}

/// The paths of a listing.
pub open spec fn paths_of(listing: Seq<EntryView>) -> Seq<Seq<char>> {
    listing.map_values(|entry: EntryView| entry.path)
}

/// `listing` holds what `map` holds, in the byte order of the paths.
pub open spec fn is_listing(listing: Seq<EntryView>, map: Map<Seq<char>, Meta>) -> bool {
    is_sorted(paths_of(listing)) && listing_map(listing) == map
}

/// The entries of `map` in the byte order of their paths, in which an index lists them.
pub open spec fn listing_of(map: Map<Seq<char>, Meta>) -> Seq<EntryView> {
    choose|listing: Seq<EntryView>| is_listing(listing, map)
}

/// No two entries of `listing` have one path.
pub open spec fn distinct_paths(listing: Seq<EntryView>) -> bool {
    forall|i: int, j: int|
        0 <= i < j < listing.len() ==> (#[trigger] listing[i]).path != (
        #[trigger] listing[j]).path
}

pub proof fn lemma_field_bytes(meta: Meta)
    ensures
        field_bytes(meta).len() == 63,
        ({
            let b = field_bytes(meta);
            &&& b[0] == kind_byte(meta.kind)
            &&& b.subrange(1, 9) == le_bytes(meta.start_byte as nat, 8)
            &&& b.subrange(9, 17) == le_bytes(meta.block_length as nat, 8)
            &&& b.subrange(17, 19) == le_bytes(meta.mode as nat, 2)
            &&& b.subrange(19, 23) == le_bytes(meta.uid as nat, 4)
            &&& b.subrange(23, 27) == le_bytes(meta.gid as nat, 4)
            &&& b.subrange(27, 39) == timestamp_bytes(meta.atime)
            &&& b.subrange(39, 51) == timestamp_bytes(meta.mtime)
            &&& b.subrange(51, 63) == timestamp_bytes(meta.ctime)
        }),
{
    lemma_le_bytes_len(meta.start_byte as nat, 8);
    lemma_le_bytes_len(meta.block_length as nat, 8);
    lemma_le_bytes_len(meta.mode as nat, 2);
    lemma_le_bytes_len(meta.uid as nat, 4);
    lemma_le_bytes_len(meta.gid as nat, 4);
    law_timestamp_bytes_round_trip(meta.atime);
    law_timestamp_bytes_round_trip(meta.mtime);
    law_timestamp_bytes_round_trip(meta.ctime);
    let b = field_bytes(meta);
    assert(b.subrange(1, 9) =~= le_bytes(meta.start_byte as nat, 8));
    assert(b.subrange(9, 17) =~= le_bytes(meta.block_length as nat, 8));
    assert(b.subrange(17, 19) =~= le_bytes(meta.mode as nat, 2));
    assert(b.subrange(19, 23) =~= le_bytes(meta.uid as nat, 4));
    assert(b.subrange(23, 27) =~= le_bytes(meta.gid as nat, 4));
    assert(b.subrange(27, 39) =~= timestamp_bytes(meta.atime));
    assert(b.subrange(39, 51) =~= timestamp_bytes(meta.mtime));
    assert(b.subrange(51, 63) =~= timestamp_bytes(meta.ctime));
}

/// Attributes are read back as they were written.
pub proof fn law_fields_round_trip(meta: Meta, rest: Seq<u8>)
    requires
        meta.atime.is_valid(),
        meta.mtime.is_valid(),
        meta.ctime.is_valid(),
    ensures
        decoded_fields(field_bytes(meta) + rest) == Ok::<Meta, StorageError>(meta),
{
    lemma_field_bytes(meta);
    lemma_byte_range();
    law_le_round_trip(meta.start_byte as nat, 8);
    law_le_round_trip(meta.block_length as nat, 8);
    law_le_round_trip(meta.mode as nat, 2);
    law_le_round_trip(meta.uid as nat, 4);
    law_le_round_trip(meta.gid as nat, 4);
    law_timestamp_bytes_round_trip(meta.atime);
    law_timestamp_bytes_round_trip(meta.mtime);
    law_timestamp_bytes_round_trip(meta.ctime);
    let b = field_bytes(meta);
    let all = b + rest;
    assert(all.subrange(1, 9) =~= b.subrange(1, 9));
    assert(all.subrange(9, 17) =~= b.subrange(9, 17));
    assert(all.subrange(17, 19) =~= b.subrange(17, 19));
    assert(all.subrange(19, 23) =~= b.subrange(19, 23));
    assert(all.subrange(23, 27) =~= b.subrange(23, 27));
    assert(all.subrange(27, 39) =~= b.subrange(27, 39));
    assert(all.subrange(39, 51) =~= b.subrange(39, 51));
    assert(all.subrange(51, 63) =~= b.subrange(51, 63));
    assert(fields_in(all) == meta);
}

/// An entry is read back as it was written, whatever follows it.
pub proof fn law_entry_round_trip(entry: EntryView, pointer: u64, rest: Seq<u8>)
    requires
        is_storable(entry, pointer),
    ensures
        decoded_entry(entry_bytes(entry) + rest, pointer) == Ok::<(EntryView, nat), StorageError>(
            (entry, entry_bytes(entry).len()),
        ),
{
    let path = encode_utf8(entry.path);
    let all = entry_bytes(entry) + rest;
    let n = path.len();
    lemma_byte_range();
    law_le_round_trip(n, 4);
    lemma_field_bytes(entry.meta);
    assert(all.take(4) =~= le_bytes(n, 4));
    assert(all.subrange(4, 4 + n as int) =~= path);
    encode_utf8_valid_utf8(entry.path);
    encode_utf8_decode_utf8(entry.path);
    law_canonical_is_fixed(entry.path);
    assert(decoded_path(all) == Ok::<(Seq<char>, nat), StorageError>((entry.path, 4 + n)));
    assert(all.skip(4 + n as int) =~= field_bytes(entry.meta) + rest);
    law_fields_round_trip(entry.meta, rest);
}

proof fn lemma_entries_round_trip(
    listing: Seq<EntryView>,
    pointer: u64,
    rest: Seq<u8>,
    found: Map<Seq<char>, Meta>,
    before: Seq<EntryView>,
)
    requires
        forall|i: int|
            0 <= i < listing.len() ==> is_storable(#[trigger] listing[i], pointer),
        distinct_paths(before + listing),
        found == listing_map(before),
    ensures
        decoded_entries(entries_bytes(listing) + rest, listing.len(), pointer, found) == Ok::<
            Map<Seq<char>, Meta>,
            StorageError,
        >(listing_map(before + listing)),
    decreases listing.len(),
{
    let all = entries_bytes(listing) + rest;
    if listing.len() == 0 {
        assert(before + listing =~= before);
    } else {
        let first = listing[0];
        let others = listing.drop_first();
        assert(is_storable(first, pointer));
        assert(all =~= entry_bytes(first) + (entries_bytes(others) + rest));
        law_entry_round_trip(first, pointer, entries_bytes(others) + rest);
        assert(all.skip(entry_bytes(first).len() as int) =~= entries_bytes(others) + rest);
        lemma_listing_map(before);
        let joined = before + listing;
        assert forall|i: int| 0 <= i < before.len() implies (#[trigger] before[i]).path
            != first.path by {
            assert(joined[i].path != joined[before.len() as int].path);
        }
        assert(!found.contains_key(first.path));
        assert(before.push(first) + others =~= joined);
        assert(before.push(first).drop_last() =~= before);
        assert forall|i: int| 0 <= i < others.len() implies is_storable(
            #[trigger] others[i],
            pointer,
        ) by {
            assert(is_storable(listing[i + 1], pointer));
        }
        lemma_entries_round_trip(
            others,
            pointer,
            rest,
            found.insert(first.path, first.meta),
            before.push(first),
        );
    }
}

/// The map of a listing has just the listed paths.
pub proof fn lemma_listing_map(listing: Seq<EntryView>)
    ensures
        forall|p: Seq<char>| #[trigger]
            listing_map(listing).contains_key(p) ==> exists|i: int|
                0 <= i < listing.len() && (#[trigger] listing[i]).path == p,
        forall|i: int|
            0 <= i < listing.len() ==> listing_map(listing).contains_key(
                (#[trigger] listing[i]).path,
            ),
        distinct_paths(listing) ==> forall|i: int|
            0 <= i < listing.len() ==> listing_map(listing)[(#[trigger] listing[i]).path]
                == listing[i].meta,
    decreases listing.len(),
{
    if listing.len() > 0 {
        let before = listing.drop_last();
        lemma_listing_map(before);
        assert forall|p: Seq<char>| #[trigger] listing_map(listing).contains_key(p) implies exists|
            i: int,
        | 0 <= i < listing.len() && (#[trigger] listing[i]).path == p by {
            if p == listing.last().path {
                assert(listing[listing.len() - 1].path == p);
            } else {
                let i = choose|i: int| 0 <= i < before.len() && (#[trigger] before[i]).path == p;
                assert(listing[i].path == p);
            }
        }
        assert forall|i: int| 0 <= i < listing.len() implies listing_map(listing).contains_key(
            (#[trigger] listing[i]).path,
        ) by {
            if i < before.len() {
                assert(listing_map(before).contains_key(before[i].path));
            }
        }
        if distinct_paths(listing) {
            assert(distinct_paths(before)) by {
                assert forall|i: int, j: int| 0 <= i < j < before.len() implies (
                #[trigger] before[i]).path != (#[trigger] before[j]).path by {
                    assert(listing[i].path != listing[j].path);
                }
            }
            assert forall|i: int| 0 <= i < listing.len() implies listing_map(listing)[(
            #[trigger] listing[i]).path] == listing[i].meta by {
                if i < before.len() {
                    assert(listing[i].path != listing[listing.len() - 1].path);
                    assert(listing_map(before)[before[i].path] == before[i].meta);
                }
            }
        }
    }
}

/// A listing in order holds no path twice.
pub proof fn lemma_sorted_listing(listing: Seq<EntryView>)
    requires
        is_sorted(paths_of(listing)),
    ensures
        distinct_paths(listing),
{
    let paths = paths_of(listing);
    lemma_sorted_distinct(paths);
    assert forall|i: int, j: int| 0 <= i < j < listing.len() implies (#[trigger] listing[i]).path
        != (#[trigger] listing[j]).path by {
        assert(paths[i] != paths[j]);
    }
}

/// Of finitely many texts one comes last.
proof fn lemma_last_text(texts: Set<Seq<char>>) -> (last: Seq<char>)
    requires
        texts.finite(),
        texts.len() > 0,
    ensures
        texts.contains(last),
        forall|text: Seq<char>| #[trigger]
            texts.contains(text) && text != last ==> precedes(text, last),
    decreases texts.len(),
{
    let one = texts.choose();
    let others = texts.remove(one);
    if others.len() == 0 {
        assert forall|text: Seq<char>| #[trigger] texts.contains(text) implies text == one by {
            if text != one {
                assert(others.contains(text));
            }
        }
        one
    } else {
        let other = lemma_last_text(others);
        precedes_total(one, other);
        let last = if precedes(one, other) {
            other
        } else {
            one
        };
        assert forall|text: Seq<char>| #[trigger]
            texts.contains(text) && text != last implies precedes(text, last) by {
            if text != one && text != other {
                assert(others.contains(text));
                if last == one {
                    precedes_transitive(text, other, one);
                }
            }
        }
        last
    }
}

/// Finitely many entries have a listing.
pub proof fn lemma_listing_exists(map: Map<Seq<char>, Meta>)
    requires
        map.dom().finite(),
    ensures
        is_listing(listing_of(map), map),
    decreases map.dom().len(),
{
    if map.dom().len() == 0 {
        let none = Seq::<EntryView>::empty();
        assert(map =~= Map::<Seq<char>, Meta>::empty());
        assert(paths_of(none) =~= Seq::<Seq<char>>::empty());
        assert(is_listing(none, map));
    } else {
        let last = lemma_last_text(map.dom());
        let less = map.remove(last);
        assert(less.dom() =~= map.dom().remove(last));
        lemma_listing_exists(less);
        let before = listing_of(less);
        let entry = EntryView { path: last, meta: map[last] };
        let all = before.push(entry);
        lemma_listing_map(before);
        assert(all.drop_last() =~= before);
        assert(listing_map(all) =~= map);
        let paths = paths_of(all);
        assert forall|i: int, j: int| 0 <= i < j < paths.len() implies precedes(
            #[trigger] paths[i],
            #[trigger] paths[j],
        ) by {
            assert(paths[i] == before[i].path);
            assert(less.contains_key(before[i].path));
            if j < before.len() {
                assert(paths_of(before)[i] == paths[i]);
                assert(paths_of(before)[j] == paths[j]);
            } else {
                assert(paths[j] == last);
                assert(map.dom().contains(paths[i]));
            }
        }
        assert(is_listing(all, map));
    }
}

/// A map has at most one listing.
pub proof fn law_listing_unique(a: Seq<EntryView>, b: Seq<EntryView>, map: Map<Seq<char>, Meta>)
    requires
        is_listing(a, map),
        is_listing(b, map),
    ensures
        a == b,
        listing_of(map) == a,
{
    assert(is_listing(listing_of(map), map));
    lemma_listing_unique(a, b, map);
    lemma_listing_unique(a, listing_of(map), map);
}

proof fn lemma_listing_unique(a: Seq<EntryView>, b: Seq<EntryView>, map: Map<Seq<char>, Meta>)
    requires
        is_listing(a, map),
        is_listing(b, map),
    ensures
        a == b,
{
    lemma_sorted_listing(a);
    lemma_sorted_listing(b);
    lemma_listing_map(a);
    lemma_listing_map(b);
    let p = paths_of(a);
    let q = paths_of(b);
    assert forall|k: Seq<char>| #[trigger] p.contains(k) <==> q.contains(k) by {
        if p.contains(k) {
            let i = choose|i: int| 0 <= i < p.len() && p[i] == k;
            assert(map.contains_key(a[i].path));
            let j = choose|j: int| 0 <= j < b.len() && (#[trigger] b[j]).path == k;
            assert(q[j] == k);
        }
        if q.contains(k) {
            let i = choose|i: int| 0 <= i < q.len() && q[i] == k;
            assert(map.contains_key(b[i].path));
            let j = choose|j: int| 0 <= j < a.len() && (#[trigger] a[j]).path == k;
            assert(p[j] == k);
        }
    }
    lemma_sorted_unique(p, q);
    assert forall|i: int| 0 <= i < a.len() implies a[i] == b[i] by {
        assert(p[i] == q[i]);
        assert(map[a[i].path] == a[i].meta);
        assert(map[b[i].path] == b[i].meta);
    }
    assert(a =~= b);
}

/// An index is read back as it was written, whatever follows it in the archive.
pub proof fn law_index_round_trip(listing: Seq<EntryView>, pointer: u64, rest: Seq<u8>)
    requires
        listing.len() <= MAX_ENTRY_COUNT,
        distinct_paths(listing),
        forall|i: int| 0 <= i < listing.len() ==> is_storable(#[trigger] listing[i], pointer),
    ensures
        decoded_index(index_bytes(listing) + rest, pointer) == Ok::<
            Map<Seq<char>, Meta>,
            StorageError,
        >(listing_map(listing)),
{
    let all = index_bytes(listing) + rest;
    lemma_byte_range();
    law_le_round_trip(listing.len(), 8);
    assert(all.take(4) =~= index_magic());
    assert(all.subrange(4, 12) =~= le_bytes(listing.len(), 8));
    assert(all.skip(12) =~= entries_bytes(listing) + rest);
    let none = Seq::<EntryView>::empty();
    assert(none + listing =~= listing);
    lemma_entries_round_trip(listing, pointer, rest, Map::<Seq<char>, Meta>::empty(), none);
}

/// One more entry adds its bytes at the end.
pub proof fn lemma_entries_bytes_push(listing: Seq<EntryView>, entry: EntryView)
    ensures
        entries_bytes(listing.push(entry)) == entries_bytes(listing) + entry_bytes(entry),
    decreases listing.len(),
{
    let more = listing.push(entry);
    if listing.len() == 0 {
        assert(more.drop_first() =~= listing);
        assert(entries_bytes(more) =~= entries_bytes(listing) + entry_bytes(entry));
    } else {
        lemma_entries_bytes_push(listing.drop_first(), entry);
        assert(more.drop_first() =~= listing.drop_first().push(entry));
        assert(entries_bytes(more) =~= entries_bytes(listing) + entry_bytes(entry));
    }
}

/// The attributes of each path in `map`.
pub open spec fn metas(map: Map<Seq<char>, IndexEntry>) -> Map<Seq<char>, Meta> {
    map.map_values(|entry: IndexEntry| entry.meta())
}

/// The entries of `map`, in the order of their paths.
pub open spec fn listing(map: PathMap<IndexEntry>) -> Seq<EntryView> {
    map.values().map_values(|entry: IndexEntry| entry@)
}

/// Every path of `map` is canonical and leads to the entry that has it.
pub open spec fn is_table(map: PathMap<IndexEntry>) -> bool {
    &&& map.wf()
    &&& forall|path: Seq<char>| #[trigger]
        map@.contains_key(path) ==> is_canonical(path) && map@[path].virtual_path@ == path
}

/// The listing of a table and its map say the same.
pub proof fn lemma_listing(map: PathMap<IndexEntry>)
    requires
        is_table(map),
    ensures
        listing(map).len() == map.keys().len(),
        distinct_paths(listing(map)),
        is_listing(listing(map), metas(map@)),
        listing_of(metas(map@)) == listing(map),
        forall|i: int|
            0 <= i < listing(map).len() ==> {
                let entry = #[trigger] listing(map)[i];
                &&& entry.path == map.keys()[i]
                &&& is_canonical(entry.path)
                &&& metas(map@).contains_key(entry.path)
                &&& metas(map@)[entry.path] == entry.meta
            },
{
    let l = listing(map);
    lemma_zipped(map.keys(), map.values());
    lemma_sorted_distinct(map.keys());
    assert forall|i: int| 0 <= i < l.len() implies {
        let entry = #[trigger] l[i];
        &&& entry.path == map.keys()[i]
        &&& is_canonical(entry.path)
        &&& metas(map@).contains_key(entry.path)
        &&& metas(map@)[entry.path] == entry.meta
    } by {
        let key = map.keys()[i];
        assert(map@.contains_key(key));
        assert(map@[key] == map.values()[i]);
    }
    assert forall|i: int, j: int| 0 <= i < j < l.len() implies (#[trigger] l[i]).path != (
    #[trigger] l[j]).path by {
        assert(map.keys()[i] != map.keys()[j]);
    }
    lemma_listing_map(l);
    assert forall|path: Seq<char>| #[trigger] metas(map@).contains_key(path) implies listing_map(
        l,
    ).contains_key(path) by {
        let i = choose|i: int| 0 <= i < map.keys().len() && #[trigger] map.keys()[i] == path;
        assert(l[i].path == path);
    }
    assert(listing_map(l) =~= metas(map@));
    assert(paths_of(l) =~= map.keys());
    law_listing_unique(l, l, metas(map@));
}

/// Storing an entry under its path in a table.
pub proof fn lemma_table_insert(
    before: Map<Seq<char>, IndexEntry>,
    path: Seq<char>,
    entry: IndexEntry,
)
    ensures
        metas(before.insert(path, entry)) == metas(before).insert(path, entry.meta()),
{
    assert(metas(before.insert(path, entry)) =~= metas(before).insert(path, entry.meta()));
}

/// Appends the bytes of an entry to an index that is being written.
fn push_entry(index: &mut Vec<u8>, entry: &IndexEntry) -> (r: Result<(), StorageError>)
    ensures
        r is Ok <==> path_fits(entry@.path),
        r is Ok ==> final(index)@ == old(index)@ + entry_bytes(entry@),
        r matches Err(error) ==> error == StorageError::PathTooLong,
{
    let path = entry.virtual_path.as_str().as_bytes();
    if path.len() == 0 || path.len() > MAX_PATH_LENGTH {
        return Err(StorageError::PathTooLong);
    }
    let ghost before = index@;
    push_le(index, path.len() as u64, 4);
    index.extend_from_slice(path);
    let ghost headed = index@;
    index.push(entry.kind.to_byte());
    push_le(index, entry.start_byte, 8);
    push_le(index, entry.block_length, 8);
    push_le(index, entry.mode as u64, 2);
    push_le(index, entry.uid as u64, 4);
    push_le(index, entry.gid as u64, 4);
    write_timestamp(index, entry.atime);
    write_timestamp(index, entry.mtime);
    write_timestamp(index, entry.ctime);
    proof {
        assert(headed =~= before + (le_bytes(path@.len(), 4) + path@));
        assert(index@ =~= headed + field_bytes(entry.meta()));
        assert(index@ =~= before + entry_bytes(entry@));
    }
    Ok(())
}

/// The index of `entries`, or an error where one of the paths is too long for it.
pub fn encode_index(entries: &PathMap<IndexEntry>) -> (r: Result<Vec<u8>, StorageError>)
    requires
        is_table(*entries),
    ensures
        match r {
            Ok(bytes) => {
                &&& bytes@ == index_bytes(listing_of(metas(entries@)))
                &&& forall|path: Seq<char>| #[trigger]
                    entries@.contains_key(path) ==> path_fits(path)
            },
            Err(error) => {
                &&& error == StorageError::PathTooLong
                &&& exists|path: Seq<char>| #[trigger]
                    entries@.contains_key(path) && !path_fits(path)
            },
        },
{
    let ghost all = listing(*entries);
    let n: usize = entries.len();
    let mut index: Vec<u8> = Vec::new();
    proof {
        lemma_listing(*entries);
        lemma_zipped(entries.keys(), entries.values());
    }
    index.push(77);
    index.push(79);
    index.push(83);
    index.push(73);
    push_le(&mut index, n as u64, 8);
    let ghost head = index@;
    assert(head =~= index_magic() + le_bytes(all.len(), 8));
    assert(all.take(0) =~= Seq::<EntryView>::empty());
    let mut i: usize = 0;
    #[verifier::loop_isolation(false)]
    while i < n
        invariant
            i <= n,
            index@ == head + entries_bytes(all.take(i as int)),
            forall|k: int| 0 <= k < i ==> path_fits((#[trigger] all[k]).path),
        decreases n - i,
    {
        let entry = entries.value(i);
        let ghost before = index@;
        assert(entry@ == all[i as int]);
        match push_entry(&mut index, entry) {
            Ok(()) => {},
            Err(error) => {
                assert(entries@.contains_key(all[i as int].path));
                return Err(error);
            },
        }
        proof {
            lemma_entries_bytes_push(all.take(i as int), all[i as int]);
            assert(all.take(i + 1) =~= all.take(i as int).push(all[i as int]));
            assert(index@ =~= head + entries_bytes(all.take(i + 1)));
        }
        i += 1;
    }
    proof {
        assert(all.take(n as int) =~= all);
        assert forall|path: Seq<char>| #[trigger] entries@.contains_key(path) implies path_fits(
            path,
        ) by {
            let k = choose|k: int| 0 <= k < entries.keys().len() && #[trigger] entries.keys()[k]
                == path;
            assert(all[k].path == path);
        }
    }
    Ok(index)
}

/// A copy of a part of `buffer`.
fn copied(buffer: &[u8], from: usize, to: usize) -> (r: Vec<u8>)
    requires
        from <= to <= buffer.len(),
    ensures
        r@ == buffer@.subrange(from as int, to as int),
{
    let mut r: Vec<u8> = Vec::new();
    r.extend_from_slice(slice_subrange(buffer, from, to));
    assert(r@ =~= buffer@.subrange(from as int, to as int));
    r
}

/// Reads a path and its length at the cursor.
fn read_path(buffer: &[u8], cursor: &mut usize) -> (r: Result<String, StorageError>)
    requires
        *old(cursor) <= buffer.len(),
    ensures
        *final(cursor) <= buffer.len(),
        match decoded_path(buffer@.skip(*old(cursor) as int)) {
            Ok((path, used)) => {
                &&& r matches Ok(s)
                &&& s@ == path
                &&& is_canonical(path)
                &&& *final(cursor) == *old(cursor) + used
            },
            Err(error) => r == Err::<String, StorageError>(error),
        },
{
    let ghost rest = buffer@.skip(*cursor as int);
    let length: u32 = match read_u32(buffer, cursor) {
        Ok(length) => length,
        Err(error) => return Err(error),
    };
    assert(rest.take(4) =~= buffer@.subrange(*old(cursor) as int, *old(cursor) + 4));
    if length == 0 || length > 1048576 {
        return Err(StorageError::BadPathLength);
    }
    let length: usize = length as usize;
    if buffer.len() - *cursor < length {
        return Err(StorageError::UnexpectedEnd);
    }
    let raw: Vec<u8> = copied(buffer, *cursor, *cursor + length);
    assert(raw@ =~= rest.subrange(4, 4 + length));
    *cursor = *cursor + length;
    match decode_text(raw) {
        None => Err(StorageError::PathNotUtf8),
        Some(path) => normalize_virtual_path(path.as_str()),
    }
}

/// Reads the attributes of an entry at the cursor.
fn read_fields(buffer: &[u8], cursor: &mut usize, path: String) -> (r: Result<
    IndexEntry,
    StorageError,
>)
    requires
        *old(cursor) <= buffer.len(),
    ensures
        *final(cursor) <= buffer.len(),
        match decoded_fields(buffer@.skip(*old(cursor) as int)) {
            Ok(meta) => {
                &&& r matches Ok(entry)
                &&& entry@ == (EntryView { path: path@, meta })
                &&& *final(cursor) == *old(cursor) + 63
            },
            Err(error) => r == Err::<IndexEntry, StorageError>(error),
        },
{
    let ghost at = *cursor as int;
    let ghost rest = buffer@.skip(at);
    if *cursor == buffer.len() {
        return Err(StorageError::UnexpectedEnd);
    }
    let kind: EntryKind = match EntryKind::from_byte(buffer[*cursor]) {
        Ok(kind) => kind,
        Err(error) => return Err(error),
    };
    *cursor = *cursor + 1;
    let start_byte: u64 = match read_u64(buffer, cursor) {
        Ok(value) => value,
        Err(error) => return Err(error),
    };
    let block_length: u64 = match read_u64(buffer, cursor) {
        Ok(value) => value,
        Err(error) => return Err(error),
    };
    let mode: u16 = match read_u16(buffer, cursor) {
        Ok(value) => value,
        Err(error) => return Err(error),
    };
    let uid: u32 = match read_u32(buffer, cursor) {
        Ok(value) => value,
        Err(error) => return Err(error),
    };
    let gid: u32 = match read_u32(buffer, cursor) {
        Ok(value) => value,
        Err(error) => return Err(error),
    };
    proof {
        if at + 39 <= buffer.len() {
            assert(rest.subrange(27, 39) =~= buffer@.subrange(at + 27, at + 39));
        }
        if at + 51 <= buffer.len() {
            assert(rest.subrange(39, 51) =~= buffer@.subrange(at + 39, at + 51));
        }
        if at + 63 <= buffer.len() {
            assert(rest.subrange(51, 63) =~= buffer@.subrange(at + 51, at + 63));
        }
    }
    let atime: Timestamp = match read_timestamp(buffer, cursor) {
        Ok(value) => value,
        Err(error) => return Err(error),
    };
    let mtime: Timestamp = match read_timestamp(buffer, cursor) {
        Ok(value) => value,
        Err(error) => return Err(error),
    };
    let ctime: Timestamp = match read_timestamp(buffer, cursor) {
        Ok(value) => value,
        Err(error) => return Err(error),
    };
    proof {
        assert(rest.subrange(1, 9) =~= buffer@.subrange(at + 1, at + 9));
        assert(rest.subrange(9, 17) =~= buffer@.subrange(at + 9, at + 17));
        assert(rest.subrange(17, 19) =~= buffer@.subrange(at + 17, at + 19));
        assert(rest.subrange(19, 23) =~= buffer@.subrange(at + 19, at + 23));
        assert(rest.subrange(23, 27) =~= buffer@.subrange(at + 23, at + 27));
    }
    Ok(
        IndexEntry {
            virtual_path: path,
            kind,
            start_byte,
            block_length,
            mode,
            uid,
            gid,
            atime,
            mtime,
            ctime,
        },
    )
}

/// Reads the entry at the cursor of an index that begins at `pointer`.
fn read_entry(buffer: &[u8], cursor: &mut usize, pointer: u64) -> (r: Result<
    IndexEntry,
    StorageError,
>)
    requires
        *old(cursor) <= buffer.len(),
    ensures
        *final(cursor) <= buffer.len(),
        match decoded_entry(buffer@.skip(*old(cursor) as int), pointer) {
            Ok((entry, used)) => {
                &&& r matches Ok(e)
                &&& e@ == entry
                &&& is_canonical(entry.path)
                &&& *final(cursor) == *old(cursor) + used
            },
            Err(error) => r == Err::<IndexEntry, StorageError>(error),
        },
{
    let ghost rest = buffer@.skip(*cursor as int);
    let path: String = match read_path(buffer, cursor) {
        Ok(path) => path,
        Err(error) => return Err(error),
    };
    assert(rest.skip(*cursor - *old(cursor)) =~= buffer@.skip(*cursor as int));
    let entry: IndexEntry = match read_fields(buffer, cursor, path) {
        Ok(entry) => entry,
        Err(error) => return Err(error),
    };
    if !matches!(entry.kind, EntryKind::Directory) {
        match entry.start_byte.checked_add(entry.block_length) {
            None => return Err(StorageError::RangeOverflow),
            Some(end) => {
                if end > pointer {
                    return Err(StorageError::PayloadOutOfRange);
                }
            },
        }
    }
    Ok(entry)
}

/// Reads the index that begins at `pointer`; `buffer` is the archive from there on.
pub fn decode_index(buffer: &[u8], pointer: u64) -> (r: Result<
    PathMap<IndexEntry>,
    StorageError,
>)
    ensures
        match decoded_index(buffer@, pointer) {
            Ok(map) => r matches Ok(entries) && is_table(entries) && metas(entries@) == map,
            Err(error) => r == Err::<PathMap<IndexEntry>, StorageError>(error),
        },
{
    if buffer.len() < 4 {
        return Err(StorageError::UnexpectedEnd);
    }
    proof {
        let magic = buffer@.take(4);
        assert(magic == index_magic() <==> magic[0] == 77 && magic[1] == 79 && magic[2] == 83
            && magic[3] == 73) by {
            if magic[0] == 77 && magic[1] == 79 && magic[2] == 83 && magic[3] == 73 {
                assert(magic =~= index_magic());
            }
        }
    }
    if buffer[0] != 77 || buffer[1] != 79 || buffer[2] != 83 || buffer[3] != 73 {
        return Err(StorageError::BadIndexSignature);
    }
    let mut cursor: usize = 4;
    let count: u64 = match read_u64(buffer, &mut cursor) {
        Ok(count) => count,
        Err(error) => return Err(error),
    };
    if count > MAX_ENTRY_COUNT {
        return Err(StorageError::TooManyEntries);
    }
    let mut entries: PathMap<IndexEntry> = PathMap::new();
    let mut left: u64 = count;
    assert(metas(entries@) =~= Map::<Seq<char>, Meta>::empty());
    while left > 0
        invariant
            cursor <= buffer.len(),
            is_table(entries),
            decoded_index(buffer@, pointer) == decoded_entries(
                buffer@.skip(cursor as int),
                left as nat,
                pointer,
                metas(entries@),
            ),
        decreases left,
    {
        let ghost at = cursor as int;
        let entry: IndexEntry = match read_entry(buffer, &mut cursor, pointer) {
            Ok(entry) => entry,
            Err(error) => return Err(error),
        };
        assert(buffer@.skip(at).skip(cursor - at) =~= buffer@.skip(cursor as int));
        let ghost before = entries@;
        let path: String = entry.virtual_path.clone();
        proof {
            lemma_table_insert(before, path@, entry);
        }
        if entries.insert(path, entry).is_some() {
            return Err(StorageError::DuplicatePath);
        }
        left -= 1;
    }
    Ok(entries)
}

/// The attributes of a file that a legacy index lists.
pub open spec fn legacy_meta(start: u64, length: u64, uid: u32, gid: u32, now: Timestamp) -> Meta {
    Meta {
        kind: EntryKind::File,
        start_byte: start,
        block_length: length,
        mode: 0o644,
        uid,
        gid,
        atime: now,
        mtime: now,
        ctime: now,
    }
}

/// The path and the payload of the legacy entry at the beginning of `rest`, and the number of
/// bytes that the entry takes.
pub open spec fn decoded_legacy_entry(rest: Seq<u8>, pointer: u64) -> Result<
    (Seq<char>, u64, u64, nat),
    StorageError,
> {
    let length = le_value(rest.take(2));
    let raw = rest.subrange(2, 2 + length as int);
    let start = le_value(rest.subrange(2 + length as int, 10 + length as int));
    let size = le_value(rest.subrange(10 + length as int, 18 + length as int));
    if rest.len() < 2 {
        Err(StorageError::LegacyTruncated)
    } else if length == 0 || rest.len() - 2 < length + 24 {
        Err(StorageError::LegacyBadEntry)
    } else if !valid_utf8(raw) {
        Err(StorageError::LegacyPathNotUtf8)
    } else {
        match normalized(decode_utf8(raw)) {
            Err(error) => Err(error),
            Ok(path) => if start + size > u64::MAX {
                Err(StorageError::LegacyRangeOverflow)
            } else if start + size > pointer {
                Err(StorageError::LegacyOutOfRange)
            } else {
                Ok((path, start as u64, size as u64, 26 + length))
            },
        }
    }
}

/// The files that the legacy index `rest` lists, together with those that were `found` before. A
/// path that is listed twice has its last payload.
pub open spec fn decoded_legacy(
    rest: Seq<u8>,
    pointer: u64,
    uid: u32,
    gid: u32,
    now: Timestamp,
    found: Map<Seq<char>, Meta>,
) -> Result<Map<Seq<char>, Meta>, StorageError>
    decreases rest.len(),
{
    if rest.len() == 0 {
        Ok(found)
    } else {
        match decoded_legacy_entry(rest, pointer) {
            Err(error) => Err(error),
            Ok((path, start, length, used)) => decoded_legacy(
                rest.skip(used as int),
                pointer,
                uid,
                gid,
                now,
                found.insert(path, legacy_meta(start, length, uid, gid, now)),
            ),
        }
    }
}

/// Reads the legacy entry at the cursor.
fn read_legacy_entry(buffer: &[u8], cursor: &mut usize, pointer: u64) -> (r: Result<
    (String, u64, u64),
    StorageError,
>)
    requires
        *old(cursor) <= buffer.len(),
    ensures
        *final(cursor) <= buffer.len(),
        match decoded_legacy_entry(buffer@.skip(*old(cursor) as int), pointer) {
            Ok((path, start, length, used)) => {
                &&& r matches Ok((p, s, l))
                &&& p@ == path && s == start && l == length
                &&& is_canonical(path)
                &&& *final(cursor) == *old(cursor) + used
                &&& used > 0
            },
            Err(error) => r == Err::<(String, u64, u64), StorageError>(error),
        },
{
    let ghost at = *cursor as int;
    let ghost rest = buffer@.skip(at);
    if buffer.len() - *cursor < 2 {
        return Err(StorageError::LegacyTruncated);
    }
    proof {
        lemma_byte_range();
    }
    let path_length: usize = get_le(buffer, *cursor, 2) as usize;
    assert(rest.take(2) =~= buffer@.subrange(at, at + 2));
    *cursor = *cursor + 2;
    if path_length == 0 || buffer.len() - *cursor < path_length + 24 {
        return Err(StorageError::LegacyBadEntry);
    }
    let raw: Vec<u8> = copied(buffer, *cursor, *cursor + path_length);
    assert(raw@ =~= rest.subrange(2, 2 + path_length));
    let path: String = match decode_text(raw) {
        None => return Err(StorageError::LegacyPathNotUtf8),
        Some(text) => match normalize_virtual_path(text.as_str()) {
            Ok(path) => path,
            Err(error) => return Err(error),
        },
    };
    *cursor = *cursor + path_length;
    let ghost field = *cursor as int;
    let start_byte: u64 = match read_u64_slice(buffer, cursor) {
        Ok(value) => value,
        Err(error) => return Err(error),
    };
    let block_length: u64 = match read_u64_slice(buffer, cursor) {
        Ok(value) => value,
        Err(error) => return Err(error),
    };
    match read_u64_slice(buffer, cursor) {
        Ok(_) => {},
        Err(error) => return Err(error),
    }
    proof {
        assert(rest.subrange(2 + path_length, 10 + path_length) =~= buffer@.subrange(
            field,
            field + 8,
        ));
        assert(rest.subrange(10 + path_length, 18 + path_length) =~= buffer@.subrange(
            field + 8,
            field + 16,
        ));
    }
    match start_byte.checked_add(block_length) {
        None => Err(StorageError::LegacyRangeOverflow),
        Some(end) => {
            if end > pointer {
                Err(StorageError::LegacyOutOfRange)
            } else {
                Ok((path, start_byte, block_length))
            }
        },
    }
}

/// Reads the legacy index that begins at `pointer`; `buffer` is the archive from there on. The
/// files get the given owner and times.
pub fn decode_legacy_index(
    buffer: &[u8],
    pointer: u64,
    uid: u32,
    gid: u32,
    now: Timestamp,
) -> (r: Result<PathMap<IndexEntry>, StorageError>)
    ensures
        match decoded_legacy(buffer@, pointer, uid, gid, now, Map::<Seq<char>, Meta>::empty()) {
            Ok(map) => r matches Ok(entries) && is_table(entries) && metas(entries@) == map,
            Err(error) => r == Err::<PathMap<IndexEntry>, StorageError>(error),
        },
{
    let mut entries: PathMap<IndexEntry> = PathMap::new();
    let mut cursor: usize = 0;
    let ghost goal = decoded_legacy(
        buffer@,
        pointer,
        uid,
        gid,
        now,
        Map::<Seq<char>, Meta>::empty(),
    );
    assert(metas(entries@) =~= Map::<Seq<char>, Meta>::empty());
    assert(buffer@.skip(0) =~= buffer@);
    while cursor < buffer.len()
        invariant
            cursor <= buffer.len(),
            is_table(entries),
            goal == decoded_legacy(buffer@, pointer, uid, gid, now, Map::<Seq<char>, Meta>::empty()),
            goal == decoded_legacy(
                buffer@.skip(cursor as int),
                pointer,
                uid,
                gid,
                now,
                metas(entries@),
            ),
        decreases buffer.len() - cursor,
    {
        let ghost at = cursor as int;
        let (path, start_byte, block_length) = match read_legacy_entry(
            buffer,
            &mut cursor,
            pointer,
        ) {
            Ok(parts) => parts,
            Err(error) => return Err(error),
        };
        assert(buffer@.skip(at).skip(cursor - at) =~= buffer@.skip(cursor as int));
        let entry = IndexEntry {
            virtual_path: path.clone(),
            kind: EntryKind::File,
            start_byte,
            block_length,
            mode: 0o644,
            uid,
            gid,
            atime: now,
            mtime: now,
            ctime: now,
        };
        let ghost before = entries@;
        proof {
            lemma_table_insert(before, path@, entry);
        }
        entries.insert(path, entry);
    }
    Ok(entries)
}

} // verus!
