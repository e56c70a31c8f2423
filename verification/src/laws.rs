//! What holds of an archive and the file that holds it, whatever is done to them.
use vstd::prelude::*;
use vstd::utf8::*;
use vstd::set_lib::{lemma_int_range, lemma_len_subset, lemma_set_disjoint_lens, set_int_range};
use crate::bytes::{le_value, lemma_byte_range, lemma_le_bytes_len, lemma_le_value_bound};
use crate::entry::{EntryView, Meta};
use crate::error::StorageError;
use crate::file::{after_ops, decoded_header, header_bytes, law_header_round_trip,
    lemma_after_concat, lemma_locator_len, locator_bytes, magic, patched, Header, OpView,
    HEADER_SIZE, LEGACY_VERSION, VERSION};
use crate::index::{decoded_entries, decoded_entry, decoded_legacy, decoded_legacy_entry,
    distinct_paths, entries_bytes, index_bytes, is_listing, is_storable, law_index_round_trip,
    law_listing_unique, legacy_meta, lemma_field_bytes, lemma_listing_map, lemma_sorted_listing,
    listing_of, path_fits, paths_of, MAX_ENTRY_COUNT, MAX_PATH_LENGTH};
use crate::path::{is_canonical, is_under, law_moved_back, law_normalized_is_canonical,
    law_normalizing_never_lengthens, moved, normalized};
use crate::storage::{all_fit, came_from, file_written, flush_ops, has_payload, is_due,
    lemma_archive, lemma_payload_end_grows, lemma_repacked_listing, live_extents, located, marked,
    moved_entries, opened, payload_end, recorded, removed, repacked, repacked_entries, tree,
    upserted, with_metadata, without_tree, Extent, Moss, MossView, CHECKPOINT_MUTATIONS};
use crate::time::Timestamp;

verus! {

/// The file is long enough for a header and begins with the signature.
pub open spec fn is_archive(image: Seq<u8>) -> bool {
    image.len() >= HEADER_SIZE && image.take(4) == magic()
}

/// The bytes of an entry in the file.
pub open spec fn content(image: Seq<u8>, meta: Meta) -> Seq<u8> {
    if has_payload(meta) {
        image.subrange(meta.start_byte as int, meta.start_byte + meta.block_length)
    } else {
        Seq::<u8>::empty()
    }
}

/// The payload of `meta` lies within `length` bytes.
pub open spec fn lies_within(meta: Meta, length: nat) -> bool {
    has_payload(meta) ==> meta.start_byte + meta.block_length <= length
}

/// The payload of `meta` lies within `length` bytes, and its times are valid.
pub open spec fn is_sound_meta(meta: Meta, length: nat) -> bool {
    &&& meta.kind !is Directory ==> meta.start_byte + meta.block_length <= length
    &&& meta.atime.is_valid()
    &&& meta.mtime.is_valid()
    &&& meta.ctime.is_valid()
}

/// All entries fit a file of `length` bytes.
pub open spec fn is_sound(entries: Map<Seq<char>, Meta>, length: nat) -> bool {
    forall|path: Seq<char>| #[trigger]
        entries.contains_key(path) ==> is_sound_meta(entries[path], length)
}

/// No payload lies in the header. Archives are written so, but a file can claim otherwise.
pub open spec fn is_clear(entries: Map<Seq<char>, Meta>) -> bool {
    forall|path: Seq<char>| #[trigger]
        entries.contains_key(path) ==> is_clear_meta(entries[path])
}

/// The payload of `meta` does not lie in the header.
pub open spec fn is_clear_meta(meta: Meta) -> bool {
    has_payload(meta) ==> meta.start_byte >= HEADER_SIZE
}

/// The payload of `meta` does not lie where the header says where the index is.
pub open spec fn avoids_locator(meta: Meta) -> bool {
    has_payload(meta) ==> meta.start_byte >= 14 || meta.start_byte + meta.block_length <= 4
}

/// Every path is written as archives keep it.
pub open spec fn is_canonical_table(entries: Map<Seq<char>, Meta>) -> bool {
    forall|path: Seq<char>| #[trigger] entries.contains_key(path) ==> is_canonical(path)
}

/// No byte of the file belongs to two payloads.
pub open spec fn is_disjoint(entries: Map<Seq<char>, Meta>) -> bool {
    forall|a: Seq<char>, b: Seq<char>|
        #[trigger] entries.contains_key(a) && #[trigger] entries.contains_key(b) && a != b
            ==> are_apart(entries[a], entries[b])
}

/// Two payloads do not overlap.
pub open spec fn are_apart(a: Meta, b: Meta) -> bool {
    has_payload(a) && has_payload(b) ==> {
        ||| a.start_byte + a.block_length <= b.start_byte
        ||| b.start_byte + b.block_length <= a.start_byte
    }
}

/// Two files hold the same bytes for every entry.
pub open spec fn same_contents(entries: Map<Seq<char>, Meta>, a: Seq<u8>, b: Seq<u8>) -> bool {
    forall|path: Seq<char>| #[trigger]
        entries.contains_key(path) ==> content(a, entries[path]) == content(b, entries[path])
}

/// The file opens as an archive with just these entries and its index at `pointer`.
pub open spec fn opens_as(image: Seq<u8>, entries: Map<Seq<char>, Meta>, pointer: u64) -> bool {
    let header = Header { version: VERSION, index_pointer: pointer };
    &&& decoded_header(image, image.len() as u64) == Ok::<Header, StorageError>(header)
    &&& forall|uid: u32, gid: u32, now: Timestamp| #[trigger]
        opened(header, image.skip(pointer as int), uid, gid, now) == Ok::<
            Map<Seq<char>, Meta>,
            StorageError,
        >(entries)
}

/// The steps of a flush, one by one.
pub proof fn lemma_flush_ops(image: Seq<u8>, entries: Map<Seq<char>, Meta>, end: u64)
    requires
        end == image.len(),
        image.len() >= HEADER_SIZE,
    ensures
        after_ops(image, flush_ops(entries, end)) == image.take(4) + locator_bytes(end)
            + image.skip(14) + index_bytes(listing_of(entries)),
{
    let ops = flush_ops(entries, end);
    let index = index_bytes(listing_of(entries));
    reveal_with_fuel(after_ops, 5);
    lemma_locator_len(end);
    let d3 = ops.drop_last();
    let d2 = d3.drop_last();
    let d1 = d2.drop_last();
    assert(d1.drop_last().len() == 0);
    assert(after_ops(image, d1) == image + index);
    assert(after_ops(image, d2) == image + index);
    assert(after_ops(image, d3) == patched(image + index, 4, locator_bytes(end)));
    assert(after_ops(image, ops) =~= image.take(4) + locator_bytes(end) + image.skip(14) + index);
}

/// Writing the index leaves a file that opens as the same archive, and leaves every payload as it
/// was that does not lie where the header is rewritten. Left out are archives that the index format
/// cannot hold: with too many entries, or with payloads or times that are refused when they are
/// read back.
pub proof fn law_flush_then_open(image: Seq<u8>, moss: Moss)
    requires
        moss.wf(),
        is_archive(image),
        is_sound(moss@.entries, image.len()),
        all_fit(moss@.entries),
        listing_of(moss@.entries).len() <= MAX_ENTRY_COUNT,
        image.len() + index_bytes(listing_of(moss@.entries)).len() <= u64::MAX,
    ensures
        ({
            let end = image.len() as u64;
            let after = after_ops(image, flush_ops(moss@.entries, end));
            &&& is_archive(after)
            &&& opens_as(after, moss@.entries, end)
            &&& is_sound(moss@.entries, after.len())
            &&& is_clear(moss@.entries) ==> same_contents(moss@.entries, image, after)
            &&& forall|path: Seq<char>| #[trigger]
                moss@.entries.contains_key(path) && avoids_locator(moss@.entries[path]) ==> content(
                    image,
                    moss@.entries[path],
                ) == content(after, moss@.entries[path])
        }),
{
    lemma_archive(moss);
    lemma_flushed(image, moss@.entries);
}

/// The file after the index was written, also where it holds more than can be opened.
pub proof fn lemma_flushed(image: Seq<u8>, entries: Map<Seq<char>, Meta>)
    requires
        is_listing(listing_of(entries), entries),
        is_canonical_table(entries),
        is_archive(image),
        is_sound(entries, image.len()),
        image.len() + index_bytes(listing_of(entries)).len() <= u64::MAX,
    ensures
        ({
            let end = image.len() as u64;
            let after = after_ops(image, flush_ops(entries, end));
            &&& after.len() == image.len() + index_bytes(listing_of(entries)).len()
            &&& is_archive(after)
            &&& all_fit(entries) && listing_of(entries).len() <= MAX_ENTRY_COUNT ==> opens_as(
                after,
                entries,
                end,
            )
            &&& is_sound(entries, after.len())
            &&& is_clear(entries) ==> same_contents(entries, image, after)
            &&& forall|path: Seq<char>| #[trigger]
                entries.contains_key(path) && avoids_locator(entries[path]) ==> content(
                    image,
                    entries[path],
                ) == content(after, entries[path])
        }),
{
    let end = image.len() as u64;
    let listing = listing_of(entries);
    let after = after_ops(image, flush_ops(entries, end));
    lemma_flush_ops(image, entries, end);
    lemma_locator_len(end);
    assert(after.skip(image.len() as int) =~= index_bytes(listing));
    if all_fit(entries) && listing.len() <= MAX_ENTRY_COUNT {
        lemma_stored_index(entries, listing, end, after, image.len() as int);
    }
    assert(after.take(4) =~= image.take(4));
    assert(after.subrange(4, 14) =~= locator_bytes(end));
    law_header_round_trip(after, end);
    assert forall|path: Seq<char>| #[trigger] entries.contains_key(path) && avoids_locator(
        entries[path],
    ) implies content(image, entries[path]) == content(after, entries[path]) by {
        let meta = entries[path];
        assert(is_sound_meta(meta, image.len()));
        if has_payload(meta) {
            assert(content(image, meta) =~= content(after, meta));
        }
    }
    assert forall|path: Seq<char>| #[trigger] entries.contains_key(path) implies is_sound_meta(
        entries[path],
        after.len(),
    ) by {
        assert(is_sound_meta(entries[path], image.len()));
    }
}

/// An index of sound entries at `at` is read back.
proof fn lemma_stored_index(
    entries: Map<Seq<char>, Meta>,
    listing: Seq<EntryView>,
    pointer: u64,
    image: Seq<u8>,
    at: int,
)
    requires
        is_listing(listing, entries),
        forall|path: Seq<char>| #[trigger] entries.contains_key(path) ==> is_canonical(path),
        is_sound(entries, pointer as nat),
        all_fit(entries),
        listing.len() <= MAX_ENTRY_COUNT,
        at == pointer,
        at <= image.len(),
        image.skip(at) == index_bytes(listing),
    ensures
        forall|uid: u32, gid: u32, now: Timestamp| #[trigger]
            opened(
                Header { version: VERSION, index_pointer: pointer },
                image.skip(pointer as int),
                uid,
                gid,
                now,
            ) == Ok::<Map<Seq<char>, Meta>, StorageError>(entries),
{
    lemma_sorted_listing(listing);
    lemma_listing_map(listing);
    assert forall|i: int| 0 <= i < listing.len() implies is_storable(
        #[trigger] listing[i],
        pointer,
    ) by {
        assert(entries.contains_key(listing[i].path));
        assert(entries[listing[i].path] == listing[i].meta);
        assert(is_sound_meta(listing[i].meta, pointer as nat));
    }
    let none = Seq::<u8>::empty();
    assert(index_bytes(listing) + none =~= index_bytes(listing));
    law_index_round_trip(listing, pointer, none);
}

/// A new archive opens as an empty one.
pub proof fn law_create_then_open()
    ensures
        ({
            let none = Map::<Seq<char>, Meta>::empty();
            let steps = seq![OpView::Append(header_bytes(HEADER_SIZE)), OpView::SyncData]
                + flush_ops(none, HEADER_SIZE);
            let image = after_ops(Seq::<u8>::empty(), steps);
            &&& is_archive(image)
            &&& opens_as(image, none, HEADER_SIZE)
            &&& is_sound(none, image.len())
            &&& image.len() == HEADER_SIZE + 12
        }),
{
    let none = Map::<Seq<char>, Meta>::empty();
    let empty = Seq::<u8>::empty();
    let first = seq![OpView::Append(header_bytes(HEADER_SIZE)), OpView::SyncData];
    let steps = first + flush_ops(none, HEADER_SIZE);
    let start = after_ops(empty, first);
    let listing = Seq::<EntryView>::empty();
    lemma_after_concat(empty, first, flush_ops(none, HEADER_SIZE));
    lemma_locator_len(HEADER_SIZE);
    assert(start == header_bytes(HEADER_SIZE)) by {
        reveal_with_fuel(after_ops, 3);
        assert(first.drop_last().drop_last().len() == 0);
        assert(after_ops(empty, first.drop_last()) =~= header_bytes(HEADER_SIZE));
    }
    assert(paths_of(listing) =~= Seq::<Seq<char>>::empty());
    assert(is_listing(listing, none));
    law_listing_unique(listing, listing, none);
    lemma_flush_ops(start, none, HEADER_SIZE);
    let image = after_ops(empty, steps);
    lemma_le_bytes_len(0, 8);
    assert(image.skip(64) =~= index_bytes(listing));
    lemma_stored_index(none, listing, HEADER_SIZE, image, 64);
    assert(start.take(4) =~= magic());
    assert(image.take(4) =~= magic());
    assert(image.subrange(4, 14) =~= locator_bytes(HEADER_SIZE));
    law_header_round_trip(image, HEADER_SIZE);
}

/// What is written to a file is what is read from it, and all else stays as it was.
pub proof fn law_write_then_read(
    image: Seq<u8>,
    view: MossView,
    virtual_path: Seq<char>,
    data: Seq<u8>,
    uid: u32,
    gid: u32,
    now: Timestamp,
)
    requires
        is_archive(image),
        is_sound(view.entries, image.len()),
        now.is_valid(),
        data.len() <= usize::MAX,
        image.len() + data.len() <= u64::MAX,
    ensures
        file_written(view.entries, virtual_path, data, image.len() as u64, uid, gid, now) matches Ok(
            (entry, steps),
        ) ==> {
            let before = view.entries;
            let after = recorded(view, entry.path, entry.meta).entries;
            let written = after_ops(image, steps);
            &&& normalized(virtual_path) == Ok::<Seq<char>, StorageError>(entry.path)
            &&& located(after, entry.path) == Ok::<Extent, StorageError>(
                Extent { start: image.len() as u64, length: data.len() as u64 },
            )
            &&& content(written, after[entry.path]) == data
            &&& is_archive(written)
            &&& is_sound(after, written.len())
            &&& is_disjoint(before) ==> is_disjoint(after)
            &&& is_clear(before) ==> is_clear(after)
            &&& forall|path: Seq<char>|
                path != entry.path ==> (#[trigger] after.contains_key(path)
                    <==> before.contains_key(path)) && (before.contains_key(path) ==> after[path]
                    == before[path] && content(written, after[path]) == content(
                    image,
                    before[path],
                ))
        },
{
    let end = image.len() as u64;
    let before = view.entries;
    if let Ok((entry, steps)) = file_written(before, virtual_path, data, end, uid, gid, now) {
        let after = recorded(view, entry.path, entry.meta).entries;
        let written = after_ops(image, steps);
        lemma_append_one(image, data);
        assert(written == image + data);
        assert(written.take(4) =~= image.take(4));
        assert(written.subrange(image.len() as int, (image.len() + data.len()) as int) =~= data);
        if before.contains_key(entry.path) {
            assert(is_sound_meta(before[entry.path], image.len()));
        }
        if data.len() == 0 {
            assert(data =~= Seq::<u8>::empty());
        }
        assert forall|path: Seq<char>| path != entry.path && before.contains_key(path) implies content(
            written,
            before[path],
        ) == content(image, before[path]) by {
            let meta = before[path];
            assert(is_sound_meta(meta, image.len()));
            if has_payload(meta) {
                assert(content(written, meta) =~= content(image, meta));
            }
        }
        assert forall|path: Seq<char>| #[trigger] after.contains_key(path) implies is_sound_meta(
            after[path],
            written.len(),
        ) by {
            if path != entry.path {
                assert(before.contains_key(path));
                assert(is_sound_meta(before[path], image.len()));
            }
        }
        if is_disjoint(before) {
            assert forall|a: Seq<char>, b: Seq<char>|
                #[trigger] after.contains_key(a) && #[trigger] after.contains_key(b) && a
                    != b implies are_apart(after[a], after[b]) by {
                assert(a != entry.path ==> before.contains_key(a));
                assert(b != entry.path ==> before.contains_key(b));
                assert(a != entry.path ==> is_sound_meta(before[a], image.len()));
                assert(b != entry.path ==> is_sound_meta(before[b], image.len()));
            }
        }
    }
}

proof fn lemma_append_one(image: Seq<u8>, data: Seq<u8>)
    ensures
        after_ops(image, seq![OpView::Append(data)]) == image + data,
{
    let steps = seq![OpView::Append(data)];
    reveal_with_fuel(after_ops, 2);
    assert(steps.drop_last().len() == 0);
    assert(steps.last() == OpView::Append(data));
}

/// An entry without data keeps the payload of the entry that it replaces.
pub proof fn law_upsert_keeps_payload(image: Seq<u8>, view: MossView, entry: EntryView)
    requires
        entry.meta.kind !is Directory,
    ensures
        upserted(view.entries, entry, None::<Seq<u8>>, image.len() as u64) matches Ok(
            (stored, steps),
        ) ==> steps.len() == 0 && (view.entries.contains_key(stored.path)
            && view.entries[stored.path].kind !is Directory ==> content(image, stored.meta)
            == content(image, view.entries[stored.path])),
{
}

/// Recording an entry keeps an archive sound, gives the entry the bytes that came with it, and
/// leaves all else as it was. Left out are entries without bytes that claim to begin after the end
/// of the file, and those that take over the place of a directory that claims bytes, which nothing
/// has checked: they are recorded as they come, and may be refused when they are read back.
pub proof fn law_upsert_keeps_sound(
    image: Seq<u8>,
    view: MossView,
    entry: EntryView,
    data: Option<Seq<u8>>,
)
    requires
        is_archive(image),
        is_sound(view.entries, image.len()),
        entry.meta.atime.is_valid(),
        entry.meta.mtime.is_valid(),
        entry.meta.ctime.is_valid(),
        data is None ==> entry.meta.start_byte <= image.len(),
        data is None && entry.meta.kind !is Directory ==> forall|path: Seq<char>| #[trigger]
            view.entries.contains_key(path) && normalized(entry.path) == Ok::<
                Seq<char>,
                StorageError,
            >(path) ==> view.entries[path].kind !is Directory || (view.entries[path].block_length == 0
                && view.entries[path].start_byte <= image.len()),
        image.len() <= u64::MAX,
        data matches Some(bytes) ==> bytes.len() <= usize::MAX && image.len() + bytes.len()
            <= u64::MAX,
    ensures
        upserted(view.entries, entry, data, image.len() as u64) matches Ok((stored, steps)) ==> {
            let before = view.entries;
            let after = recorded(view, stored.path, stored.meta).entries;
            let written = after_ops(image, steps);
            &&& normalized(entry.path) == Ok::<Seq<char>, StorageError>(stored.path)
            &&& is_archive(written)
            &&& is_sound(after, written.len())
            &&& is_disjoint(before) ==> is_disjoint(after)
            &&& is_clear(before) ==> is_clear(after)
            &&& data is Some && entry.meta.kind !is Directory ==> content(
                written,
                after[stored.path],
            ) == data->0
            &&& forall|path: Seq<char>|
                path != stored.path ==> (#[trigger] after.contains_key(path)
                    <==> before.contains_key(path)) && (before.contains_key(path) ==> after[path]
                    == before[path] && content(written, after[path]) == content(
                    image,
                    before[path],
                ))
        },
{
    let end = image.len() as u64;
    if let Ok((stored, steps)) = upserted(view.entries, entry, data, end) {
        let before = view.entries;
        let after = recorded(view, stored.path, stored.meta).entries;
        let written = after_ops(image, steps);
        reveal_with_fuel(after_ops, 2);
        if data is Some && entry.meta.kind !is Directory {
            assert(steps.drop_last().len() == 0);
            assert(written =~= image + data->0);
            assert(content(written, stored.meta) =~= data->0);
        } else {
            assert(written =~= image);
        }
        assert(written.take(4) =~= image.take(4));
        assert forall|path: Seq<char>| #[trigger] after.contains_key(path) implies is_sound_meta(
            after[path],
            written.len(),
        ) by {
            if path != stored.path {
                assert(is_sound_meta(before[path], image.len()));
            } else if before.contains_key(path) {
                assert(is_sound_meta(before[path], image.len()));
            }
        }
        assert forall|path: Seq<char>|
            path != stored.path && #[trigger] before.contains_key(path) implies content(
            written,
            after[path],
        ) == content(image, before[path]) by {
            assert(is_sound_meta(before[path], image.len()));
            if has_payload(before[path]) {
                assert(content(written, after[path]) =~= content(image, before[path]));
            }
        }
        if is_disjoint(before) {
            assert forall|a: Seq<char>, b: Seq<char>|
                #[trigger] after.contains_key(a) && #[trigger] after.contains_key(b) && a
                    != b implies are_apart(after[a], after[b]) by {
                if before.contains_key(a) {
                    assert(is_sound_meta(before[a], image.len()));
                }
                if before.contains_key(b) {
                    assert(is_sound_meta(before[b], image.len()));
                }
                if before.contains_key(a) && before.contains_key(b) {
                    assert(are_apart(before[a], before[b]));
                }
            }
        }
    }
}

/// Changing the attributes of an entry changes its mode and its times as asked, and nothing else
/// of it, nor anything of another entry.
pub proof fn law_metadata_changes_only_attributes(
    view: MossView,
    virtual_path: Seq<char>,
    mode: Option<u16>,
    atime: Option<Timestamp>,
    mtime: Option<Timestamp>,
    now: Timestamp,
    length: nat,
)
    requires
        is_sound(view.entries, length),
        now.is_valid(),
        atime matches Some(t) ==> t.is_valid(),
        mtime matches Some(t) ==> t.is_valid(),
    ensures
        with_metadata(view, virtual_path, mode, atime, mtime, now) matches Ok(after) ==> {
            let before = view.entries;
            &&& after.entries.dom() == before.dom()
            &&& is_sound(after.entries, length)
            &&& is_disjoint(before) ==> is_disjoint(after.entries)
            &&& is_clear(before) ==> is_clear(after.entries)
            &&& forall|path: Seq<char>| #[trigger]
                before.contains_key(path) ==> {
                    let old_meta = before[path];
                    let new_meta = after.entries[path];
                    if normalized(virtual_path) == Ok::<Seq<char>, StorageError>(path) {
                        new_meta == Meta {
                            mode: if mode is Some {
                                mode->0
                            } else {
                                old_meta.mode
                            },
                            atime: if atime is Some {
                                atime->0
                            } else {
                                old_meta.atime
                            },
                            mtime: if mtime is Some {
                                mtime->0
                            } else {
                                old_meta.mtime
                            },
                            ctime: now,
                            ..old_meta
                        }
                    } else {
                        new_meta == old_meta
                    }
                }
        },
{
    if let Ok(after) = with_metadata(view, virtual_path, mode, atime, mtime, now) {
        assert(after.entries.dom() =~= view.entries.dom());
        assert forall|path: Seq<char>| #[trigger] after.entries.contains_key(
            path,
        ) implies is_sound_meta(after.entries[path], length) by {
            assert(is_sound_meta(view.entries[path], length));
        }
        if is_disjoint(view.entries) {
            assert forall|a: Seq<char>, b: Seq<char>|
                #[trigger] after.entries.contains_key(a) && #[trigger] after.entries.contains_key(b)
                    && a != b implies are_apart(after.entries[a], after.entries[b]) by {
                assert(are_apart(view.entries[a], view.entries[b]));
            }
        }
    }
}

/// What an archive holds that was opened: canonical paths that an index can hold, payloads that end
/// before the index, and valid times.
pub open spec fn is_checked(entries: Map<Seq<char>, Meta>, pointer: u64) -> bool {
    &&& is_sound(entries, pointer as nat)
    &&& all_fit(entries)
    &&& forall|path: Seq<char>| #[trigger] entries.contains_key(path) ==> is_canonical(path)
}

/// A path that was read from bytes of a permitted length has a permitted length itself.
proof fn lemma_read_path_fits(raw: Seq<u8>, path: Seq<char>)
    requires
        raw.len() <= MAX_PATH_LENGTH,
        valid_utf8(raw),
        normalized(decode_utf8(raw)) == Ok::<Seq<char>, StorageError>(path),
    ensures
        is_canonical(path),
        path_fits(path),
{
    law_normalized_is_canonical(decode_utf8(raw));
    law_normalizing_never_lengthens(decode_utf8(raw));
    decode_utf8_encode_utf8(raw);
    encode_utf8_first_scalar(path);
}

proof fn lemma_decoded_checked(
    rest: Seq<u8>,
    count: nat,
    pointer: u64,
    found: Map<Seq<char>, Meta>,
)
    requires
        is_checked(found, pointer),
    ensures
        decoded_entries(rest, count, pointer, found) matches Ok(entries) ==> is_checked(
            entries,
            pointer,
        ),
    decreases count,
{
    if count > 0 {
        if let Ok((entry, used)) = decoded_entry(rest, pointer) {
            let raw = rest.subrange(4, 4 + le_value(rest.take(4)) as int);
            lemma_read_path_fits(raw, entry.path);
            assert(is_sound_meta(entry.meta, pointer as nat));
            lemma_decoded_checked(
                rest.skip(used as int),
                (count - 1) as nat,
                pointer,
                found.insert(entry.path, entry.meta),
            );
        }
    }
}

proof fn lemma_legacy_checked(
    rest: Seq<u8>,
    pointer: u64,
    uid: u32,
    gid: u32,
    now: Timestamp,
    found: Map<Seq<char>, Meta>,
)
    requires
        is_checked(found, pointer),
        now.is_valid(),
    ensures
        decoded_legacy(rest, pointer, uid, gid, now, found) matches Ok(entries) ==> is_checked(
            entries,
            pointer,
        ),
    decreases rest.len(),
{
    if rest.len() > 0 {
        if let Ok((path, start, length, used)) = decoded_legacy_entry(rest, pointer) {
            lemma_le_value_bound(rest.take(2));
            lemma_byte_range();
            lemma_read_path_fits(rest.subrange(2, 2 + le_value(rest.take(2)) as int), path);
            assert(is_sound_meta(legacy_meta(start, length, uid, gid, now), pointer as nat));
            lemma_legacy_checked(
                rest.skip(used as int),
                pointer,
                uid,
                gid,
                now,
                found.insert(path, legacy_meta(start, length, uid, gid, now)),
            );
        }
    }
}

/// A file that opens holds only entries that were checked, whatever its bytes are.
pub proof fn law_open_checks_everything(
    header: Header,
    rest: Seq<u8>,
    uid: u32,
    gid: u32,
    now: Timestamp,
)
    requires
        now.is_valid(),
    ensures
        opened(header, rest, uid, gid, now) matches Ok(entries) ==> is_checked(
            entries,
            header.index_pointer,
        ),
{
    let none = Map::<Seq<char>, Meta>::empty();
    if header.version == LEGACY_VERSION {
        lemma_legacy_checked(rest, header.index_pointer, uid, gid, now, none);
    } else {
        lemma_decoded_checked(
            rest.skip(12),
            le_value(rest.subrange(4, 12)),
            header.index_pointer,
            none,
        );
    }
}

/// Removing takes away what was named and all below it, and nothing else.
pub proof fn law_remove(moss: Moss, virtual_path: Seq<char>)
    requires
        moss.wf(),
    ensures
        (normalized(virtual_path), removed(moss@, virtual_path)) matches (
            Ok(path),
            Ok((after, count)),
        ) ==> {
            let before = moss@.entries;
            &&& forall|k: Seq<char>| #[trigger]
                after.entries.contains_key(k) <==> before.contains_key(k) && !is_under(k, path)
            &&& forall|k: Seq<char>| #[trigger]
                after.entries.contains_key(k) ==> after.entries[k] == before[k]
            &&& count == 0 <==> forall|k: Seq<char>| #[trigger]
                before.contains_key(k) ==> !is_under(k, path)
            &&& removed(after, virtual_path) == Ok::<(MossView, nat), StorageError>((after, 0))
        },
{
    if let Ok(path) = normalized(virtual_path) {
        let before = moss@.entries;
        let all = tree(before, path);
        lemma_finite(moss);
        assert(all.subset_of(before.dom()));
        lemma_len_subset(all, before.dom());
        if all.len() == 0 {
            assert forall|k: Seq<char>| #[trigger] before.contains_key(k) implies !is_under(
                k,
                path,
            ) by {
                if is_under(k, path) {
                    assert(all.contains(k));
                    assert(all =~= Set::<Seq<char>>::empty());
                }
            }
        } else {
            let k = all.choose();
            assert(all.contains(k));
            assert(before.contains_key(k) && is_under(k, path));
        }
        if let Ok((after, count)) = removed(moss@, virtual_path) {
            if count > 0 {
                assert(tree(after.entries, path) =~= Set::<Seq<char>>::empty());
            }
        }
    }
}

/// An archive has finitely many entries.
pub proof fn lemma_finite(moss: Moss)
    requires
        moss.wf(),
    ensures
        moss@.entries.dom().finite(),
{
    lemma_archive(moss);
    let listing = listing_of(moss@.entries);
    lemma_listing_map(listing);
    let paths = paths_of(listing);
    assert(moss@.entries.dom() =~= paths.to_set()) by {
        assert forall|k: Seq<char>| moss@.entries.contains_key(k) <==> paths.to_set().contains(
            k,
        ) by {
            if moss@.entries.contains_key(k) {
                let i = choose|i: int| 0 <= i < listing.len() && (#[trigger] listing[i]).path == k;
                assert(paths[i] == k);
            }
            if paths.contains(k) {
                let i = choose|i: int| 0 <= i < paths.len() && paths[i] == k;
                assert(moss@.entries.contains_key(listing[i].path));
            }
        }
    }
    vstd::seq_lib::seq_to_set_is_finite(paths);
}

/// Moving keeps every payload: what was at a path below the old one is found at the same place
/// below the new one, what lay elsewhere and is not replaced stays, and nothing is left behind.
pub proof fn law_rename_keeps_payloads(
    image: Seq<u8>,
    entries: Map<Seq<char>, Meta>,
    from: Seq<char>,
    to: Seq<char>,
    now: Timestamp,
)
    requires
        !is_under(to, from),
    ensures
        ({
            let after = moved_entries(entries, from, to, now);
            &&& forall|k: Seq<char>| #[trigger]
                entries.contains_key(k) && is_under(k, from) ==> {
                    let target = moved(k, from, to);
                    &&& after.contains_key(target)
                    &&& after[target] == (Meta { ctime: now, ..entries[k] })
                    &&& content(image, after[target]) == content(image, entries[k])
                }
            &&& forall|k: Seq<char>| #[trigger]
                entries.contains_key(k) && !is_under(k, from) && !is_under(k, to)
                    ==> after.contains_key(k) && after[k] == entries[k]
            &&& !is_under(from, to) ==> forall|k: Seq<char>| #[trigger]
                after.contains_key(k) ==> !is_under(k, from)
        }),
{
    let after = moved_entries(entries, from, to, now);
    assert forall|k: Seq<char>| #[trigger] entries.contains_key(k) && is_under(k, from) implies {
        let target = moved(k, from, to);
        &&& after.contains_key(target)
        &&& after[target] == (Meta { ctime: now, ..entries[k] })
        &&& content(image, after[target]) == content(image, entries[k])
    } by {
        law_moved_back(k, from, to);
    }
    if !is_under(from, to) {
        assert forall|k: Seq<char>| #[trigger] after.contains_key(k) implies !is_under(k, from) by {
            if is_under(k, from) {
                assert(is_under(k, to));
                lemma_under_both(k, from, to);
            }
        }
    }
}

/// Of two directories above one path, one lies under the other.
pub proof fn lemma_under_both(path: Seq<char>, a: Seq<char>, b: Seq<char>)
    requires
        is_under(path, a),
        is_under(path, b),
    ensures
        is_under(a, b) || is_under(b, a),
{
    lemma_under_chars(path, a);
    lemma_under_chars(path, b);
    if a.len() == b.len() {
        assert(a =~= b);
    } else if a.len() < b.len() {
        assert(a.push('/') =~= b.subrange(0, a.len() as int + 1));
    } else {
        assert(b.push('/') =~= a.subrange(0, b.len() as int + 1));
    }
}

/// A path begins with the directory that it is under.
pub proof fn lemma_under_chars(path: Seq<char>, directory: Seq<char>)
    requires
        is_under(path, directory),
    ensures
        directory.len() <= path.len(),
        forall|i: int| 0 <= i < directory.len() ==> path[i] == directory[i],
        path.len() > directory.len() ==> path[directory.len() as int] == '/',
{
    if path != directory {
        let prefix = directory.push('/');
        assert forall|i: int| 0 <= i <= directory.len() implies prefix[i] == path[i] by {
            assert(prefix[i] == path.subrange(0, prefix.len() as int)[i]);
        }
        assert forall|i: int| 0 <= i < directory.len() implies path[i] == directory[i] by {
            assert(prefix[i] == directory[i]);
        }
        assert(prefix[directory.len() as int] == '/');
    }
}

/// A move to a place where nothing was, and back again, changes nothing but the times of change.
pub proof fn law_rename_there_and_back(
    entries: Map<Seq<char>, Meta>,
    from: Seq<char>,
    to: Seq<char>,
    now: Timestamp,
    later: Timestamp,
)
    requires
        forall|k: Seq<char>| #[trigger] entries.contains_key(k) ==> !is_under(k, to),
        !is_under(to, from),
    ensures
        ({
            let back = moved_entries(moved_entries(entries, from, to, now), to, from, later);
            &&& back.dom() == entries.dom()
            &&& forall|k: Seq<char>| #[trigger]
                entries.contains_key(k) ==> back[k] == if is_under(k, from) {
                    Meta { ctime: later, ..entries[k] }
                } else {
                    entries[k]
                }
        }),
{
    let there = moved_entries(entries, from, to, now);
    let back = moved_entries(there, to, from, later);
    assert forall|k: Seq<char>| true implies (#[trigger] back.contains_key(k)
        <==> entries.contains_key(k)) && (entries.contains_key(k) ==> back[k] == if is_under(
        k,
        from,
    ) {
        Meta { ctime: later, ..entries[k] }
    } else {
        entries[k]
    }) by {
        if is_under(k, from) {
            law_moved_back(k, from, to);
        }
    }
    assert(back.dom() =~= entries.dom());
}

/// Moving and removing keep the entries sound.
pub proof fn law_rename_and_remove_keep_sound(
    entries: Map<Seq<char>, Meta>,
    from: Seq<char>,
    to: Seq<char>,
    now: Timestamp,
    length: nat,
)
    requires
        is_sound(entries, length),
        now.is_valid(),
    ensures
        is_sound(without_tree(entries, from), length),
        is_sound(moved_entries(entries, from, to, now), length),
        is_disjoint(entries) ==> is_disjoint(without_tree(entries, from)),
        is_disjoint(entries) ==> is_disjoint(moved_entries(entries, from, to, now)),
        is_clear(entries) ==> is_clear(without_tree(entries, from)),
        is_clear(entries) ==> is_clear(moved_entries(entries, from, to, now)),
{
    let after = moved_entries(entries, from, to, now);
    if is_disjoint(entries) {
        assert forall|a: Seq<char>, b: Seq<char>|
            #[trigger] after.contains_key(a) && #[trigger] after.contains_key(b) && a
                != b implies are_apart(after[a], after[b]) by {
            let p = if came_from(entries, a, from, to) {
                moved(a, to, from)
            } else {
                a
            };
            let q = if came_from(entries, b, from, to) {
                moved(b, to, from)
            } else {
                b
            };
            if came_from(entries, a, from, to) {
                law_moved_back(a, to, from);
            }
            if came_from(entries, b, from, to) {
                law_moved_back(b, to, from);
            }
            assert(p != q);
            assert(entries.contains_key(p) && entries.contains_key(q));
        }
    }
    assert forall|k: Seq<char>| #[trigger] after.contains_key(k) implies is_sound_meta(
        after[k],
        length,
    ) by {
        if is_under(k, to) && entries.contains_key(moved(k, to, from)) {
            assert(is_sound_meta(entries[moved(k, to, from)], length));
        } else {
            assert(is_sound_meta(entries[k], length));
        }
    }
}

/// Parts of a file, one after the other.
pub open spec fn gathered(image: Seq<u8>, parts: Seq<Extent>) -> Seq<u8>
    decreases parts.len(),
{
    if parts.len() == 0 {
        Seq::<u8>::empty()
    } else {
        gathered(image, parts.drop_last()) + image.subrange(
            parts.last().start as int,
            parts.last().start + parts.last().length,
        )
    }
}

/// The file that a compaction makes out of `image`: a header, the live payloads, and an index.
pub open spec fn compacted_image(image: Seq<u8>, entries: Map<Seq<char>, Meta>) -> Seq<u8> {
    let listing = listing_of(entries);
    after_ops(
        header_bytes(HEADER_SIZE) + gathered(image, live_extents(listing)),
        flush_ops(repacked_entries(entries), payload_end(listing) as u64),
    )
}

/// Gathered payloads end where they are said to end, and each is found in its place.
proof fn lemma_gathered(image: Seq<u8>, listing: Seq<EntryView>)
    requires
        forall|i: int|
            0 <= i < listing.len() ==> lies_within((#[trigger] listing[i]).meta, image.len()),
    ensures
        HEADER_SIZE + gathered(image, live_extents(listing)).len() == payload_end(listing),
        forall|i: int|
            0 <= i < listing.len() && has_payload((#[trigger] listing[i]).meta) ==> {
                let at = payload_end(listing.take(i)) - HEADER_SIZE;
                let n = listing[i].meta.block_length;
                &&& 0 <= at
                &&& at + n <= gathered(image, live_extents(listing)).len()
                &&& gathered(image, live_extents(listing)).subrange(at, at + n) == content(
                    image,
                    listing[i].meta,
                )
            },
    decreases listing.len(),
{
    if listing.len() > 0 {
        let less = listing.drop_last();
        let last = listing.last();
        assert forall|i: int| 0 <= i < less.len() implies lies_within(
            (#[trigger] less[i]).meta,
            image.len(),
        ) by {
            assert(lies_within(listing[i].meta, image.len()));
        }
        lemma_gathered(image, less);
        assert(lies_within(listing[listing.len() - 1].meta, image.len()));
        let before = gathered(image, live_extents(less));
        let after = gathered(image, live_extents(listing));
        if has_payload(last.meta) {
            assert(live_extents(listing).drop_last() =~= live_extents(less));
            assert(after == before + content(image, last.meta));
        }
        assert forall|i: int| 0 <= i < listing.len() && has_payload(
            (#[trigger] listing[i]).meta,
        ) implies {
            let at = payload_end(listing.take(i)) - HEADER_SIZE;
            let n = listing[i].meta.block_length;
            &&& 0 <= at
            &&& at + n <= after.len()
            &&& after.subrange(at, at + n) == content(image, listing[i].meta)
        } by {
            let at = payload_end(listing.take(i)) - HEADER_SIZE;
            let n = listing[i].meta.block_length;
            if i < less.len() {
                assert(less[i] == listing[i]);
                assert(less.take(i) =~= listing.take(i));
                assert(after.subrange(at, at + n) =~= before.subrange(at, at + n));
            } else {
                assert(listing.take(i) =~= less);
                assert(after.subrange(at, at + n) =~= content(image, last.meta));
            }
        }
    }
}

/// A path of the listing, and what is recorded for it.
pub proof fn lemma_listed(listing: Seq<EntryView>, entries: Map<Seq<char>, Meta>)
    requires
        is_listing(listing, entries),
    ensures
        forall|i: int|
            0 <= i < listing.len() ==> entries.contains_key((#[trigger] listing[i]).path)
                && entries[listing[i].path] == listing[i].meta,
        forall|path: Seq<char>| #[trigger]
            entries.contains_key(path) ==> exists|i: int|
                0 <= i < listing.len() && (#[trigger] listing[i]).path == path,
{
    lemma_sorted_listing(listing);
    lemma_listing_map(listing);
}

/// A compaction keeps every entry with its attributes and its bytes, also where the new file holds
/// more than can be opened. All that counts is that the payloads are in the old file, and that
/// their places in the new one can be written down.
pub proof fn law_compaction_keeps_contents(image: Seq<u8>, moss: Moss)
    requires
        moss.wf(),
        forall|path: Seq<char>| #[trigger]
            moss@.entries.contains_key(path) ==> lies_within(moss@.entries[path], image.len()),
        payload_end(listing_of(moss@.entries)) <= u64::MAX,
    ensures
        ({
            let before = moss@.entries;
            let after = repacked_entries(before);
            let file = compacted_image(image, before);
            &&& after.dom() == before.dom()
            &&& forall|path: Seq<char>| #[trigger]
                before.contains_key(path) ==> {
                    &&& lies_within(after[path], file.len())
                    &&& content(file, after[path]) == content(image, before[path])
                    &&& before[path] == (Meta {
                        start_byte: before[path].start_byte,
                        block_length: before[path].block_length,
                        ..after[path]
                    })
                }
        }),
{
    lemma_archive(moss);
    lemma_kept_contents(image, moss@.entries);
}

/// Each entry in its place in a compacted file.
proof fn lemma_kept_contents(image: Seq<u8>, before: Map<Seq<char>, Meta>)
    requires
        is_listing(listing_of(before), before),
        forall|path: Seq<char>| #[trigger]
            before.contains_key(path) ==> lies_within(before[path], image.len()),
        payload_end(listing_of(before)) <= u64::MAX,
    ensures
        ({
            let after = repacked_entries(before);
            let file = compacted_image(image, before);
            &&& after.dom() == before.dom()
            &&& forall|path: Seq<char>| #[trigger]
                before.contains_key(path) ==> {
                    &&& lies_within(after[path], file.len())
                    &&& content(file, after[path]) == content(image, before[path])
                    &&& before[path] == (Meta {
                        start_byte: before[path].start_byte,
                        block_length: before[path].block_length,
                        ..after[path]
                    })
                }
        }),
{
    let after = repacked_entries(before);
    let listing = listing_of(before);
    let packed = repacked(listing);
    let file = compacted_image(image, before);
    lemma_listed(listing, before);
    lemma_repacked_listing(before, listing);
    assert forall|i: int| 0 <= i < listing.len() implies lies_within(
        (#[trigger] listing[i]).meta,
        image.len(),
    ) by {
        assert(before.contains_key(listing[i].path));
    }
    lemma_compacted_contents(image, before, listing);
    assert forall|path: Seq<char>| #[trigger] before.contains_key(path) implies {
        &&& lies_within(after[path], file.len())
        &&& content(file, after[path]) == content(image, before[path])
        &&& before[path] == (Meta {
            start_byte: before[path].start_byte,
            block_length: before[path].block_length,
            ..after[path]
        })
    } by {
        let i = choose|i: int| 0 <= i < listing.len() && (#[trigger] listing[i]).path == path;
        assert(after[listing[i].path] == packed[i].meta);
        assert(lies_within(packed[i].meta, payload_end(listing)));
    }
    assert(after.dom() =~= before.dom());
}

/// A compaction keeps every entry with its attributes and its bytes. The new file opens as the
/// archive, and holds a header, the live payloads and an index, and nothing else.
pub proof fn law_compaction_keeps_everything(image: Seq<u8>, moss: Moss)
    requires
        moss.wf(),
        is_sound(moss@.entries, image.len()),
        all_fit(moss@.entries),
        listing_of(moss@.entries).len() <= MAX_ENTRY_COUNT,
        payload_end(listing_of(moss@.entries)) + index_bytes(listing_of(moss@.entries)).len()
            <= u64::MAX,
    ensures
        ({
            let before = moss@.entries;
            let after = repacked_entries(before);
            let listing = listing_of(before);
            let file = compacted_image(image, before);
            &&& is_archive(file)
            &&& opens_as(file, after, payload_end(listing) as u64)
            &&& file.len() == payload_end(listing) + index_bytes(listing).len()
            &&& is_sound(after, file.len())
            &&& is_disjoint(after)
            &&& is_clear(after)
            &&& after.dom() == before.dom()
            &&& forall|path: Seq<char>| #[trigger]
                before.contains_key(path) ==> {
                    &&& content(file, after[path]) == content(image, before[path])
                    &&& before[path] == (Meta {
                        start_byte: before[path].start_byte,
                        block_length: before[path].block_length,
                        ..after[path]
                    })
                }
        }),
{
    lemma_archive(moss);
    lemma_compacted(image, moss@.entries);
}

/// The archive in a compacted file, also where it holds more than can be opened.
pub proof fn lemma_compacted(image: Seq<u8>, before: Map<Seq<char>, Meta>)
    requires
        is_listing(listing_of(before), before),
        is_canonical_table(before),
        is_sound(before, image.len()),
        payload_end(listing_of(before)) + index_bytes(listing_of(before)).len() <= u64::MAX,
    ensures
        ({
            let after = repacked_entries(before);
            let listing = listing_of(before);
            let file = compacted_image(image, before);
            &&& is_archive(file)
            &&& all_fit(before) && listing.len() <= MAX_ENTRY_COUNT ==> opens_as(
                file,
                after,
                payload_end(listing) as u64,
            )
            &&& file.len() == payload_end(listing) + index_bytes(listing).len()
            &&& is_sound(after, file.len())
            &&& is_disjoint(after)
            &&& is_clear(after)
            &&& after.dom() == before.dom()
            &&& forall|path: Seq<char>| #[trigger]
                before.contains_key(path) ==> {
                    &&& content(file, after[path]) == content(image, before[path])
                    &&& before[path] == (Meta {
                        start_byte: before[path].start_byte,
                        block_length: before[path].block_length,
                        ..after[path]
                    })
                }
        }),
{
    let after = repacked_entries(before);
    let listing = listing_of(before);
    let packed = repacked(listing);
    let end = payload_end(listing) as u64;
    let file = compacted_image(image, before);
    lemma_listed(listing, before);
    lemma_repacked_listing(before, listing);
    assert forall|i: int| 0 <= i < listing.len() implies is_sound_meta(
        (#[trigger] listing[i]).meta,
        image.len(),
    ) by {
        assert(before.contains_key(listing[i].path));
    }
    lemma_compacted_file(image, before, listing);
    lemma_listed(packed, after);
    assert(is_sound(after, end as nat) && is_clear(after)) by {
        assert forall|path: Seq<char>| #[trigger] after.contains_key(path) implies is_sound_meta(
            after[path],
            end as nat,
        ) && is_clear_meta(after[path]) by {
            let i = choose|i: int| 0 <= i < packed.len() && (#[trigger] packed[i]).path == path;
            assert(is_sound_meta(packed[i].meta, end as nat));
        }
    }
    if all_fit(before) && listing.len() <= MAX_ENTRY_COUNT {
        assert(all_fit(after));
        lemma_stored_index(after, packed, end, file, end as int);
    }
    assert forall|path: Seq<char>| #[trigger] before.contains_key(path) implies lies_within(
        before[path],
        image.len(),
    ) by {
        assert(is_sound_meta(before[path], image.len()));
    }
    lemma_kept_contents(image, before);
    assert forall|path: Seq<char>| #[trigger] after.contains_key(path) implies is_sound_meta(
        after[path],
        file.len(),
    ) by {
        assert(is_sound_meta(after[path], end as nat));
    }
    lemma_repacked_disjoint(listing, packed, after);
}

/// The bytes of a compacted file, and each payload in its place.
pub proof fn lemma_compacted_contents(
    image: Seq<u8>,
    entries: Map<Seq<char>, Meta>,
    listing: Seq<EntryView>,
)
    requires
        is_listing(listing, entries),
        listing == listing_of(entries),
        forall|i: int|
            0 <= i < listing.len() ==> lies_within((#[trigger] listing[i]).meta, image.len()),
        payload_end(listing) <= u64::MAX,
    ensures
        ({
            let file = compacted_image(image, entries);
            let end = payload_end(listing) as u64;
            let packed = repacked(listing);
            &&& file.len() == end + index_bytes(listing).len()
            &&& file.take(4) == magic()
            &&& file.subrange(4, 14) == locator_bytes(end)
            &&& file.skip(end as int) == index_bytes(packed)
            &&& forall|i: int|
                0 <= i < listing.len() ==> lies_within((#[trigger] packed[i]).meta, end as nat)
                    && is_clear_meta(packed[i].meta) && content(file, packed[i].meta) == content(
                    image,
                    listing[i].meta,
                )
        }),
{
    let packed = repacked(listing);
    let end = payload_end(listing) as u64;
    let body = gathered(image, live_extents(listing));
    let start = header_bytes(HEADER_SIZE) + body;
    let file = compacted_image(image, entries);
    lemma_repacked_listing(entries, listing);
    lemma_locator_len(HEADER_SIZE);
    lemma_locator_len(end);
    lemma_gathered(image, listing);
    assert(start.len() == end);
    lemma_flush_ops(start, repacked_entries(entries), end);
    assert(paths_of(packed) =~= paths_of(listing));
    lemma_index_len(listing, packed);
    assert(start.take(4) =~= magic());
    assert(file.take(4) =~= magic());
    assert(file.subrange(4, 14) =~= locator_bytes(end));
    assert(file.skip(end as int) =~= index_bytes(packed));
    assert forall|i: int| 0 <= i < listing.len() implies lies_within(
        (#[trigger] packed[i]).meta,
        end as nat,
    ) && is_clear_meta(packed[i].meta) && content(file, packed[i].meta) == content(
        image,
        listing[i].meta,
    ) by {
        assert(lies_within(listing[i].meta, image.len()));
        lemma_payload_end_grows(listing, i);
        if has_payload(listing[i].meta) {
            let at = payload_end(listing.take(i)) - HEADER_SIZE;
            let n = listing[i].meta.block_length;
            assert(body.subrange(at, at + n) == content(image, listing[i].meta));
            assert(content(file, packed[i].meta) =~= body.subrange(at, at + n));
        }
    }
}

/// The header, the payloads and the index of a compacted file.
proof fn lemma_compacted_file(
    image: Seq<u8>,
    entries: Map<Seq<char>, Meta>,
    listing: Seq<EntryView>,
)
    requires
        is_listing(listing, entries),
        listing == listing_of(entries),
        forall|i: int|
            0 <= i < listing.len() ==> is_sound_meta((#[trigger] listing[i]).meta, image.len()),
        payload_end(listing) + index_bytes(listing).len() <= u64::MAX,
    ensures
        ({
            let file = compacted_image(image, entries);
            let end = payload_end(listing) as u64;
            let packed = repacked(listing);
            &&& is_archive(file)
            &&& decoded_header(file, file.len() as u64) == Ok::<Header, StorageError>(
                Header { version: VERSION, index_pointer: end },
            )
            &&& file.len() == end + index_bytes(listing).len()
            &&& file.skip(end as int) == index_bytes(packed)
            &&& forall|i: int|
                0 <= i < listing.len() ==> is_sound_meta((#[trigger] packed[i]).meta, end as nat)
                    && is_clear_meta(packed[i].meta)
        }),
{
    let packed = repacked(listing);
    let end = payload_end(listing) as u64;
    let file = compacted_image(image, entries);
    assert forall|i: int| 0 <= i < listing.len() implies lies_within(
        (#[trigger] listing[i]).meta,
        image.len(),
    ) by {
        assert(is_sound_meta(listing[i].meta, image.len()));
    }
    lemma_compacted_contents(image, entries, listing);
    lemma_payload_end_grows(listing, 0);
    law_header_round_trip(file, end);
    assert forall|i: int| 0 <= i < listing.len() implies is_sound_meta(
        (#[trigger] packed[i]).meta,
        end as nat,
    ) && is_clear_meta(packed[i].meta) by {
        assert(is_sound_meta(listing[i].meta, image.len()));
        assert(lies_within(packed[i].meta, end as nat));
    }
}

/// Repacked payloads do not overlap.
proof fn lemma_repacked_disjoint(
    listing: Seq<EntryView>,
    packed: Seq<EntryView>,
    entries: Map<Seq<char>, Meta>,
)
    requires
        packed == repacked(listing),
        is_listing(packed, entries),
        payload_end(listing) <= u64::MAX,
    ensures
        is_disjoint(entries),
{
    lemma_listed(packed, entries);
    assert forall|a: Seq<char>, b: Seq<char>|
        #[trigger] entries.contains_key(a) && #[trigger] entries.contains_key(b) && a
            != b implies are_apart(entries[a], entries[b]) by {
        let i = choose|i: int| 0 <= i < packed.len() && (#[trigger] packed[i]).path == a;
        let j = choose|j: int| 0 <= j < packed.len() && (#[trigger] packed[j]).path == b;
        assert(entries[packed[i].path] == packed[i].meta);
        assert(entries[packed[j].path] == packed[j].meta);
        if i < j {
            lemma_packed_apart(listing, i, j);
        } else {
            lemma_packed_apart(listing, j, i);
        }
    }
}

/// Of two repacked payloads the earlier ends before the later begins.
proof fn lemma_packed_apart(listing: Seq<EntryView>, i: int, j: int)
    requires
        0 <= i < j < listing.len(),
        payload_end(listing) <= u64::MAX,
    ensures
        are_apart(repacked(listing)[i].meta, repacked(listing)[j].meta),
{
    let less = listing.take(j);
    lemma_payload_end_grows(less, i + 1);
    lemma_payload_end_grows(listing, j);
    lemma_payload_end_grows(listing, i);
    assert(less.take(i + 1) =~= listing.take(i + 1));
    assert(listing.take(i + 1).drop_last() =~= listing.take(i));
    assert(listing.take(i + 1).last() == listing[i]);
}

/// The length of an index depends on the paths alone.
proof fn lemma_index_len(a: Seq<EntryView>, b: Seq<EntryView>)
    requires
        paths_of(a) == paths_of(b),
    ensures
        index_bytes(a).len() == index_bytes(b).len(),
{
    lemma_entries_len(a, b);
    assert(a.len() == paths_of(a).len() == paths_of(b).len() == b.len());
    lemma_le_bytes_len(a.len(), 8);
}

proof fn lemma_entries_len(a: Seq<EntryView>, b: Seq<EntryView>)
    requires
        paths_of(a) == paths_of(b),
    ensures
        entries_bytes(a).len() == entries_bytes(b).len(),
    decreases a.len(),
{
    assert(a.len() == paths_of(a).len() == paths_of(b).len() == b.len());
    if a.len() > 0 {
        assert(a[0].path == paths_of(a)[0]);
        assert(b[0].path == paths_of(b)[0]);
        assert(paths_of(a.drop_first()) =~= paths_of(a).drop_first());
        assert(paths_of(b.drop_first()) =~= paths_of(b).drop_first());
        lemma_entries_len(a.drop_first(), b.drop_first());
        lemma_field_bytes(a[0].meta);
        lemma_field_bytes(b[0].meta);
        lemma_le_bytes_len(encode_utf8(a[0].path).len(), 4);
    }
}

/// The positions that the payloads of a listing take up.
spec fn positions(listing: Seq<EntryView>) -> Set<int>
    decreases listing.len(),
{
    if listing.len() == 0 {
        Set::<int>::empty()
    } else {
        let meta = listing.last().meta;
        let before = positions(listing.drop_last());
        if has_payload(meta) {
            before.union(
                set_int_range(meta.start_byte as int, meta.start_byte + meta.block_length),
            )
        } else {
            before
        }
    }
}

/// Payloads that do not overlap take up as many positions as they have bytes.
proof fn lemma_positions(listing: Seq<EntryView>, entries: Map<Seq<char>, Meta>, limit: nat)
    requires
        is_disjoint(entries),
        is_clear(entries),
        is_sound(entries, limit),
        distinct_paths(listing),
        forall|i: int|
            0 <= i < listing.len() ==> entries.contains_key((#[trigger] listing[i]).path)
                && entries[listing[i].path] == listing[i].meta,
    ensures
        positions(listing).finite(),
        HEADER_SIZE + positions(listing).len() == payload_end(listing),
        forall|p: int| #[trigger]
            positions(listing).contains(p) ==> HEADER_SIZE <= p < limit && exists|i: int|
                0 <= i < listing.len() && has_payload((#[trigger] listing[i]).meta)
                    && listing[i].meta.start_byte <= p < listing[i].meta.start_byte
                    + listing[i].meta.block_length,
    decreases listing.len(),
{
    if listing.len() > 0 {
        let less = listing.drop_last();
        let last = listing.last();
        let meta = last.meta;
        assert forall|i: int| 0 <= i < less.len() implies entries.contains_key(
            (#[trigger] less[i]).path,
        ) && entries[less[i].path] == less[i].meta by {
            assert(listing[i] == less[i]);
        }
        assert(distinct_paths(less)) by {
            assert forall|i: int, j: int| 0 <= i < j < less.len() implies (#[trigger] less[i]).path
                != (#[trigger] less[j]).path by {
                assert(listing[i].path != listing[j].path);
            }
        }
        lemma_positions(less, entries, limit);
        assert(entries.contains_key(listing[listing.len() - 1].path));
        assert(is_sound_meta(meta, limit));
        let before = positions(less);
        let own = set_int_range(meta.start_byte as int, meta.start_byte + meta.block_length);
        if has_payload(meta) {
            lemma_int_range(meta.start_byte as int, meta.start_byte + meta.block_length);
            assert forall|p: int| before.contains(p) implies !own.contains(p) by {
                let i = choose|i: int|
                    0 <= i < less.len() && has_payload((#[trigger] less[i]).meta)
                        && less[i].meta.start_byte <= p < less[i].meta.start_byte
                        + less[i].meta.block_length;
                assert(less[i] == listing[i]);
                assert(listing[i].path != listing[listing.len() - 1].path);
                assert(entries.contains_key(listing[i].path));
                assert(are_apart(entries[listing[i].path], entries[last.path]));
            }
            assert(before.disjoint(own));
            lemma_set_disjoint_lens(before, own);
        }
        assert forall|p: int| #[trigger] positions(listing).contains(p) implies HEADER_SIZE <= p
            < limit && exists|i: int|
            0 <= i < listing.len() && has_payload((#[trigger] listing[i]).meta)
                && listing[i].meta.start_byte <= p < listing[i].meta.start_byte
                + listing[i].meta.block_length by {
            if before.contains(p) {
                let i = choose|i: int|
                    0 <= i < less.len() && has_payload((#[trigger] less[i]).meta)
                        && less[i].meta.start_byte <= p < less[i].meta.start_byte
                        + less[i].meta.block_length;
                assert(listing[i] == less[i]);
            } else {
                assert(listing[listing.len() - 1] == last);
            }
        }
    }
}

/// Repacking what is packed changes nothing.
proof fn lemma_packed_twice(listing: Seq<EntryView>, n: int)
    requires
        0 <= n <= listing.len(),
    ensures
        payload_end(repacked(listing).take(n)) == payload_end(listing.take(n)),
    decreases n,
{
    if n > 0 {
        lemma_packed_twice(listing, n - 1);
        let more = listing.take(n);
        let packed = repacked(listing).take(n);
        assert(more.drop_last() =~= listing.take(n - 1));
        assert(packed.drop_last() =~= repacked(listing).take(n - 1));
        assert(more.last() == listing[n - 1]);
        assert(packed.last() == repacked(listing)[n - 1]);
    }
}

/// A compacted file gives the same payloads in the same order.
proof fn lemma_gathered_twice(image: Seq<u8>, file: Seq<u8>, listing: Seq<EntryView>, n: int)
    requires
        0 <= n <= listing.len(),
        forall|i: int|
            0 <= i < listing.len() ==> content(file, (#[trigger] repacked(listing)[i]).meta)
                == content(image, listing[i].meta),
    ensures
        gathered(file, live_extents(repacked(listing).take(n))) == gathered(
            image,
            live_extents(listing.take(n)),
        ),
    decreases n,
{
    if n > 0 {
        lemma_gathered_twice(image, file, listing, n - 1);
        let more = listing.take(n);
        let packed = repacked(listing).take(n);
        assert(more.drop_last() =~= listing.take(n - 1));
        assert(packed.drop_last() =~= repacked(listing).take(n - 1));
        assert(more.last() == listing[n - 1]);
        assert(packed.last() == repacked(listing)[n - 1]);
        assert(content(file, packed.last().meta) == content(image, more.last().meta));
        if has_payload(more.last().meta) {
            assert(live_extents(more).drop_last() =~= live_extents(more.drop_last()));
            assert(live_extents(packed).drop_last() =~= live_extents(packed.drop_last()));
        }
    }
}

/// A second compaction changes nothing: neither an entry, nor where the index is, nor a byte of the
/// file.
pub proof fn law_compaction_is_idempotent(image: Seq<u8>, moss: Moss)
    requires
        moss.wf(),
        forall|path: Seq<char>| #[trigger]
            moss@.entries.contains_key(path) ==> lies_within(moss@.entries[path], image.len()),
        payload_end(listing_of(moss@.entries)) <= u64::MAX,
    ensures
        ({
            let once = repacked_entries(moss@.entries);
            let file = compacted_image(image, moss@.entries);
            &&& repacked_entries(once) == once
            &&& payload_end(listing_of(once)) == payload_end(listing_of(moss@.entries))
            &&& compacted_image(file, once) == file
        }),
{
    let before = moss@.entries;
    let once = repacked_entries(before);
    let listing = listing_of(before);
    let packed = repacked(listing);
    let file = compacted_image(image, before);
    lemma_archive(moss);
    lemma_listed(listing, before);
    lemma_repacked_listing(before, listing);
    lemma_repacked_listing(once, packed);
    assert forall|i: int| 0 <= i < listing.len() implies lies_within(
        (#[trigger] listing[i]).meta,
        image.len(),
    ) by {
        assert(before.contains_key(listing[i].path));
    }
    lemma_compacted_contents(image, before, listing);
    lemma_packed_twice(listing, listing.len() as int);
    lemma_gathered_twice(image, file, listing, listing.len() as int);
    assert(listing.take(listing.len() as int) =~= listing);
    assert(packed.take(listing.len() as int) =~= packed);
    assert(repacked(packed) =~= packed) by {
        assert forall|i: int| 0 <= i < packed.len() implies #[trigger] repacked(packed)[i]
            == packed[i] by {
            lemma_packed_twice(listing, i);
        }
    }
}

/// A compaction never makes a file larger: of an archive whose payloads neither overlap nor lie in
/// the header, and whose index stands behind them, the new file is at most as long as the old one.
/// It is shorter by all bytes of the old file that belong neither to the header nor to a payload
/// nor to one index.
pub proof fn law_compaction_reclaims(image: Seq<u8>, moss: Moss)
    requires
        moss.wf(),
        moss@.index_pointer >= HEADER_SIZE,
        is_sound(moss@.entries, moss@.index_pointer as nat),
        is_disjoint(moss@.entries),
        is_clear(moss@.entries),
        moss@.index_pointer + index_bytes(listing_of(moss@.entries)).len() <= image.len(),
    ensures
        compacted_image(image, moss@.entries).len() <= image.len(),
        compacted_image(image, moss@.entries).len() == payload_end(listing_of(moss@.entries))
            + index_bytes(listing_of(moss@.entries)).len(),
{
    let entries = moss@.entries;
    let listing = listing_of(entries);
    let pointer = moss@.index_pointer as nat;
    lemma_archive(moss);
    lemma_listed(listing, entries);
    lemma_sorted_listing(listing);
    lemma_positions(listing, entries, pointer);
    let room = set_int_range(HEADER_SIZE as int, pointer as int);
    lemma_int_range(HEADER_SIZE as int, pointer as int);
    assert(positions(listing).subset_of(room));
    lemma_len_subset(positions(listing), room);
    assert forall|i: int| 0 <= i < listing.len() implies lies_within(
        (#[trigger] listing[i]).meta,
        image.len(),
    ) by {
        assert(entries.contains_key(listing[i].path));
        assert(is_sound_meta(listing[i].meta, pointer));
    }
    lemma_compacted_contents(image, entries, listing);
}

/// At no time do more than a limited number of changes wait for the index: the change that reaches
/// the limit has it written.
pub proof fn law_changes_are_bounded(view: MossView, elapsed: u64)
    requires
        view.mutations < CHECKPOINT_MUTATIONS,
    ensures
        !is_due(marked(view), elapsed) ==> marked(view).mutations < CHECKPOINT_MUTATIONS,
        marked(view).dirty,
{
}

} // verus!
