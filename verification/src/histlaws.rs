//! What holds of every archive, by whatever calls it came about.
use vstd::prelude::*;
use vstd::set_lib::lemma_len_subset;
use crate::entry::{EntryView, Meta};
use crate::error::StorageError;
use crate::file::{after_ops, decoded_header, header_bytes, lemma_after_concat, lemma_locator_len,
    OpView, HEADER_SIZE, LEGACY_VERSION};
use crate::index::{lemma_listing_exists, listing_of, MAX_ENTRY_COUNT};
use crate::laws::{compacted_image, is_archive, is_canonical_table, is_clear, is_disjoint, is_sound,
    is_sound_meta, law_create_then_open, law_metadata_changes_only_attributes,
    law_rename_and_remove_keep_sound, law_upsert_keeps_sound, law_write_then_read, lemma_compacted,
    lemma_compacted_contents, lemma_flush_ops, lemma_flushed, lemma_listed, lies_within, opens_as,
    same_contents};
use crate::path::{is_canonical, law_moved_back, law_moved_canonical, law_normalized_is_canonical, moved,
    normalized};
use crate::storage::{all_fit, came_from, file_written, flush_ops, flushed_view,
    lemma_repacked_listing, moved_entries, opened, payload_end, recorded, removed, renamed, repacked,
    repacked_entries, upserted, with_metadata, without_tree, MossView};
use crate::time::Timestamp;

verus! {

/// An archive, and the bytes of the file that holds it.
#[verifier::ext_equal]
pub struct Store {
    pub view: MossView,
    pub image: Seq<u8>,
}

/// What can be asked of an archive.
pub enum Call {
    Write { path: Seq<char>, data: Seq<u8>, uid: u32, gid: u32, now: Timestamp },
    Upsert { entry: EntryView, payload: Option<Seq<u8>> },
    Metadata {
        path: Seq<char>,
        mode: Option<u16>,
        atime: Option<Timestamp>,
        mtime: Option<Timestamp>,
        now: Timestamp,
    },
    Remove { path: Seq<char> },
    Rename { from: Seq<char>, to: Seq<char>, now: Timestamp },
    Flush,
    Checkpoint,
    Sync,
    Compact,
}

/// A new archive in its file.
pub open spec fn new_store() -> Store {
    let none = Map::<Seq<char>, Meta>::empty();
    let steps = seq![OpView::Append(header_bytes(HEADER_SIZE)), OpView::SyncData] + flush_ops(
        none,
        HEADER_SIZE,
    );
    Store {
        view: MossView { entries: none, index_pointer: HEADER_SIZE, dirty: false, mutations: 0 },
        image: after_ops(Seq::<u8>::empty(), steps),
    }
}

/// The archive when an entry was planned, the steps were done, and the entry was recorded.
pub open spec fn planned(
    store: Store,
    plan: Result<(EntryView, Seq<OpView>), StorageError>,
) -> Result<Store, StorageError> {
    match plan {
        Ok((entry, steps)) => Ok(
            Store {
                view: recorded(store.view, entry.path, entry.meta),
                image: after_ops(store.image, steps),
            },
        ),
        Err(error) => Err(error),
    }
}

/// The archive when its index was written, and `more` steps were done.
pub open spec fn flushed(store: Store, more: Seq<OpView>) -> Result<Store, StorageError> {
    let end = store.image.len() as u64;
    if all_fit(store.view.entries) {
        Ok(
            Store {
                view: flushed_view(store.view, end),
                image: after_ops(store.image, flush_ops(store.view.entries, end) + more),
            },
        )
    } else {
        Err(StorageError::PathTooLong)
    }
}

/// The archive in a new file.
pub open spec fn compacted(store: Store) -> Result<Store, StorageError> {
    let entries = store.view.entries;
    let end = payload_end(listing_of(entries));
    if end > u64::MAX {
        Err(StorageError::ArchiveTooLarge)
    } else if !all_fit(entries) {
        Err(StorageError::PathTooLong)
    } else {
        Ok(
            Store {
                view: MossView {
                    entries: repacked_entries(entries),
                    index_pointer: end as u64,
                    dirty: false,
                    mutations: 0,
                },
                image: compacted_image(store.image, entries),
            },
        )
    }
}

/// The archive and its file after a call and the steps that it plans, or why it is refused.
pub open spec fn called(store: Store, call: Call) -> Result<Store, StorageError> {
    let view = store.view;
    let image = store.image;
    let end = image.len() as u64;
    let none = Seq::<OpView>::empty();
    match call {
        Call::Write { path, data, uid, gid, now } => planned(
            store,
            file_written(view.entries, path, data, end, uid, gid, now),
        ),
        Call::Upsert { entry, payload } => planned(
            store,
            upserted(view.entries, entry, payload, end),
        ),
        Call::Metadata { path, mode, atime, mtime, now } => match with_metadata(
            view,
            path,
            mode,
            atime,
            mtime,
            now,
        ) {
            Ok(view) => Ok(Store { view, image }),
            Err(error) => Err(error),
        },
        Call::Remove { path } => match removed(view, path) {
            Ok((view, _)) => Ok(Store { view, image }),
            Err(error) => Err(error),
        },
        Call::Rename { from, to, now } => match renamed(view, from, to, now) {
            Ok(view) => Ok(Store { view, image }),
            Err(error) => Err(error),
        },
        Call::Flush => flushed(store, none),
        Call::Checkpoint => if view.dirty {
            flushed(store, none)
        } else {
            Ok(store)
        },
        Call::Sync => if view.dirty {
            flushed(store, seq![OpView::SyncAll])
        } else {
            Ok(Store { view, image: after_ops(image, seq![OpView::SyncAll]) })
        },
        Call::Compact => compacted(store),
    }
}

/// Directories have no bytes and claim none.
pub open spec fn is_bare(entries: Map<Seq<char>, Meta>) -> bool {
    forall|path: Seq<char>| #[trigger]
        entries.contains_key(path) && entries[path].kind is Directory ==> entries[path].start_byte
            == 0 && entries[path].block_length == 0
}

/// The file holds the archive: every payload in a place of its own behind the header; and where
/// nothing waits to be written, the file opens as the archive. Only an archive with more entries
/// than an index may list does not open.
pub open spec fn is_kept(store: Store) -> bool {
    let entries = store.view.entries;
    &&& store.image.len() <= u64::MAX
    &&& is_archive(store.image)
    &&& entries.dom().finite()
    &&& is_canonical_table(entries)
    &&& is_bare(entries)
    &&& is_sound(entries, store.image.len())
    &&& is_clear(entries)
    &&& is_disjoint(entries)
    &&& !store.view.dirty && listing_of(entries).len() <= MAX_ENTRY_COUNT ==> opens_as(
        store.image,
        entries,
        store.view.index_pointer,
    )
}

/// The call gives valid times and data that memory can hold. A new file without data does not claim
/// to begin behind the end of the archive's.
pub open spec fn is_admissible(store: Store, call: Call) -> bool {
    match call {
        Call::Write { data, now, .. } => now.is_valid() && data.len() <= usize::MAX,
        Call::Upsert { entry, payload } => {
            &&& entry.meta.atime.is_valid()
            &&& entry.meta.mtime.is_valid()
            &&& entry.meta.ctime.is_valid()
            &&& match payload {
                Some(bytes) => bytes.len() <= usize::MAX,
                None => {
                    ||| entry.meta.kind is Directory
                    ||| entry.meta.start_byte <= store.image.len()
                    ||| normalized(entry.path) matches Ok(path) && store.view.entries.contains_key(
                        path,
                    )
                },
            }
        },
        Call::Metadata { atime, mtime, now, .. } => {
            &&& now.is_valid()
            &&& atime matches Some(t) ==> t.is_valid()
            &&& mtime matches Some(t) ==> t.is_valid()
        },
        Call::Rename { now, .. } => now.is_valid(),
        _ => true,
    }
}

/// The archive and its file after some calls. A call that is refused changes nothing.
pub open spec fn after_calls(calls: Seq<Call>) -> Store
    decreases calls.len(),
{
    if calls.len() == 0 {
        new_store()
    } else {
        let before = after_calls(calls.drop_last());
        match called(before, calls.last()) {
            Ok(after) => after,
            Err(_) => before,
        }
    }
}

/// Every call is admissible where it stands, and no file becomes larger than files can be.
pub open spec fn is_history(calls: Seq<Call>) -> bool
    decreases calls.len(),
{
    &&& after_calls(calls).image.len() <= u64::MAX
    &&& calls.len() > 0 ==> is_history(calls.drop_last()) && is_admissible(
        after_calls(calls.drop_last()),
        calls.last(),
    )
}

/// A new archive is kept by its file.
pub proof fn law_create_is_kept()
    ensures
        is_kept(new_store()),
{
    law_create_then_open();
}

/// One step that writes nothing.
proof fn lemma_sync_step(image: Seq<u8>)
    ensures
        after_ops(image, seq![OpView::SyncAll]) == image,
{
    let steps = seq![OpView::SyncAll];
    reveal_with_fuel(after_ops, 2);
    assert(steps.drop_last().len() == 0);
    assert(steps.last() == OpView::SyncAll);
}

/// A file gets larger by what is appended.
proof fn lemma_append_step(image: Seq<u8>, data: Seq<u8>)
    ensures
        after_ops(image, seq![OpView::Append(data)]) == image + data,
{
    let steps = seq![OpView::Append(data)];
    reveal_with_fuel(after_ops, 2);
    assert(steps.drop_last().len() == 0);
    assert(steps.last() == OpView::Append(data));
}

/// Writing to a file keeps the archive.
proof fn lemma_write_keeps(
    store: Store,
    path: Seq<char>,
    data: Seq<u8>,
    uid: u32,
    gid: u32,
    now: Timestamp,
)
    requires
        is_kept(store),
        is_admissible(store, (Call::Write { path, data, uid, gid, now })),
    ensures
        called(store, (Call::Write { path, data, uid, gid, now })) matches Ok(next) ==> (
        next.image.len() <= u64::MAX ==> is_kept(next)),
{
    let end = store.image.len() as u64;
    if let Ok((entry, steps)) = file_written(store.view.entries, path, data, end, uid, gid, now) {
        lemma_append_step(store.image, data);
        if store.image.len() + data.len() <= u64::MAX {
            law_write_then_read(store.image, store.view, path, data, uid, gid, now);
            law_normalized_is_canonical(path);
        }
    }
}

/// Recording an entry keeps the archive.
proof fn lemma_upsert_keeps(store: Store, entry: EntryView, data: Option<Seq<u8>>)
    requires
        is_kept(store),
        is_admissible(store, (Call::Upsert { entry, payload: data })),
    ensures
        called(store, (Call::Upsert { entry, payload: data })) matches Ok(next) ==> (next.image.len()
            <= u64::MAX ==> is_kept(next)),
{
    let end = store.image.len() as u64;
    if let Ok((stored, steps)) = upserted(store.view.entries, entry, data, end) {
        law_normalized_is_canonical(entry.path);
        let used = if entry.meta.kind is Directory {
            None::<Seq<u8>>
        } else {
            data
        };
        assert(upserted(store.view.entries, entry, used, end) == upserted(
            store.view.entries,
            entry,
            data,
            end,
        ));
        if let Some(bytes) = data {
            lemma_append_step(store.image, bytes);
        }
        if entry.meta.kind is Directory || (data is None && store.view.entries.contains_key(
            stored.path,
        )) {
            let bare = EntryView { meta: Meta { start_byte: 0, ..entry.meta }, ..entry };
            assert(upserted(store.view.entries, bare, used, end) == upserted(
                store.view.entries,
                entry,
                data,
                end,
            ));
            law_upsert_keeps_sound(store.image, store.view, bare, used);
        } else if after_ops(store.image, steps).len() <= u64::MAX {
            law_upsert_keeps_sound(store.image, store.view, entry, used);
        }
    }
}

/// Changing attributes keeps the archive.
proof fn lemma_metadata_keeps(
    store: Store,
    path: Seq<char>,
    mode: Option<u16>,
    atime: Option<Timestamp>,
    mtime: Option<Timestamp>,
    now: Timestamp,
)
    requires
        is_kept(store),
        is_admissible(store, (Call::Metadata { path, mode, atime, mtime, now })),
    ensures
        called(store, (Call::Metadata { path, mode, atime, mtime, now })) matches Ok(next)
            ==> is_kept(next),
{
    law_metadata_changes_only_attributes(
        store.view,
        path,
        mode,
        atime,
        mtime,
        now,
        store.image.len(),
    );
}

/// Removing keeps the archive.
proof fn lemma_remove_keeps(store: Store, path: Seq<char>)
    requires
        is_kept(store),
    ensures
        called(store, (Call::Remove { path })) matches Ok(next) ==> is_kept(next),
{
    if let Ok(top) = normalized(path) {
        let entries = store.view.entries;
        let now = Timestamp { seconds: 0, nanoseconds: 0 };
        let rest = without_tree(entries, top);
        law_rename_and_remove_keep_sound(entries, top, top, now, store.image.len());
        assert(rest.dom().subset_of(entries.dom()));
        lemma_len_subset(rest.dom(), entries.dom());
    }
}

/// Finitely many entries are finitely many after a move.
proof fn lemma_moved_finite(
    entries: Map<Seq<char>, Meta>,
    from: Seq<char>,
    to: Seq<char>,
    now: Timestamp,
)
    requires
        entries.dom().finite(),
    ensures
        moved_entries(entries, from, to, now).dom().finite(),
{
    let after = moved_entries(entries, from, to, now).dom();
    let places = entries.dom().map(|path: Seq<char>| moved(path, from, to));
    let all = entries.dom().union(places);
    entries.dom().lemma_map_finite(|path: Seq<char>| moved(path, from, to));
    assert forall|path: Seq<char>| after.contains(path) implies all.contains(path) by {
        if came_from(entries, path, from, to) {
            law_moved_back(path, to, from);
            let source = moved(path, to, from);
            assert(entries.dom().contains(source));
            assert(places.contains(path));
        }
    }
    assert(after.subset_of(all));
    lemma_len_subset(after, all);
}

/// Moving keeps the archive.
proof fn lemma_rename_keeps(store: Store, from: Seq<char>, to: Seq<char>, now: Timestamp)
    requires
        is_kept(store),
        now.is_valid(),
    ensures
        called(store, (Call::Rename { from, to, now })) matches Ok(next) ==> is_kept(next),
{
    if let (Ok(old_top), Ok(new_top)) = (normalized(from), normalized(to)) {
        let entries = store.view.entries;
        let after = moved_entries(entries, old_top, new_top, now);
        law_rename_and_remove_keep_sound(entries, old_top, new_top, now, store.image.len());
        lemma_moved_finite(entries, old_top, new_top, now);
        law_normalized_is_canonical(to);
        assert forall|path: Seq<char>| #[trigger] after.contains_key(path) implies is_canonical(
            path,
        ) by {
            if came_from(entries, path, old_top, new_top) {
                law_moved_back(path, new_top, old_top);
                law_moved_canonical(moved(path, new_top, old_top), old_top, new_top);
            }
        }
        assert forall|path: Seq<char>| #[trigger]
            after.contains_key(path) && after[path].kind is Directory implies after[path].start_byte
            == 0 && after[path].block_length == 0 by {
            if came_from(entries, path, old_top, new_top) {
                assert(entries.contains_key(moved(path, new_top, old_top)));
            }
        }
    }
}

/// Writing the index keeps the archive, and leaves its entries and payloads as they were.
proof fn lemma_flush_keeps(store: Store, more: Seq<OpView>)
    requires
        is_kept(store),
        more == Seq::<OpView>::empty() || more == seq![OpView::SyncAll],
    ensures
        flushed(store, more) matches Ok(next) ==> (next.image.len() <= u64::MAX ==> {
            &&& is_kept(next)
            &&& same_contents(next.view.entries, store.image, next.image)
        }),
{
    let entries = store.view.entries;
    let end = store.image.len() as u64;
    let steps = flush_ops(entries, end);
    let after = after_ops(store.image, steps);
    lemma_listing_exists(entries);
    lemma_after_concat(store.image, steps, more);
    lemma_sync_step(after);
    lemma_flush_ops(store.image, entries, end);
    lemma_locator_len(end);
    assert(after_ops(store.image, steps + more) == after);
    if after.len() <= u64::MAX {
        lemma_flushed(store.image, entries);
    }
}

/// A compaction keeps the archive.
proof fn lemma_compact_keeps(store: Store)
    requires
        is_kept(store),
    ensures
        compacted(store) matches Ok(next) ==> (next.image.len() <= u64::MAX ==> is_kept(next)),
{
    let before = store.view.entries;
    let after = repacked_entries(before);
    let listing = listing_of(before);
    lemma_listing_exists(before);
    lemma_listed(listing, before);
    lemma_repacked_listing(before, listing);
    assert forall|i: int| 0 <= i < listing.len() implies lies_within(
        (#[trigger] listing[i]).meta,
        store.image.len(),
    ) by {
        assert(before.contains_key(listing[i].path));
        assert(is_sound_meta(listing[i].meta, store.image.len()));
    }
    if let Ok(next) = compacted(store) {
        lemma_compacted_contents(store.image, before, listing);
        if next.image.len() <= u64::MAX {
            lemma_compacted(store.image, before);
            assert forall|path: Seq<char>| #[trigger] after.contains_key(path) implies is_canonical(
                path,
            ) && (after[path].kind is Directory ==> after[path].start_byte == 0
                && after[path].block_length == 0) by {
                assert(before.contains_key(path));
                let i = choose|i: int|
                    0 <= i < listing.len() && (#[trigger] listing[i]).path == path;
                assert(after[listing[i].path] == repacked(listing)[i].meta);
            }
        }
    }
}

/// Every call that succeeds leaves an archive that its file keeps, as long as the file is no larger
/// than files can be.
pub proof fn law_call_keeps(store: Store, call: Call)
    requires
        is_kept(store),
        is_admissible(store, call),
    ensures
        called(store, call) matches Ok(next) ==> (next.image.len() <= u64::MAX ==> is_kept(next)),
{
    match call {
        Call::Write { path, data, uid, gid, now } => {
            lemma_write_keeps(store, path, data, uid, gid, now);
        },
        Call::Upsert { entry, payload } => {
            lemma_upsert_keeps(store, entry, payload);
        },
        Call::Metadata { path, mode, atime, mtime, now } => {
            lemma_metadata_keeps(store, path, mode, atime, mtime, now);
        },
        Call::Remove { path } => {
            lemma_remove_keeps(store, path);
        },
        Call::Rename { from, to, now } => {
            lemma_rename_keeps(store, from, to, now);
        },
        Call::Flush => {
            lemma_flush_keeps(store, Seq::<OpView>::empty());
        },
        Call::Checkpoint => {
            lemma_flush_keeps(store, Seq::<OpView>::empty());
        },
        Call::Sync => {
            lemma_flush_keeps(store, seq![OpView::SyncAll]);
            lemma_sync_step(store.image);
        },
        Call::Compact => {
            lemma_compact_keeps(store);
        },
    }
}

/// Every archive that was created, and whatever was done to it since, is kept by its file.
pub proof fn law_every_archive_is_kept(calls: Seq<Call>)
    requires
        is_history(calls),
    ensures
        is_kept(after_calls(calls)),
    decreases calls.len(),
{
    if calls.len() == 0 {
        law_create_is_kept();
    } else {
        law_every_archive_is_kept(calls.drop_last());
        law_call_keeps(after_calls(calls.drop_last()), calls.last());
    }
}

/// An archive that its file keeps opens again once it is synced: with the same entries, each with
/// the bytes that it had. Where nothing waited to be written, the file stays as it was. Left out are
/// archives with more entries than an index may list.
pub proof fn law_sync_then_open(store: Store)
    requires
        is_kept(store),
        listing_of(store.view.entries).len() <= MAX_ENTRY_COUNT,
    ensures
        called(store, Call::Sync) matches Ok(after) ==> (after.image.len() <= u64::MAX ==> {
            &&& after.view.entries == store.view.entries
            &&& !after.view.dirty
            &&& opens_as(after.image, store.view.entries, after.view.index_pointer)
            &&& same_contents(store.view.entries, store.image, after.image)
            &&& !store.view.dirty ==> after == store
        }),
{
    law_call_keeps(store, Call::Sync);
    lemma_flush_keeps(store, seq![OpView::SyncAll]);
    lemma_sync_step(store.image);
}

/// Every archive that was created, and whatever was done to it since, opens again once it is synced:
/// with the same entries, each with the bytes that it had. The file is of the present version, so
/// that opening it writes nothing. Left out are archives with more entries than an index may list.
pub proof fn law_synced_archive_opens(calls: Seq<Call>)
    requires
        is_history(calls.push(Call::Sync)),
        called(after_calls(calls), Call::Sync) is Ok,
        listing_of(after_calls(calls).view.entries).len() <= MAX_ENTRY_COUNT,
    ensures
        ({
            let before = after_calls(calls);
            let after = after_calls(calls.push(Call::Sync));
            &&& after.view.entries == before.view.entries
            &&& !after.view.dirty
            &&& opens_as(after.image, before.view.entries, after.view.index_pointer)
            &&& same_contents(before.view.entries, before.image, after.image)
            &&& !before.view.dirty ==> after == before
        }),
{
    assert(calls.push(Call::Sync).drop_last() =~= calls);
    law_every_archive_is_kept(calls);
    law_sync_then_open(after_calls(calls));
}

/// An archive whose file was opened is kept by it as before, where nothing waited to be written.
pub proof fn law_reopened_is_kept(store: Store, uid: u32, gid: u32, now: Timestamp)
    requires
        is_kept(store),
        !store.view.dirty,
        listing_of(store.view.entries).len() <= MAX_ENTRY_COUNT,
    ensures
        ({
            let image = store.image;
            &&& decoded_header(image, image.len() as u64) matches Ok(header)
            &&& header.version != LEGACY_VERSION
            &&& opened(header, image.skip(header.index_pointer as int), uid, gid, now) matches Ok(
                entries,
            )
            &&& entries == store.view.entries
            &&& is_kept(
                Store {
                    view: MossView {
                        entries,
                        index_pointer: header.index_pointer,
                        dirty: false,
                        mutations: 0,
                    },
                    image,
                },
            )
        }),
{
}

} // verus!
