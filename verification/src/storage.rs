//! Archives: a table of entries in memory, and what has to be done to the file that holds it.
//!
//! An operation on an archive plans what is to be done to the file as a list of steps. The table
//! changes once the steps are done.
use vstd::prelude::*;
use crate::entry::{fresh, EntryView, Meta};
use crate::error::StorageError;
use crate::file::{header, header_bytes, locator, locator_bytes, ops_view, FileOp, Header, OpView,
    HEADER_SIZE, LEGACY_VERSION};
use crate::index::{decode_index, decode_legacy_index, decoded_index, decoded_legacy, distinct_paths,
    encode_index, index_bytes, is_listing, is_table, law_listing_unique, lemma_listing,
    lemma_listing_map, lemma_sorted_listing, lemma_table_insert, listing, listing_map, listing_of,
    metas, path_fits, paths_of};
use crate::path::{is_canonical, is_under, law_canonical_is_fixed, law_moved_back,
    law_moved_canonical, lies_under, moved, moved_path, normalized};
use crate::pathmap::{is_sorted, lemma_push_contains, lemma_sorted_distinct, lemma_zipped, texts,
    PathMap};
use crate::text::{same_text, to_chars};
pub use crate::entry::{EntryKind, IndexEntry};
pub use crate::idle::IdleCheckpoint;
pub use crate::path::normalize_virtual_path;
pub use crate::time::Timestamp;

verus! {

/// After so many changes the index is written.
pub const CHECKPOINT_MUTATIONS: u64 = 4096;

/// After so many seconds the next change has the index written.
pub const CHECKPOINT_SECONDS: u64 = 5;

/// An archive as a mathematical value.
#[verifier::ext_equal]
pub struct MossView {
    pub entries: Map<Seq<char>, Meta>,
    pub index_pointer: u64,
    pub dirty: bool,
    pub mutations: u64,
}

/// An archive: its entries by path, and how they relate to the index in the file.
pub struct Moss {
    entries: PathMap<IndexEntry>,
    index_pointer: u64,
    index_dirty: bool,
    mutations_since_checkpoint: u64,
}

/// A part of the file.
#[derive(Debug, Clone, Copy, PartialEq, Eq, Structural)]
pub struct Extent {
    pub start: u64,
    pub length: u64,
}

/// An entry that is to be recorded once the steps are done.
pub struct Pending {
    entry: IndexEntry,
    ops: Vec<FileOp>,
}

/// `view` with one more change that the index does not hold yet.
pub open spec fn marked(view: MossView) -> MossView {
    MossView {
        dirty: true,
        mutations: if view.mutations == u64::MAX {
            u64::MAX
        } else {
            (view.mutations + 1) as u64
        },
        ..view
    }
}

/// A change that leads to `view` has the index written when the last time was `elapsed` seconds
/// ago.
pub open spec fn is_due(view: MossView, elapsed: u64) -> bool {
    view.mutations >= CHECKPOINT_MUTATIONS || elapsed >= CHECKPOINT_SECONDS
}

/// `view` with `meta` under `path`.
pub open spec fn recorded(view: MossView, path: Seq<char>, meta: Meta) -> MossView {
    marked(MossView { entries: view.entries.insert(path, meta), ..view })
}

/// A change of the table that may fail: on failure nothing changes, on success `r` tells whether
/// the index is to be written now.
pub open spec fn is_outcome(
    r: Result<bool, StorageError>,
    before: MossView,
    after: MossView,
    next: Result<MossView, StorageError>,
    elapsed: u64,
) -> bool {
    match next {
        Ok(view) => after == view && r == Ok::<bool, StorageError>(is_due(view, elapsed)),
        Err(error) => after == before && r == Err::<bool, StorageError>(error),
    }
}

/// The entries of the archive with the given header whose file goes on with `rest` from the index
/// pointer.
pub open spec fn opened(
    header: Header,
    rest: Seq<u8>,
    uid: u32,
    gid: u32,
    now: Timestamp,
) -> Result<Map<Seq<char>, Meta>, StorageError> {
    if header.version == LEGACY_VERSION {
        decoded_legacy(rest, header.index_pointer, uid, gid, now, Map::<Seq<char>, Meta>::empty())
    } else {
        decoded_index(rest, header.index_pointer)
    }
}

/// The steps that write an index at `end`, the end of the file, and make the header point to it.
pub open spec fn flush_ops(entries: Map<Seq<char>, Meta>, end: u64) -> Seq<OpView> {
    seq![
        OpView::Append(index_bytes(listing_of(entries))),
        OpView::SyncData,
        OpView::Patch { position: 4, bytes: locator_bytes(end) },
        OpView::SyncData,
    ]
}

/// Every path fits into an index.
pub open spec fn all_fit(entries: Map<Seq<char>, Meta>) -> bool {
    forall|path: Seq<char>| #[trigger] entries.contains_key(path) ==> path_fits(path)
}

/// An archive whose index lies at `end` and holds all entries.
pub open spec fn flushed_view(view: MossView, end: u64) -> MossView {
    MossView { entries: view.entries, index_pointer: end, dirty: false, mutations: 0 }
}

/// `meta` with what is given of mode and times, and changed `now`.
pub open spec fn retouched(
    meta: Meta,
    mode: Option<u16>,
    atime: Option<Timestamp>,
    mtime: Option<Timestamp>,
    now: Timestamp,
) -> Meta {
    Meta {
        mode: if let Some(mode) = mode {
            mode
        } else {
            meta.mode
        },
        atime: if let Some(atime) = atime {
            atime
        } else {
            meta.atime
        },
        mtime: if let Some(mtime) = mtime {
            mtime
        } else {
            meta.mtime
        },
        ctime: now,
        ..meta
    }
}

/// The archive after a change of attributes.
pub open spec fn with_metadata(
    view: MossView,
    virtual_path: Seq<char>,
    mode: Option<u16>,
    atime: Option<Timestamp>,
    mtime: Option<Timestamp>,
    now: Timestamp,
) -> Result<MossView, StorageError> {
    match normalized(virtual_path) {
        Err(error) => Err(error),
        Ok(path) => if !view.entries.contains_key(path) {
            Err(StorageError::NotFound)
        } else {
            Ok(recorded(view, path, retouched(view.entries[path], mode, atime, mtime, now)))
        },
    }
}

/// Where the payload of `path` lies.
pub open spec fn located(entries: Map<Seq<char>, Meta>, path: Seq<char>) -> Result<
    Extent,
    StorageError,
> {
    if !entries.contains_key(path) {
        Err(StorageError::NotFound)
    } else if entries[path].kind is Directory {
        Err(StorageError::ReadDirectory)
    } else if entries[path].block_length > usize::MAX {
        Err(StorageError::EntryTooLarge)
    } else {
        Ok(Extent { start: entries[path].start_byte, length: entries[path].block_length })
    }
}

/// What is recorded for `entry`, and the steps that come first. Payload goes to the end of the
/// file; without payload an entry keeps the one that it had.
pub open spec fn upserted(
    entries: Map<Seq<char>, Meta>,
    entry: EntryView,
    data: Option<Seq<u8>>,
    end: u64,
) -> Result<(EntryView, Seq<OpView>), StorageError> {
    let none = Seq::<OpView>::empty();
    match normalized(entry.path) {
        Err(error) => Err(error),
        Ok(path) => if entry.meta.kind is Directory {
            Ok((EntryView { path, meta: Meta { start_byte: 0, block_length: 0, ..entry.meta } }, none))
        } else if let Some(data) = data {
            let meta = Meta { start_byte: end, block_length: data.len() as u64, ..entry.meta };
            Ok((EntryView { path, meta }, seq![OpView::Append(data)]))
        } else if entries.contains_key(path) {
            let meta = Meta {
                start_byte: entries[path].start_byte,
                block_length: entries[path].block_length,
                ..entry.meta
            };
            Ok((EntryView { path, meta }, none))
        } else if entry.meta.block_length != 0 {
            Err(StorageError::MissingPayload)
        } else {
            Ok((EntryView { path, meta: entry.meta }, none))
        },
    }
}

/// The attributes that a file gets when data is written to it: those that it had, or those of a
/// new file.
pub open spec fn written_meta(
    entries: Map<Seq<char>, Meta>,
    path: Seq<char>,
    uid: u32,
    gid: u32,
    now: Timestamp,
) -> Meta {
    let before = if entries.contains_key(path) {
        entries[path]
    } else {
        fresh(EntryKind::File, 0o644, uid, gid, now)
    };
    Meta { kind: EntryKind::File, mtime: now, ctime: now, ..before }
}

/// What is recorded when `data` is written to a file, and the steps that come first.
pub open spec fn file_written(
    entries: Map<Seq<char>, Meta>,
    virtual_path: Seq<char>,
    data: Seq<u8>,
    end: u64,
    uid: u32,
    gid: u32,
    now: Timestamp,
) -> Result<(EntryView, Seq<OpView>), StorageError> {
    match normalized(virtual_path) {
        Err(error) => Err(error),
        Ok(path) => if entries.contains_key(path) && entries[path].kind is Directory {
            Err(StorageError::ReplaceDirectory)
        } else {
            let meta = written_meta(entries, path, uid, gid, now);
            Ok(
                (
                    EntryView {
                        path,
                        meta: Meta { start_byte: end, block_length: data.len() as u64, ..meta },
                    },
                    seq![OpView::Append(data)],
                ),
            )
        },
    }
}

/// The paths of `path` itself and of all that lies below it.
pub open spec fn tree(entries: Map<Seq<char>, Meta>, path: Seq<char>) -> Set<Seq<char>> {
    entries.dom().filter(|k: Seq<char>| is_under(k, path))
}

/// The entries that neither are `path` nor lie below it.
pub open spec fn without_tree(entries: Map<Seq<char>, Meta>, path: Seq<char>) -> Map<
    Seq<char>,
    Meta,
> {
    Map::new(|k: Seq<char>| entries.contains_key(k) && !is_under(k, path), |k: Seq<char>| entries[k])
}

/// The archive after `virtual_path` and all below it is gone, and the number of entries that
/// went.
pub open spec fn removed(view: MossView, virtual_path: Seq<char>) -> Result<
    (MossView, nat),
    StorageError,
> {
    match normalized(virtual_path) {
        Err(error) => Err(error),
        Ok(path) => if tree(view.entries, path).len() == 0 {
            Ok((view, 0))
        } else {
            Ok(
                (
                    marked(MossView { entries: without_tree(view.entries, path), ..view }),
                    tree(view.entries, path).len(),
                ),
            )
        },
    }
}

/// `path` has an entry after `from` became `to` because what is now there was moved there.
pub open spec fn came_from(
    entries: Map<Seq<char>, Meta>,
    path: Seq<char>,
    from: Seq<char>,
    to: Seq<char>,
) -> bool {
    is_under(path, to) && entries.contains_key(moved(path, to, from))
}

/// The entries after `from` and all below it became `to` and all below that. What is moved takes
/// the place of what is there, and counts as changed `now`.
pub open spec fn moved_entries(
    entries: Map<Seq<char>, Meta>,
    from: Seq<char>,
    to: Seq<char>,
    now: Timestamp,
) -> Map<Seq<char>, Meta> {
    Map::new(
        |k: Seq<char>|
            came_from(entries, k, from, to) || (entries.contains_key(k) && !is_under(k, from)),
        |k: Seq<char>|
            if came_from(entries, k, from, to) {
                Meta { ctime: now, ..entries[moved(k, to, from)] }
            } else {
                entries[k]
            },
    )
}

/// The archive after a move.
pub open spec fn renamed(
    view: MossView,
    old_path: Seq<char>,
    new_path: Seq<char>,
    now: Timestamp,
) -> Result<MossView, StorageError> {
    match (normalized(old_path), normalized(new_path)) {
        (Err(error), _) => Err(error),
        (_, Err(error)) => Err(error),
        (Ok(from), Ok(to)) => if from == to {
            Ok(view)
        } else if is_under(to, from) {
            Err(StorageError::MoveIntoItself)
        } else if tree(view.entries, from).len() == 0 {
            Err(StorageError::NotFound)
        } else {
            Ok(marked(MossView { entries: moved_entries(view.entries, from, to, now), ..view }))
        },
    }
}

/// The entry has bytes of its own in the file.
pub open spec fn has_payload(meta: Meta) -> bool {
    meta.kind !is Directory && meta.block_length > 0
}

/// Where the payloads of a listing end when they lie one after the other behind the header.
pub open spec fn payload_end(listing: Seq<EntryView>) -> nat
    decreases listing.len(),
{
    if listing.len() == 0 {
        HEADER_SIZE as nat
    } else {
        payload_end(listing.drop_last()) + if has_payload(listing.last().meta) {
            listing.last().meta.block_length as nat
        } else {
            0
        }
    }
}

/// Where the payloads of a listing are now, one after the other.
pub open spec fn live_extents(listing: Seq<EntryView>) -> Seq<Extent>
    decreases listing.len(),
{
    if listing.len() == 0 {
        Seq::<Extent>::empty()
    } else if has_payload(listing.last().meta) {
        live_extents(listing.drop_last()).push(
            Extent {
                start: listing.last().meta.start_byte,
                length: listing.last().meta.block_length,
            },
        )
    } else {
        live_extents(listing.drop_last())
    }
}

/// `meta` with its payload at `at`.
pub open spec fn repacked_meta(meta: Meta, at: nat) -> Meta {
    if has_payload(meta) {
        Meta { start_byte: at as u64, ..meta }
    } else {
        Meta { start_byte: 0, block_length: 0, ..meta }
    }
}

/// A listing with its payloads one after the other behind the header.
pub open spec fn repacked(listing: Seq<EntryView>) -> Seq<EntryView> {
    Seq::new(
        listing.len(),
        |i: int|
            EntryView {
                path: listing[i].path,
                meta: repacked_meta(listing[i].meta, payload_end(listing.take(i))),
            },
    )
}

/// Entries with their payloads one after the other behind the header.
pub open spec fn repacked_entries(entries: Map<Seq<char>, Meta>) -> Map<Seq<char>, Meta> {
    listing_map(repacked(listing_of(entries)))
}

/// How an archive is written to a new file without what is not needed any more: a header, then
/// parts of the present file, then some steps.
pub struct Compaction {
    entries: PathMap<IndexEntry>,
    index_pointer: u64,
    head: Vec<u8>,
    extents: Vec<Extent>,
    ops: Vec<FileOp>,
}

impl Compaction {
    /// The entries as they are in the new file.
    pub closed spec fn entries(self) -> Map<Seq<char>, Meta> {
        metas(self.entries@)
    }

    /// Where the index begins in the new file.
    pub closed spec fn index_pointer(self) -> u64 {
        self.index_pointer
    }

    /// The bytes that the new file begins with.
    pub closed spec fn start(self) -> Seq<u8> {
        self.head@
    }

    /// The parts of the present file that follow, in order.
    pub closed spec fn parts(self) -> Seq<Extent> {
        self.extents@
    }

    /// The steps that complete the new file.
    pub closed spec fn steps(self) -> Seq<OpView> {
        ops_view(self.ops@)
    }

    /// The entries make up a table.
    pub closed spec fn wf(self) -> bool {
        is_table(self.entries)
    }

    /// The bytes that the new file begins with.
    pub fn head(&self) -> (r: &Vec<u8>)
        ensures
            r@ == self.start(),
    {
        &self.head
    }

    /// The parts of the present file that follow, in order.
    pub fn extents(&self) -> (r: &Vec<Extent>)
        ensures
            r@ == self.parts(),
    {
        &self.extents
    }

    /// The steps that complete the new file.
    pub fn ops(&self) -> (r: &Vec<FileOp>)
        ensures
            ops_view(r@) == self.steps(),
    {
        &self.ops
    }
}

impl Pending {
    /// What is to be recorded.
    pub closed spec fn entry(self) -> EntryView {
        self.entry@
    }

    /// The steps that come first.
    pub closed spec fn steps(self) -> Seq<OpView> {
        ops_view(self.ops@)
    }

    /// The path can be recorded.
    pub open spec fn wf(self) -> bool {
        is_canonical(self.entry().path)
    }

    /// The steps that come first.
    pub fn ops(&self) -> (r: &Vec<FileOp>)
        ensures
            ops_view(r@) == self.steps(),
    {
        &self.ops
    }
}

/// A result that plans an entry and steps as `plan` says.
pub open spec fn is_plan(
    r: Result<Pending, StorageError>,
    plan: Result<(EntryView, Seq<OpView>), StorageError>,
) -> bool {
    match plan {
        Ok((entry, steps)) => {
            &&& r matches Ok(pending)
            &&& pending.wf()
            &&& pending.entry() == entry
            &&& pending.steps() == steps
        },
        Err(error) => r == Err::<Pending, StorageError>(error),
    }
}

impl Moss {
    /// The archive as a mathematical value.
    pub closed spec fn view(self) -> MossView {
        MossView {
            entries: metas(self.entries@),
            index_pointer: self.index_pointer,
            dirty: self.index_dirty,
            mutations: self.mutations_since_checkpoint,
        }
    }

    /// The paths are canonical, and each leads to the entry that has it.
    pub closed spec fn wf(self) -> bool {
        is_table(self.entries)
    }

    /// An empty archive, and the steps that make an empty file hold it.
    pub fn create() -> (r: (Moss, Vec<FileOp>))
        ensures
            r.0.wf(),
            r.0@ == (MossView {
                entries: Map::<Seq<char>, Meta>::empty(),
                index_pointer: HEADER_SIZE,
                dirty: false,
                mutations: 0,
            }),
            ops_view(r.1@) == seq![OpView::Append(header_bytes(HEADER_SIZE)), OpView::SyncData]
                + flush_ops(Map::<Seq<char>, Meta>::empty(), HEADER_SIZE),
    {
        let mut moss = Moss {
            entries: PathMap::new(),
            index_pointer: HEADER_SIZE,
            index_dirty: false,
            mutations_since_checkpoint: 0,
        };
        assert(metas(moss.entries@) =~= Map::<Seq<char>, Meta>::empty());
        let mut ops: Vec<FileOp> = Vec::new();
        ops.push(FileOp::Append(header(HEADER_SIZE)));
        ops.push(FileOp::SyncData);
        let ghost start = ops_view(ops@);
        match moss.flush_index(HEADER_SIZE) {
            Ok(mut more) => {
                let ghost added = ops_view(more@);
                ops.append(&mut more);
                assert(ops_view(ops@) =~= start + added);
            },
            Err(_) => {},
        }
        moss.flushed(HEADER_SIZE);
        assert(start =~= seq![OpView::Append(header_bytes(HEADER_SIZE)), OpView::SyncData]);
        (moss, ops)
    }

    /// The archive with the given header, whose file goes on with `rest` from the index pointer;
    /// and whether its index is of the legacy kind and has to be written anew. Files from a legacy
    /// index get the given owner and times.
    pub fn open(header: Header, rest: &[u8], uid: u32, gid: u32, now: Timestamp) -> (r: Result<
        (Moss, bool),
        StorageError,
    >)
        ensures
            match opened(header, rest@, uid, gid, now) {
                Ok(entries) => {
                    &&& r matches Ok((moss, due))
                    &&& moss.wf()
                    &&& moss@ == (MossView {
                        entries,
                        index_pointer: header.index_pointer,
                        dirty: false,
                        mutations: 0,
                    })
                    &&& due == (header.version == LEGACY_VERSION)
                },
                Err(error) => r == Err::<(Moss, bool), StorageError>(error),
            },
    {
        let legacy: bool = header.version == LEGACY_VERSION;
        let loaded: Result<PathMap<IndexEntry>, StorageError> = if legacy {
            decode_legacy_index(rest, header.index_pointer, uid, gid, now)
        } else {
            decode_index(rest, header.index_pointer)
        };
        match loaded {
            Ok(entries) => {
                let moss = Moss {
                    entries,
                    index_pointer: header.index_pointer,
                    index_dirty: false,
                    mutations_since_checkpoint: 0,
                };
                Ok((moss, legacy))
            },
            Err(error) => Err(error),
        }
    }

    /// The entries, in the byte order of their paths.
    pub fn entries(&self) -> (r: Vec<&IndexEntry>)
        requires
            self.wf(),
        ensures
            r@.map_values(|entry: &IndexEntry| entry@) == listing_of(self@.entries),
    {
        let mut r: Vec<&IndexEntry> = Vec::new();
        let n: usize = self.entries.len();
        let ghost all = listing(self.entries);
        proof {
            lemma_listing(self.entries);
        }
        let mut i: usize = 0;
        #[verifier::loop_isolation(false)]
        while i < n
            invariant
                i <= n,
                r@.map_values(|entry: &IndexEntry| entry@) == all.take(i as int),
            decreases n - i,
        {
            let ghost before = r@;
            r.push(self.entries.value(i));
            proof {
                assert(all.take(i + 1) =~= all.take(i as int).push(all[i as int]));
                assert(r@.map_values(|entry: &IndexEntry| entry@) =~= before.map_values(
                    |entry: &IndexEntry| entry@,
                ).push(all[i as int]));
            }
            i += 1;
        }
        assert(all.take(n as int) =~= all);
        r
    }

    /// The entry with the given path, which has to be written as the archive keeps it.
    pub fn get_entry(&self, path: &str) -> (r: Option<&IndexEntry>)
        requires
            self.wf(),
        ensures
            match r {
                Some(entry) => {
                    &&& self@.entries.contains_key(path@)
                    &&& entry@ == (EntryView { path: path@, meta: self@.entries[path@] })
                },
                None => !self@.entries.contains_key(path@),
            },
    {
        self.entries.get(path)
    }

    /// Whether there is an entry with the given path.
    pub fn contains_path(&self, path: &str) -> (r: bool)
        requires
            self.wf(),
        ensures
            r == self@.entries.contains_key(path@),
    {
        self.entries.contains(path)
    }

    /// Counts a change that the index does not hold yet. The result tells whether the index is to
    /// be written now; the last time was `elapsed` seconds ago.
    fn mark_index_dirty(&mut self, elapsed: u64) -> (due: bool)
        requires
            old(self).wf(),
        ensures
            final(self).wf(),
            final(self)@ == marked(old(self)@),
            due == is_due(final(self)@, elapsed),
    {
        self.index_dirty = true;
        self.mutations_since_checkpoint = self.mutations_since_checkpoint.saturating_add(1);
        self.mutations_since_checkpoint >= CHECKPOINT_MUTATIONS || elapsed >= CHECKPOINT_SECONDS
    }

    /// Changes mode and times as far as they are given. The result tells whether the index is to
    /// be written now; the last time was `elapsed` seconds ago.
    pub fn update_metadata(
        &mut self,
        virtual_path: &str,
        mode: Option<u16>,
        atime: Option<Timestamp>,
        mtime: Option<Timestamp>,
        now: Timestamp,
        elapsed: u64,
    ) -> (r: Result<bool, StorageError>)
        requires
            old(self).wf(),
        ensures
            final(self).wf(),
            is_outcome(
                r,
                old(self)@,
                final(self)@,
                with_metadata(old(self)@, virtual_path@, mode, atime, mtime, now),
                elapsed,
            ),
    {
        let path: String = match normalize_virtual_path(virtual_path) {
            Ok(path) => path,
            Err(error) => return Err(error),
        };
        let mut entry: IndexEntry = match self.entries.get(path.as_str()) {
            Some(entry) => entry.clone(),
            None => return Err(StorageError::NotFound),
        };
        if let Some(mode) = mode {
            entry.mode = mode;
        }
        if let Some(atime) = atime {
            entry.atime = atime;
        }
        if let Some(mtime) = mtime {
            entry.mtime = mtime;
        }
        entry.ctime = now;
        Ok(self.insert_entry(path, entry, elapsed))
    }

    /// Records an entry under its path.
    fn insert_entry(&mut self, path: String, entry: IndexEntry, elapsed: u64) -> (due: bool)
        requires
            old(self).wf(),
            is_canonical(path@),
            entry@.path == path@,
        ensures
            final(self).wf(),
            final(self)@ == recorded(old(self)@, path@, entry@.meta),
            due == is_due(final(self)@, elapsed),
    {
        proof {
            lemma_table_insert(self.entries@, path@, entry);
        }
        self.entries.insert(path, entry);
        self.mark_index_dirty(elapsed)
    }

    /// The steps that write the index at `end`, the end of the file.
    pub fn flush_index(&self, end: u64) -> (r: Result<Vec<FileOp>, StorageError>)
        requires
            self.wf(),
        ensures
            match r {
                Ok(ops) => all_fit(self@.entries) && ops_view(ops@) == flush_ops(
                    self@.entries,
                    end,
                ),
                Err(error) => !all_fit(self@.entries) && error == StorageError::PathTooLong,
            },
    {
        let index: Vec<u8> = match encode_index(&self.entries) {
            Ok(index) => index,
            Err(error) => {
                proof {
                    let path = choose|path: Seq<char>| #[trigger]
                        self.entries@.contains_key(path) && !path_fits(path);
                    assert(self@.entries.contains_key(path));
                }
                return Err(error);
            },
        };
        let mut ops: Vec<FileOp> = Vec::new();
        ops.push(FileOp::Append(index));
        ops.push(FileOp::SyncData);
        ops.push(FileOp::Patch { position: 4, bytes: locator(end) });
        ops.push(FileOp::SyncData);
        assert(ops_view(ops@) =~= flush_ops(self@.entries, end));
        Ok(ops)
    }

    /// Takes note that the index was written at `end`.
    pub fn flushed(&mut self, end: u64)
        requires
            old(self).wf(),
        ensures
            final(self).wf(),
            final(self)@ == flushed_view(old(self)@, end),
    {
        self.index_pointer = end;
        self.index_dirty = false;
        self.mutations_since_checkpoint = 0;
    }

    /// The steps that write the index, where it does not hold all changes.
    pub fn checkpoint(&self, end: u64) -> (r: Result<Option<Vec<FileOp>>, StorageError>)
        requires
            self.wf(),
        ensures
            match r {
                Ok(None) => !self@.dirty,
                Ok(Some(ops)) => {
                    &&& self@.dirty
                    &&& all_fit(self@.entries)
                    &&& ops_view(ops@) == flush_ops(self@.entries, end)
                },
                Err(error) => {
                    &&& self@.dirty
                    &&& !all_fit(self@.entries)
                    &&& error == StorageError::PathTooLong
                },
            },
    {
        if self.index_dirty {
            match self.flush_index(end) {
                Ok(ops) => Ok(Some(ops)),
                Err(error) => Err(error),
            }
        } else {
            Ok(None)
        }
    }

    /// The steps of a checkpoint, and the one that secures the whole file.
    pub fn sync(&self, end: u64) -> (r: Result<Vec<FileOp>, StorageError>)
        requires
            self.wf(),
        ensures
            match r {
                Ok(ops) => {
                    &&& self@.dirty ==> all_fit(self@.entries)
                    &&& ops_view(ops@) == if self@.dirty {
                        flush_ops(self@.entries, end).push(OpView::SyncAll)
                    } else {
                        seq![OpView::SyncAll]
                    }
                },
                Err(error) => {
                    &&& self@.dirty
                    &&& !all_fit(self@.entries)
                    &&& error == StorageError::PathTooLong
                },
            },
    {
        let mut ops: Vec<FileOp> = match self.checkpoint(end) {
            Ok(Some(ops)) => ops,
            Ok(None) => Vec::new(),
            Err(error) => return Err(error),
        };
        let ghost before = ops@;
        ops.push(FileOp::SyncAll);
        assert(ops_view(ops@) =~= ops_view(before).push(OpView::SyncAll));
        assert(!self@.dirty ==> ops_view(ops@) =~= seq![OpView::SyncAll]);
        Ok(ops)
    }

    /// Takes note that the steps of a `sync` were done for a file that ended at `end`.
    pub fn synced(&mut self, end: u64)
        requires
            old(self).wf(),
        ensures
            final(self).wf(),
            final(self)@ == if old(self)@.dirty {
                flushed_view(old(self)@, end)
            } else {
                old(self)@
            },
    {
        if self.index_dirty {
            self.flushed(end);
        }
    }

    /// Where the payload of a file lies. The path has to be written as the archive keeps it.
    pub fn read_file(&self, virtual_path: &str) -> (r: Result<Extent, StorageError>)
        requires
            self.wf(),
        ensures
            r == located(self@.entries, virtual_path@),
    {
        let entry: &IndexEntry = match self.entries.get(virtual_path) {
            Some(entry) => entry,
            None => return Err(StorageError::NotFound),
        };
        if matches!(entry.kind, EntryKind::Directory) {
            return Err(StorageError::ReadDirectory);
        }
        if entry.block_length > usize::MAX as u64 {
            return Err(StorageError::EntryTooLarge);
        }
        Ok(Extent { start: entry.start_byte, length: entry.block_length })
    }

    /// Plans to write `data` to a file of `end` bytes, under the given path. A file that is not
    /// there yet gets the given owner.
    pub fn write_file(
        &self,
        virtual_path: &str,
        data: &[u8],
        end: u64,
        uid: u32,
        gid: u32,
        now: Timestamp,
    ) -> (r: Result<Pending, StorageError>)
        requires
            self.wf(),
        ensures
            is_plan(r, file_written(self@.entries, virtual_path@, data@, end, uid, gid, now)),
    {
        let path: String = match normalize_virtual_path(virtual_path) {
            Ok(path) => path,
            Err(error) => return Err(error),
        };
        let mut entry: IndexEntry = match self.entries.get(path.as_str()) {
            Some(entry) => entry.clone(),
            None => IndexEntry::fresh_at(path.clone(), EntryKind::File, 0o644, uid, gid, now),
        };
        if matches!(entry.kind, EntryKind::Directory) {
            return Err(StorageError::ReplaceDirectory);
        }
        entry.virtual_path = path;
        entry.kind = EntryKind::File;
        entry.mtime = now;
        entry.ctime = now;
        proof {
            law_canonical_is_fixed(entry@.path);
        }
        self.upsert_entry(entry, Some(data), end)
    }

    /// Plans to record `entry`. Payload is to be appended to the file of `end` bytes.
    pub fn upsert_entry(&self, entry: IndexEntry, data: Option<&[u8]>, end: u64) -> (r: Result<
        Pending,
        StorageError,
    >)
        requires
            self.wf(),
        ensures
            is_plan(
                r,
                upserted(
                    self@.entries,
                    entry@,
                    match data {
                        Some(data) => Some(data@),
                        None => None,
                    },
                    end,
                ),
            ),
    {
        let mut entry: IndexEntry = entry;
        let mut ops: Vec<FileOp> = Vec::new();
        assert(ops_view(ops@) =~= Seq::<OpView>::empty());
        entry.virtual_path = match normalize_virtual_path(entry.virtual_path.as_str()) {
            Ok(path) => path,
            Err(error) => return Err(error),
        };
        if matches!(entry.kind, EntryKind::Directory) {
            entry.start_byte = 0;
            entry.block_length = 0;
        } else if let Some(data) = data {
            let mut payload: Vec<u8> = Vec::new();
            payload.extend_from_slice(data);
            assert(payload@ =~= data@);
            ops.push(FileOp::Append(payload));
            assert(ops_view(ops@) =~= seq![OpView::Append(data@)]);
            entry.start_byte = end;
            entry.block_length = data.len() as u64;
        } else if let Some(previous) = self.entries.get(entry.virtual_path.as_str()) {
            entry.start_byte = previous.start_byte;
            entry.block_length = previous.block_length;
        } else if entry.block_length != 0 {
            return Err(StorageError::MissingPayload);
        }
        Ok(Pending { entry, ops })
    }

    /// Records what was planned, once its steps are done. The result tells whether the index is to
    /// be written now; the last time was `elapsed` seconds ago.
    pub fn record(&mut self, pending: Pending, elapsed: u64) -> (due: bool)
        requires
            old(self).wf(),
            pending.wf(),
        ensures
            final(self).wf(),
            final(self)@ == recorded(old(self)@, pending.entry().path, pending.entry().meta),
            due == is_due(final(self)@, elapsed),
    {
        let path: String = pending.entry.virtual_path.clone();
        self.insert_entry(path, pending.entry, elapsed)
    }

    /// Removes an entry and all that lies below it. The result tells how many entries that were,
    /// and whether the index is to be written now; the last time was `elapsed` seconds ago.
    pub fn remove_prefix(&mut self, path: &str, elapsed: u64) -> (r: Result<
        (usize, bool),
        StorageError,
    >)
        requires
            old(self).wf(),
        ensures
            final(self).wf(),
            match removed(old(self)@, path@) {
                Ok((next, count)) => {
                    &&& final(self)@ == next
                    &&& r matches Ok((n, due))
                    &&& n == count
                    &&& due == (count > 0 && is_due(next, elapsed))
                },
                Err(error) => {
                    &&& final(self)@ == old(self)@
                    &&& r == Err::<(usize, bool), StorageError>(error)
                },
            },
    {
        let path: String = match normalize_virtual_path(path) {
            Ok(path) => path,
            Err(error) => return Err(error),
        };
        let targets: Vec<String> = self.entries.keys_under(path.as_str());
        let count: usize = targets.len();
        proof {
            lemma_tree(self.entries, path@, texts(targets@));
        }
        if count == 0 {
            return Ok((0, false));
        }
        self.take_all(&targets);
        proof {
            lemma_rest(old(self)@.entries, path@, texts(targets@));
        }
        Ok((count, self.mark_index_dirty(elapsed)))
    }

    /// Moves an entry and all that lies below it. The result tells whether the index is to be
    /// written now; the last time was `elapsed` seconds ago.
    pub fn rename_prefix(&mut self, old_path: &str, new_path: &str, now: Timestamp, elapsed: u64)
        -> (r: Result<bool, StorageError>)
        requires
            old(self).wf(),
        ensures
            final(self).wf(),
            match renamed(old(self)@, old_path@, new_path@, now) {
                Ok(next) => {
                    &&& final(self)@ == next
                    &&& r == Ok::<bool, StorageError>(
                        normalized(old_path@) != normalized(new_path@) && is_due(next, elapsed),
                    )
                },
                Err(error) => {
                    &&& final(self)@ == old(self)@
                    &&& r == Err::<bool, StorageError>(error)
                },
            },
    {
        let from: String = match normalize_virtual_path(old_path) {
            Ok(path) => path,
            Err(error) => return Err(error),
        };
        let to: String = match normalize_virtual_path(new_path) {
            Ok(path) => path,
            Err(error) => return Err(error),
        };
        if same_text(from.as_str(), to.as_str()) {
            return Ok(false);
        }
        if lies_under(to_chars(to.as_str()).as_slice(), to_chars(from.as_str()).as_slice()) {
            return Err(StorageError::MoveIntoItself);
        }
        let targets: Vec<String> = self.entries.keys_under(from.as_str());
        proof {
            lemma_tree(self.entries, from@, texts(targets@));
        }
        if targets.len() == 0 {
            return Err(StorageError::NotFound);
        }
        let taken: Vec<IndexEntry> = self.take_all(&targets);
        proof {
            lemma_rest(old(self)@.entries, from@, texts(targets@));
            assert forall|i: int| 0 <= i < taken.len() implies is_canonical(
                (#[trigger] taken[i])@.path,
            ) && is_under(taken[i]@.path, from@) by {
                assert(texts(targets@)[i] == taken[i]@.path);
                assert(texts(targets@).contains(taken[i]@.path));
                assert(old(self).entries@.contains_key(taken[i]@.path));
            }
        }
        self.put_all(taken, &from, &to, now);
        proof {
            assert(views(taken@) =~= views_at(old(self)@.entries, texts(targets@)));
            lemma_moved_entries(old(self)@.entries, from@, to@, now, texts(targets@));
        }
        Ok(self.mark_index_dirty(elapsed))
    }

    /// Puts entries that were taken from `from` and below it under `to`.
    fn put_all(&mut self, taken: Vec<IndexEntry>, from: &String, to: &String, now: Timestamp)
        requires
            old(self).wf(),
            is_canonical(to@),
            forall|i: int|
                0 <= i < taken.len() ==> is_canonical((#[trigger] taken[i])@.path) && is_under(
                    taken[i]@.path,
                    from@,
                ),
        ensures
            final(self).wf(),
            final(self)@ == (MossView {
                entries: put_entries(old(self)@.entries, views(taken@), from@, to@, now),
                ..old(self)@
            }),
    {
        let ghost all = views(taken@);
        let ghost base = self@.entries;
        let mut i: usize = 0;
        assert(all.take(0) =~= Seq::<EntryView>::empty());
        #[verifier::loop_isolation(false)]
        while i < taken.len()
            invariant
                i <= taken.len(),
                is_table(self.entries),
                self.index_pointer == old(self).index_pointer,
                self.index_dirty == old(self).index_dirty,
                self.mutations_since_checkpoint == old(self).mutations_since_checkpoint,
                metas(self.entries@) == put_entries(base, all.take(i as int), from@, to@, now),
            decreases taken.len() - i,
        {
            let mut entry: IndexEntry = taken[i].clone();
            assert(all[i as int] == taken[i as int]@);
            let target: String = moved_path(
                entry.virtual_path.as_str(),
                from.as_str(),
                to.as_str(),
            );
            proof {
                law_moved_canonical(taken[i as int]@.path, from@, to@);
                assert(all.take(i + 1).drop_last() =~= all.take(i as int));
            }
            entry.virtual_path = target.clone();
            entry.ctime = now;
            proof {
                lemma_table_insert(self.entries@, target@, entry);
            }
            self.entries.insert(target, entry);
            i += 1;
        }
        assert(all.take(i as int) =~= all);
    }

    /// Plans how to write the archive to a new file without what is not needed any more.
    pub fn compact(&self) -> (r: Result<Compaction, StorageError>)
        requires
            self.wf(),
        ensures
            ({
                let entries = self@.entries;
                let end = payload_end(listing_of(entries));
                match r {
                    Ok(plan) => {
                        &&& end <= u64::MAX
                        &&& all_fit(entries)
                        &&& plan.wf()
                        &&& plan.entries() == repacked_entries(entries)
                        &&& plan.index_pointer() == end
                        &&& plan.start() == header_bytes(HEADER_SIZE)
                        &&& plan.parts() == live_extents(listing_of(entries))
                        &&& plan.steps() == flush_ops(repacked_entries(entries), end as u64)
                    },
                    Err(error) => if end > u64::MAX {
                        error == StorageError::ArchiveTooLarge
                    } else {
                        !all_fit(entries) && error == StorageError::PathTooLong
                    },
                }
            }),
    {
        let ghost all = listing(self.entries);
        let n: usize = self.entries.len();
        let mut repacked_table: PathMap<IndexEntry> = PathMap::new();
        let mut extents: Vec<Extent> = Vec::new();
        let mut end: u64 = HEADER_SIZE;
        let mut i: usize = 0;
        proof {
            lemma_listing(self.entries);
            lemma_zipped(self.entries.keys(), self.entries.values());
            assert(all.take(0) =~= Seq::<EntryView>::empty());
            assert(repacked(all.take(0)) =~= Seq::<EntryView>::empty());
            assert(metas(repacked_table@) =~= Map::<Seq<char>, Meta>::empty());
        }
        #[verifier::loop_isolation(false)]
        while i < n
            invariant
                i <= n,
                is_table(repacked_table),
                metas(repacked_table@) == listing_map(repacked(all.take(i as int))),
                extents@ == live_extents(all.take(i as int)),
                end == payload_end(all.take(i as int)),
            decreases n - i,
        {
            let entry: &IndexEntry = self.entries.value(i);
            let mut copy: IndexEntry = entry.clone();
            let ghost more = all.take(i + 1);
            proof {
                assert(entry@ == all[i as int]);
                assert(more.drop_last() =~= all.take(i as int));
                assert(self.entries@.contains_key(self.entries.keys()[i as int]));
            }
            if !matches!(entry.kind, EntryKind::Directory) && entry.block_length > 0 {
                copy.start_byte = end;
                match end.checked_add(entry.block_length) {
                    Some(sum) => {
                        end = sum;
                    },
                    None => {
                        proof {
                            lemma_payload_end_grows(all, i + 1);
                        }
                        return Err(StorageError::ArchiveTooLarge);
                    },
                }
                extents.push(Extent { start: entry.start_byte, length: entry.block_length });
            } else {
                copy.start_byte = 0;
                copy.block_length = 0;
            }
            let path: String = copy.virtual_path.clone();
            proof {
                lemma_repacked_take(all, i as int);
                let packed = repacked(more);
                assert(packed.drop_last() =~= repacked(all.take(i as int)));
                assert(packed.last() == copy@);
                lemma_table_insert(repacked_table@, path@, copy);
            }
            repacked_table.insert(path, copy);
            i += 1;
        }
        proof {
            assert(all.take(n as int) =~= all);
            lemma_repacked_listing(self@.entries, all);
        }
        let plan = Moss {
            entries: repacked_table,
            index_pointer: end,
            index_dirty: false,
            mutations_since_checkpoint: 0,
        };
        match plan.flush_index(end) {
            Ok(ops) => {
                proof {
                    assert forall|path: Seq<char>| #[trigger]
                        self@.entries.contains_key(path) implies path_fits(path) by {
                        assert(plan@.entries.contains_key(path));
                    }
                }
                Ok(
                    Compaction {
                        entries: plan.entries,
                        index_pointer: end,
                        head: header(HEADER_SIZE),
                        extents,
                        ops,
                    },
                )
            },
            Err(error) => {
                proof {
                    let path = choose|path: Seq<char>| #[trigger]
                        plan@.entries.contains_key(path) && !path_fits(path);
                    assert(self@.entries.contains_key(path));
                }
                Err(error)
            },
        }
    }

    /// Takes note that the archive was written to a new file as planned.
    pub fn compacted(&mut self, plan: Compaction)
        requires
            plan.wf(),
        ensures
            final(self).wf(),
            final(self)@ == (MossView {
                entries: plan.entries(),
                index_pointer: plan.index_pointer(),
                dirty: false,
                mutations: 0,
            }),
    {
        self.entries = plan.entries;
        self.index_pointer = plan.index_pointer;
        self.index_dirty = false;
        self.mutations_since_checkpoint = 0;
    }

    /// Takes the entries with the given paths out of the table.
    fn take_all(&mut self, targets: &Vec<String>) -> (taken: Vec<IndexEntry>)
        requires
            old(self).wf(),
            texts(targets@).no_duplicates(),
            forall|i: int|
                0 <= i < targets.len() ==> old(self)@.entries.contains_key(
                    #[trigger] texts(targets@)[i],
                ),
        ensures
            final(self).wf(),
            final(self)@ == (MossView {
                entries: old(self)@.entries.remove_keys(texts(targets@).to_set()),
                ..old(self)@
            }),
            taken.len() == targets.len(),
            forall|i: int|
                0 <= i < taken.len() ==> (#[trigger] taken[i])@ == (EntryView {
                    path: targets[i]@,
                    meta: old(self)@.entries[targets[i]@],
                }),
    {
        let ghost all = texts(targets@);
        let ghost entries = self@.entries;
        let mut taken: Vec<IndexEntry> = Vec::new();
        let mut i: usize = 0;
        assert(entries.remove_keys(all.take(0).to_set()) =~= entries);
        #[verifier::loop_isolation(false)]
        while i < targets.len()
            invariant
                i <= targets.len(),
                is_table(self.entries),
                self.index_pointer == old(self).index_pointer,
                self.index_dirty == old(self).index_dirty,
                self.mutations_since_checkpoint == old(self).mutations_since_checkpoint,
                metas(self.entries@) == entries.remove_keys(all.take(i as int).to_set()),
                taken.len() == i,
                forall|k: int|
                    0 <= k < taken.len() ==> (#[trigger] taken[k])@ == (EntryView {
                        path: targets[k]@,
                        meta: entries[targets[k]@],
                    }),
            decreases targets.len() - i,
        {
            let ghost before = self.entries@;
            let ghost key = targets[i as int]@;
            proof {
                assert(all[i as int] == key);
                assert(!all.take(i as int).contains(key)) by {
                    if all.take(i as int).contains(key) {
                        let k = choose|k: int| 0 <= k < i && all.take(i as int)[k] == key;
                        assert(all[k] == key);
                    }
                }
                assert(metas(before).contains_key(key));
                assert(before.contains_key(key));
                assert forall|k: Seq<char>| #[trigger] all.take(i + 1).contains(k) <==> all.take(
                    i as int,
                ).contains(k) || k == key by {
                    assert(all.take(i + 1) =~= all.take(i as int).push(key));
                    lemma_push_contains(all.take(i as int), key, k);
                }
            }
            match self.entries.remove(targets[i].as_str()) {
                Some(entry) => {
                    assert(metas(before)[key] == entry.meta());
                    taken.push(entry);
                },
                None => {},
            }
            proof {
                assert(metas(self.entries@) =~= metas(before).remove(key));
                assert(all.take(i + 1).to_set() =~= all.take(i as int).to_set().insert(key)) by {
                    assert forall|k: Seq<char>| all.take(i + 1).to_set().contains(k) <==> all.take(
                        i as int,
                    ).to_set().insert(key).contains(k) by {
                        assert(all.take(i + 1).contains(k) <==> all.take(i as int).contains(k) || k
                            == key);
                    }
                }
                assert(metas(self.entries@) =~= entries.remove_keys(all.take(i + 1).to_set()));
            }
            i += 1;
        }
        assert(all.take(i as int) =~= all);
        taken
    }
}

/// The entries of an archive have a listing, and their paths are canonical.
pub proof fn lemma_archive(moss: Moss)
    requires
        moss.wf(),
    ensures
        is_listing(listing_of(moss@.entries), moss@.entries),
        forall|path: Seq<char>| #[trigger]
            moss@.entries.contains_key(path) ==> is_canonical(path),
{
    lemma_listing(moss.entries);
}

/// Payloads of more entries end no earlier.
pub proof fn lemma_payload_end_grows(listing: Seq<EntryView>, n: int)
    requires
        0 <= n <= listing.len(),
    ensures
        HEADER_SIZE <= payload_end(listing.take(n)) <= payload_end(listing),
    decreases listing.len(), n,
{
    if n == listing.len() {
        assert(listing.take(n) =~= listing);
        if n > 0 {
            lemma_payload_end_grows(listing.drop_last(), n - 1);
        }
    } else {
        lemma_payload_end_grows(listing.drop_last(), n);
        assert(listing.drop_last().take(n) =~= listing.take(n));
    }
}

/// A part of a listing is repacked like the whole.
pub proof fn lemma_repacked_take(listing: Seq<EntryView>, n: int)
    requires
        0 <= n < listing.len(),
    ensures
        repacked(listing.take(n + 1)) == repacked(listing.take(n)).push(repacked(listing)[n]),
{
    let more = listing.take(n + 1);
    let less = listing.take(n);
    assert forall|i: int| 0 <= i < more.len() implies repacked(more)[i] == repacked(
        less,
    ).push(repacked(listing)[n])[i] by {
        assert(more.take(i) =~= listing.take(i));
        if i < n {
            assert(less.take(i) =~= listing.take(i));
        }
    }
    assert(repacked(more) =~= repacked(less).push(repacked(listing)[n]));
}

/// Repacking changes no path.
pub proof fn lemma_repacked_listing(entries: Map<Seq<char>, Meta>, listing: Seq<EntryView>)
    requires
        is_listing(listing, entries),
    ensures
        listing_of(entries) == listing,
        is_listing(repacked(listing), repacked_entries(entries)),
        listing_of(repacked_entries(entries)) == repacked(listing),
        forall|path: Seq<char>| #[trigger]
            repacked_entries(entries).contains_key(path) <==> entries.contains_key(path),
        forall|i: int|
            0 <= i < listing.len() ==> repacked_entries(entries)[(#[trigger] listing[i]).path]
                == repacked(listing)[i].meta,
{
    law_listing_unique(listing, listing, entries);
    let packed = repacked(listing);
    assert(paths_of(packed) =~= paths_of(listing));
    law_listing_unique(packed, packed, repacked_entries(entries));
    lemma_sorted_listing(packed);
    lemma_listing_map(listing);
    lemma_listing_map(packed);
    assert forall|path: Seq<char>| #[trigger]
        repacked_entries(entries).contains_key(path) <==> entries.contains_key(path) by {
        if entries.contains_key(path) {
            let i = choose|i: int| 0 <= i < listing.len() && (#[trigger] listing[i]).path == path;
            assert(packed[i].path == path);
        }
        if repacked_entries(entries).contains_key(path) {
            let i = choose|i: int| 0 <= i < packed.len() && (#[trigger] packed[i]).path == path;
            assert(listing[i].path == path);
        }
    }
    assert forall|i: int| 0 <= i < listing.len() implies repacked_entries(entries)[(
    #[trigger] listing[i]).path] == packed[i].meta by {
        assert(packed[i].path == listing[i].path);
    }
}

/// Entries as mathematical values.
pub open spec fn views(entries: Seq<IndexEntry>) -> Seq<EntryView> {
    entries.map_values(|entry: IndexEntry| entry@)
}

/// The entries with the given paths.
spec fn views_at(entries: Map<Seq<char>, Meta>, paths: Seq<Seq<char>>) -> Seq<EntryView> {
    paths.map_values(|path: Seq<char>| EntryView { path, meta: entries[path] })
}

/// `base` with entries that move from `from` to `to`.
spec fn put_entries(
    base: Map<Seq<char>, Meta>,
    taken: Seq<EntryView>,
    from: Seq<char>,
    to: Seq<char>,
    now: Timestamp,
) -> Map<Seq<char>, Meta>
    decreases taken.len(),
{
    if taken.len() == 0 {
        base
    } else {
        put_entries(base, taken.drop_last(), from, to, now).insert(
            moved(taken.last().path, from, to),
            Meta { ctime: now, ..taken.last().meta },
        )
    }
}

/// What is there after entries with different paths have moved.
proof fn lemma_put_entries(
    base: Map<Seq<char>, Meta>,
    taken: Seq<EntryView>,
    from: Seq<char>,
    to: Seq<char>,
    now: Timestamp,
)
    requires
        distinct_paths(taken),
        forall|i: int| 0 <= i < taken.len() ==> is_under((#[trigger] taken[i]).path, from),
    ensures
        ({
            let after = put_entries(base, taken, from, to, now);
            &&& forall|i: int|
                0 <= i < taken.len() ==> {
                    let target = moved((#[trigger] taken[i]).path, from, to);
                    &&& after.contains_key(target)
                    &&& after[target] == (Meta { ctime: now, ..taken[i].meta })
                }
            &&& forall|k: Seq<char>|
                (forall|i: int|
                    0 <= i < taken.len() ==> moved((#[trigger] taken[i]).path, from, to) != k) ==> (
                #[trigger] after.contains_key(k) <==> base.contains_key(k)) && after[k] == base[k]
        }),
    decreases taken.len(),
{
    if taken.len() > 0 {
        let less = taken.drop_last();
        let last = taken.last();
        let after = put_entries(base, taken, from, to, now);
        let before = put_entries(base, less, from, to, now);
        assert(distinct_paths(less)) by {
            assert forall|i: int, j: int| 0 <= i < j < less.len() implies (#[trigger] less[i]).path
                != (#[trigger] less[j]).path by {
                assert(taken[i].path != taken[j].path);
            }
        }
        assert forall|i: int| 0 <= i < less.len() implies is_under(
            (#[trigger] less[i]).path,
            from,
        ) by {
            assert(is_under(taken[i].path, from));
        }
        lemma_put_entries(base, less, from, to, now);
        assert forall|i: int| 0 <= i < taken.len() implies {
            let target = moved((#[trigger] taken[i]).path, from, to);
            &&& after.contains_key(target)
            &&& after[target] == (Meta { ctime: now, ..taken[i].meta })
        } by {
            if i < less.len() {
                assert(less[i] == taken[i]);
                assert(taken[i].path != taken[taken.len() - 1].path);
                law_moved_back(taken[i].path, from, to);
                law_moved_back(last.path, from, to);
                assert(moved(taken[i].path, from, to) != moved(last.path, from, to));
            }
        }
        assert forall|k: Seq<char>|
            (forall|i: int|
                0 <= i < taken.len() ==> moved((#[trigger] taken[i]).path, from, to) != k) implies (
        #[trigger] after.contains_key(k) <==> base.contains_key(k)) && after[k] == base[k] by {
            assert forall|i: int| 0 <= i < less.len() implies moved(
                (#[trigger] less[i]).path,
                from,
                to,
            ) != k by {
                assert(less[i] == taken[i]);
            }
            assert(moved(taken[taken.len() - 1].path, from, to) != k);
            assert(before.contains_key(k) <==> base.contains_key(k));
        }
    }
}

/// Taking a tree out and putting it elsewhere moves it.
proof fn lemma_moved_entries(
    entries: Map<Seq<char>, Meta>,
    from: Seq<char>,
    to: Seq<char>,
    now: Timestamp,
    paths: Seq<Seq<char>>,
)
    requires
        paths.no_duplicates(),
        paths.to_set() == tree(entries, from),
    ensures
        put_entries(without_tree(entries, from), views_at(entries, paths), from, to, now)
            == moved_entries(entries, from, to, now),
{
    let taken = views_at(entries, paths);
    let base = without_tree(entries, from);
    let after = put_entries(base, taken, from, to, now);
    let goal = moved_entries(entries, from, to, now);
    assert forall|i: int| 0 <= i < taken.len() implies is_under(
        (#[trigger] taken[i]).path,
        from,
    ) && entries.contains_key(taken[i].path) by {
        assert(paths.to_set().contains(paths[i]));
        assert(tree(entries, from).contains(paths[i]));
    }
    lemma_put_entries(base, taken, from, to, now);
    assert forall|k: Seq<char>| true implies (#[trigger] after.contains_key(k)
        <==> goal.contains_key(k)) && (after.contains_key(k) ==> after[k] == goal[k]) by {
        if came_from(entries, k, from, to) {
            let source = moved(k, to, from);
            law_moved_back(k, to, from);
            assert(tree(entries, from).contains(source));
            assert(paths.to_set().contains(source));
            let i = choose|i: int| 0 <= i < paths.len() && paths[i] == source;
            assert(taken[i].path == source);
        } else {
            assert forall|i: int| 0 <= i < taken.len() implies moved(
                (#[trigger] taken[i]).path,
                from,
                to,
            ) != k by {
                law_moved_back(taken[i].path, from, to);
            }
        }
    }
    assert(after =~= goal);
}

/// Listed paths make up a tree.
proof fn lemma_tree(entries: PathMap<IndexEntry>, path: Seq<char>, paths: Seq<Seq<char>>)
    requires
        is_table(entries),
        is_sorted(paths),
        forall|k: Seq<char>| #[trigger]
            paths.contains(k) <==> entries@.contains_key(k) && is_under(k, path),
    ensures
        paths.no_duplicates(),
        paths.to_set() == tree(metas(entries@), path),
        tree(metas(entries@), path).len() == paths.len(),
        forall|i: int| 0 <= i < paths.len() ==> metas(entries@).contains_key(#[trigger] paths[i]),
{
    lemma_sorted_distinct(paths);
    paths.unique_seq_to_set();
    assert(paths.to_set() =~= tree(metas(entries@), path));
    assert forall|i: int| 0 <= i < paths.len() implies metas(entries@).contains_key(
        #[trigger] paths[i],
    ) by {
        assert(paths.contains(paths[i]));
    }
}

/// What is left when a tree is taken out.
proof fn lemma_rest(entries: Map<Seq<char>, Meta>, path: Seq<char>, paths: Seq<Seq<char>>)
    requires
        paths.to_set() == tree(entries, path),
    ensures
        entries.remove_keys(paths.to_set()) == without_tree(entries, path),
{
    assert(entries.remove_keys(paths.to_set()) =~= without_tree(entries, path));
}

} // verus!
