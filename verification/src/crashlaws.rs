//! What holds of an archive when work on its file stops half way.
use vstd::prelude::*;
use vstd::utf8::*;
use crate::bytes::le_value;
use crate::entry::Meta;
use crate::error::StorageError;
use crate::file::{after_ops, decoded_header, Header, OpView, VERSION};
use crate::index::{decoded_entries, decoded_entry, decoded_fields, decoded_path, index_bytes,
    listing_of};
use crate::laws::{content, is_sound, is_sound_meta, opens_as, same_contents};
use crate::storage::{flush_ops, has_payload, opened};
use crate::time::Timestamp;

verus! {

/// A path that was read is read the same when more bytes follow.
proof fn lemma_path_extends(rest: Seq<u8>, more: Seq<u8>)
    requires
        decoded_path(rest) is Ok,
    ensures
        decoded_path(rest + more) == decoded_path(rest),
        (decoded_path(rest)->Ok_0).1 <= rest.len(),
{
    assert((rest + more).take(4) =~= rest.take(4));
    let length = le_value(rest.take(4)) as int;
    assert((rest + more).subrange(4, 4 + length) =~= rest.subrange(4, 4 + length));
}

/// Attributes that were read are read the same when more bytes follow.
proof fn lemma_fields_extend(rest: Seq<u8>, more: Seq<u8>)
    requires
        decoded_fields(rest) is Ok,
    ensures
        decoded_fields(rest + more) == decoded_fields(rest),
        rest.len() >= 63,
{
    let all = rest + more;
    assert(all[0] == rest[0]);
    assert(all.subrange(1, 9) =~= rest.subrange(1, 9));
    assert(all.subrange(9, 17) =~= rest.subrange(9, 17));
    assert(all.subrange(17, 19) =~= rest.subrange(17, 19));
    assert(all.subrange(19, 23) =~= rest.subrange(19, 23));
    assert(all.subrange(23, 27) =~= rest.subrange(23, 27));
    assert(all.subrange(27, 39) =~= rest.subrange(27, 39));
    assert(all.subrange(39, 51) =~= rest.subrange(39, 51));
    assert(all.subrange(51, 63) =~= rest.subrange(51, 63));
}

proof fn lemma_entries_extend(
    rest: Seq<u8>,
    more: Seq<u8>,
    count: nat,
    pointer: u64,
    found: Map<Seq<char>, Meta>,
)
    requires
        decoded_entries(rest, count, pointer, found) is Ok,
    ensures
        decoded_entries(rest + more, count, pointer, found) == decoded_entries(
            rest,
            count,
            pointer,
            found,
        ),
    decreases count,
{
    if count > 0 {
        let used = (decoded_path(rest)->Ok_0).1 as int;
        lemma_path_extends(rest, more);
        assert((rest + more).skip(used) =~= rest.skip(used) + more);
        lemma_fields_extend(rest.skip(used), more);
        assert(decoded_entry(rest + more, pointer) == decoded_entry(rest, pointer));
        let (entry, taken) = decoded_entry(rest, pointer)->Ok_0;
        assert((rest + more).skip(taken as int) =~= rest.skip(taken as int) + more);
        lemma_entries_extend(
            rest.skip(taken as int),
            more,
            (count - 1) as nat,
            pointer,
            found.insert(entry.path, entry.meta),
        );
    }
}

/// Bytes that are appended to a file do not change what it opens as, nor any payload: until the
/// header points to them, they do not count.
pub proof fn law_appending_changes_nothing(
    image: Seq<u8>,
    more: Seq<u8>,
    entries: Map<Seq<char>, Meta>,
    pointer: u64,
)
    requires
        image.len() + more.len() <= u64::MAX,
        opens_as(image, entries, pointer),
    ensures
        opens_as(image + more, entries, pointer),
        is_sound(entries, image.len()) ==> same_contents(entries, image, image + more),
{
    let all = image + more;
    let header = Header { version: VERSION, index_pointer: pointer };
    assert(decoded_header(all, all.len() as u64) == Ok::<Header, StorageError>(header)) by {
        assert(decoded_header(image, image.len() as u64) == Ok::<Header, StorageError>(header));
        assert(all.take(4) =~= image.take(4));
        assert(all.subrange(4, 6) =~= image.subrange(4, 6));
        assert(all.subrange(6, 14) =~= image.subrange(6, 14));
    }
    let rest = image.skip(pointer as int);
    assert(all.skip(pointer as int) =~= rest + more);
    assert forall|uid: u32, gid: u32, now: Timestamp| #[trigger]
        opened(header, all.skip(pointer as int), uid, gid, now) == Ok::<
            Map<Seq<char>, Meta>,
            StorageError,
        >(entries) by {
        assert(opened(header, rest, uid, gid, now) == Ok::<Map<Seq<char>, Meta>, StorageError>(
            entries,
        ));
        assert((rest + more).take(4) =~= rest.take(4));
        assert((rest + more).subrange(4, 12) =~= rest.subrange(4, 12));
        assert((rest + more).skip(12) =~= rest.skip(12) + more);
        lemma_entries_extend(
            rest.skip(12),
            more,
            le_value(rest.subrange(4, 12)),
            pointer,
            Map::<Seq<char>, Meta>::empty(),
        );
    }
    if is_sound(entries, image.len()) {
        assert forall|path: Seq<char>| #[trigger] entries.contains_key(path) implies content(
            image,
            entries[path],
        ) == content(all, entries[path]) by {
            let meta = entries[path];
            assert(is_sound_meta(meta, image.len()));
            if has_payload(meta) {
                assert(content(image, meta) =~= content(all, meta));
            }
        }
    }
}

/// When writing the index stops before the header is changed, the file opens as it did before.
pub proof fn law_interrupted_flush(
    image: Seq<u8>,
    entries: Map<Seq<char>, Meta>,
    pointer: u64,
    changed: Map<Seq<char>, Meta>,
    done: int,
)
    requires
        image.len() + index_bytes(listing_of(changed)).len() <= u64::MAX,
        opens_as(image, entries, pointer),
        0 <= done <= 2,
    ensures
        opens_as(
            after_ops(image, flush_ops(changed, image.len() as u64).take(done)),
            entries,
            pointer,
        ),
{
    let steps = flush_ops(changed, image.len() as u64).take(done);
    let index = index_bytes(listing_of(changed));
    reveal_with_fuel(after_ops, 3);
    if done == 0 {
        assert(after_ops(image, steps) == image);
    } else {
        law_appending_changes_nothing(image, index, entries, pointer);
        if done == 1 {
            assert(steps.drop_last().len() == 0);
            assert(steps.last() == OpView::Append(index));
        } else {
            assert(steps.drop_last().drop_last().len() == 0);
            assert(steps.last() == OpView::SyncData);
            assert(steps.drop_last().last() == OpView::Append(index));
        }
        assert(after_ops(image, steps) =~= image + index);
    }
}

} // verus!
