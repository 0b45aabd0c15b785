//! What was written into a native table is read back from it.
use crate::checksum::{block_checksum, block_checksum_detects_one_changed_byte};
use crate::codec::{compressed, decompressed, tag_of, COMPRESSION_NONE};
use crate::coding::{
    fixed32_round_trip, fixed32_tells_bytes_apart, fixed64_tells_bytes_apart, le_bytes_u32,
    varint_bytes, VALUE_TYPE_VALUE,
};
use crate::custom::table_magic;
use crate::error::{corrupt, ErrorView};
use crate::internal_key::{internal, internal_key_round_trip, split};
use crate::keys::{
    as_map, has_prefix, key_before, key_order_asymmetric, key_order_irreflexive,
    lemma_inserted_sorted, sorted, Entry,
};
use crate::native::{
    block_handle_round_trip, block_in_table, checksum_mismatch, frame_contents, frame_in_table,
    handle_bytes, lends, table_index, table_index_handle, BlockHandle,
};
use crate::native_laws::{
    all_entries, ascending, block_bounded, block_of, borrowing_changes_no_entry, bounded,
    full_scan_shows_all_entries, map_get, prefix_scan_shows_what_has_the_prefix, prefixed,
    read_alike, readable, selected,
};
use crate::native_lookup::{native_lookup, native_lookups};
use crate::native_lookup_laws::{lookup_agrees_with_table, lookups_agree_with_table, separated};
use crate::native_scan::{
    borrowed_blocks, everything, index_plan, seen_after, table_blocks, table_plan, whole_blocks,
    with_prefix, within_prefix, Reading,
};
use crate::native_table::{native_contents, plan_map, table_reading};
use crate::native_write::{
    block_body, block_image, block_round_trip, footer_bytes, footer_round_trip, index_entry,
    internal_entries, lemma_body_front, lemma_index_fits, native_block, native_image, native_table,
    trailer_bytes, written,
};
use crate::options::CompressionPolicy;
use crate::scan::{lent_items, ScanEnd, ScanItem, ScanPlan};
use crate::collect::shown_entries;
use vstd::prelude::*;

verus! {

/// A frame gives back the payload that was put into it.
pub proof fn frame_round_trip(
    path: Seq<char>,
    offset: nat,
    payload: Seq<u8>,
    tag: u8,
    paranoid_checks: bool,
)
    ensures
        frame_contents(path, offset, payload + trailer_bytes(payload, tag), paranoid_checks)
            == decompressed(tag, payload),
{
    let frame = payload + trailer_bytes(payload, tag);
    fixed32_round_trip(block_checksum(payload, tag));
    assert(frame.take(frame.len() - 5) =~= payload);
    assert(frame.skip(frame.len() - 4) =~= le_bytes_u32(block_checksum(payload, tag)));
}

/// The index of a written table.
spec fn written_index(entries: Seq<Entry>, sequence: u64, policy: CompressionPolicy) -> Seq<Entry> {
    let keyed = internal_entries(entries, sequence);
    seq![index_entry(keyed, compressed(policy, native_block(keyed)->Ok_0)->Ok_0)]
}

/// The handle of the index block of an assembled table.
spec fn index_handle_of(data: Seq<u8>, index: Seq<u8>) -> BlockHandle {
    BlockHandle { offset: (data.len() + 5) as u64, size: index.len() as u64 }
}

/// The handle of the data block of an assembled table.
spec fn data_handle_of(data: Seq<u8>) -> BlockHandle {
    BlockHandle { offset: 0, size: data.len() as u64 }
}

proof fn lemma_image_len(tag: u8, data: Seq<u8>, index: Seq<u8>)
    ensures
        native_image(tag, data, index).len() == data.len() + 5 + index.len() + 5 + 48,
{
    let meta_handle = BlockHandle { offset: 0, size: 0 };
    fixed32_round_trip(block_checksum(data, tag));
    fixed32_round_trip(block_checksum(index, COMPRESSION_NONE));
    footer_round_trip(meta_handle, index_handle_of(data, index), Seq::empty());
}

proof fn lemma_image_footer(tag: u8, data: Seq<u8>, index: Seq<u8>, path: Seq<char>)
    ensures
        table_index_handle(path, native_image(tag, data, index)) == Ok::<BlockHandle, ErrorView>(
            index_handle_of(data, index),
        ),
{
    let table = native_image(tag, data, index);
    let meta_handle = BlockHandle { offset: 0, size: 0 };
    let footer = footer_bytes(meta_handle, index_handle_of(data, index));
    lemma_image_len(tag, data, index);
    footer_round_trip(meta_handle, index_handle_of(data, index), path);
    assert(table.skip(table.len() - 48) =~= footer);
}

proof fn lemma_image_index(
    tag: u8,
    data: Seq<u8>,
    index: Seq<u8>,
    path: Seq<char>,
    paranoid_checks: bool,
)
    requires
        native_image(tag, data, index).len() <= usize::MAX,
    ensures
        block_in_table(
            path,
            native_image(tag, data, index),
            index_handle_of(data, index),
            paranoid_checks,
        ) == Ok::<Seq<u8>, ErrorView>(index),
{
    let table = native_image(tag, data, index);
    let handle = index_handle_of(data, index);
    let frame = index + trailer_bytes(index, COMPRESSION_NONE);
    lemma_image_len(tag, data, index);
    fixed32_round_trip(block_checksum(data, tag));
    fixed32_round_trip(block_checksum(index, COMPRESSION_NONE));
    assert(table.subrange(handle.offset as int, handle.offset + handle.size + 5) =~= frame);
    assert(frame_in_table(path, table, handle) == Ok::<Seq<u8>, ErrorView>(frame));
    frame_round_trip(path, handle.offset as nat, index, COMPRESSION_NONE, paranoid_checks);
}

proof fn lemma_image_data(
    tag: u8,
    data: Seq<u8>,
    index: Seq<u8>,
    path: Seq<char>,
    paranoid_checks: bool,
)
    requires
        native_image(tag, data, index).len() <= usize::MAX,
    ensures
        block_in_table(
            path,
            native_image(tag, data, index),
            data_handle_of(data),
            paranoid_checks,
        ) == decompressed(tag, data),
{
    let table = native_image(tag, data, index);
    let handle = data_handle_of(data);
    let frame = data + trailer_bytes(data, tag);
    lemma_image_len(tag, data, index);
    fixed32_round_trip(block_checksum(data, tag));
    assert(table.subrange(handle.offset as int, handle.offset + handle.size + 5) =~= frame);
    assert(frame_in_table(path, table, handle) == Ok::<Seq<u8>, ErrorView>(frame));
    frame_round_trip(path, 0, data, tag, paranoid_checks);
}

proof fn lemma_native_parts(
    entries: Seq<Entry>,
    sequence: u64,
    policy: CompressionPolicy,
    path: Seq<char>,
    paranoid_checks: bool,
)
    requires
        written(entries, sequence, policy),
    ensures
        ({
            let table = native_table(entries, sequence, policy)->Ok_0;
            let index = written_index(entries, sequence, policy);
            &&& table_index(path, table, paranoid_checks) == Ok::<Seq<Entry>, ErrorView>(index)
            &&& block_of(index[0], table_blocks(path, table, paranoid_checks)) == Ok::<
                Seq<Entry>,
                ErrorView,
            >(internal_entries(entries, sequence))
        }),
{
    let table = native_table(entries, sequence, policy)->Ok_0;
    let keyed = internal_entries(entries, sequence);
    let block = native_block(keyed)->Ok_0;
    let data = compressed(policy, block)->Ok_0;
    let entry = index_entry(keyed, data);
    let index = block_image(seq![entry]);
    let tag = tag_of(policy);
    assert(table == native_image(tag, data, index));
    lemma_image_len(tag, data, index);
    lemma_image_footer(tag, data, index, path);
    lemma_image_index(tag, data, index, path, paranoid_checks);
    lemma_image_data(tag, data, index, path, paranoid_checks);
    lemma_index_fits(keyed, data);
    block_round_trip(seq![entry]);
    block_round_trip(keyed);
    block_handle_round_trip(data_handle_of(data), Seq::empty());
    assert(handle_bytes(data_handle_of(data)) + Seq::<u8>::empty() =~= handle_bytes(
        data_handle_of(data),
    ));
}

/// Shows every entry of a list in its order.
pub open spec fn every_entry(entries: Seq<Entry>) -> Seq<ScanItem> {
    Seq::new(
        entries.len(),
        |i: int| ScanItem { key: entries[i].0, value: entries[i].1, shown: true, borrowed: false },
    )
}

/// A scan of entries with distinct user keys shows them all.
proof fn lemma_distinct_selected(entries: Seq<Entry>, sequence: u64, seen: Set<Seq<u8>>)
    requires
        sorted(entries),
        forall|i: int| 0 <= i < entries.len() ==> !seen.contains((#[trigger] entries[i]).0),
    ensures
        selected(internal_entries(entries, sequence), seen, everything()).plan.items
            == every_entry(entries),
    decreases entries.len(),
{
    let keyed = internal_entries(entries, sequence);
    let items = selected(keyed, seen, everything()).plan.items;
    if entries.len() > 0 {
        let rest = entries.skip(1);
        let (key, value) = entries[0];
        internal_key_round_trip(key, sequence);
        assert(keyed[0] == (internal(key, sequence, VALUE_TYPE_VALUE), value));
        assert(key.take(0) =~= Seq::<u8>::empty());
        assert(keyed.skip(1) =~= internal_entries(rest, sequence));
        let now = seen.insert(key);
        assert(seen_after(keyed[0].0, seen) == now);
        assert forall|i: int, j: int| 0 <= i < j < rest.len() implies key_before(
            #[trigger] rest[i].0,
            #[trigger] rest[j].0,
        ) by {
            assert(rest[i] == entries[i + 1] && rest[j] == entries[j + 1]);
        }
        assert forall|i: int| 0 <= i < rest.len() implies !now.contains(
            (#[trigger] rest[i]).0,
        ) by {
            assert(rest[i] == entries[i + 1]);
            assert(key_before(entries[0].0, entries[i + 1].0));
            key_order_irreflexive(key);
        }
        lemma_distinct_selected(rest, sequence, now);
    }
    assert(items =~= every_entry(entries));
}

proof fn lemma_every_entry_shown(entries: Seq<Entry>)
    ensures
        shown_entries(every_entry(entries)) == entries,
    decreases entries.len(),
{
    let items = every_entry(entries);
    if entries.len() > 0 {
        assert(items.skip(1) =~= every_entry(entries.skip(1)));
        lemma_every_entry_shown(entries.skip(1));
    }
    assert(shown_entries(items) =~= entries);
}

proof fn lemma_written_is_ordered(entries: Seq<Entry>, sequence: u64)
    requires
        sorted(entries),
    ensures
        ascending(internal_entries(entries, sequence)),
{
    let keyed = internal_entries(entries, sequence);
    assert forall|a: int, b: int|
        #![trigger keyed[a], keyed[b]]
        0 <= a < b < keyed.len() && split(keyed[a].0) is Some && split(keyed[b].0)
            is Some implies !key_before(
        split(keyed[b].0)->Some_0.0,
        split(keyed[a].0)->Some_0.0,
    ) by {
        internal_key_round_trip(entries[a].0, sequence);
        internal_key_round_trip(entries[b].0, sequence);
        assert(key_before(entries[a].0, entries[b].0));
        key_order_asymmetric(entries[a].0, entries[b].0);
    }
}

proof fn lemma_written_table(
    entries: Seq<Entry>,
    sequence: u64,
    policy: CompressionPolicy,
    path: Seq<char>,
    paranoid_checks: bool,
)
    requires
        written(entries, sequence, policy),
    ensures
        ({
            let table = native_table(entries, sequence, policy)->Ok_0;
            let fetch = table_blocks(path, table, paranoid_checks);
            let index = written_index(entries, sequence, policy);
            &&& table_index(path, table, paranoid_checks) == Ok::<Seq<Entry>, ErrorView>(index)
            &&& all_entries(index, fetch) == internal_entries(entries, sequence)
            &&& ascending(all_entries(index, fetch))
            &&& bounded(index, fetch)
            &&& separated(index, fetch)
            &&& readable(index, fetch)
        }),
{
    let table = native_table(entries, sequence, policy)->Ok_0;
    let keyed = internal_entries(entries, sequence);
    let fetch = table_blocks(path, table, paranoid_checks);
    let index = written_index(entries, sequence, policy);
    let last = entries[entries.len() - 1].0;
    lemma_native_parts(entries, sequence, policy, path, paranoid_checks);
    assert(all_entries(index.skip(1), fetch) =~= Seq::<Entry>::empty());
    assert(all_entries(index, fetch) =~= keyed);
    lemma_written_is_ordered(entries, sequence);
    assert(keyed.last().0 == internal(last, sequence, VALUE_TYPE_VALUE));
    internal_key_round_trip(last, sequence);
    assert forall|a: int| 0 <= a < keyed.len() && split((#[trigger] keyed[a]).0)
        is Some implies !key_before(last, split(keyed[a].0)->Some_0.0) by {
        internal_key_round_trip(entries[a].0, sequence);
        if a < entries.len() - 1 {
            assert(key_before(entries[a].0, entries[entries.len() - 1].0));
            key_order_asymmetric(entries[a].0, last);
        } else {
            key_order_irreflexive(last);
        }
    }
    assert(block_bounded(index[0], fetch));
}

/// What a scan of a written table shows: its entries in the order of their keys.
/// Values are borrowed where the scan borrows and the table is not compressed.
pub open spec fn written_items(
    entries: Seq<Entry>,
    policy: CompressionPolicy,
    borrows: bool,
) -> Seq<ScanItem> {
    lent_items(every_entry(entries), borrows && policy is Uncompressed)
}

/// The data block of a written table is read in one way.
proof fn lemma_written_reading(entries: Seq<Entry>, sequence: u64, policy: CompressionPolicy)
    requires
        written(entries, sequence, policy),
    ensures
        read_alike(
            written_index(entries, sequence, policy),
            borrowed_blocks(native_table(entries, sequence, policy)->Ok_0),
            Reading::Entries { borrowed: policy is Uncompressed },
        ),
{
    let table = native_table(entries, sequence, policy)->Ok_0;
    let keyed = internal_entries(entries, sequence);
    let data = compressed(policy, native_block(keyed)->Ok_0)->Ok_0;
    let handle = data_handle_of(data);
    let index = block_image(seq![index_entry(keyed, data)]);
    lemma_image_len(tag_of(policy), data, index);
    block_handle_round_trip(handle, Seq::empty());
    assert(handle_bytes(handle) + Seq::<u8>::empty() =~= handle_bytes(handle));
    assert(table[data.len() as int] == tag_of(policy));
    assert(lends(table, handle) == (policy is Uncompressed));
}

/// A scan of a written table shows its entries in the order of their keys, with
/// and without checksums, whatever the path is.
pub proof fn written_table_scans_back(
    entries: Seq<Entry>,
    sequence: u64,
    policy: CompressionPolicy,
    path: Seq<char>,
    paranoid_checks: bool,
    borrows: bool,
)
    requires
        written(entries, sequence, policy),
    ensures
        ({
            let table = native_table(entries, sequence, policy)->Ok_0;
            let reading = table_reading(table, borrows);
            table_plan(path, table, paranoid_checks, everything(), reading) == (ScanPlan {
                items: written_items(entries, policy, borrows),
                end: ScanEnd::Done,
            })
        }),
{
    let table = native_table(entries, sequence, policy)->Ok_0;
    let fetch = table_blocks(path, table, paranoid_checks);
    let index = written_index(entries, sequence, policy);
    let none = Set::empty();
    let borrowed = policy is Uncompressed;
    let reading = borrowed_blocks(table);
    lemma_written_table(entries, sequence, policy, path, paranoid_checks);
    lemma_distinct_selected(entries, sequence, none);
    full_scan_shows_all_entries(index, none, fetch);
    lemma_written_reading(entries, sequence, policy);
    borrowing_changes_no_entry(index, none, everything(), fetch, reading, borrowed);
    assert(lent_items(every_entry(entries), false) =~= every_entry(entries));
}

/// A written table reads back as the map that was written.
pub proof fn written_table_reads_back(
    entries: Seq<Entry>,
    sequence: u64,
    policy: CompressionPolicy,
    path: Seq<char>,
    paranoid_checks: bool,
)
    requires
        written(entries, sequence, policy),
    ensures
        native_contents(path, native_table(entries, sequence, policy)->Ok_0, paranoid_checks)
            == Ok::<Map<Seq<u8>, Seq<u8>>, ErrorView>(as_map(entries)),
{
    written_table_scans_back(entries, sequence, policy, path, paranoid_checks, false);
    assert(lent_items(every_entry(entries), false) =~= every_entry(entries));
    lemma_every_entry_shown(entries);
    lemma_inserted_sorted(entries);
}

/// A prefix scan of a written table shows its entries whose keys start with the
/// prefix, in the order of their keys.
pub proof fn written_table_scans_prefix_back(
    entries: Seq<Entry>,
    sequence: u64,
    policy: CompressionPolicy,
    path: Seq<char>,
    paranoid_checks: bool,
    prefix: Seq<u8>,
    borrows: bool,
)
    requires
        written(entries, sequence, policy),
    ensures
        ({
            let table = native_table(entries, sequence, policy)->Ok_0;
            let reading = table_reading(table, borrows);
            let plan = ScanPlan {
                items: prefixed(written_items(entries, policy, borrows), prefix),
                end: ScanEnd::Done,
            };
            &&& table_plan(path, table, paranoid_checks, with_prefix(prefix), reading) == plan
            &&& table_plan(path, table, paranoid_checks, within_prefix(prefix), reading) == plan
        }),
{
    let table = native_table(entries, sequence, policy)->Ok_0;
    let fetch = table_blocks(path, table, paranoid_checks);
    let index = written_index(entries, sequence, policy);
    let reading = table_reading(table, borrows);
    lemma_written_table(entries, sequence, policy, path, paranoid_checks);
    written_table_scans_back(entries, sequence, policy, path, paranoid_checks, borrows);
    prefix_scan_shows_what_has_the_prefix(index, prefix, fetch, reading);
}

/// A lookup in a written table gives what was written under the key.
pub proof fn written_table_looks_up(
    entries: Seq<Entry>,
    sequence: u64,
    policy: CompressionPolicy,
    path: Seq<char>,
    paranoid_checks: bool,
    key: Seq<u8>,
)
    requires
        written(entries, sequence, policy),
    ensures
        native_lookup(
            path,
            native_table(entries, sequence, policy)->Ok_0,
            key,
            paranoid_checks,
        ) == Ok::<Option<Seq<u8>>, ErrorView>(map_get(as_map(entries), key)),
{
    let table = native_table(entries, sequence, policy)->Ok_0;
    let fetch = table_blocks(path, table, paranoid_checks);
    let index = written_index(entries, sequence, policy);
    lemma_written_table(entries, sequence, policy, path, paranoid_checks);
    written_table_reads_back(entries, sequence, policy, path, paranoid_checks);
    lookup_agrees_with_table(index, key, fetch);
}

/// A lookup of several keys in a written table gives, at each place, what was
/// written under the key that is asked for there.
pub proof fn written_table_looks_up_several(
    entries: Seq<Entry>,
    sequence: u64,
    policy: CompressionPolicy,
    path: Seq<char>,
    paranoid_checks: bool,
    keys: Seq<Seq<u8>>,
)
    requires
        written(entries, sequence, policy),
    ensures
        native_lookups(
            path,
            native_table(entries, sequence, policy)->Ok_0,
            keys,
            paranoid_checks,
        ) == Ok::<Seq<Option<Seq<u8>>>, ErrorView>(
            Seq::new(keys.len(), |i: int| map_get(as_map(entries), keys[i])),
        ),
{
    let table = native_table(entries, sequence, policy)->Ok_0;
    let fetch = table_blocks(path, table, paranoid_checks);
    let index = written_index(entries, sequence, policy);
    lemma_written_table(entries, sequence, policy, path, paranoid_checks);
    written_table_reads_back(entries, sequence, policy, path, paranoid_checks);
    lookups_agree_with_table(keys, index, fetch);
    let map = plan_map(index_plan(index, Set::empty(), everything(), fetch, whole_blocks()));
    assert(Seq::new(keys.len(), |i: int| map_get(map->Ok_0, keys[i])) =~= Seq::new(
        keys.len(),
        |i: int| map_get(as_map(entries), keys[i]),
    ));
}

/// A written table is told apart from a `BWLDB` table by its first two bytes,
/// however it is compressed.
pub proof fn written_table_is_native(entries: Seq<Entry>, sequence: u64, policy: CompressionPolicy)
    requires
        written(entries, sequence, policy),
    ensures
        !has_prefix(native_table(entries, sequence, policy)->Ok_0, table_magic()),
{
    let table = native_table(entries, sequence, policy)->Ok_0;
    let keyed = internal_entries(entries, sequence);
    let block = native_block(keyed)->Ok_0;
    let data = compressed(policy, block)->Ok_0;
    lemma_body_front(keyed);
    assert(varint_bytes(0)[0] == 0);
    assert(block_body(keyed)[0] == 0);
    assert(block[0] == 0);
    if policy is Snappy {
        let head = varint_bytes(block.len());
        assert(data.take(head.len() as int)[0] == head[0]);
    }
    if has_prefix(table, table_magic()) {
        assert(table.take(9)[0] == table_magic()[0]);
        assert(table.take(9)[1] == table_magic()[1]);
        assert(table[0] == data[0]);
    }
}

// ---------------------------------------------------------------------------
// Damage.

/// With checksums, no block can be read in whose frame the tag, or one byte of
/// the compressed payload or of the stored checksum, was changed.
pub proof fn corrupted_native_block_is_refused(
    path: Seq<char>,
    table: Seq<u8>,
    handle: BlockHandle,
    i: int,
    byte: u8,
)
    requires
        frame_in_table(path, table, handle) is Ok,
        frame_contents(
            path,
            handle.offset as nat,
            frame_in_table(path, table, handle)->Ok_0,
            true,
        ) != Err::<Seq<u8>, ErrorView>(checksum_mismatch(path, handle.offset as nat)),
        handle.offset <= i < handle.offset + handle.size + 5,
        byte != table[i],
    ensures
        block_in_table(path, table.update(i, byte), handle, true) == Err::<Seq<u8>, ErrorView>(
            checksum_mismatch(path, handle.offset as nat),
        ),
{
    let frame = frame_in_table(path, table, handle)->Ok_0;
    let changed_table = table.update(i, byte);
    let changed = frame_in_table(path, changed_table, handle)->Ok_0;
    let at = i - handle.offset;
    let size = handle.size as int;
    assert(changed =~= frame.update(at, byte));
    assert(frame[at] == table[i]);
    let payload = frame.take(size);
    let tag = frame[size];
    let stored = frame.skip(size + 1);
    if at < size {
        assert(changed.take(size) =~= payload.update(at, byte));
        assert(changed.skip(size + 1) =~= stored);
        assert(payload[at] == frame[at]);
        block_checksum_detects_one_changed_byte(payload, tag, at, byte);
    } else if at == size {
        assert(changed.take(size) =~= payload);
        assert(changed.skip(size + 1) =~= stored);
        block_checksum_detects_one_changed_byte(payload, tag, 0, byte);
    } else {
        assert(changed.take(size) =~= payload);
        assert(changed.skip(size + 1) =~= stored.update(at - size - 1, byte));
        assert(stored[at - size - 1] == frame[at]);
        fixed32_tells_bytes_apart(stored, at - size - 1, byte);
    }
}

/// No table can be read in which one byte of the magic number was changed.
pub proof fn corrupted_native_magic_is_refused(
    path: Seq<char>,
    table: Seq<u8>,
    i: int,
    byte: u8,
    paranoid_checks: bool,
)
    requires
        table_index_handle(path, table) is Ok,
        table.len() - 8 <= i < table.len(),
        byte != table[i],
    ensures
        table_index(path, table.update(i, byte), paranoid_checks) == Err::<Seq<Entry>, ErrorView>(
            corrupt("table "@ + path + " has unsupported magic"@),
        ),
{
    let changed = table.update(i, byte);
    let footer = table.skip(table.len() - 48);
    let magic = footer.subrange(40, 48);
    let at = i - (table.len() - 8);
    assert(changed.skip(table.len() - 48).subrange(40, 48) =~= magic.update(at, byte));
    assert(magic[at] == table[i]);
    fixed64_tells_bytes_apart(magic, at, byte);
}

} // verus!
