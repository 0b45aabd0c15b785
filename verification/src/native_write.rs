//! Writing native tables.
use crate::blob::{as_slice, contents, from_vec, share};
use crate::block::{block_entries, block_entry_at_front, entries_end, native_entries, whole_list};
use crate::checksum::{block_checksum, masked_crc32c};
use crate::codec::{
    bytes_result, compress_payload, compressed, compressible, compression_tag, decompressed,
    starts_as, tag_of, COMPRESSION_NONE,
};
use crate::coding::{
    fixed32_round_trip, fixed64_round_trip, fixed_numbers_are_little_endian, le_bytes_u32,
    le_bytes_u64, le_u32, lemma_varint_lens, put_fixed32, put_fixed64, put_varint32,
    varint32_round_trip, varint_bytes, VALUE_TYPE_VALUE,
};
use crate::collect::owned_entries;
use crate::error::{invalid, ErrorView, LevelDbError};
use crate::internal_key::{internal, internal_key};
use crate::keys::{entry_pairs, lemma_entry_map, sorted, Entry, KeyMap};
use crate::native::{
    block_handle_round_trip, closing_bytes, footer_index_handle, handle_bytes, write_block_handle,
    BlockHandle, LEVELDB_FOOTER_LEN, LEVELDB_TABLE_MAGIC,
};
use crate::options::CompressionPolicy;
use crate::scan::{entry_then, EntryList};
use bytes::Bytes;
use vstd::prelude::*;
use vstd::slice::slice_to_vec;

verus! {

// ---------------------------------------------------------------------------
// Blocks.

/// The bytes of an entry that shares nothing with the key before it.
pub open spec fn block_entry_bytes(key: Seq<u8>, value: Seq<u8>) -> Seq<u8> {
    varint_bytes(0) + varint_bytes(key.len()) + varint_bytes(value.len()) + key + value
}

/// The bytes of entries, none of which shares anything with the key before it.
pub open spec fn block_body(entries: Seq<Entry>) -> Seq<u8>
    decreases entries.len(),
{
    if entries.len() == 0 {
        Seq::empty()
    } else {
        block_body(entries.drop_last()) + block_entry_bytes(entries.last().0, entries.last().1)
    }
}

/// The offsets of the first `n` entries, each as four bytes.
pub open spec fn restart_bytes(entries: Seq<Entry>, n: nat) -> Seq<u8>
    decreases n,
{
    if n == 0 {
        Seq::empty()
    } else {
        restart_bytes(entries, (n - 1) as nat) + le_bytes_u32(
            block_body(entries.take(n - 1)).len() as u32,
        )
    }
}

/// What keeps entries from being written as a block: the first thing that does
/// not fit into 32 bits.
pub open spec fn block_limit(entries: Seq<Entry>) -> Option<ErrorView>
    decreases entries.len(),
{
    if entries.len() == 0 {
        None
    } else if block_limit(entries.drop_last()) is Some {
        block_limit(entries.drop_last())
    } else if block_body(entries.drop_last()).len() > u32::MAX {
        Some(invalid("native block offset exceeds u32"@))
    } else if entries.last().0.len() > u32::MAX {
        Some(invalid("native key is too large"@))
    } else if entries.last().1.len() > u32::MAX {
        Some(invalid("native value is too large"@))
    } else {
        None
    }
}

/// The bytes of a block in which every entry is a restart point.
pub open spec fn block_image(entries: Seq<Entry>) -> Seq<u8> {
    block_body(entries) + restart_bytes(entries, entries.len()) + le_bytes_u32(
        entries.len() as u32,
    )
}

/// The block that holds `entries`.
pub open spec fn native_block(entries: Seq<Entry>) -> Result<Seq<u8>, ErrorView> {
    match block_limit(entries) {
        Some(error) => Err(error),
        None => Ok(block_image(entries)),
    }
}

proof fn lemma_body_len(entries: Seq<Entry>)
    ensures
        block_body(entries).len() >= 3 * entries.len(),
    decreases entries.len(),
{
    if entries.len() > 0 {
        lemma_body_len(entries.drop_last());
        lemma_varint_lens(0);
        lemma_varint_lens(entries.last().0.len());
        lemma_varint_lens(entries.last().1.len());
    }
}

/// Entries that can be written are few enough to be counted in 32 bits.
proof fn lemma_few_entries(entries: Seq<Entry>)
    requires
        block_limit(entries) is None,
    ensures
        entries.len() <= u32::MAX,
{
    if entries.len() > 0 {
        lemma_body_len(entries.drop_last());
    }
}

/// Writes a block in which every entry is a restart point.
pub fn encode_native_block(entries: &[(Vec<u8>, Bytes)]) -> (r: Result<Vec<u8>, LevelDbError>)
    ensures
        bytes_result(r) == native_block(owned_entries(entries@)),
{
    let ghost list = owned_entries(entries@);
    let mut out: Vec<u8> = Vec::new();
    let mut restarts: Vec<u32> = Vec::new();
    let mut i: usize = 0;
    proof {
        assert(out@ =~= block_body(list.take(0)));
    }
    while i < entries.len()
        invariant
            list == owned_entries(entries@),
            i <= list.len(),
            restarts@.len() == i,
            out@ == block_body(list.take(i as int)),
            block_limit(list.take(i as int)) is None,
            forall|k: int|
                0 <= k < i ==> #[trigger] restarts@[k] as nat == block_body(list.take(k)).len(),
        decreases list.len() - i,
    {
        let key = entries[i].0.as_slice();
        let value = as_slice(&entries[i].1);
        let ghost now = list.take(i + 1);
        proof {
            assert(now.drop_last() =~= list.take(i as int));
            assert(now.last() == (key@, value@));
        }
        let offset: u64 = out.len() as u64;
        let key_len: u64 = key.len() as u64;
        let value_len: u64 = value.len() as u64;
        if offset > u32::MAX as u64 {
            proof {
                lemma_limit_stays(list, i + 1);
            }
            return Err(LevelDbError::invalid_argument("native block offset exceeds u32"));
        }
        restarts.push(offset as u32);
        put_varint32(0, &mut out);
        if key_len > u32::MAX as u64 {
            proof {
                lemma_limit_stays(list, i + 1);
            }
            return Err(LevelDbError::invalid_argument("native key is too large"));
        }
        put_varint32(key_len as u32, &mut out);
        if value_len > u32::MAX as u64 {
            proof {
                lemma_limit_stays(list, i + 1);
            }
            return Err(LevelDbError::invalid_argument("native value is too large"));
        }
        put_varint32(value_len as u32, &mut out);
        out.extend_from_slice(key);
        out.extend_from_slice(value);
        proof {
            assert(out@ =~= block_body(now));
        }
        i = i + 1;
    }
    proof {
        assert(list.take(i as int) =~= list);
        lemma_few_entries(list);
    }
    let mut k: usize = 0;
    while k < restarts.len()
        invariant
            k <= restarts@.len(),
            restarts@.len() == list.len(),
            out@ == block_body(list) + restart_bytes(list, k as nat),
            forall|k: int|
                0 <= k < restarts@.len() ==> #[trigger] restarts@[k] as nat == block_body(
                    list.take(k),
                ).len(),
        decreases restarts@.len() - k,
    {
        put_fixed32(restarts[k], &mut out);
        k = k + 1;
        proof {
            assert(out@ =~= block_body(list) + restart_bytes(list, k as nat));
        }
    }
    put_fixed32(restarts.len() as u32, &mut out);
    Ok(out)
}

proof fn lemma_limit_stays(entries: Seq<Entry>, i: int)
    requires
        0 <= i <= entries.len(),
        block_limit(entries.take(i)) is Some,
    ensures
        block_limit(entries) == block_limit(entries.take(i)),
    decreases entries.len() - i,
{
    if i < entries.len() {
        assert(entries.take(i + 1).drop_last() =~= entries.take(i));
        lemma_limit_stays(entries, i + 1);
    } else {
        assert(entries.take(i) =~= entries);
    }
}

proof fn lemma_restart_len(entries: Seq<Entry>, n: nat)
    ensures
        restart_bytes(entries, n).len() == 4 * n,
    decreases n,
{
    if n > 0 {
        lemma_restart_len(entries, (n - 1) as nat);
    }
}

/// Whether every key and every value is short enough for a block.
spec fn entries_short(entries: Seq<Entry>) -> bool {
    forall|i: int|
        0 <= i < entries.len() ==> (#[trigger] entries[i]).0.len() <= u32::MAX
            && entries[i].1.len() <= u32::MAX
}

proof fn lemma_writable_is_short(entries: Seq<Entry>)
    requires
        block_limit(entries) is None,
    ensures
        entries_short(entries),
    decreases entries.len(),
{
    if entries.len() > 0 {
        let front = entries.drop_last();
        lemma_writable_is_short(front);
        assert forall|i: int| 0 <= i < entries.len() implies (#[trigger] entries[i]).0.len()
            <= u32::MAX && entries[i].1.len() <= u32::MAX by {
            if i < front.len() {
                assert(front[i] == entries[i]);
            }
        }
    }
}

/// The body of a block starts with its first entry.
pub proof fn lemma_body_front(entries: Seq<Entry>)
    requires
        entries.len() > 0,
    ensures
        block_body(entries) == block_entry_bytes(entries[0].0, entries[0].1) + block_body(
            entries.skip(1),
        ),
    decreases entries.len(),
{
    let head = block_entry_bytes(entries[0].0, entries[0].1);
    if entries.len() == 1 {
        assert(entries.drop_last() =~= Seq::<Entry>::empty());
        assert(entries.skip(1) =~= Seq::<Entry>::empty());
        assert(block_body(entries) =~= head + block_body(entries.skip(1)));
    } else {
        let front = entries.drop_last();
        lemma_body_front(front);
        assert(front.skip(1) =~= entries.skip(1).drop_last());
        assert(block_body(entries) =~= head + block_body(entries.skip(1)));
    }
}

proof fn lemma_entry_reads_back(
    key: Seq<u8>,
    value: Seq<u8>,
    tail: Seq<u8>,
    previous: Seq<u8>,
)
    requires
        key.len() <= u32::MAX,
        value.len() <= u32::MAX,
    ensures
        block_entry_at_front(block_entry_bytes(key, value) + tail, previous) == Ok::<
            (Seq<u8>, Seq<u8>, nat),
            ErrorView,
        >((key, value, block_entry_bytes(key, value).len())),
{
    let input = block_entry_bytes(key, value) + tail;
    let third = varint_bytes(value.len()) + (key + value + tail);
    let second = varint_bytes(key.len()) + third;
    let a = varint_bytes(0).len();
    let b = varint_bytes(key.len()).len();
    let c = varint_bytes(value.len()).len();
    assert(input =~= varint_bytes(0) + second);
    varint32_round_trip(0, second);
    varint32_round_trip(key.len() as u32, third);
    varint32_round_trip(value.len() as u32, key + value + tail);
    let start = a + b + c;
    assert(input.subrange(start as int, (start + key.len()) as int) =~= key);
    assert(previous.take(0) + key =~= key);
    assert(input.subrange(
        (start + key.len()) as int,
        (start + key.len() + value.len()) as int,
    ) =~= value);
}

proof fn lemma_body_reads_back(entries: Seq<Entry>, previous: Seq<u8>)
    requires
        entries_short(entries),
    ensures
        block_entries(block_body(entries), previous) == (EntryList { entries, error: None }),
    decreases entries.len(),
{
    if entries.len() == 0 {
        assert(entries =~= Seq::<Entry>::empty());
    } else {
        let (key, value) = entries[0];
        let rest = entries.skip(1);
        let size = block_entry_bytes(key, value).len();
        let input = block_body(entries);
        assert forall|i: int| 0 <= i < rest.len() implies (#[trigger] rest[i]).0.len() <= u32::MAX
            && rest[i].1.len() <= u32::MAX by {
            assert(rest[i] == entries[i + 1]);
        }
        lemma_body_front(entries);
        lemma_body_len(entries);
        lemma_entry_reads_back(key, value, block_body(rest), previous);
        assert(input.skip(size as int) =~= block_body(rest));
        lemma_body_reads_back(rest, key);
        assert(entry_then(key, value, EntryList { entries: rest, error: None }).entries
            =~= entries);
    }
}

/// A written block holds the entries that were written.
pub proof fn block_round_trip(entries: Seq<Entry>)
    requires
        native_block(entries) is Ok,
        native_block(entries)->Ok_0.len() <= usize::MAX,
    ensures
        native_entries(native_block(entries)->Ok_0) == (EntryList { entries, error: None }),
        whole_list(native_entries(native_block(entries)->Ok_0)) == Ok::<Seq<Entry>, ErrorView>(
            entries,
        ),
{
    let n = entries.len();
    let image = block_image(entries);
    lemma_few_entries(entries);
    lemma_restart_len(entries, n);
    fixed32_round_trip(n as u32);
    assert(image.skip(image.len() - 4) =~= le_bytes_u32(n as u32));
    assert(entries_end(image) == Ok::<nat, ErrorView>(block_body(entries).len()));
    assert(image.take(block_body(entries).len() as int) =~= block_body(entries));
    lemma_writable_is_short(entries);
    lemma_body_reads_back(entries, Seq::empty());
}

// ---------------------------------------------------------------------------
// Tables.

/// What follows a payload in the frame of its block: the tag of its compression,
/// and its checksum.
pub open spec fn trailer_bytes(payload: Seq<u8>, compression: u8) -> Seq<u8> {
    seq![compression] + le_bytes_u32(block_checksum(payload, compression))
}

/// Writes what follows a payload in the frame of its block.
pub fn push_native_block_trailer(out: &mut Vec<u8>, payload: &[u8], compression: u8)
    ensures
        final(out)@ == old(out)@ + trailer_bytes(payload@, compression),
{
    out.push(compression);
    put_fixed32(masked_crc32c(payload, compression), out);
    assert(out@ =~= old(out)@ + trailer_bytes(payload@, compression));
}

/// `n` zeros.
pub open spec fn zeros(n: nat) -> Seq<u8> {
    Seq::new(n, |i: int| 0u8)
}

/// The footer of a table: two handles, filled up to 40 bytes, and the magic
/// number.
pub open spec fn footer_bytes(meta_index: BlockHandle, index: BlockHandle) -> Seq<u8> {
    let handles = handle_bytes(meta_index) + handle_bytes(index);
    handles + zeros((40 - handles.len()) as nat) + le_bytes_u64(LEVELDB_TABLE_MAGIC)
}

proof fn lemma_handles_fit(meta_index: BlockHandle, index: BlockHandle)
    ensures
        (handle_bytes(meta_index) + handle_bytes(index)).len() <= 40,
        footer_bytes(meta_index, index).len() == 48,
{
    lemma_varint_lens(meta_index.offset as nat);
    lemma_varint_lens(meta_index.size as nat);
    lemma_varint_lens(index.offset as nat);
    lemma_varint_lens(index.size as nat);
    fixed64_round_trip(LEVELDB_TABLE_MAGIC);
}

/// Writes the footer of a table.
pub fn push_native_footer(out: &mut Vec<u8>, meta_index: BlockHandle, index: BlockHandle)
    ensures
        final(out)@ == old(out)@ + footer_bytes(meta_index, index),
{
    let mut handles: Vec<u8> = Vec::new();
    write_block_handle(meta_index, &mut handles);
    write_block_handle(index, &mut handles);
    proof {
        assert(handles@ =~= handle_bytes(meta_index) + handle_bytes(index));
        lemma_handles_fit(meta_index, index);
    }
    handles.resize(LEVELDB_FOOTER_LEN - 8, 0);
    assert(handles@ =~= handle_bytes(meta_index) + handle_bytes(index) + zeros(
        (40 - (handle_bytes(meta_index) + handle_bytes(index)).len()) as nat,
    ));
    out.extend_from_slice(handles.as_slice());
    put_fixed64(LEVELDB_TABLE_MAGIC, out);
    assert(out@ =~= old(out)@ + footer_bytes(meta_index, index));
}

/// Every footer gives back the handle of its index.
pub proof fn footer_round_trip(meta_index: BlockHandle, index: BlockHandle, path: Seq<char>)
    ensures
        footer_bytes(meta_index, index).len() == 48,
        footer_index_handle(path, footer_bytes(meta_index, index)) == Ok::<
            BlockHandle,
            ErrorView,
        >(index),
{
    let footer = footer_bytes(meta_index, index);
    let first = handle_bytes(meta_index);
    let second = handle_bytes(index);
    let padding = zeros((40 - (first + second).len()) as nat);
    lemma_handles_fit(meta_index, index);
    fixed64_round_trip(LEVELDB_TABLE_MAGIC);
    assert(footer.subrange(40, 48) =~= le_bytes_u64(LEVELDB_TABLE_MAGIC));
    assert(footer.take(40) =~= first + (second + padding));
    block_handle_round_trip(meta_index, second + padding);
    block_handle_round_trip(index, padding);
}

/// Entries under internal keys with one sequence number.
pub open spec fn internal_entries(entries: Seq<Entry>, sequence: u64) -> Seq<Entry> {
    Seq::new(
        entries.len(),
        |i: int| (internal(entries[i].0, sequence, VALUE_TYPE_VALUE), entries[i].1),
    )
}

/// The table of one compressed data block and an index block.
pub open spec fn native_image(tag: u8, data: Seq<u8>, index: Seq<u8>) -> Seq<u8> {
    data + trailer_bytes(data, tag) + index + trailer_bytes(index, COMPRESSION_NONE)
        + footer_bytes(
        BlockHandle { offset: 0, size: 0 },
        BlockHandle { offset: (data.len() + 5) as u64, size: index.len() as u64 },
    )
}

/// The one entry of the index: the largest key, and the handle of the data
/// block.
pub open spec fn index_entry(keyed: Seq<Entry>, data: Seq<u8>) -> Entry {
    (keyed.last().0, handle_bytes(BlockHandle { offset: 0, size: data.len() as u64 }))
}

/// The table of one data block with these entries, under internal keys.
pub open spec fn keyed_table(keyed: Seq<Entry>, policy: CompressionPolicy) -> Result<
    Seq<u8>,
    ErrorView,
> {
    match native_block(keyed) {
        Err(error) => Err(error),
        Ok(block) => match compressed(policy, block) {
            Err(error) => Err(error),
            Ok(data) => Ok(
                native_image(tag_of(policy), data, block_image(seq![index_entry(keyed, data)])),
            ),
        },
    }
}

/// The table that holds `entries` under one sequence number.
pub open spec fn native_table(entries: Seq<Entry>, sequence: u64, policy: CompressionPolicy) -> Result<
    Seq<u8>,
    ErrorView,
> {
    if entries.len() == 0 {
        Err(invalid("native table writer requires at least one entry"@))
    } else {
        keyed_table(internal_entries(entries, sequence), policy)
    }
}

/// Whether the compression of a table's data block can be undone, and has the
/// start that its format asks for.
pub open spec fn undoable(keyed: Seq<Entry>, policy: CompressionPolicy) -> bool {
    let block = native_block(keyed);
    let data = compressed(policy, block->Ok_0)->Ok_0;
    &&& decompressed(tag_of(policy), data) == block
    &&& starts_as(policy, block->Ok_0, data)
}

/// Whether entries in ascending order were written, and can be read back as far
/// as the compression and the machine are concerned.
pub open spec fn written(entries: Seq<Entry>, sequence: u64, policy: CompressionPolicy) -> bool {
    &&& sorted(entries)
    &&& native_table(entries, sequence, policy) is Ok
    &&& native_table(entries, sequence, policy)->Ok_0.len() <= usize::MAX
    &&& native_block(internal_entries(entries, sequence))->Ok_0.len() <= usize::MAX
    &&& undoable(internal_entries(entries, sequence), policy)
}

/// The index of a table that can be written can be written too.
pub proof fn lemma_index_fits(keyed: Seq<Entry>, data: Seq<u8>)
    requires
        keyed.len() > 0,
        block_limit(keyed) is None,
    ensures
        native_block(seq![index_entry(keyed, data)]) == Ok::<Seq<u8>, ErrorView>(
            block_image(seq![index_entry(keyed, data)]),
        ),
{
    let index = seq![index_entry(keyed, data)];
    let size: u64 = data.len() as u64;
    lemma_writable_is_short(keyed);
    assert(keyed.last() == keyed[keyed.len() - 1]);
    lemma_varint_lens(0);
    lemma_varint_lens(size as nat);
    assert(index.last().1.len() <= u32::MAX);
    assert(index.drop_last() =~= Seq::<Entry>::empty());
    assert(block_limit(index.drop_last()) is None);
    assert(block_body(index.drop_last()).len() == 0);
}

/// Puts the entries of a map under internal keys.
fn with_internal_keys(entries: &KeyMap<Bytes>, sequence: u64) -> (r: Vec<(Vec<u8>, Bytes)>)
    ensures
        owned_entries(r@) == internal_entries(entry_pairs(entries@), sequence),
{
    let ghost list = entry_pairs(entries@);
    let ghost keyed = internal_entries(list, sequence);
    let mut keyed_entries: Vec<(Vec<u8>, Bytes)> = Vec::new();
    let mut i: usize = 0;
    while i < entries.len()
        invariant
            list == entry_pairs(entries@),
            keyed == internal_entries(list, sequence),
            i <= list.len(),
            owned_entries(keyed_entries@) == keyed.take(i as int),
        decreases list.len() - i,
    {
        let ghost before = owned_entries(keyed_entries@);
        let key = internal_key(entries.key_at(i), sequence, VALUE_TYPE_VALUE);
        let value = share(entries.value_at(i));
        proof {
            assert(list[i as int] == (entries@[i as int].0, contents(entries@[i as int].1)));
            assert(keyed[i as int] == (key@, contents(value)));
        }
        keyed_entries.push((key, value));
        proof {
            assert(owned_entries(keyed_entries@) =~= before.push(keyed[i as int]));
            assert(keyed.take(i + 1) =~= before.push(keyed[i as int]));
        }
        i = i + 1;
    }
    assert(keyed.take(i as int) =~= keyed);
    keyed_entries
}

/// Puts the parts of a table together.
fn assemble(tag: u8, data: &[u8], index: &[u8]) -> (r: Vec<u8>)
    ensures
        r@ == native_image(tag, data@, index@),
{
    let mut table: Vec<u8> = Vec::new();
    table.extend_from_slice(data);
    push_native_block_trailer(&mut table, data, tag);
    let index_offset: u64 = table.len() as u64;
    table.extend_from_slice(index);
    push_native_block_trailer(&mut table, index, COMPRESSION_NONE);
    push_native_footer(
        &mut table,
        BlockHandle { offset: 0, size: 0 },
        BlockHandle { offset: index_offset, size: index.len() as u64 },
    );
    assert(table@ =~= native_image(tag, data@, index@));
    table
}

/// Writes the index of a table with one data block.
fn encode_index(largest: &[u8], data_len: usize) -> (r: Result<Vec<u8>, LevelDbError>)
    ensures
        bytes_result(r) == native_block(
            seq![
                (largest@, handle_bytes(BlockHandle { offset: 0, size: data_len as u64 })),
            ],
        ),
{
    let mut handle: Vec<u8> = Vec::new();
    write_block_handle(BlockHandle { offset: 0, size: data_len as u64 }, &mut handle);
    let mut entries: Vec<(Vec<u8>, Bytes)> = Vec::new();
    entries.push((slice_to_vec(largest), from_vec(handle)));
    proof {
        let entry = (largest@, handle_bytes(BlockHandle { offset: 0, size: data_len as u64 }));
        assert(handle@ =~= entry.1);
        assert(owned_entries(entries@) =~= seq![entry]);
    }
    encode_native_block(entries.as_slice())
}

/// Writes the table of one data block with these entries.
fn write_keyed_table(entries: &[(Vec<u8>, Bytes)], policy: CompressionPolicy) -> (r: Result<
    Vec<u8>,
    LevelDbError,
>)
    requires
        entries@.len() > 0,
    ensures
        bytes_result(r) == keyed_table(owned_entries(entries@), policy),
        r is Ok <==> native_block(owned_entries(entries@)) is Ok && compressible(
            policy,
            native_block(owned_entries(entries@))->Ok_0.len(),
        ),
        r is Ok ==> undoable(owned_entries(entries@), policy) && native_block(
            owned_entries(entries@),
        )->Ok_0.len() <= usize::MAX,
{
    let ghost keyed = owned_entries(entries@);
    let block = match encode_native_block(entries) {
        Ok(block) => block,
        Err(error) => return Err(error),
    };
    let data = match compress_payload(policy, block.as_slice()) {
        Ok(data) => data,
        Err(error) => return Err(error),
    };
    let last: usize = entries.len() - 1;
    let block_len: usize = block.len();
    proof {
        assert(native_block(keyed)->Ok_0.len() == block_len);
        assert(keyed.last() == keyed[last as int]);
        lemma_index_fits(keyed, data@);
    }
    let index = match encode_index(entries[last].0.as_slice(), data.len()) {
        Ok(index) => index,
        Err(error) => return Err(error),
    };
    Ok(assemble(compression_tag(policy), data.as_slice(), index.as_slice()))
}

/// What the writer of a table says about it.
#[derive(Debug, Clone, PartialEq, Eq)]
pub struct WrittenNativeTable {
    /// How many bytes the table has.
    pub file_size: u64,
    /// The internal key of the first entry.
    pub smallest_internal_key: Vec<u8>,
    /// The internal key of the last entry.
    pub largest_internal_key: Vec<u8>,
}

/// Writes a table that holds `entries` under one sequence number, and says how
/// large it is and which keys it spans.
pub fn write_native_table_bytes(
    entries: &KeyMap<Bytes>,
    sequence: u64,
    policy: CompressionPolicy,
) -> (r: Result<(Vec<u8>, WrittenNativeTable), LevelDbError>)
    requires
        entries.wf(),
    ensures
        match r {
            Ok((table, report)) => {
                &&& native_table(entry_pairs(entries@), sequence, policy) == Ok::<
                    Seq<u8>,
                    ErrorView,
                >(table@)
                &&& written(entry_pairs(entries@), sequence, policy)
                &&& report.file_size == table@.len()
                &&& report.smallest_internal_key@ == internal(
                    entries@[0].0,
                    sequence,
                    VALUE_TYPE_VALUE,
                )
                &&& report.largest_internal_key@ == internal(
                    entries@.last().0,
                    sequence,
                    VALUE_TYPE_VALUE,
                )
            },
            Err(error) => native_table(entry_pairs(entries@), sequence, policy) == Err::<
                Seq<u8>,
                ErrorView,
            >(error@),
        },
        r is Ok <==> {
            let block = native_block(internal_entries(entry_pairs(entries@), sequence));
            entries@.len() > 0 && block is Ok && compressible(policy, block->Ok_0.len())
        },
{
    let ghost list = entry_pairs(entries@);
    let ghost keyed = internal_entries(list, sequence);
    let count: usize = entries.len();
    if count == 0 {
        return Err(
            LevelDbError::invalid_argument("native table writer requires at least one entry"),
        );
    }
    let keyed_entries = with_internal_keys(entries, sequence);
    proof {
        assert(owned_entries(keyed_entries@)[0] == keyed[0]);
        assert(owned_entries(keyed_entries@)[count - 1] == keyed[count - 1]);
    }
    let smallest_internal_key = slice_to_vec(keyed_entries[0].0.as_slice());
    let largest_internal_key = slice_to_vec(keyed_entries[count - 1].0.as_slice());
    let table = match write_keyed_table(keyed_entries.as_slice(), policy) {
        Ok(table) => table,
        Err(error) => return Err(error),
    };
    let file_size: u64 = table.len() as u64;
    proof {
        lemma_entry_map(entries@);
    }
    Ok((table, WrittenNativeTable { file_size, smallest_internal_key, largest_internal_key }))
}

// ---------------------------------------------------------------------------
// What is written, byte by byte.

/// The number in the four bytes of `s` from `at` on, least significant byte
/// first.
pub open spec fn number_at(s: Seq<u8>, at: int) -> int {
    s[at] + s[at + 1] * 256 + s[at + 2] * 65536 + s[at + 3] * 16777216
}

/// The bytes of an entry that leaves nothing out of its key.
pub open spec fn whole_entry(key: Seq<u8>, value: Seq<u8>) -> Seq<u8> {
    varint_bytes(0) + varint_bytes(key.len()) + varint_bytes(value.len()) + key + value
}

proof fn lemma_body_split(front: Seq<Entry>, back: Seq<Entry>)
    ensures
        block_body(front + back) == block_body(front) + block_body(back),
    decreases back.len(),
{
    if back.len() == 0 {
        assert(front + back =~= front);
        assert(block_body(front) + block_body(back) =~= block_body(front));
    } else {
        lemma_body_split(front, back.drop_last());
        assert((front + back).drop_last() =~= front + back.drop_last());
        assert((front + back).last() == back.last());
        assert(block_body(front + back) =~= block_body(front) + block_body(back));
    }
}

proof fn lemma_body_grows(entries: Seq<Entry>, i: int)
    requires
        0 <= i < entries.len(),
    ensures
        ({
            let before = block_body(entries.take(i));
            let entry = whole_entry(entries[i].0, entries[i].1);
            &&& block_body(entries.take(i + 1)) == before + entry
            &&& block_body(entries).subrange(
                before.len() as int,
                (before.len() + entry.len()) as int,
            ) == entry
            &&& before.len() + entry.len() <= block_body(entries).len()
        }),
{
    let before = block_body(entries.take(i));
    let entry = whole_entry(entries[i].0, entries[i].1);
    let now = entries.take(i + 1);
    assert(now.drop_last() =~= entries.take(i));
    assert(now.last() == entries[i]);
    assert(entries =~= now + entries.skip(i + 1));
    lemma_body_split(now, entries.skip(i + 1));
    assert(block_body(entries).subrange(
        before.len() as int,
        (before.len() + entry.len()) as int,
    ) =~= entry);
}

proof fn lemma_restart_at(entries: Seq<Entry>, n: nat, i: int)
    requires
        0 <= i < n <= entries.len(),
    ensures
        restart_bytes(entries, n).len() == 4 * n,
        restart_bytes(entries, n).subrange(4 * i, 4 * i + 4) == le_bytes_u32(
            block_body(entries.take(i)).len() as u32,
        ),
    decreases n,
{
    let shorter = restart_bytes(entries, (n - 1) as nat);
    lemma_restart_len(entries, n);
    lemma_restart_len(entries, (n - 1) as nat);
    if i < n - 1 {
        lemma_restart_at(entries, (n - 1) as nat, i);
        assert(restart_bytes(entries, n).subrange(4 * i, 4 * i + 4) =~= shorter.subrange(
            4 * i,
            4 * i + 4,
        ));
    } else {
        assert(restart_bytes(entries, n).subrange(4 * i, 4 * i + 4) =~= le_bytes_u32(
            block_body(entries.take(i)).len() as u32,
        ));
    }
}

proof fn lemma_offsets_fit(entries: Seq<Entry>, i: int)
    requires
        block_limit(entries) is None,
        0 <= i < entries.len(),
    ensures
        block_body(entries.take(i)).len() <= u32::MAX,
    decreases entries.len(),
{
    if i < entries.len() - 1 {
        lemma_offsets_fit(entries.drop_last(), i);
        assert(entries.drop_last().take(i) =~= entries.take(i));
    } else {
        assert(entries.take(i) =~= entries.drop_last());
    }
}

proof fn lemma_number_at(s: Seq<u8>, at: int, v: u32)
    requires
        0 <= at,
        at + 4 <= s.len(),
        s.subrange(at, at + 4) == le_bytes_u32(v),
    ensures
        number_at(s, at) == v,
{
    let bytes = s.subrange(at, at + 4);
    assert(bytes[0] == s[at]);
    assert(bytes[1] == s[at + 1]);
    assert(bytes[2] == s[at + 2]);
    assert(bytes[3] == s[at + 3]);
    assert(le_u32(bytes) == v);
}

proof fn lemma_block_number(entries: Seq<Entry>, i: int)
    requires
        native_block(entries) is Ok,
        0 <= i <= entries.len(),
    ensures
        ({
            let block = native_block(entries)->Ok_0;
            let n = entries.len() as int;
            &&& block.len() == block_body(entries).len() + 4 * n + 4
            &&& i < n ==> number_at(block, block.len() - 4 - 4 * (n - i)) == block_body(
                entries.take(i),
            ).len()
            &&& i == n ==> number_at(block, block.len() - 4) == n
        }),
{
    let block = native_block(entries)->Ok_0;
    let n = entries.len() as int;
    let restarts = restart_bytes(entries, entries.len());
    lemma_few_entries(entries);
    lemma_restart_len(entries, entries.len());
    if i < n {
        let at = block.len() - 4 - 4 * (n - i);
        lemma_restart_at(entries, entries.len(), i);
        lemma_offsets_fit(entries, i);
        assert(block.subrange(at, at + 4) =~= restarts.subrange(4 * i, 4 * i + 4));
        lemma_number_at(block, at, block_body(entries.take(i)).len() as u32);
    } else {
        let at = block.len() - 4;
        assert(block.subrange(at, at + 4) =~= le_bytes_u32(n as u32));
        lemma_number_at(block, at, n as u32);
    }
}

/// A written block ends in the number of its entries. Before that stands, for
/// each entry in turn, the offset at which the entry starts: the first at the
/// start of the block, each further one where the one before it ends, and the
/// last one ends where the offsets begin.
pub proof fn written_blocks_list_their_offsets(entries: Seq<Entry>, i: int)
    requires
        native_block(entries) is Ok,
        0 <= i < entries.len(),
    ensures
        ({
            let block = native_block(entries)->Ok_0;
            let n = entries.len() as int;
            let offsets = block.len() - 4 - 4 * n;
            let entry = whole_entry(entries[i].0, entries[i].1);
            let start = number_at(block, offsets + 4 * i);
            let end = start + entry.len();
            &&& offsets >= 0
            &&& number_at(block, block.len() - 4) == n
            &&& i == 0 ==> start == 0
            &&& 0 <= start && end <= offsets
            &&& block.subrange(start, end) == entry
            &&& i + 1 < n ==> number_at(block, offsets + 4 * (i + 1)) == end
            &&& i + 1 == n ==> end == offsets
        }),
{
    let block = native_block(entries)->Ok_0;
    let n = entries.len() as int;
    let offsets = block.len() - 4 - 4 * n;
    let entry = whole_entry(entries[i].0, entries[i].1);
    lemma_block_number(entries, i);
    lemma_block_number(entries, i + 1);
    lemma_block_number(entries, n);
    lemma_body_grows(entries, i);
    let start = block_body(entries.take(i)).len() as int;
    assert(entries.take(n) =~= entries);
    if i == 0 {
        assert(entries.take(0) =~= Seq::<Entry>::empty());
    }
    assert(block.subrange(start, start + entry.len()) =~= block_body(entries).subrange(
        start,
        start + entry.len(),
    ));
}

/// One more entry can be written exactly where the ones before it can, they end
/// within 32 bits, and neither its key nor its value is too long. An empty block
/// can be written.
pub proof fn blocks_are_limited_to_32_bits(entries: Seq<Entry>, key: Seq<u8>, value: Seq<u8>)
    ensures
        native_block(Seq::empty()) is Ok,
        native_block(entries.push((key, value))) is Ok <==> {
            &&& native_block(entries) is Ok
            &&& native_block(entries)->Ok_0.len() - 4 - 4 * entries.len() <= 0xffff_ffff
            &&& key.len() <= 0xffff_ffff
            &&& value.len() <= 0xffff_ffff
        },
        native_block(entries) is Ok && !(native_block(entries.push((key, value))) is Ok)
            ==> native_block(entries.push((key, value))) == Err::<Seq<u8>, ErrorView>(
            ErrorView::InvalidArgument {
                message: if native_block(entries)->Ok_0.len() - 4 - 4 * entries.len()
                    > 0xffff_ffff {
                    "native block offset exceeds u32"@
                } else if key.len() > 0xffff_ffff {
                    "native key is too large"@
                } else {
                    "native value is too large"@
                },
            },
        ),
        native_block(entries) is Err ==> native_block(entries.push((key, value))) == native_block(
            entries,
        ),
        native_block(entries) matches Err(error) ==> error is InvalidArgument,
    decreases entries.len(),
{
    assert(entries.push((key, value)).drop_last() =~= entries);
    if native_block(entries) is Ok {
        lemma_block_number(entries, entries.len() as int);
    }
    if entries.len() > 0 {
        let last = entries.last();
        blocks_are_limited_to_32_bits(entries.drop_last(), last.0, last.1);
    }
}

proof fn lemma_magic_bytes()
    ensures
        le_bytes_u64(LEVELDB_TABLE_MAGIC) == closing_bytes(),
{
    let bytes = le_bytes_u64(LEVELDB_TABLE_MAGIC);
    fixed_numbers_are_little_endian(seq![0, 0, 0, 0], bytes, 0, LEVELDB_TABLE_MAGIC);
    assert(bytes =~= closing_bytes());
}

/// A written table holds the entries in the order in which they were given, each
/// under its user key, the sequence number and the type of a value.
pub proof fn written_entries_have_internal_keys(entries: Seq<Entry>, sequence: u64, i: int)
    requires
        0 <= i < entries.len(),
    ensures
        internal_entries(entries, sequence).len() == entries.len(),
        internal_entries(entries, sequence)[i].0 == internal(entries[i].0, sequence, 1),
        internal_entries(entries, sequence)[i].1 == entries[i].1,
{
}

/// A written table is, byte for byte: the compressed block of its entries with
/// tag and stored checksum; a block with one entry, the last key and the place of
/// the first block, with tag 0 and stored checksum; and a footer with an empty
/// handle, the handle of the second block, zeros up to 40 bytes, and the closing
/// bytes.
#[verifier::spinoff_prover]
#[verifier::rlimit(30)]
pub proof fn written_tables_have_their_layout(
    entries: Seq<Entry>,
    sequence: u64,
    policy: CompressionPolicy,
)
    ensures
        entries.len() == 0 ==> native_table(entries, sequence, policy) == Err::<
            Seq<u8>,
            ErrorView,
        >(
            ErrorView::InvalidArgument {
                message: "native table writer requires at least one entry"@,
            },
        ),
        entries.len() > 0 ==> ({
            let keyed = internal_entries(entries, sequence);
            match native_block(keyed) {
                Err(error) => native_table(entries, sequence, policy) == Err::<
                    Seq<u8>,
                    ErrorView,
                >(error),
                Ok(block) => match compressed(policy, block) {
                    Err(error) => native_table(entries, sequence, policy) == Err::<
                        Seq<u8>,
                        ErrorView,
                    >(error),
                    Ok(data) => {
                        let tag = tag_of(policy);
                        let place = varint_bytes(0) + varint_bytes(data.len() as u64 as nat);
                        let last = internal(entries[entries.len() - 1].0, sequence, 1);
                        let index = native_block(seq![(last, place)]);
                        let handles = varint_bytes(0) + varint_bytes(0) + varint_bytes(
                            (data.len() + 5) as u64 as nat,
                        ) + varint_bytes(index->Ok_0.len() as u64 as nat);
                        &&& index is Ok
                        &&& handles.len() <= 40
                        &&& native_table(entries, sequence, policy) == Ok::<Seq<u8>, ErrorView>(
                            data + seq![tag] + le_bytes_u32(block_checksum(data, tag))
                                + index->Ok_0 + seq![0u8] + le_bytes_u32(
                                block_checksum(index->Ok_0, 0),
                            ) + handles + Seq::new((40 - handles.len()) as nat, |i: int| 0u8)
                                + closing_bytes(),
                        )
                    },
                },
            }
        }),
{
    if entries.len() > 0 {
        let keyed = internal_entries(entries, sequence);
        if let Ok(block) = native_block(keyed) {
            if let Ok(data) = compressed(policy, block) {
                let tag = tag_of(policy);
                let entry = index_entry(keyed, data);
                let index = block_image(seq![entry]);
                let meta_handle = BlockHandle { offset: 0, size: 0 };
                let index_handle = BlockHandle {
                    offset: (data.len() + 5) as u64,
                    size: index.len() as u64,
                };
                let handles = varint_bytes(0) + varint_bytes(0) + varint_bytes(
                    (data.len() + 5) as u64 as nat,
                ) + varint_bytes(index.len() as u64 as nat);
                lemma_index_fits(keyed, data);
                footers_and_trailers_have_their_layout(meta_handle, index_handle, data, tag);
                footers_and_trailers_have_their_layout(meta_handle, index_handle, index, 0);
                assert(native_table(entries, sequence, policy)->Ok_0 =~= data + seq![tag]
                    + le_bytes_u32(block_checksum(data, tag)) + index + seq![0u8] + le_bytes_u32(
                    block_checksum(index, 0),
                ) + handles + Seq::new((40 - handles.len()) as nat, |i: int| 0u8)
                    + closing_bytes());
            }
        }
    }
}

/// Every footer is its two handles, zeros up to 40 bytes, and the closing bytes;
/// every trailer is the tag and the stored checksum of payload and tag.
pub proof fn footers_and_trailers_have_their_layout(
    meta_index: BlockHandle,
    index: BlockHandle,
    payload: Seq<u8>,
    tag: u8,
)
    ensures
        ({
            let handles = varint_bytes(meta_index.offset as nat) + varint_bytes(
                meta_index.size as nat,
            ) + varint_bytes(index.offset as nat) + varint_bytes(index.size as nat);
            &&& handles.len() <= 40
            &&& footer_bytes(meta_index, index) == handles + Seq::new(
                (40 - handles.len()) as nat,
                |i: int| 0u8,
            ) + closing_bytes()
        }),
        trailer_bytes(payload, tag) == seq![tag] + le_bytes_u32(block_checksum(payload, tag)),
{
    let handles = varint_bytes(meta_index.offset as nat) + varint_bytes(meta_index.size as nat)
        + varint_bytes(index.offset as nat) + varint_bytes(index.size as nat);
    lemma_handles_fit(meta_index, index);
    lemma_magic_bytes();
    assert(handle_bytes(meta_index) + handle_bytes(index) =~= handles);
    assert(zeros((40 - handles.len()) as nat) =~= Seq::new(
        (40 - handles.len()) as nat,
        |i: int| 0u8,
    ));
}

} // verus!
