//! Native tables: block handles, the footer, and the frames that blocks are
//! stored in.
//!
//! A frame is the compressed payload of a block, the tag of its compression,
//! and a masked checksum of both. A footer holds the handles of two blocks, the
//! metadata index and the index, padded to a fixed length, and a magic number.
use crate::blob::{contents, from_vec, BlockValue};
use crate::block::{collect_native_block_entries, entries_view, native_entries, whole_list};
use crate::checksum::{block_checksum, masked_crc32c};
use crate::codec::{bytes_result, decompress_payload, decompressed, COMPRESSION_NONE};
use crate::coding::{
    base128, fixed_numbers_are_little_endian, get_fixed32, get_fixed64, get_varint64,
    is_one_varint, le_u32, le_u64, lemma_varint_sizes, put_varint64,
    unfinished_varints_are_refused, varint64, varint64_round_trip, varint_bytes,
    varints_are_read_in_base_128,
};
use crate::error::{corrupt, decimal, joined, numbered, ErrorView, LevelDbError};
use crate::keys::Entry;
use bytes::Bytes;
use vstd::prelude::*;
use vstd::slice::slice_subrange;

verus! {

/// The number that every native table ends with.
pub const LEVELDB_TABLE_MAGIC: u64 = 0xdb47_7524_8b80_fb57;

/// How many bytes a footer has.
pub const LEVELDB_FOOTER_LEN: usize = 48;

/// How many bytes follow the payload of a block.
pub const LEVELDB_BLOCK_TRAILER_LEN: usize = 5;

// ---------------------------------------------------------------------------
// Block handles.

/// Where the payload of a block starts, and how many bytes it has.
#[derive(Debug, Clone, Copy, PartialEq, Eq, Structural)]
pub struct BlockHandle {
    pub offset: u64,
    pub size: u64,
}

/// The bytes that stand for a handle.
pub open spec fn handle_bytes(handle: BlockHandle) -> Seq<u8> {
    varint_bytes(handle.offset as nat) + varint_bytes(handle.size as nat)
}

/// Reads a handle at the front of `input`: the handle and the count of its
/// bytes.
pub open spec fn handle_at_front(input: Seq<u8>) -> Result<(BlockHandle, nat), ErrorView> {
    match varint64(input) {
        Err(error) => Err(error),
        Ok((offset, offset_size)) => match varint64(input.skip(offset_size as int)) {
            Err(error) => Err(error),
            Ok((size, size_size)) => Ok((BlockHandle { offset, size }, offset_size + size_size)),
        },
    }
}

/// Takes a handle off the front of `input`.
pub fn read_block_handle(input: &mut &[u8]) -> (r: Result<BlockHandle, LevelDbError>)
    ensures
        match r {
            Ok(handle) => handle_at_front(old(input)@) matches Ok((h, size)) && h == handle && size
                <= old(input)@.len() && final(input)@ == old(input)@.skip(size as int),
            Err(error) => handle_at_front(old(input)@) == Err::<(BlockHandle, nat), ErrorView>(
                error@,
            ),
        },
{
    let ghost all = input@;
    proof {
        lemma_varint_sizes(all);
    }
    let offset: u64 = match get_varint64(input) {
        Ok(offset) => offset,
        Err(error) => return Err(error),
    };
    let ghost middle = input@;
    proof {
        lemma_varint_sizes(middle);
    }
    let size: u64 = match get_varint64(input) {
        Ok(size) => size,
        Err(error) => return Err(error),
    };
    proof {
        let a = varint64(all)->Ok_0.1;
        let b = varint64(middle)->Ok_0.1;
        assert(input@ =~= all.skip((a + b) as int));
    }
    Ok(BlockHandle { offset, size })
}

/// Appends a handle.
pub fn write_block_handle(handle: BlockHandle, out: &mut Vec<u8>)
    ensures
        final(out)@ == old(out)@ + handle_bytes(handle),
{
    put_varint64(handle.offset, out);
    put_varint64(handle.size, out);
    assert(out@ =~= old(out)@ + handle_bytes(handle));
}

/// A written handle reads back, whatever follows it.
pub proof fn block_handle_round_trip(handle: BlockHandle, tail: Seq<u8>)
    ensures
        handle_at_front(handle_bytes(handle) + tail) == Ok::<(BlockHandle, nat), ErrorView>(
            (handle, handle_bytes(handle).len()),
        ),
        (handle_bytes(handle) + tail).skip(handle_bytes(handle).len() as int) == tail,
{
    let second = varint_bytes(handle.size as nat) + tail;
    assert(handle_bytes(handle) + tail =~= varint_bytes(handle.offset as nat) + second);
    varint64_round_trip(handle.offset, second);
    varint64_round_trip(handle.size, tail);
    assert((handle_bytes(handle) + tail).skip(handle_bytes(handle).len() as int) =~= tail);
}

// ---------------------------------------------------------------------------
// Footers.

/// The handle of the index block in a footer.
pub open spec fn footer_index_handle(path: Seq<char>, footer: Seq<u8>) -> Result<
    BlockHandle,
    ErrorView,
> {
    if le_u64(footer.subrange(40, 48)) != LEVELDB_TABLE_MAGIC {
        Err(corrupt("table "@ + path + " has unsupported magic"@))
    } else {
        let handles = footer.take(40);
        match handle_at_front(handles) {
            Err(error) => Err(error),
            Ok((_, size)) => match handle_at_front(handles.skip(size as int)) {
                Err(error) => Err(error),
                Ok((handle, _)) => Ok(handle),
            },
        }
    }
}

/// The error of a table that is too short for a footer.
pub open spec fn truncated_table(path: Seq<char>) -> ErrorView {
    corrupt("native table "@ + path + " is truncated"@)
}

/// The handle of the index block in a table.
pub open spec fn table_index_handle(path: Seq<char>, table: Seq<u8>) -> Result<
    BlockHandle,
    ErrorView,
> {
    if table.len() < LEVELDB_FOOTER_LEN {
        Err(truncated_table(path))
    } else {
        footer_index_handle(path, table.skip(table.len() - 48))
    }
}

/// The mathematical value of a result that holds a handle.
pub open spec fn handle_view(r: Result<BlockHandle, LevelDbError>) -> Result<
    BlockHandle,
    ErrorView,
> {
    match r {
        Ok(handle) => Ok(handle),
        Err(error) => Err(error@),
    }
}

/// Checks that a table of `len` bytes is long enough for a footer, and returns
/// where the footer starts.
pub fn native_footer_offset(path: &str, len: u64) -> (r: Result<u64, LevelDbError>)
    ensures
        match r {
            Ok(offset) => len >= LEVELDB_FOOTER_LEN && offset == len - LEVELDB_FOOTER_LEN,
            Err(error) => len < LEVELDB_FOOTER_LEN && error@ == truncated_table(path@),
        },
{
    if len < LEVELDB_FOOTER_LEN as u64 {
        let message = joined("native table ", path, " is truncated");
        return Err(LevelDbError::corruption(message.as_str()));
    }
    Ok(len - LEVELDB_FOOTER_LEN as u64)
}

/// Reads the handle of the index block off a footer.
pub fn read_native_footer(path: &str, footer: &[u8]) -> (r: Result<BlockHandle, LevelDbError>)
    requires
        footer@.len() == LEVELDB_FOOTER_LEN,
    ensures
        handle_view(r) == footer_index_handle(path@, footer@),
{
    let magic: u64 = get_fixed64(slice_subrange(footer, 40, 48));
    if magic != LEVELDB_TABLE_MAGIC {
        let message = joined("table ", path, " has unsupported magic");
        return Err(LevelDbError::corruption(message.as_str()));
    }
    let mut input = slice_subrange(footer, 0, 40);
    proof {
        assert(input@ =~= footer@.take(40));
    }
    match read_block_handle(&mut input) {
        Ok(_) => read_block_handle(&mut input),
        Err(error) => Err(error),
    }
}

/// Reads the handle of the index block off a table.
pub fn read_table_index_handle(path: &str, table: &[u8]) -> (r: Result<BlockHandle, LevelDbError>)
    ensures
        handle_view(r) == table_index_handle(path@, table@),
{
    let start: u64 = match native_footer_offset(path, table.len() as u64) {
        Ok(start) => start,
        Err(error) => return Err(error),
    };
    let footer = slice_subrange(table, start as usize, table.len());
    assert(footer@ =~= table@.skip(table@.len() - 48));
    read_native_footer(path, footer)
}

// ---------------------------------------------------------------------------
// Frames.

/// The error of a block whose checksum does not match.
pub open spec fn checksum_mismatch(path: Seq<char>, offset: nat) -> ErrorView {
    corrupt("table "@ + path + " block checksum mismatch at offset "@ + decimal(offset))
}

/// The payload of a frame at `offset`, decompressed. With `paranoid_checks` its
/// checksum has to match.
pub open spec fn frame_contents(
    path: Seq<char>,
    offset: nat,
    frame: Seq<u8>,
    paranoid_checks: bool,
) -> Result<Seq<u8>, ErrorView> {
    let size = frame.len() - 5;
    let payload = frame.take(size);
    let tag = frame[size];
    if paranoid_checks && block_checksum(payload, tag) != le_u32(frame.skip(size + 1)) {
        Err(checksum_mismatch(path, offset))
    } else {
        decompressed(tag, payload)
    }
}

/// The error of a handle in a table: `what` is wrong with its block.
pub open spec fn block_error(path: Seq<char>, what: Seq<char>) -> ErrorView {
    corrupt("table "@ + path + what)
}

/// How many bytes the frame of a block has, where that can be addressed.
pub open spec fn frame_size(path: Seq<char>, handle: BlockHandle) -> Result<nat, ErrorView> {
    if handle.size > usize::MAX {
        Err(block_error(path, " block size overflows usize"@))
    } else if handle.size + 5 > usize::MAX {
        Err(block_error(path, " block trailer overflows"@))
    } else {
        Ok((handle.size + 5) as nat)
    }
}

/// The frame of a block in a table.
pub open spec fn frame_in_table(path: Seq<char>, table: Seq<u8>, handle: BlockHandle) -> Result<
    Seq<u8>,
    ErrorView,
> {
    if handle.offset > usize::MAX {
        Err(block_error(path, " block offset overflows usize"@))
    } else if handle.size > usize::MAX {
        Err(block_error(path, " block size overflows usize"@))
    } else if handle.offset + handle.size > usize::MAX {
        Err(block_error(path, " block range overflows"@))
    } else if handle.offset + handle.size + 5 > usize::MAX {
        Err(block_error(path, " block trailer overflows"@))
    } else if handle.offset + handle.size + 5 > table.len() {
        Err(
            corrupt(
                "table "@ + path + " block is truncated at offset "@ + decimal(
                    handle.offset as nat,
                ),
            ),
        )
    } else {
        Ok(table.subrange(handle.offset as int, handle.offset + handle.size + 5))
    }
}

/// The decompressed block that a handle points at.
pub open spec fn block_in_table(
    path: Seq<char>,
    table: Seq<u8>,
    handle: BlockHandle,
    paranoid_checks: bool,
) -> Result<Seq<u8>, ErrorView> {
    match frame_in_table(path, table, handle) {
        Err(error) => Err(error),
        Ok(frame) => frame_contents(path, handle.offset as nat, frame, paranoid_checks),
    }
}

fn handle_error(path: &str, what: &str) -> (r: LevelDbError)
    ensures
        r@ == block_error(path@, what@),
{
    let message = joined("table ", path, what);
    LevelDbError::corruption(message.as_str())
}

/// Finds how many bytes the frame of a block has.
pub fn native_frame_size(path: &str, handle: BlockHandle) -> (r: Result<usize, LevelDbError>)
    ensures
        match r {
            Ok(size) => frame_size(path@, handle) == Ok::<nat, ErrorView>(size as nat),
            Err(error) => frame_size(path@, handle) == Err::<nat, ErrorView>(error@),
        },
{
    if handle.size > usize::MAX as u64 {
        return Err(handle_error(path, " block size overflows usize"));
    }
    match (handle.size as usize).checked_add(LEVELDB_BLOCK_TRAILER_LEN) {
        Some(size) => Ok(size),
        None => Err(handle_error(path, " block trailer overflows")),
    }
}

/// Finds the frame of a block in a table.
fn find_frame<'a>(path: &str, table: &'a [u8], handle: BlockHandle) -> (r: Result<
    &'a [u8],
    LevelDbError,
>)
    ensures
        match r {
            Ok(frame) => frame_in_table(path@, table@, handle) == Ok::<Seq<u8>, ErrorView>(frame@)
                && frame@.len() >= 5,
            Err(error) => frame_in_table(path@, table@, handle) == Err::<Seq<u8>, ErrorView>(
                error@,
            ),
        },
{
    if handle.offset > usize::MAX as u64 {
        return Err(handle_error(path, " block offset overflows usize"));
    }
    if handle.size > usize::MAX as u64 {
        return Err(handle_error(path, " block size overflows usize"));
    }
    let offset: usize = handle.offset as usize;
    let trailer_offset: usize = match offset.checked_add(handle.size as usize) {
        Some(trailer_offset) => trailer_offset,
        None => return Err(handle_error(path, " block range overflows")),
    };
    let end: usize = match trailer_offset.checked_add(LEVELDB_BLOCK_TRAILER_LEN) {
        Some(end) => end,
        None => return Err(handle_error(path, " block trailer overflows")),
    };
    if end > table.len() {
        let message = joined("table ", path, " block is truncated at offset ");
        let message = numbered(message.as_str(), handle.offset);
        return Err(LevelDbError::corruption(message.as_str()));
    }
    Ok(slice_subrange(table, offset, end))
}

/// Checks a frame, and returns the tag of its compression and its compressed
/// payload.
fn open_frame<'a>(path: &str, offset: u64, frame: &'a [u8], paranoid_checks: bool) -> (r: Result<
    (u8, &'a [u8]),
    LevelDbError,
>)
    requires
        frame@.len() >= 5,
    ensures
        match r {
            Ok((tag, payload)) => tag == frame@[frame@.len() - 5] && frame_contents(
                path@,
                offset as nat,
                frame@,
                paranoid_checks,
            ) == decompressed(tag, payload@),
            Err(error) => frame_contents(path@, offset as nat, frame@, paranoid_checks) == Err::<
                Seq<u8>,
                ErrorView,
            >(error@),
        },
{
    let size: usize = frame.len() - LEVELDB_BLOCK_TRAILER_LEN;
    let payload = slice_subrange(frame, 0, size);
    let tag: u8 = frame[size];
    proof {
        assert(payload@ =~= frame@.take(size as int));
    }
    if paranoid_checks {
        let trailer = slice_subrange(frame, size + 1, frame.len());
        assert(trailer@ =~= frame@.skip(size + 1));
        let expected_crc: u32 = get_fixed32(trailer);
        if masked_crc32c(payload, tag) != expected_crc {
            let message = joined("table ", path, " block checksum mismatch at offset ");
            let message = numbered(message.as_str(), offset);
            return Err(LevelDbError::corruption(message.as_str()));
        }
    }
    Ok((tag, payload))
}

/// Decodes a frame that was read from a file.
pub fn decode_native_frame(
    path: &str,
    handle: BlockHandle,
    frame: &[u8],
    paranoid_checks: bool,
) -> (r: Result<Bytes, LevelDbError>)
    requires
        frame@.len() >= LEVELDB_BLOCK_TRAILER_LEN,
    ensures
        match r {
            Ok(block) => frame_contents(path@, handle.offset as nat, frame@, paranoid_checks)
                == Ok::<Seq<u8>, ErrorView>(contents(block)),
            Err(error) => frame_contents(path@, handle.offset as nat, frame@, paranoid_checks)
                == Err::<Seq<u8>, ErrorView>(error@),
        },
{
    match open_frame(path, handle.offset, frame, paranoid_checks) {
        Err(error) => Err(error),
        Ok((tag, payload)) => match decompress_payload(tag, payload) {
            Err(error) => Err(error),
            Ok(block) => Ok(from_vec(block)),
        },
    }
}

/// Reads the block that a handle points at.
pub fn read_native_block(path: &str, table: &[u8], handle: BlockHandle, paranoid_checks: bool) -> (r:
    Result<Vec<u8>, LevelDbError>)
    ensures
        bytes_result(r) == block_in_table(path@, table@, handle, paranoid_checks),
{
    let frame = match find_frame(path, table, handle) {
        Ok(frame) => frame,
        Err(error) => return Err(error),
    };
    match open_frame(path, handle.offset, frame, paranoid_checks) {
        Err(error) => Err(error),
        Ok((tag, payload)) => decompress_payload(tag, payload),
    }
}

/// Whether the block that a handle points at is not compressed, and so can be
/// borrowed from the table.
pub open spec fn lends(table: Seq<u8>, handle: BlockHandle) -> bool {
    table[handle.offset + handle.size] == COMPRESSION_NONE
}

/// Reads the block that a handle points at. A block that is not compressed is
/// borrowed from the table.
pub fn read_native_block_value<'a>(
    path: &str,
    table: &'a [u8],
    handle: BlockHandle,
    paranoid_checks: bool,
) -> (r: Result<BlockValue<'a>, LevelDbError>)
    ensures
        match r {
            Ok(block) => {
                &&& block_in_table(path@, table@, handle, paranoid_checks) == Ok::<
                    Seq<u8>,
                    ErrorView,
                >(block@)
                &&& (block is Borrowed) == lends(table@, handle)
            },
            Err(error) => block_in_table(path@, table@, handle, paranoid_checks) == Err::<
                Seq<u8>,
                ErrorView,
            >(error@),
        },
{
    let frame = match find_frame(path, table, handle) {
        Ok(frame) => frame,
        Err(error) => return Err(error),
    };
    match open_frame(path, handle.offset, frame, paranoid_checks) {
        Err(error) => Err(error),
        Ok((tag, payload)) => {
            if tag == COMPRESSION_NONE {
                return Ok(BlockValue::Borrowed(payload));
            }
            match decompress_payload(tag, payload) {
                Err(error) => Err(error),
                Ok(block) => Ok(BlockValue::Shared(from_vec(block))),
            }
        },
    }
}

// ---------------------------------------------------------------------------
// Indexes.

/// The entries of the index block of a table: the largest key of each data
/// block, and its handle.
pub open spec fn table_index(path: Seq<char>, table: Seq<u8>, paranoid_checks: bool) -> Result<
    Seq<Entry>,
    ErrorView,
> {
    match table_index_handle(path, table) {
        Err(error) => Err(error),
        Ok(handle) => match block_in_table(path, table, handle, paranoid_checks) {
            Err(error) => Err(error),
            Ok(block) => whole_list(native_entries(block)),
        },
    }
}

/// Reads the index of a table.
pub fn read_native_index_entries_bytes(path: &str, table: &[u8], paranoid_checks: bool) -> (r:
    Result<Vec<(Vec<u8>, Bytes)>, LevelDbError>)
    ensures
        entries_view(r) == table_index(path@, table@, paranoid_checks),
{
    let handle = match read_table_index_handle(path, table) {
        Ok(handle) => handle,
        Err(error) => return Err(error),
    };
    match read_native_block_value(path, table, handle, paranoid_checks) {
        Ok(block) => collect_native_block_entries(&block),
        Err(error) => Err(error),
    }
}

// ---------------------------------------------------------------------------
// What the bytes of a table mean.

/// A handle is two numbers: the offset, and then the size.
pub proof fn handles_are_offset_and_size(
    handle: BlockHandle,
    offset: Seq<u8>,
    size: Seq<u8>,
    tail: Seq<u8>,
)
    requires
        is_one_varint(offset) && offset.len() <= 10 && base128(offset) <= 0xffff_ffff_ffff_ffff,
        is_one_varint(size) && size.len() <= 10 && base128(size) <= 0xffff_ffff_ffff_ffff,
    ensures
        handle_bytes(handle) == varint_bytes(handle.offset as nat) + varint_bytes(
            handle.size as nat,
        ),
        ({
            let r = handle_at_front(offset + size + tail);
            &&& r is Ok
            &&& r->Ok_0.0.offset == base128(offset)
            &&& r->Ok_0.0.size == base128(size)
            &&& r->Ok_0.1 == offset.len() + size.len()
        }),
{
    assert(offset + size + tail =~= offset + (size + tail));
    varints_are_read_in_base_128(offset, size + tail);
    varints_are_read_in_base_128(size, tail);
    assert((offset + (size + tail)).skip(offset.len() as int) =~= size + tail);
}

/// A handle whose numbers are not all there is refused.
pub proof fn unfinished_handles_are_refused(offset: Seq<u8>, unfinished: Seq<u8>)
    requires
        is_one_varint(offset),
        forall|i: int| 0 <= i < unfinished.len() ==> #[trigger] unfinished[i] >= 128,
    ensures
        handle_at_front(unfinished) matches Err(ErrorView::Corruption { path: None, .. }),
        handle_at_front(offset + unfinished) matches Err(
            ErrorView::Corruption { path: None, .. },
        ),
{
    unfinished_varints_are_refused(unfinished);
    varints_are_read_in_base_128(offset, unfinished);
    assert((offset + unfinished).skip(offset.len() as int) =~= unfinished);
}

/// The last eight bytes of every native table.
pub open spec fn closing_bytes() -> Seq<u8> {
    seq![0x57, 0xfb, 0x80, 0x8b, 0x24, 0x75, 0x47, 0xdb]
}

proof fn lemma_closing_bytes(footer: Seq<u8>)
    requires
        footer.len() == 48,
    ensures
        le_u64(footer.subrange(40, 48)) == LEVELDB_TABLE_MAGIC <==> footer.subrange(40, 48)
            == closing_bytes(),
{
    let last = footer.subrange(40, 48);
    fixed_numbers_are_little_endian(seq![0, 0, 0, 0], last, 0, LEVELDB_TABLE_MAGIC);
    fixed_numbers_are_little_endian(seq![0, 0, 0, 0], closing_bytes(), 0, LEVELDB_TABLE_MAGIC);
    if le_u64(last) == LEVELDB_TABLE_MAGIC {
        assert(last =~= closing_bytes());
    }
}

/// A table ends in 40 bytes that start with two handles, the second of which is
/// that of the index, and in eight closing bytes. What stands between the handles
/// and the closing bytes does not matter.
pub proof fn tables_end_in_two_handles(
    path: Seq<char>,
    front: Seq<u8>,
    first: (Seq<u8>, Seq<u8>),
    second: (Seq<u8>, Seq<u8>),
    padding: Seq<u8>,
)
    requires
        is_one_varint(first.0) && first.0.len() <= 10 && base128(first.0) <= u64::MAX,
        is_one_varint(first.1) && first.1.len() <= 10 && base128(first.1) <= u64::MAX,
        is_one_varint(second.0) && second.0.len() <= 10 && base128(second.0) <= u64::MAX,
        is_one_varint(second.1) && second.1.len() <= 10 && base128(second.1) <= u64::MAX,
        (first.0 + first.1 + second.0 + second.1 + padding).len() == 40,
    ensures
        ({
            let table = front + first.0 + first.1 + second.0 + second.1 + padding
                + closing_bytes();
            let r = table_index_handle(path, table);
            &&& r is Ok
            &&& r->Ok_0.offset == base128(second.0)
            &&& r->Ok_0.size == base128(second.1)
        }),
{
    let table = front + first.0 + first.1 + second.0 + second.1 + padding + closing_bytes();
    let handles = first.0 + first.1 + second.0 + second.1 + padding;
    let footer = table.skip(table.len() - 48);
    let rest = second.0 + second.1 + padding;
    let anything = BlockHandle { offset: 0, size: 0 };
    assert(footer =~= handles + closing_bytes());
    assert(footer.subrange(40, 48) =~= closing_bytes());
    assert(footer.take(40) =~= first.0 + first.1 + rest);
    lemma_closing_bytes(footer);
    handles_are_offset_and_size(anything, first.0, first.1, rest);
    handles_are_offset_and_size(anything, second.0, second.1, padding);
    assert((first.0 + first.1 + rest).skip((first.0.len() + first.1.len()) as int) =~= rest);
}

/// A table that is too short for a footer, or does not end in the closing bytes,
/// is refused.
pub proof fn tables_without_closing_bytes_are_refused(path: Seq<char>, table: Seq<u8>)
    requires
        table.len() < 48 || table.subrange(table.len() - 8, table.len() as int) != closing_bytes(),
    ensures
        table_index_handle(path, table) == Err::<BlockHandle, ErrorView>(
            ErrorView::Corruption {
                path: None,
                message: if table.len() < 48 {
                    "native table "@ + path + " is truncated"@
                } else {
                    "table "@ + path + " has unsupported magic"@
                },
            },
        ),
{
    if table.len() >= 48 {
        let footer = table.skip(table.len() - 48);
        assert(footer.subrange(40, 48) =~= table.subrange(table.len() - 8, table.len() as int));
        lemma_closing_bytes(footer);
    }
}

/// A frame is a payload, the tag of its codec, and the stored checksum of both,
/// least significant byte first. It gives what the codec makes of the payload;
/// the checksum is looked at only where that is asked for, and refuses the frame
/// only where it is wrong.
pub proof fn frames_are_payload_tag_and_checksum(
    path: Seq<char>,
    offset: nat,
    payload: Seq<u8>,
    tag: u8,
    stored: Seq<u8>,
)
    requires
        stored.len() == 4,
    ensures
        ({
            let frame = payload + seq![tag] + stored;
            let number = stored[0] + stored[1] * 256 + stored[2] * 65536 + stored[3] * 16777216;
            &&& frame_contents(path, offset, frame, false) == decompressed(tag, payload)
            &&& number == block_checksum(payload, tag) ==> frame_contents(
                path,
                offset,
                frame,
                true,
            ) == decompressed(tag, payload)
            &&& number != block_checksum(payload, tag) ==> frame_contents(
                path,
                offset,
                frame,
                true,
            ) == Err::<Seq<u8>, ErrorView>(
                ErrorView::Corruption {
                    path: None,
                    message: "table "@ + path + " block checksum mismatch at offset "@ + decimal(
                        offset,
                    ),
                },
            )
        }),
{
    let frame = payload + seq![tag] + stored;
    assert(frame.take(frame.len() - 5) =~= payload);
    assert(frame.skip(frame.len() - 4) =~= stored);
}

/// The block of a handle is the frame that starts at its offset, has a payload of
/// its size, and lies in the table as a whole. Otherwise there is none.
pub proof fn handles_point_at_frames(
    path: Seq<char>,
    table: Seq<u8>,
    handle: BlockHandle,
    paranoid_checks: bool,
)
    requires
        table.len() <= usize::MAX,
    ensures
        handle.offset + handle.size + 5 <= table.len() ==> block_in_table(
            path,
            table,
            handle,
            paranoid_checks,
        ) == frame_contents(
            path,
            handle.offset as nat,
            table.subrange(handle.offset as int, handle.offset + handle.size + 5),
            paranoid_checks,
        ),
        handle.offset + handle.size + 5 > table.len() ==> block_in_table(
            path,
            table,
            handle,
            paranoid_checks,
        ) matches Err(ErrorView::Corruption { path: None, .. }),
        handle.offset + handle.size + 5 > table.len() && handle.offset + handle.size + 5
            <= usize::MAX ==> block_in_table(path, table, handle, paranoid_checks) == Err::<
            Seq<u8>,
            ErrorView,
        >(
            ErrorView::Corruption {
                path: None,
                message: "table "@ + path + " block is truncated at offset "@ + decimal(
                    handle.offset as nat,
                ),
            },
        ),
        handle.offset + handle.size + 5 > usize::MAX ==> block_in_table(
            path,
            table,
            handle,
            paranoid_checks,
        ) == Err::<Seq<u8>, ErrorView>(
            ErrorView::Corruption {
                path: None,
                message: "table "@ + path + if handle.offset > usize::MAX {
                    " block offset overflows usize"@
                } else if handle.size > usize::MAX {
                    " block size overflows usize"@
                } else if handle.offset + handle.size > usize::MAX {
                    " block range overflows"@
                } else {
                    " block trailer overflows"@
                },
            },
        ),
        frame_size(path, handle) is Ok <==> handle.size + 5 <= usize::MAX,
        frame_size(path, handle) matches Err(error) ==> error == (ErrorView::Corruption {
            path: None,
            message: "table "@ + path + if handle.size > usize::MAX {
                " block size overflows usize"@
            } else {
                " block trailer overflows"@
            },
        }),
        frame_size(path, handle) matches Ok(size) ==> size == handle.size + 5,
        handle.offset + handle.size < table.len() ==> (lends(table, handle) <==> table[handle.offset
            + handle.size] == 0),
{
}

/// The index of a table is the list of the block that its footer points at.
pub proof fn indexes_are_lists_of_blocks(path: Seq<char>, table: Seq<u8>, paranoid_checks: bool)
    ensures
        match table_index_handle(path, table) {
            Err(error) => table_index(path, table, paranoid_checks) == Err::<
                Seq<Entry>,
                ErrorView,
            >(error),
            Ok(handle) => match block_in_table(path, table, handle, paranoid_checks) {
                Err(error) => table_index(path, table, paranoid_checks) == Err::<
                    Seq<Entry>,
                    ErrorView,
                >(error),
                Ok(block) => match native_entries(block).error {
                    Some(error) => table_index(path, table, paranoid_checks) == Err::<
                        Seq<Entry>,
                        ErrorView,
                    >(error),
                    None => table_index(path, table, paranoid_checks) == Ok::<
                        Seq<Entry>,
                        ErrorView,
                    >(native_entries(block).entries),
                },
            },
        },
{
}

} // verus!
