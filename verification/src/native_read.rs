//! Reading one block of a native table from a file, through a cache.
//!
//! Whoever has the file asks the cache first. [`begin_block_read`] then says
//! whether the file has to be read at all, and how much of it; the bytes go
//! through [`crate::native::decode_native_frame`], and the cache stores what came
//! out.
use crate::blob::{contents, optional_contents};
use crate::cache::{
    cache_answers_as_reading_would, cache_get, cache_holds_newest_block, cache_stored,
    faithful, held_at, sound, CacheKeyView, CacheView, ReadBlock,
};
use crate::error::{ErrorView, LevelDbError};
use crate::native::{block_in_table, frame_contents, frame_size, native_frame_size, BlockHandle};
use bytes::Bytes;
use vstd::prelude::*;

verus! {

/// What is to be done for a block.
#[derive(Debug)]
pub enum BlockStep {
    /// Nothing: this is the block.
    Cached(Bytes),
    /// So many bytes have to be read from the offset of the block on.
    Read(usize),
}

/// What is to be done for a block.
#[verifier::ext_equal]
pub enum StepView {
    /// Nothing: this is the block.
    Cached(Seq<u8>),
    /// So many bytes have to be read from the offset of the block on.
    Read(nat),
}

/// What is to be done for a block, given what the cache answers.
pub open spec fn block_step(
    cached: Option<Seq<u8>>,
    path: Seq<char>,
    handle: BlockHandle,
) -> Result<StepView, ErrorView> {
    match cached {
        Some(block) => Ok(StepView::Cached(block)),
        None => match frame_size(path, handle) {
            Ok(len) => Ok(StepView::Read(len)),
            Err(error) => Err(error),
        },
    }
}

/// The mathematical value of what is to be done.
pub open spec fn step_view(r: Result<BlockStep, LevelDbError>) -> Result<StepView, ErrorView> {
    match r {
        Ok(BlockStep::Cached(block)) => Ok(StepView::Cached(contents(block))),
        Ok(BlockStep::Read(len)) => Ok(StepView::Read(len as nat)),
        Err(error) => Err(error@),
    }
}

/// Finds what is to be done for a block, given what the cache answers.
pub fn begin_block_read(cached: Option<Bytes>, path: &str, handle: BlockHandle) -> (r: Result<
    BlockStep,
    LevelDbError,
>)
    ensures
        step_view(r) == block_step(optional_contents(cached), path@, handle),
{
    if let Some(block) = cached {
        return Ok(BlockStep::Cached(block));
    }
    match native_frame_size(path, handle) {
        Ok(len) => Ok(BlockStep::Read(len)),
        Err(error) => Err(error),
    }
}

/// What the bytes of a frame give that were read from a file, where the file
/// has that many from the offset on; `short` is the error where it has not.
pub open spec fn frame_from_file(
    path: Seq<char>,
    file: Seq<u8>,
    handle: BlockHandle,
    len: nat,
    paranoid_checks: bool,
    short: ErrorView,
) -> Result<Seq<u8>, ErrorView> {
    if handle.offset + len <= file.len() {
        frame_contents(
            path,
            handle.offset as nat,
            file.subrange(handle.offset as int, (handle.offset + len) as int),
            paranoid_checks,
        )
    } else {
        Err(short)
    }
}

/// What reading a block from a file gives without a cache.
pub open spec fn block_in_file(
    path: Seq<char>,
    file: Seq<u8>,
    handle: BlockHandle,
    paranoid_checks: bool,
    short: ErrorView,
) -> Result<Seq<u8>, ErrorView> {
    match frame_size(path, handle) {
        Err(error) => Err(error),
        Ok(len) => frame_from_file(path, file, handle, len, paranoid_checks, short),
    }
}

/// What reading a block from a file through a cache gives, and the cache then.
pub open spec fn block_through_cache(
    cache: CacheView,
    key: CacheKeyView,
    path: Seq<char>,
    file: Seq<u8>,
    handle: BlockHandle,
    paranoid_checks: bool,
    short: ErrorView,
) -> (Result<Seq<u8>, ErrorView>, CacheView) {
    match block_step(cache_get(cache, key), path, handle) {
        Err(error) => (Err(error), cache),
        Ok(StepView::Cached(block)) => (Ok(block), cache),
        Ok(StepView::Read(len)) => {
            let read = frame_from_file(path, file, handle, len, paranoid_checks, short);
            (read, cache_stored(cache, key, read))
        },
    }
}

/// A block can be read from a file where it can be read from the same bytes in
/// memory, and is the same then.
pub proof fn file_gives_what_memory_gives(
    path: Seq<char>,
    file: Seq<u8>,
    handle: BlockHandle,
    paranoid_checks: bool,
    short: ErrorView,
)
    requires
        file.len() <= usize::MAX,
    ensures
        block_in_file(path, file, handle, paranoid_checks, short) is Ok <==> block_in_table(
            path,
            file,
            handle,
            paranoid_checks,
        ) is Ok,
        block_in_table(path, file, handle, paranoid_checks) is Ok ==> block_in_file(
            path,
            file,
            handle,
            paranoid_checks,
            short,
        ) == block_in_table(path, file, handle, paranoid_checks),
{
}

/// A block that is read through a cache is the block that reading the file
/// gives, as long as only such blocks were put into the cache: that stays so.
/// A block that cannot be read leaves the cache as it is.
pub proof fn cache_does_not_change_what_is_read(
    cache: CacheView,
    key: CacheKeyView,
    path: Seq<char>,
    file: Seq<u8>,
    handle: BlockHandle,
    paranoid_checks: bool,
    short: ErrorView,
    read: ReadBlock,
)
    requires
        faithful(cache, read),
        read(key) == block_in_file(path, file, handle, paranoid_checks, short),
    ensures
        ({
            let (block, after) = block_through_cache(
                cache,
                key,
                path,
                file,
                handle,
                paranoid_checks,
                short,
            );
            &&& block == block_in_file(path, file, handle, paranoid_checks, short)
            &&& faithful(after, read)
            &&& block is Err ==> after == cache
        }),
{
    if let Some(found) = cache_get(cache, key) {
        let i = choose|i: int| held_at(cache.entries, key, i);
        assert(held_at(cache.entries, key, i));
        assert(read(cache.entries[i].0) == Ok::<Seq<u8>, ErrorView>(cache.entries[i].1));
    } else if let Ok(block) = read(key) {
        cache_answers_as_reading_would(cache, key, block, read);
    }
}

/// A block that was read through a cache with room for it is in the cache then:
/// reading it again gives it, whatever the file holds by then, and leaves the
/// cache as it is.
pub proof fn block_is_read_once(
    cache: CacheView,
    key: CacheKeyView,
    path: Seq<char>,
    file: Seq<u8>,
    changed_file: Seq<u8>,
    handle: BlockHandle,
    paranoid_checks: bool,
    short: ErrorView,
)
    requires
        sound(cache),
    ensures
        ({
            let (block, after) = block_through_cache(
                cache,
                key,
                path,
                file,
                handle,
                paranoid_checks,
                short,
            );
            block is Ok && 0 < cache.capacity && block->Ok_0.len() <= cache.capacity ==> {
                &&& block_step(cache_get(after, key), path, handle) == Ok::<StepView, ErrorView>(
                    StepView::Cached(block->Ok_0),
                )
                &&& block_through_cache(
                    after,
                    key,
                    path,
                    changed_file,
                    handle,
                    paranoid_checks,
                    short,
                ) == (block, after)
            }
        }),
{
    let (block, after) = block_through_cache(
        cache,
        key,
        path,
        file,
        handle,
        paranoid_checks,
        short,
    );
    if cache_get(cache, key) is None && block is Ok && 0 < cache.capacity && block->Ok_0.len()
        <= cache.capacity {
        cache_holds_newest_block(cache, key, block->Ok_0);
    }
}

/// A block that a cache does not hold is read from the file as it would be read
/// from the same bytes in memory. One that cannot be read leaves the cache as it
/// is; one that fits into it is found there from then on, whatever becomes of the
/// file.
pub proof fn uncached_block_is_read_as_from_memory(
    cache: CacheView,
    key: CacheKeyView,
    path: Seq<char>,
    file: Seq<u8>,
    changed_file: Seq<u8>,
    handle: BlockHandle,
    paranoid_checks: bool,
    short: ErrorView,
)
    requires
        sound(cache),
        cache_get(cache, key) is None,
        file.len() <= usize::MAX,
    ensures
        ({
            let (block, after) = block_through_cache(
                cache,
                key,
                path,
                file,
                handle,
                paranoid_checks,
                short,
            );
            let memory = block_in_table(path, file, handle, paranoid_checks);
            let (again, last) = block_through_cache(
                after,
                key,
                path,
                changed_file,
                handle,
                paranoid_checks,
                short,
            );
            &&& block is Ok <==> memory is Ok
            &&& block is Ok ==> block == memory
            &&& block is Err ==> after == cache
            &&& block is Ok && 0 < cache.capacity && block->Ok_0.len() <= cache.capacity
                ==> again == block && last == after
        }),
{
    file_gives_what_memory_gives(path, file, handle, paranoid_checks, short);
    block_is_read_once(
        cache,
        key,
        path,
        file,
        changed_file,
        handle,
        paranoid_checks,
        short,
    );
}

/// A block that is cached is taken as it is, and nothing is read. Otherwise the
/// bytes of its payload and the five of its trailer are read from its offset on,
/// where so many can be addressed.
pub proof fn blocks_are_read_where_they_are_not_cached(
    block: Seq<u8>,
    path: Seq<char>,
    handle: BlockHandle,
    step: BlockStep,
)
    ensures
        block_step(Some(block), path, handle) == Ok::<StepView, ErrorView>(
            StepView::Cached(block),
        ),
        handle.size + 5 <= usize::MAX ==> block_step(None, path, handle) == Ok::<
            StepView,
            ErrorView,
        >(StepView::Read((handle.size + 5) as nat)),
        handle.size + 5 > usize::MAX ==> block_step(None, path, handle) is Err,
        match step {
            BlockStep::Cached(found) => step_view(Ok(step)) == Ok::<StepView, ErrorView>(
                StepView::Cached(contents(found)),
            ),
            BlockStep::Read(len) => step_view(Ok(step)) == Ok::<StepView, ErrorView>(
                StepView::Read(len as nat),
            ),
        },
{
}

/// A block in a file is what its frame gives, that is the bytes from its offset on
/// for its payload and the five bytes of its trailer. A file that ends before that
/// gives the error of a short read.
pub proof fn blocks_of_files_are_frames(
    path: Seq<char>,
    file: Seq<u8>,
    handle: BlockHandle,
    paranoid_checks: bool,
    short: ErrorView,
)
    requires
        handle.size + 5 <= usize::MAX,
    ensures
        ({
            let read = block_in_file(path, file, handle, paranoid_checks, short);
            let end = handle.offset + handle.size + 5;
            &&& end > file.len() ==> read == Err::<Seq<u8>, ErrorView>(short)
            &&& end <= file.len() ==> read == frame_contents(
                path,
                handle.offset as nat,
                file.subrange(handle.offset as int, end),
                paranoid_checks,
            )
        }),
{
}

} // verus!
