//! What holds of native tables whose blocks are read from a file, one by one.
//!
//! A block that cannot be read is reported in other words from a file than from
//! memory. In all else the two agree.
use crate::block::{native_entries, whole_list};
use crate::error::ErrorView;
use crate::keys::Entry;
use crate::native::{handle_at_front, table_index, table_index_handle, BlockHandle};
use crate::native_lookup::{
    found_by_index, gathered_by_index, gathered_from_entries, lemma_next_pending_shrinks,
    next_pending_block, Gathered,
};
use crate::native_read::{block_in_file, file_gives_what_memory_gives};
use crate::native_scan::{
    fetched_plan, index_plan, select_block, table_blocks, wants_block, within_prefix, Fetch,
    ReadingOf, Selection,
};
use crate::native_table::{next_block, NextBlock};
use crate::gather::pending;
use crate::scan::{plan_then, ScanPlan};
use vstd::prelude::*;

verus! {

// ---------------------------------------------------------------------------
// Two ways to get blocks.

/// Whether two results agree: they are the same, or neither is a success.
pub open spec fn same_success<T>(one: Result<T, ErrorView>, other: Result<T, ErrorView>) -> bool {
    one == other || (one is Err && other is Err)
}

/// Whether two plans agree: they show the same, and end the same way or both
/// with an error.
pub open spec fn same_showing(one: ScanPlan, other: ScanPlan) -> bool {
    &&& one.items == other.items
    &&& one.end == other.end || (one.end is Failed && other.end is Failed)
}

/// Whether two ways to get blocks agree on every block.
pub open spec fn same_blocks(one: Fetch, other: Fetch) -> bool {
    forall|handle: BlockHandle| same_success(#[trigger] one(handle), other(handle))
}

/// Whether every block that an index points at can be fetched.
pub open spec fn fetchable(index: Seq<Entry>, fetch: Fetch) -> bool {
    forall|i: int|
        0 <= i < index.len() ==> (handle_at_front((#[trigger] index[i]).1) matches Ok((handle, _))
            ==> fetch(handle) is Ok)
}

proof fn lemma_fetchable_rest(index: Seq<Entry>, fetch: Fetch)
    requires
        index.len() > 0,
        fetchable(index, fetch),
    ensures
        fetchable(index.skip(1), fetch),
        handle_at_front(index[0].1) matches Ok((handle, _)) ==> fetch(handle) is Ok,
{
    let rest = index.skip(1);
    assert forall|i: int| 0 <= i < rest.len() && handle_at_front((#[trigger] rest[i]).1)
        is Ok implies fetch(handle_at_front(rest[i].1)->Ok_0.0) is Ok by {
        assert(rest[i] == index[i + 1]);
    }
    assert(handle_at_front(index[0].1) is Ok ==> fetch(handle_at_front(index[0].1)->Ok_0.0) is Ok);
}

proof fn lemma_then_shows_same(first: ScanPlan, one: ScanPlan, other: ScanPlan)
    requires
        same_showing(one, other),
    ensures
        same_showing(plan_then(first, one), plan_then(first, other)),
{
}

/// A scan shows the same whichever of two agreeing ways its blocks are got by.
/// Where every block can be fetched, it also ends the same way.
pub proof fn scan_goes_by_blocks_alone(
    index: Seq<Entry>,
    seen: Set<Seq<u8>>,
    selection: Selection,
    one: Fetch,
    other: Fetch,
    reading: ReadingOf,
)
    requires
        same_blocks(one, other),
    ensures
        same_showing(
            index_plan(index, seen, selection, one, reading),
            index_plan(index, seen, selection, other, reading),
        ),
        fetchable(index, other) ==> index_plan(index, seen, selection, one, reading)
            == index_plan(index, seen, selection, other, reading),
    decreases index.len(),
{
    if index.len() > 0 {
        let rest = index.skip(1);
        if fetchable(index, other) {
            lemma_fetchable_rest(index, other);
        }
        if !wants_block(index[0].0, selection) {
            scan_goes_by_blocks_alone(rest, seen, selection, one, other, reading);
        } else if let Ok((handle, _)) = handle_at_front(index[0].1) {
            assert(same_success(one(handle), other(handle)));
            let first = index_plan(index, seen, selection, one, reading);
            let second = index_plan(index, seen, selection, other, reading);
            assert(first == fetched_plan(handle, rest, seen, selection, one, reading));
            assert(second == fetched_plan(handle, rest, seen, selection, other, reading));
            if let Ok(block) = one(handle) {
                let selected = select_block(block, seen, selection, reading(handle));
                let first_later = index_plan(rest, selected.seen, selection, one, reading);
                let second_later = index_plan(rest, selected.seen, selection, other, reading);
                scan_goes_by_blocks_alone(rest, selected.seen, selection, one, other, reading);
                lemma_then_shows_same(selected.plan, first_later, second_later);
            }
        }
    }
}

proof fn lemma_next_is_fetchable(index: Seq<Entry>, selection: Selection, fetch: Fetch)
    requires
        fetchable(index, fetch),
    ensures
        next_block(index, selection) matches NextBlock::Read(handle, _) ==> fetch(handle) is Ok,
    decreases index.len(),
{
    if index.len() > 0 {
        lemma_fetchable_rest(index, fetch);
        if !wants_block(index[0].0, selection) {
            lemma_next_is_fetchable(index.skip(1), selection, fetch);
        }
    }
}

/// A lookup finds the same whichever of two agreeing ways its block is got by.
pub proof fn lookup_goes_by_blocks_alone(
    index: Seq<Entry>,
    key: Seq<u8>,
    one: Fetch,
    other: Fetch,
)
    requires
        same_blocks(one, other),
    ensures
        same_success(found_by_index(index, key, one), found_by_index(index, key, other)),
        fetchable(index, other) ==> found_by_index(index, key, one) == found_by_index(
            index,
            key,
            other,
        ),
{
    if let NextBlock::Read(handle, _) = next_block(index, within_prefix(key)) {
        assert(same_success(one(handle), other(handle)));
    }
    if fetchable(index, other) {
        lemma_next_is_fetchable(index, within_prefix(key), other);
    }
}

proof fn lemma_next_pending_is_fetchable(index: Seq<Entry>, keys: Set<Seq<u8>>, fetch: Fetch)
    requires
        fetchable(index, fetch),
    ensures
        next_pending_block(index, keys) matches NextBlock::Read(handle, rest) ==> fetch(handle)
            is Ok && fetchable(rest, fetch),
    decreases index.len(),
{
    if index.len() > 0 {
        lemma_fetchable_rest(index, fetch);
        lemma_next_pending_is_fetchable(index.skip(1), keys, fetch);
    }
}

/// A lookup of several keys finds the same whichever of two agreeing ways its
/// blocks are got by.
pub proof fn lookups_go_by_blocks_alone(
    keys: Seq<Seq<u8>>,
    so_far: Gathered,
    index: Seq<Entry>,
    one: Fetch,
    other: Fetch,
)
    requires
        same_blocks(one, other),
    ensures
        same_success(
            gathered_by_index(keys, so_far, index, one),
            gathered_by_index(keys, so_far, index, other),
        ),
        fetchable(index, other) ==> gathered_by_index(keys, so_far, index, one)
            == gathered_by_index(keys, so_far, index, other),
    decreases index.len(),
{
    let wanted = pending(keys, so_far.found);
    if fetchable(index, other) {
        lemma_next_pending_is_fetchable(index, wanted, other);
    }
    lemma_next_pending_shrinks(index, wanted);
    if let NextBlock::Read(handle, rest) = next_pending_block(index, wanted) {
        assert(same_success(one(handle), other(handle)));
        if let Ok(block) = one(handle) {
            if let Ok(entries) = whole_list(native_entries(block)) {
                let next = gathered_from_entries(keys, so_far, entries);
                lookups_go_by_blocks_alone(keys, next, rest, one, other);
            }
        }
    }
}

// ---------------------------------------------------------------------------
// A file and the same bytes in memory.

/// The blocks of a table in a file; `short` is the error where the file ends
/// inside a block.
pub open spec fn file_blocks(
    path: Seq<char>,
    file: Seq<u8>,
    paranoid_checks: bool,
    short: ErrorView,
) -> Fetch {
    |handle: BlockHandle| block_in_file(path, file, handle, paranoid_checks, short)
}

/// The entries of the index block of a table in a file.
pub open spec fn file_index(
    path: Seq<char>,
    file: Seq<u8>,
    paranoid_checks: bool,
    short: ErrorView,
) -> Result<Seq<Entry>, ErrorView> {
    match table_index_handle(path, file) {
        Err(error) => Err(error),
        Ok(handle) => match block_in_file(path, file, handle, paranoid_checks, short) {
            Err(error) => Err(error),
            Ok(block) => whole_list(native_entries(block)),
        },
    }
}

/// Every block of a file is what it is in memory, and so is the index.
pub proof fn file_has_the_blocks_of_memory(
    path: Seq<char>,
    file: Seq<u8>,
    paranoid_checks: bool,
    short: ErrorView,
)
    requires
        file.len() <= usize::MAX,
    ensures
        same_blocks(
            file_blocks(path, file, paranoid_checks, short),
            table_blocks(path, file, paranoid_checks),
        ),
        same_success(
            file_index(path, file, paranoid_checks, short),
            table_index(path, file, paranoid_checks),
        ),
{
    let one = file_blocks(path, file, paranoid_checks, short);
    let other = table_blocks(path, file, paranoid_checks);
    assert forall|handle: BlockHandle| same_success(#[trigger] one(handle), other(handle)) by {
        file_gives_what_memory_gives(path, file, handle, paranoid_checks, short);
    }
    if let Ok(handle) = table_index_handle(path, file) {
        file_gives_what_memory_gives(path, file, handle, paranoid_checks, short);
    }
}

/// Scanning a table in a file shows what scanning the same bytes in memory shows.
/// Where every block can be read, the two also end the same way.
pub proof fn file_scan_shows_what_memory_scan_shows(
    path: Seq<char>,
    file: Seq<u8>,
    paranoid_checks: bool,
    short: ErrorView,
    index: Seq<Entry>,
    seen: Set<Seq<u8>>,
    selection: Selection,
    reading: ReadingOf,
)
    requires
        file.len() <= usize::MAX,
    ensures
        ({
            let one = file_blocks(path, file, paranoid_checks, short);
            let other = table_blocks(path, file, paranoid_checks);
            let from_file = index_plan(index, seen, selection, one, reading);
            let from_memory = index_plan(index, seen, selection, other, reading);
            &&& same_showing(from_file, from_memory)
            &&& fetchable(index, other) ==> from_file == from_memory
        }),
{
    let one = file_blocks(path, file, paranoid_checks, short);
    let other = table_blocks(path, file, paranoid_checks);
    file_has_the_blocks_of_memory(path, file, paranoid_checks, short);
    scan_goes_by_blocks_alone(index, seen, selection, one, other, reading);
}

/// Looking keys up in a table in a file finds what looking them up in the same
/// bytes in memory finds. Where every block can be read, errors are the same too.
pub proof fn file_lookups_find_what_memory_lookups_find(
    path: Seq<char>,
    file: Seq<u8>,
    paranoid_checks: bool,
    short: ErrorView,
    index: Seq<Entry>,
    key: Seq<u8>,
    keys: Seq<Seq<u8>>,
    so_far: Gathered,
)
    requires
        file.len() <= usize::MAX,
    ensures
        ({
            let one = file_blocks(path, file, paranoid_checks, short);
            let other = table_blocks(path, file, paranoid_checks);
            let found = found_by_index(index, key, one);
            let found_in_memory = found_by_index(index, key, other);
            let gathered = gathered_by_index(keys, so_far, index, one);
            let gathered_in_memory = gathered_by_index(keys, so_far, index, other);
            &&& same_success(found, found_in_memory)
            &&& same_success(gathered, gathered_in_memory)
            &&& fetchable(index, other) ==> found == found_in_memory && gathered
                == gathered_in_memory
        }),
{
    let one = file_blocks(path, file, paranoid_checks, short);
    let other = table_blocks(path, file, paranoid_checks);
    file_has_the_blocks_of_memory(path, file, paranoid_checks, short);
    lookup_goes_by_blocks_alone(index, key, one, other);
    lookups_go_by_blocks_alone(keys, so_far, index, one, other);
}

} // verus!
