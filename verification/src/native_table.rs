//! Scanning the blocks of native tables.
use crate::blob::{as_slice, contents, share, BlockValue};
use crate::collect::{
    entry_collector_keeps_what_is_shown, owned_entries, shown_entries, EntryCollector,
};
use crate::error::{ErrorView, LevelDbError};
use crate::keys::{
    as_map, entry_pairs, inserted, lemma_entry_insert, lemma_inserted_sorted, Entry, KeyMap, KeySet,
};
use crate::native::{
    handle_at_front, lends, read_block_handle, read_native_block_value,
    read_native_index_entries_bytes, BlockHandle,
};
use crate::native_scan::{
    borrowed_blocks, everything, fetched_plan, index_plan, read_by_entry, select_block,
    table_blocks, table_plan, visit_native_block, visit_native_block_keys, visit_native_block_ref,
    wants_block, whole_blocks, with_prefix, within_prefix, Fetch, NativeSelection, Reading,
    ReadingOf, Selection,
};
use crate::options::{empty_outcome, mark_table_scanned, scanned, ScanOutcome};
use crate::scan::{
    done_plan, failed_plan, lemma_scan_ends, lemma_scan_starts, lemma_scan_step, open_plan,
    outcome_view, plan_then, progress_result, runs, scanning, scans, table_result, EntryVisitor,
    KeyVisitor, ScanEnd, ScanPlan, ScanProgress, ScanResult,
};
use bytes::Bytes;
use vstd::prelude::*;
use vstd::slice::slice_to_vec;

verus! {

// ---------------------------------------------------------------------------
// One block after the other.

/// The block that a scan reads next.
#[verifier::ext_equal]
pub enum NextBlock {
    /// There is none left.
    Nothing,
    /// Its handle cannot be read.
    Unreadable(ErrorView),
    /// The block of this handle; the index entries behind it are left.
    Read(BlockHandle, Seq<Entry>),
}

/// The block that a scan reads next, given what is left of the index.
pub open spec fn next_block(index: Seq<Entry>, selection: Selection) -> NextBlock
    decreases index.len(),
{
    if index.len() == 0 {
        NextBlock::Nothing
    } else if !wants_block(index[0].0, selection) {
        next_block(index.skip(1), selection)
    } else {
        match handle_at_front(index[0].1) {
            Err(error) => NextBlock::Unreadable(error),
            Ok((handle, _)) => NextBlock::Read(handle, index.skip(1)),
        }
    }
}

/// What a scan shows from here on depends on the block that it reads next, and
/// on those behind it.
pub proof fn scan_goes_by_next_block(
    index: Seq<Entry>,
    seen: Set<Seq<u8>>,
    selection: Selection,
    fetch: Fetch,
    reading: ReadingOf,
)
    ensures
        index_plan(index, seen, selection, fetch, reading) == match next_block(index, selection) {
            NextBlock::Nothing => done_plan(),
            NextBlock::Unreadable(error) => failed_plan(error),
            NextBlock::Read(handle, rest) => fetched_plan(
                handle,
                rest,
                seen,
                selection,
                fetch,
                reading,
            ),
        },
    decreases index.len(),
{
    if index.len() > 0 && !wants_block(index[0].0, selection) {
        scan_goes_by_next_block(index.skip(1), seen, selection, fetch, reading);
    }
}

/// A scan of a native table whose blocks are handed to it one by one.
pub struct NativeScan {
    index: Vec<(Vec<u8>, Bytes)>,
    selection: NativeSelection,
    next: usize,
    seen: KeySet,
    outcome: ScanOutcome,
}

impl NativeScan {
    /// What is left of the index.
    pub closed spec fn left(&self) -> Seq<Entry> {
        owned_entries(self.index@).skip(self.next as int)
    }

    /// The user keys that were seen.
    pub closed spec fn seen(&self) -> Set<Seq<u8>> {
        self.seen@
    }

    /// The entries that the scan shows.
    pub closed spec fn selection(&self) -> Selection {
        self.selection@
    }

    /// What was counted so far.
    pub closed spec fn outcome(&self) -> ScanOutcome {
        self.outcome
    }

    /// The invariant.
    pub closed spec fn wf(&self) -> bool {
        self.next <= self.index@.len() && self.seen.wf()
    }

    /// What the scan shows from here on, where it gets its blocks by `fetch`.
    pub open spec fn plan(&self, fetch: Fetch, reading: ReadingOf) -> ScanPlan {
        index_plan(self.left(), self.seen(), self.selection(), fetch, reading)
    }

    /// What the scan shows from here on, where `block` was fetched and is yet
    /// to be scanned.
    pub open spec fn plan_from(
        &self,
        block: Seq<u8>,
        handle: BlockHandle,
        fetch: Fetch,
        reading: ReadingOf,
    ) -> ScanPlan {
        let selected = select_block(block, self.seen(), self.selection(), reading(handle));
        plan_then(
            selected.plan,
            index_plan(self.left(), selected.seen, self.selection(), fetch, reading),
        )
    }

    /// Starts a scan of the table with this index.
    pub fn new(index: Vec<(Vec<u8>, Bytes)>, selection: NativeSelection) -> (r: NativeScan)
        ensures
            r.wf(),
            r.left() == owned_entries(index@),
            r.seen() == Set::<Seq<u8>>::empty(),
            r.selection() == selection@,
            r.outcome() == empty_outcome(),
    {
        let r = NativeScan {
            index,
            selection,
            next: 0,
            seen: KeySet::new(),
            outcome: ScanOutcome::empty(),
        };
        assert(r.left() =~= owned_entries(index@));
        r
    }

    /// Finds the block that the scan reads next, and moves behind its index
    /// entry. Returns `None` where there is none left.
    pub fn next_block(&mut self) -> (r: Result<Option<BlockHandle>, LevelDbError>)
        requires
            old(self).wf(),
        ensures
            final(self).wf(),
            final(self).seen() == old(self).seen(),
            final(self).selection() == old(self).selection(),
            final(self).outcome() == old(self).outcome(),
            match r {
                Ok(None) => next_block(old(self).left(), old(self).selection()) is Nothing
                    && final(self).left().len() == 0,
                Ok(Some(handle)) => next_block(old(self).left(), old(self).selection())
                    == NextBlock::Read(handle, final(self).left()),
                Err(error) => next_block(old(self).left(), old(self).selection())
                    == NextBlock::Unreadable(error@),
            },
            r matches Ok(Some(_)) ==> final(self).left().len() < old(self).left().len(),
    {
        let ghost all = owned_entries(self.index@);
        let ghost whole = next_block(self.left(), self.selection());
        while self.next < self.index.len()
            invariant
                self.wf(),
                all == owned_entries(self.index@),
                self.seen() == old(self).seen(),
                self.selection() == old(self).selection(),
                self.outcome() == old(self).outcome(),
                self.left() == all.skip(self.next as int),
                self.left().len() <= old(self).left().len(),
                whole == next_block(old(self).left(), old(self).selection()),
                whole == next_block(self.left(), self.selection()),
            decreases self.index@.len() - self.next,
        {
            let i: usize = self.next;
            let ghost before = self.left();
            self.next = i + 1;
            proof {
                assert(before[0] == all[i as int]);
                assert(before.skip(1) =~= self.left());
            }
            if self.selection.wants(self.index[i].0.as_slice()) {
                let mut input = as_slice(&self.index[i].1);
                return match read_block_handle(&mut input) {
                    Ok(handle) => Ok(Some(handle)),
                    Err(error) => Err(error),
                };
            }
        }
        Ok(None)
    }

    /// Reads the next block of a table in memory, and moves behind its index
    /// entry. Returns the block with its handle, or `None` where there is none
    /// left.
    fn read_next<'a>(&mut self, path: &str, table: &'a [u8], paranoid_checks: bool) -> (r: Result<
        Option<(BlockHandle, BlockValue<'a>)>,
        LevelDbError,
    >)
        requires
            old(self).wf(),
        ensures
            final(self).wf(),
            final(self).seen() == old(self).seen(),
            final(self).selection() == old(self).selection(),
            final(self).outcome() == old(self).outcome(),
            forall|reading: ReadingOf| #[trigger]
                old(self).plan(table_blocks(path@, table@, paranoid_checks), reading) == match r {
                    Ok(None) => done_plan(),
                    Ok(Some((handle, block))) => final(self).plan_from(
                        block@,
                        handle,
                        table_blocks(path@, table@, paranoid_checks),
                        reading,
                    ),
                    Err(error) => failed_plan(error@),
                },
            r matches Ok(Some((handle, block))) ==> {
                &&& (block is Borrowed) == lends(table@, handle)
                &&& final(self).left().len() < old(self).left().len()
            },
    {
        let ghost fetch = table_blocks(path@, table@, paranoid_checks);
        proof {
            assert forall|reading: ReadingOf| #[trigger]
                self.plan(fetch, reading) == match next_block(self.left(), self.selection()) {
                    NextBlock::Nothing => done_plan(),
                    NextBlock::Unreadable(error) => failed_plan(error),
                    NextBlock::Read(handle, rest) => fetched_plan(
                        handle,
                        rest,
                        self.seen(),
                        self.selection(),
                        fetch,
                        reading,
                    ),
                } by {
                scan_goes_by_next_block(
                    self.left(),
                    self.seen(),
                    self.selection(),
                    fetch,
                    reading,
                );
            }
        }
        match self.next_block() {
            Err(error) => Err(error),
            Ok(None) => Ok(None),
            Ok(Some(handle)) => match read_native_block_value(
                path,
                table,
                handle,
                paranoid_checks,
            ) {
                Ok(block) => {
                    assert(fetch(handle) == Ok::<Seq<u8>, ErrorView>(block@));
                    Ok(Some((handle, block)))
                },
                Err(error) => {
                    assert(fetch(handle) == Err::<Seq<u8>, ErrorView>(error@));
                    Err(error)
                },
            },
        }
    }

    /// Scans the block that was asked for last.
    pub fn scan_block<V: EntryVisitor>(&mut self, block: &Bytes, visitor: &mut V) -> (r: Result<
        ScanProgress,
        LevelDbError,
    >)
        requires
            old(self).wf(),
        ensures
            final(self).wf(),
            final(self).left() == old(self).left(),
            final(self).selection() == old(self).selection(),
            runs(
                *old(visitor),
                select_block(
                    contents(*block),
                    old(self).seen(),
                    old(self).selection(),
                    Reading::Whole,
                ).plan,
                old(self).outcome(),
                *final(visitor),
                progress_result(r, final(self).outcome()),
            ),
            r == Ok::<ScanProgress, LevelDbError>(ScanProgress::More) ==> final(self).seen()
                == select_block(
                contents(*block),
                old(self).seen(),
                old(self).selection(),
                Reading::Whole,
            ).seen,
    {
        visit_native_block(block, &self.selection, &mut self.seen, &mut self.outcome, visitor)
    }

    /// Scans the keys of the block that was asked for last.
    pub fn scan_block_keys<V: KeyVisitor>(&mut self, block: &Bytes, visitor: &mut V) -> (r: Result<
        ScanProgress,
        LevelDbError,
    >)
        requires
            old(self).wf(),
        ensures
            final(self).wf(),
            final(self).left() == old(self).left(),
            final(self).selection() == old(self).selection(),
            runs(
                *old(visitor),
                select_block(
                    contents(*block),
                    old(self).seen(),
                    old(self).selection(),
                    Reading::Whole,
                ).plan,
                old(self).outcome(),
                *final(visitor),
                progress_result(r, final(self).outcome()),
            ),
            r == Ok::<ScanProgress, LevelDbError>(ScanProgress::More) ==> final(self).seen()
                == select_block(
                contents(*block),
                old(self).seen(),
                old(self).selection(),
                Reading::Whole,
            ).seen,
    {
        visit_native_block_keys(block, &self.selection, &mut self.seen, &mut self.outcome, visitor)
    }

    /// Scans the block that was asked for last entry by entry.
    pub fn scan_block_ref<V: EntryVisitor>(
        &mut self,
        block: &BlockValue<'_>,
        visitor: &mut V,
    ) -> (r: Result<
        ScanProgress,
        LevelDbError,
    >)
        requires
            old(self).wf(),
        ensures
            final(self).wf(),
            final(self).left() == old(self).left(),
            final(self).selection() == old(self).selection(),
            runs(
                *old(visitor),
                select_block(
                    block@,
                    old(self).seen(),
                    old(self).selection(),
                    read_by_entry(*block),
                ).plan,
                old(self).outcome(),
                *final(visitor),
                progress_result(r, final(self).outcome()),
            ),
            r == Ok::<ScanProgress, LevelDbError>(ScanProgress::More) ==> final(self).seen()
                == select_block(
                block@,
                old(self).seen(),
                old(self).selection(),
                read_by_entry(*block),
            ).seen,
    {
        visit_native_block_ref(block, &self.selection, &mut self.seen, &mut self.outcome, visitor)
    }

    /// Ends the scan.
    pub fn finish(self) -> (r: ScanOutcome)
        ensures
            r == scanned(self.outcome()),
    {
        mark_table_scanned(self.outcome)
    }
}

// ---------------------------------------------------------------------------
// Tables in memory.

/// How the blocks of a table are read: with `borrows`, entry by entry and
/// without copying what is not compressed.
pub open spec fn table_reading(table: Seq<u8>, borrows: bool) -> ReadingOf {
    if borrows {
        borrowed_blocks(table)
    } else {
        whole_blocks()
    }
}

/// Scans a table in memory. With `borrows`, blocks are read entry by entry, and
/// what is not compressed is borrowed; otherwise each is decoded as a whole.
fn scan_native_table<V: EntryVisitor>(
    path: &str,
    table: &[u8],
    selection: NativeSelection,
    paranoid_checks: bool,
    borrows: bool,
    visitor: &mut V,
) -> (r: Result<ScanOutcome, LevelDbError>)
    ensures
        scans(
            *old(visitor),
            table_plan(path@, table@, paranoid_checks, selection@, table_reading(table@, borrows)),
            *final(visitor),
            outcome_view(r),
        ),
{
    let ghost start = *visitor;
    let ghost reading = table_reading(table@, borrows);
    let ghost plan = table_plan(path@, table@, paranoid_checks, selection@, reading);
    let ghost fetch = table_blocks(path@, table@, paranoid_checks);
    let index = match read_native_index_entries_bytes(path, table, paranoid_checks) {
        Ok(index) => index,
        Err(error) => {
            assert(runs(start, plan, empty_outcome(), *visitor, ScanResult::Failed(error@)));
            return Err(error);
        },
    };
    let mut scan = NativeScan::new(index, selection);
    let ghost mut done = open_plan(Seq::empty());
    proof {
        lemma_scan_starts(start, plan, empty_outcome());
    }
    loop
        invariant
            start == *old(visitor),
            reading == table_reading(table@, borrows),
            plan == table_plan(path@, table@, paranoid_checks, selection@, reading),
            fetch == table_blocks(path@, table@, paranoid_checks),
            scan.wf(),
            scan.selection() == selection@,
            scanning(
                start,
                plan,
                empty_outcome(),
                done,
                *visitor,
                scan.outcome(),
                scan.plan(fetch, reading),
            ),
        decreases scan.left().len(),
    {
        let ghost counted = scan.outcome();
        let ghost mid = *visitor;
        let ghost ahead = scan.plan(fetch, reading);
        let (handle, block) = match scan.read_next(path, table, paranoid_checks) {
            Ok(Some(next)) => next,
            other => {
                proof {
                    lemma_scan_ends(start, plan, empty_outcome(), done, mid, counted, ahead);
                }
                return match other {
                    Err(error) => Err(error),
                    Ok(_) => Ok(scan.finish()),
                };
            },
        };
        let ghost selected = select_block(block@, scan.seen(), selection@, reading(handle));
        let ghost later = index_plan(scan.left(), selected.seen, selection@, fetch, reading);
        let progress = if borrows {
            scan.scan_block_ref(&block, visitor)
        } else {
            scan.scan_block(&block.into_bytes(), visitor)
        };
        proof {
            lemma_scan_step(
                start,
                plan,
                empty_outcome(),
                done,
                mid,
                counted,
                selected.plan,
                later,
                *visitor,
                progress_result(progress, scan.outcome()),
            );
            done = plan_then(done, selected.plan);
        }
        match progress {
            Err(error) => return Err(error),
            Ok(ScanProgress::Done) => return Ok(scan.finish()),
            Ok(ScanProgress::More) => {},
        }
    }
}

/// Scans the keys of a table in memory, whose blocks are each decoded as a whole.
fn scan_native_table_keys<V: KeyVisitor>(
    path: &str,
    table: &[u8],
    selection: NativeSelection,
    paranoid_checks: bool,
    visitor: &mut V,
) -> (r: Result<ScanOutcome, LevelDbError>)
    ensures
        scans(
            *old(visitor),
            table_plan(path@, table@, paranoid_checks, selection@, whole_blocks()),
            *final(visitor),
            outcome_view(r),
        ),
{
    let ghost start = *visitor;
    let ghost reading = whole_blocks();
    let ghost plan = table_plan(path@, table@, paranoid_checks, selection@, reading);
    let ghost fetch = table_blocks(path@, table@, paranoid_checks);
    let index = match read_native_index_entries_bytes(path, table, paranoid_checks) {
        Ok(index) => index,
        Err(error) => {
            assert(runs(start, plan, empty_outcome(), *visitor, ScanResult::Failed(error@)));
            return Err(error);
        },
    };
    let mut scan = NativeScan::new(index, selection);
    let ghost mut done = open_plan(Seq::empty());
    proof {
        lemma_scan_starts(start, plan, empty_outcome());
    }
    loop
        invariant
            start == *old(visitor),
            reading == whole_blocks(),
            plan == table_plan(path@, table@, paranoid_checks, selection@, reading),
            fetch == table_blocks(path@, table@, paranoid_checks),
            scan.wf(),
            scan.selection() == selection@,
            scanning(
                start,
                plan,
                empty_outcome(),
                done,
                *visitor,
                scan.outcome(),
                scan.plan(fetch, reading),
            ),
        decreases scan.left().len(),
    {
        let ghost counted = scan.outcome();
        let ghost mid = *visitor;
        let ghost ahead = scan.plan(fetch, reading);
        let (handle, block) = match scan.read_next(path, table, paranoid_checks) {
            Ok(Some(next)) => next,
            other => {
                proof {
                    lemma_scan_ends(start, plan, empty_outcome(), done, mid, counted, ahead);
                }
                return match other {
                    Err(error) => Err(error),
                    Ok(_) => Ok(scan.finish()),
                };
            },
        };
        let ghost selected = select_block(block@, scan.seen(), selection@, reading(handle));
        let ghost later = index_plan(scan.left(), selected.seen, selection@, fetch, reading);
        let progress = scan.scan_block_keys(&block.into_bytes(), visitor);
        proof {
            lemma_scan_step(
                start,
                plan,
                empty_outcome(),
                done,
                mid,
                counted,
                selected.plan,
                later,
                *visitor,
                progress_result(progress, scan.outcome()),
            );
            done = plan_then(done, selected.plan);
        }
        match progress {
            Err(error) => return Err(error),
            Ok(ScanProgress::Done) => return Ok(scan.finish()),
            Ok(ScanProgress::More) => {},
        }
    }
}

/// Shows a visitor the entries of a table.
pub fn for_each_native_table_entry_bytes<V: EntryVisitor>(
    path: &str,
    table_bytes: &[u8],
    paranoid_checks: bool,
    visitor: &mut V,
) -> (r: Result<ScanOutcome, LevelDbError>)
    ensures
        scans(
            *old(visitor),
            table_plan(path@, table_bytes@, paranoid_checks, everything(), whole_blocks()),
            *final(visitor),
            outcome_view(r),
        ),
{
    let selection = NativeSelection::everything();
    scan_native_table(path, table_bytes, selection, paranoid_checks, false, visitor)
}

/// Shows a visitor the keys of a table.
pub fn for_each_native_table_key_bytes<V: KeyVisitor>(
    path: &str,
    table_bytes: &[u8],
    paranoid_checks: bool,
    visitor: &mut V,
) -> (r: Result<ScanOutcome, LevelDbError>)
    ensures
        scans(
            *old(visitor),
            table_plan(path@, table_bytes@, paranoid_checks, everything(), whole_blocks()),
            *final(visitor),
            outcome_view(r),
        ),
{
    let selection = NativeSelection::everything();
    scan_native_table_keys(path, table_bytes, selection, paranoid_checks, visitor)
}

/// Shows a visitor the entries of a table whose keys start with `prefix`. The
/// scan ends at the first key that lies behind the prefix.
pub fn for_each_native_table_prefix_bytes<V: EntryVisitor>(
    path: &str,
    table_bytes: &[u8],
    prefix: &[u8],
    paranoid_checks: bool,
    visitor: &mut V,
) -> (r: Result<ScanOutcome, LevelDbError>)
    ensures
        scans(
            *old(visitor),
            table_plan(
                path@,
                table_bytes@,
                paranoid_checks,
                within_prefix(prefix@),
                whole_blocks(),
            ),
            *final(visitor),
            outcome_view(r),
        ),
{
    let selection = NativeSelection::within_prefix(prefix);
    scan_native_table(path, table_bytes, selection, paranoid_checks, false, visitor)
}

/// Shows a visitor the keys of a table that start with `prefix`. The scan ends
/// at the first key that lies behind the prefix.
pub fn for_each_native_table_prefix_key_bytes<V: KeyVisitor>(
    path: &str,
    table_bytes: &[u8],
    prefix: &[u8],
    paranoid_checks: bool,
    visitor: &mut V,
) -> (r: Result<ScanOutcome, LevelDbError>)
    ensures
        scans(
            *old(visitor),
            table_plan(
                path@,
                table_bytes@,
                paranoid_checks,
                within_prefix(prefix@),
                whole_blocks(),
            ),
            *final(visitor),
            outcome_view(r),
        ),
{
    let selection = NativeSelection::within_prefix(prefix);
    scan_native_table_keys(path, table_bytes, selection, paranoid_checks, visitor)
}

/// Shows a visitor the entries of a table, without copying the values that are
/// not compressed.
pub fn for_each_native_table_entry_ref_bytes<V: EntryVisitor>(
    path: &str,
    table_bytes: &[u8],
    paranoid_checks: bool,
    visitor: &mut V,
) -> (r: Result<ScanOutcome, LevelDbError>)
    ensures
        scans(
            *old(visitor),
            table_plan(
                path@,
                table_bytes@,
                paranoid_checks,
                everything(),
                borrowed_blocks(table_bytes@),
            ),
            *final(visitor),
            outcome_view(r),
        ),
{
    let selection = NativeSelection::everything();
    scan_native_table(path, table_bytes, selection, paranoid_checks, true, visitor)
}

/// Shows a visitor the entries of a table whose keys start with `prefix`,
/// without copying the values that are not compressed.
pub fn for_each_native_table_prefix_ref_bytes<V: EntryVisitor>(
    path: &str,
    table_bytes: &[u8],
    prefix: &[u8],
    paranoid_checks: bool,
    visitor: &mut V,
) -> (r: Result<ScanOutcome, LevelDbError>)
    ensures
        scans(
            *old(visitor),
            table_plan(
                path@,
                table_bytes@,
                paranoid_checks,
                with_prefix(prefix@),
                borrowed_blocks(table_bytes@),
            ),
            *final(visitor),
            outcome_view(r),
        ),
{
    let selection = NativeSelection::with_prefix(prefix);
    scan_native_table(path, table_bytes, selection, paranoid_checks, true, visitor)
}

// ---------------------------------------------------------------------------
// Whole tables.

/// The map that the entries of a scan make, where it gets to its end.
pub open spec fn plan_map(plan: ScanPlan) -> Result<Map<Seq<u8>, Seq<u8>>, ErrorView> {
    match plan.end {
        ScanEnd::Failed(error) => Err(error),
        _ => Ok(inserted(shown_entries(plan.items))),
    }
}

/// The map that a table holds: the first entry with a user key counts, and a
/// deletion hides its key.
pub open spec fn native_contents(path: Seq<char>, table: Seq<u8>, paranoid_checks: bool) -> Result<
    Map<Seq<u8>, Seq<u8>>,
    ErrorView,
> {
    plan_map(table_plan(path, table, paranoid_checks, everything(), whole_blocks()))
}

/// Puts entries into an empty map in turn.
fn into_map(entries: Vec<(Vec<u8>, Bytes)>) -> (r: KeyMap<Bytes>)
    ensures
        r.wf(),
        as_map(entry_pairs(r@)) == inserted(owned_entries(entries@)),
{
    let mut map: KeyMap<Bytes> = KeyMap::new();
    let ghost list = owned_entries(entries@);
    let mut i: usize = 0;
    proof {
        assert(entry_pairs(map@) =~= list.take(0));
        lemma_inserted_sorted(entry_pairs(map@));
    }
    while i < entries.len()
        invariant
            i <= entries@.len(),
            list == owned_entries(entries@),
            map.wf(),
            as_map(entry_pairs(map@)) == inserted(list.take(i as int)),
        decreases entries@.len() - i,
    {
        let ghost before = map@;
        let key = slice_to_vec(entries[i].0.as_slice());
        let value = share(&entries[i].1);
        map.insert(key, value);
        proof {
            let now = list.take(i + 1);
            assert(now.drop_last() =~= list.take(i as int));
            lemma_entry_insert(before, map@, key@, value);
        }
        i = i + 1;
    }
    assert(list.take(i as int) =~= list);
    map
}

/// The mathematical value of a result that holds a map of byte strings.
pub open spec fn map_view(r: Result<KeyMap<Bytes>, LevelDbError>) -> Result<
    Map<Seq<u8>, Seq<u8>>,
    ErrorView,
> {
    match r {
        Ok(map) => Ok(as_map(entry_pairs(map@))),
        Err(error) => Err(error@),
    }
}

/// Reads a table into a map.
pub fn read_native_table(path: &str, bytes: &[u8], paranoid_checks: bool) -> (r: Result<
    KeyMap<Bytes>,
    LevelDbError,
>)
    ensures
        map_view(r) == native_contents(path@, bytes@, paranoid_checks),
        r matches Ok(map) ==> map.wf(),
{
    let mut collector = EntryCollector::new();
    let ghost before = collector;
    let ghost plan = table_plan(path@, bytes@, paranoid_checks, everything(), whole_blocks());
    let selection = NativeSelection::everything();
    let scan = scan_native_table(
        path,
        bytes,
        selection,
        paranoid_checks,
        false,
        &mut collector,
    );
    proof {
        let result = choose|result: ScanResult| #[trigger]
            runs(before, plan, empty_outcome(), collector, result) && outcome_view(scan)
                == table_result(result);
        entry_collector_keeps_what_is_shown(before, plan, empty_outcome(), collector, result);
        assert(collector.kept() =~= shown_entries(plan.items));
    }
    match scan {
        Ok(_) => Ok(into_map(collector.into_entries())),
        Err(error) => Err(error),
    }
}

} // verus!
