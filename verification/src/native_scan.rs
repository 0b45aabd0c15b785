//! Scans of native tables.
//!
//! Of the entries with one user key a scan looks at the first alone: it hides
//! the others, and a deletion hides the key.
use crate::blob::{contents, share, BlockValue, ValueRef};
use crate::block::{
    block_entries, decode_native_block_entries_bytes, decode_native_block_keys_bytes,
    get_block_entry, keys_and_lens, lemma_block_entry_size, native_entries, native_entries_end,
    owned_keys,
};
use crate::collect::owned_entries;
use crate::error::{ErrorView, LevelDbError};
use crate::internal_key::{split, split_internal_key};
use crate::keys::{has_prefix, key_before, key_order, starts_with, Entry, KeyOrder, KeySet};
use crate::native::{block_in_table, handle_at_front, lends, table_index, BlockHandle};
use crate::options::ScanOutcome;
use crate::scan::{
    done_plan, entry_then, failed_plan, lemma_lend_then, lemma_scan_ends, lemma_scan_starts,
    lemma_scan_step, lend, open_plan, plan_then, progress_result, runs, scanning, show_entry,
    show_key, showing, EntryList, EntryVisitor, KeyVisitor, ScanEnd, ScanItem, ScanPlan,
    ScanProgress,
};
use bytes::Bytes;
use vstd::prelude::*;
use vstd::slice::{slice_subrange, slice_to_vec};

verus! {

// ---------------------------------------------------------------------------
// What a scan shows.

/// Which entries a scan shows.
#[verifier::ext_equal]
pub struct Selection {
    /// Only keys that start with this are shown.
    pub prefix: Seq<u8>,
    /// Whether blocks whose largest key comes before the prefix are passed over.
    pub skips_blocks: bool,
    /// Whether the scan ends at the first key that lies behind the prefix.
    pub ends_behind: bool,
}

/// What a scan does about an entry.
#[verifier::ext_equal]
pub enum Step {
    /// It passes the entry over.
    Skip,
    /// It shows the entry under this user key.
    Show(Seq<u8>),
    /// It ends.
    Finish,
}

/// What a scan that has seen the user keys `seen` does about the entry with an
/// internal key.
pub open spec fn step_of(internal_key: Seq<u8>, seen: Set<Seq<u8>>, selection: Selection) -> Step {
    match split(internal_key) {
        None => Step::Skip,
        Some((user_key, is_value)) => if seen.contains(user_key) {
            Step::Skip
        } else if has_prefix(user_key, selection.prefix) {
            if is_value {
                Step::Show(user_key)
            } else {
                Step::Skip
            }
        } else if selection.ends_behind && key_before(selection.prefix, user_key) {
            Step::Finish
        } else {
            Step::Skip
        },
    }
}

/// The user keys seen after the entry with an internal key.
pub open spec fn seen_after(internal_key: Seq<u8>, seen: Set<Seq<u8>>) -> Set<Seq<u8>> {
    match split(internal_key) {
        None => seen,
        Some((user_key, _)) => seen.insert(user_key),
    }
}

/// What a scan shows of some entries, and the user keys it has seen then.
#[verifier::ext_equal]
pub struct Selected {
    pub plan: ScanPlan,
    pub seen: Set<Seq<u8>>,
}

/// `rest` behind one more entry.
pub open spec fn shown_then(user_key: Seq<u8>, value: Seq<u8>, rest: Selected) -> Selected {
    Selected {
        plan: ScanPlan {
            items: seq![ScanItem { key: user_key, value, shown: true, borrowed: false }]
                + rest.plan.items,
            end: rest.plan.end,
        },
        seen: rest.seen,
    }
}

/// What a scan shows of entries, in their order.
pub open spec fn select_entries(
    entries: Seq<Entry>,
    error: Option<ErrorView>,
    seen: Set<Seq<u8>>,
    selection: Selection,
) -> Selected
    decreases entries.len(),
{
    if entries.len() == 0 {
        Selected {
            plan: ScanPlan {
                items: Seq::empty(),
                end: match error {
                    Some(error) => ScanEnd::Failed(error),
                    None => ScanEnd::More,
                },
            },
            seen,
        }
    } else {
        let now = seen_after(entries[0].0, seen);
        let rest = entries.skip(1);
        match step_of(entries[0].0, seen, selection) {
            Step::Skip => select_entries(rest, error, now, selection),
            Step::Show(user_key) => shown_then(
                user_key,
                entries[0].1,
                select_entries(rest, error, now, selection),
            ),
            Step::Finish => Selected { plan: done_plan(), seen: now },
        }
    }
}

/// What a scan that reads a list entry by entry shows of it: an entry that
/// cannot be read fails the scan when it gets there.
pub open spec fn select_lazily(
    list: EntryList,
    seen: Set<Seq<u8>>,
    selection: Selection,
) -> Selected {
    select_entries(list.entries, list.error, seen, selection)
}

/// What a scan that reads a whole list first shows of it: an entry that cannot
/// be read fails the scan before it shows any.
pub open spec fn select_eagerly(
    list: EntryList,
    seen: Set<Seq<u8>>,
    selection: Selection,
) -> Selected {
    match list.error {
        Some(error) => Selected { plan: failed_plan(error), seen },
        None => select_entries(list.entries, None, seen, selection),
    }
}

/// How a scan reads a block.
#[verifier::ext_equal]
pub enum Reading {
    /// It decodes the whole block first, and hands out copies of values.
    Whole,
    /// It reads entry by entry; values are borrowed from the table or are not.
    Entries { borrowed: bool },
}

/// What a scan shows of a block.
pub open spec fn select_block(
    block: Seq<u8>,
    seen: Set<Seq<u8>>,
    selection: Selection,
    reading: Reading,
) -> Selected {
    match reading {
        Reading::Whole => select_eagerly(native_entries(block), seen, selection),
        Reading::Entries { borrowed } => {
            let selected = select_lazily(native_entries(block), seen, selection);
            Selected { plan: lend(selected.plan, borrowed), seen: selected.seen }
        },
    }
}

/// Whether a scan looks into the block under an index key.
pub open spec fn wants_block(index_key: Seq<u8>, selection: Selection) -> bool {
    selection.skips_blocks ==> match split(index_key) {
        None => false,
        Some((largest, _)) => !key_before(largest, selection.prefix),
    }
}

/// Gives the decompressed block of a handle.
pub type Fetch = spec_fn(BlockHandle) -> Result<Seq<u8>, ErrorView>;

/// Says how a scan reads the block of a handle.
pub type ReadingOf = spec_fn(BlockHandle) -> Reading;

/// Reads every block as a whole.
pub open spec fn whole_blocks() -> ReadingOf {
    |handle: BlockHandle| Reading::Whole
}

/// Reads blocks entry by entry, and borrows from a table what is not compressed
/// there.
pub open spec fn borrowed_blocks(table: Seq<u8>) -> ReadingOf {
    |handle: BlockHandle| Reading::Entries { borrowed: lends(table, handle) }
}

/// What a scan shows of the blocks of an index.
pub open spec fn index_plan(
    index: Seq<Entry>,
    seen: Set<Seq<u8>>,
    selection: Selection,
    fetch: Fetch,
    reading: ReadingOf,
) -> ScanPlan
    decreases index.len(), 0int,
{
    if index.len() == 0 {
        done_plan()
    } else if !wants_block(index[0].0, selection) {
        index_plan(index.skip(1), seen, selection, fetch, reading)
    } else {
        match handle_at_front(index[0].1) {
            Err(error) => failed_plan(error),
            Ok((handle, _)) => fetched_plan(
                handle,
                index.skip(1),
                seen,
                selection,
                fetch,
                reading,
            ),
        }
    }
}

/// What a scan shows of the block of a handle and of the blocks behind it.
pub open spec fn fetched_plan(
    handle: BlockHandle,
    index: Seq<Entry>,
    seen: Set<Seq<u8>>,
    selection: Selection,
    fetch: Fetch,
    reading: ReadingOf,
) -> ScanPlan
    decreases index.len(), 1int,
{
    match fetch(handle) {
        Err(error) => failed_plan(error),
        Ok(block) => {
            let selected = select_block(block, seen, selection, reading(handle));
            plan_then(
                selected.plan,
                index_plan(index, selected.seen, selection, fetch, reading),
            )
        },
    }
}

/// The blocks of a table.
pub open spec fn table_blocks(path: Seq<char>, table: Seq<u8>, paranoid_checks: bool) -> Fetch {
    |handle: BlockHandle| block_in_table(path, table, handle, paranoid_checks)
}

/// What a scan shows of a table.
pub open spec fn table_plan(
    path: Seq<char>,
    table: Seq<u8>,
    paranoid_checks: bool,
    selection: Selection,
    reading: ReadingOf,
) -> ScanPlan {
    match table_index(path, table, paranoid_checks) {
        Err(error) => failed_plan(error),
        Ok(index) => index_plan(
            index,
            Set::empty(),
            selection,
            table_blocks(path, table, paranoid_checks),
            reading,
        ),
    }
}

/// Shows every entry.
pub open spec fn everything() -> Selection {
    Selection { prefix: Seq::empty(), skips_blocks: false, ends_behind: false }
}

/// Shows the entries whose keys start with `prefix`, and reads every block from
/// the first that may hold one.
pub open spec fn with_prefix(prefix: Seq<u8>) -> Selection {
    Selection { prefix, skips_blocks: true, ends_behind: false }
}

/// Shows the entries whose keys start with `prefix`, and stops reading behind
/// them.
pub open spec fn within_prefix(prefix: Seq<u8>) -> Selection {
    Selection { prefix, skips_blocks: true, ends_behind: true }
}

/// What a scan shows of one entry.
pub open spec fn step_plan(
    internal_key: Seq<u8>,
    value: Seq<u8>,
    borrowed: bool,
    seen: Set<Seq<u8>>,
    selection: Selection,
) -> ScanPlan {
    match step_of(internal_key, seen, selection) {
        Step::Skip => open_plan(Seq::empty()),
        Step::Show(user_key) => showing(user_key, value, borrowed),
        Step::Finish => done_plan(),
    }
}

/// What a scan shows of a list starts with what it shows of the first entry.
proof fn lemma_select_step(
    key: Seq<u8>,
    value: Seq<u8>,
    rest: EntryList,
    borrowed: bool,
    seen: Set<Seq<u8>>,
    selection: Selection,
)
    ensures
        ({
            let whole = select_lazily(entry_then(key, value, rest), seen, selection);
            let later = select_lazily(rest, seen_after(key, seen), selection);
            let first = step_plan(key, value, false, seen, selection);
            let lent = step_plan(key, value, borrowed, seen, selection);
            &&& whole.plan == plan_then(first, later.plan)
            &&& lend(whole.plan, borrowed) == plan_then(lent, lend(later.plan, borrowed))
            &&& first.end is More ==> whole.seen == later.seen
        }),
{
    let list = entry_then(key, value, rest);
    let whole = select_lazily(list, seen, selection);
    let later = select_lazily(rest, seen_after(key, seen), selection);
    let first = step_plan(key, value, false, seen, selection);
    assert(list.entries[0] == (key, value));
    assert(list.entries.skip(1) =~= rest.entries);
    assert(whole.plan =~= plan_then(first, later.plan));
    lemma_lend_then(first, later.plan, borrowed);
    assert(lend(first, borrowed).items =~= step_plan(key, value, borrowed, seen, selection).items);
}

// ---------------------------------------------------------------------------
// Carrying a scan out.

/// The entries of a list from the one at `i` on.
spec fn left_at(entries: Seq<Entry>, i: int) -> EntryList {
    EntryList { entries: entries.skip(i), error: None }
}

proof fn lemma_left_at(entries: Seq<Entry>, i: int)
    requires
        0 <= i < entries.len(),
    ensures
        left_at(entries, i) == entry_then(entries[i].0, entries[i].1, left_at(entries, i + 1)),
{
    assert(left_at(entries, i).entries =~= entry_then(
        entries[i].0,
        entries[i].1,
        left_at(entries, i + 1),
    ).entries);
}

/// How a block is read entry by entry: values are borrowed from a borrowed
/// block.
pub open spec fn read_by_entry(block: BlockValue<'_>) -> Reading {
    Reading::Entries { borrowed: block is Borrowed }
}

/// Which entries a scan shows.
#[derive(Debug)]
pub struct NativeSelection {
    prefix: Vec<u8>,
    skips_blocks: bool,
    ends_behind: bool,
}

impl View for NativeSelection {
    type V = Selection;

    closed spec fn view(&self) -> Selection {
        Selection {
            prefix: self.prefix@,
            skips_blocks: self.skips_blocks,
            ends_behind: self.ends_behind,
        }
    }
}

impl NativeSelection {
    /// Shows every entry.
    pub fn everything() -> (r: NativeSelection)
        ensures
            r@ == everything(),
    {
        let r = NativeSelection { prefix: Vec::new(), skips_blocks: false, ends_behind: false };
        assert(r@.prefix =~= Seq::<u8>::empty());
        r
    }

    /// Shows the entries whose keys start with `prefix`, and reads every block
    /// from the first that may hold one.
    pub fn with_prefix(prefix: &[u8]) -> (r: NativeSelection)
        ensures
            r@ == with_prefix(prefix@),
    {
        NativeSelection { prefix: slice_to_vec(prefix), skips_blocks: true, ends_behind: false }
    }

    /// Shows the entries whose keys start with `prefix`, and stops reading
    /// behind them.
    pub fn within_prefix(prefix: &[u8]) -> (r: NativeSelection)
        ensures
            r@ == within_prefix(prefix@),
    {
        NativeSelection { prefix: slice_to_vec(prefix), skips_blocks: true, ends_behind: true }
    }

    /// Finds whether a scan looks into the block under an index key.
    pub fn wants(&self, index_key: &[u8]) -> (r: bool)
        ensures
            r == wants_block(index_key@, self@),
    {
        if !self.skips_blocks {
            return true;
        }
        match split_internal_key(index_key) {
            None => false,
            Some((largest, _)) => match key_order(largest, self.prefix.as_slice()) {
                KeyOrder::Before => false,
                _ => true,
            },
        }
    }
}

/// What a scan does about an entry.
enum NativeStep<'a> {
    Skip,
    Show(&'a [u8]),
    Finish,
}

fn native_step<'a>(internal_key: &'a [u8], seen: &mut KeySet, selection: &NativeSelection) -> (r:
    NativeStep<'a>)
    requires
        old(seen).wf(),
    ensures
        final(seen).wf(),
        final(seen)@ == seen_after(internal_key@, old(seen)@),
        match r {
            NativeStep::Skip => step_of(internal_key@, old(seen)@, selection@) is Skip,
            NativeStep::Show(user_key) => step_of(internal_key@, old(seen)@, selection@)
                == Step::Show(user_key@),
            NativeStep::Finish => step_of(internal_key@, old(seen)@, selection@) is Finish,
        },
{
    let (user_key, is_value) = match split_internal_key(internal_key) {
        None => return NativeStep::Skip,
        Some(parts) => parts,
    };
    if !seen.insert(slice_to_vec(user_key)) {
        return NativeStep::Skip;
    }
    let prefix = selection.prefix.as_slice();
    if starts_with(user_key, prefix) {
        if is_value {
            return NativeStep::Show(user_key);
        }
        return NativeStep::Skip;
    }
    if selection.ends_behind {
        if let KeyOrder::After = key_order(user_key, prefix) {
            return NativeStep::Finish;
        }
    }
    NativeStep::Skip
}

/// Scans one entry.
fn scan_entry<V: EntryVisitor>(
    internal_key: &[u8],
    value: ValueRef<'_>,
    selection: &NativeSelection,
    seen: &mut KeySet,
    outcome: &mut ScanOutcome,
    visitor: &mut V,
) -> (r: Result<ScanProgress, LevelDbError>)
    requires
        old(seen).wf(),
    ensures
        final(seen).wf(),
        final(seen)@ == seen_after(internal_key@, old(seen)@),
        runs(
            *old(visitor),
            step_plan(internal_key@, value@, value is Borrowed, old(seen)@, selection@),
            *old(outcome),
            *final(visitor),
            progress_result(r, *final(outcome)),
        ),
{
    match native_step(internal_key, seen, selection) {
        NativeStep::Skip => Ok(ScanProgress::More),
        NativeStep::Show(user_key) => show_entry(user_key, value, outcome, visitor),
        NativeStep::Finish => Ok(ScanProgress::Done),
    }
}

/// Scans the key of one entry whose value has `value_len` bytes.
fn scan_key<V: KeyVisitor>(
    internal_key: &[u8],
    value_len: usize,
    selection: &NativeSelection,
    seen: &mut KeySet,
    outcome: &mut ScanOutcome,
    visitor: &mut V,
) -> (r: Result<ScanProgress, LevelDbError>)
    requires
        old(seen).wf(),
    ensures
        final(seen).wf(),
        final(seen)@ == seen_after(internal_key@, old(seen)@),
        forall|value: Seq<u8>, borrowed: bool|
            #![trigger step_plan(internal_key@, value, borrowed, old(seen)@, selection@)]
            value.len() == value_len ==> runs(
                *old(visitor),
                step_plan(internal_key@, value, borrowed, old(seen)@, selection@),
                *old(outcome),
                *final(visitor),
                progress_result(r, *final(outcome)),
            ),
{
    match native_step(internal_key, seen, selection) {
        NativeStep::Skip => Ok(ScanProgress::More),
        NativeStep::Show(user_key) => show_key(user_key, value_len, outcome, visitor),
        NativeStep::Finish => Ok(ScanProgress::Done),
    }
}

/// Scans a block whose entries are all decoded first.
pub fn visit_native_block<V: EntryVisitor>(
    block: &Bytes,
    selection: &NativeSelection,
    seen: &mut KeySet,
    outcome: &mut ScanOutcome,
    visitor: &mut V,
) -> (r: Result<ScanProgress, LevelDbError>)
    requires
        old(seen).wf(),
    ensures
        final(seen).wf(),
        runs(
            *old(visitor),
            select_block(contents(*block), old(seen)@, selection@, Reading::Whole).plan,
            *old(outcome),
            *final(visitor),
            progress_result(r, *final(outcome)),
        ),
        r == Ok::<ScanProgress, LevelDbError>(ScanProgress::More) ==> final(seen)@ == select_block(
            contents(*block),
            old(seen)@,
            selection@,
            Reading::Whole,
        ).seen,
{
    let ghost start = *visitor;
    let ghost at_start = *outcome;
    let ghost whole = select_block(contents(*block), seen@, selection@, Reading::Whole);
    let entries = match decode_native_block_entries_bytes(block) {
        Ok(entries) => entries,
        Err(error) => return Err(error),
    };
    let ghost list = owned_entries(entries@);
    let ghost mut done = open_plan(Seq::empty());
    let mut i: usize = 0;
    proof {
        assert(list.skip(0) =~= list);
        lemma_scan_starts(start, whole.plan, at_start);
    }
    while i < entries.len()
        invariant
            i <= entries@.len(),
            start == *old(visitor),
            at_start == *old(outcome),
            list == owned_entries(entries@),
            whole == select_block(contents(*block), old(seen)@, selection@, Reading::Whole),
            seen.wf(),
            whole.seen == select_lazily(left_at(list, i as int), seen@, selection@).seen,
            scanning(
                start,
                whole.plan,
                at_start,
                done,
                *visitor,
                *outcome,
                select_lazily(left_at(list, i as int), seen@, selection@).plan,
            ),
        decreases entries@.len() - i,
    {
        let ghost before = seen@;
        let ghost mid = *visitor;
        let ghost counted = *outcome;
        let ghost (key, value) = list[i as int];
        let ghost step = step_plan(key, value, false, before, selection@);
        proof {
            lemma_left_at(list, i as int);
            lemma_select_step(key, value, left_at(list, i + 1), false, before, selection@);
        }
        let shared = ValueRef::Shared(share(&entries[i].1));
        let internal_key = entries[i].0.as_slice();
        let progress = scan_entry(internal_key, shared, selection, seen, outcome, visitor);
        proof {
            lemma_scan_step(
                start,
                whole.plan,
                at_start,
                done,
                mid,
                counted,
                step,
                select_lazily(left_at(list, i + 1), seen@, selection@).plan,
                *visitor,
                progress_result(progress, *outcome),
            );
        }
        match progress {
            Ok(ScanProgress::More) => {
                proof {
                    done = plan_then(done, step);
                }
            },
            _ => return progress,
        }
        i = i + 1;
    }
    proof {
        let ahead = select_lazily(left_at(list, i as int), seen@, selection@).plan;
        lemma_scan_ends(start, whole.plan, at_start, done, *visitor, *outcome, ahead);
    }
    Ok(ScanProgress::More)
}

/// Scans the keys of a block, all of which are decoded first.
pub fn visit_native_block_keys<V: KeyVisitor>(
    block: &Bytes,
    selection: &NativeSelection,
    seen: &mut KeySet,
    outcome: &mut ScanOutcome,
    visitor: &mut V,
) -> (r: Result<ScanProgress, LevelDbError>)
    requires
        old(seen).wf(),
    ensures
        final(seen).wf(),
        runs(
            *old(visitor),
            select_block(contents(*block), old(seen)@, selection@, Reading::Whole).plan,
            *old(outcome),
            *final(visitor),
            progress_result(r, *final(outcome)),
        ),
        r == Ok::<ScanProgress, LevelDbError>(ScanProgress::More) ==> final(seen)@ == select_block(
            contents(*block),
            old(seen)@,
            selection@,
            Reading::Whole,
        ).seen,
{
    let ghost start = *visitor;
    let ghost at_start = *outcome;
    let ghost whole = select_block(contents(*block), seen@, selection@, Reading::Whole);
    let entries = match decode_native_block_keys_bytes(block) {
        Ok(entries) => entries,
        Err(error) => return Err(error),
    };
    let ghost list = native_entries(contents(*block)).entries;
    let ghost mut done = open_plan(Seq::empty());
    let mut i: usize = 0;
    proof {
        assert(list.skip(0) =~= list);
        assert(owned_keys(entries@).len() == keys_and_lens(list).len());
        lemma_scan_starts(start, whole.plan, at_start);
    }
    while i < entries.len()
        invariant
            i <= entries@.len(),
            start == *old(visitor),
            at_start == *old(outcome),
            entries@.len() == list.len(),
            owned_keys(entries@) == keys_and_lens(list),
            whole == select_block(contents(*block), old(seen)@, selection@, Reading::Whole),
            seen.wf(),
            whole.seen == select_lazily(left_at(list, i as int), seen@, selection@).seen,
            scanning(
                start,
                whole.plan,
                at_start,
                done,
                *visitor,
                *outcome,
                select_lazily(left_at(list, i as int), seen@, selection@).plan,
            ),
        decreases entries@.len() - i,
    {
        let ghost before = seen@;
        let ghost mid = *visitor;
        let ghost counted = *outcome;
        let ghost (key, value) = list[i as int];
        let ghost step = step_plan(key, value, false, before, selection@);
        proof {
            lemma_left_at(list, i as int);
            lemma_select_step(key, value, left_at(list, i + 1), false, before, selection@);
            assert(owned_keys(entries@)[i as int] == keys_and_lens(list)[i as int]);
        }
        let value_len: usize = entries[i].1;
        let internal_key = entries[i].0.as_slice();
        let progress = scan_key(internal_key, value_len, selection, seen, outcome, visitor);
        proof {
            lemma_scan_step(
                start,
                whole.plan,
                at_start,
                done,
                mid,
                counted,
                step,
                select_lazily(left_at(list, i + 1), seen@, selection@).plan,
                *visitor,
                progress_result(progress, *outcome),
            );
        }
        match progress {
            Ok(ScanProgress::More) => {
                proof {
                    done = plan_then(done, step);
                }
            },
            _ => return progress,
        }
        i = i + 1;
    }
    proof {
        let ahead = select_lazily(left_at(list, i as int), seen@, selection@).plan;
        lemma_scan_ends(start, whole.plan, at_start, done, *visitor, *outcome, ahead);
    }
    Ok(ScanProgress::More)
}

/// Scans a block entry by entry. Values are borrowed from a borrowed block.
pub fn visit_native_block_ref<V: EntryVisitor>(
    block: &BlockValue<'_>,
    selection: &NativeSelection,
    seen: &mut KeySet,
    outcome: &mut ScanOutcome,
    visitor: &mut V,
) -> (r: Result<ScanProgress, LevelDbError>)
    requires
        old(seen).wf(),
    ensures
        final(seen).wf(),
        runs(
            *old(visitor),
            select_block(block@, old(seen)@, selection@, read_by_entry(*block)).plan,
            *old(outcome),
            *final(visitor),
            progress_result(r, *final(outcome)),
        ),
        r == Ok::<ScanProgress, LevelDbError>(ScanProgress::More) ==> final(seen)@ == select_block(
            block@,
            old(seen)@,
            selection@,
            read_by_entry(*block),
        ).seen,
{
    let ghost start = *visitor;
    let ghost at_start = *outcome;
    let ghost borrowed = *block is Borrowed;
    let ghost whole = select_block(block@, seen@, selection@, read_by_entry(*block));
    let bytes = block.as_bytes();
    let end: usize = match native_entries_end(bytes) {
        Ok(end) => end,
        Err(error) => return Err(error),
    };
    let body = slice_subrange(bytes, 0, end);
    let mut input = body;
    let mut key: Vec<u8> = Vec::new();
    let ghost mut done = open_plan(Seq::empty());
    proof {
        assert(key@ =~= Seq::<u8>::empty());
        assert(body@ =~= bytes@.take(end as int));
        lemma_scan_starts(start, whole.plan, at_start);
    }
    while !input.is_empty()
        invariant
            start == *old(visitor),
            at_start == *old(outcome),
            borrowed == (*block is Borrowed),
            bytes@ == block@,
            end <= bytes@.len(),
            body@ == bytes@.take(end as int),
            input@.len() <= end,
            input@ == body@.skip(end - input@.len()),
            whole == select_block(block@, old(seen)@, selection@, read_by_entry(*block)),
            seen.wf(),
            whole.seen == select_lazily(block_entries(input@, key@), seen@, selection@).seen,
            scanning(
                start,
                whole.plan,
                at_start,
                done,
                *visitor,
                *outcome,
                lend(
                    select_lazily(block_entries(input@, key@), seen@, selection@).plan,
                    borrowed,
                ),
            ),
        decreases input@.len(),
    {
        let ghost before = seen@;
        let ghost mid = *visitor;
        let ghost counted = *outcome;
        let ghost ahead = select_lazily(block_entries(input@, key@), seen@, selection@).plan;
        proof {
            lemma_block_entry_size(input@, key@);
        }
        let value = match get_block_entry(&mut input, &mut key) {
            Ok(value) => value,
            Err(error) => {
                proof {
                    lemma_scan_ends(
                        start,
                        whole.plan,
                        at_start,
                        done,
                        mid,
                        counted,
                        lend(ahead, borrowed),
                    );
                }
                return Err(error);
            },
        };
        let value_len: usize = value.len();
        let value_end: usize = end - input.len();
        let ghost rest = block_entries(input@, key@);
        let ghost step = step_plan(key@, value@, borrowed, before, selection@);
        proof {
            lemma_select_step(key@, value@, rest, borrowed, before, selection@);
            assert(input@ =~= body@.skip(end - input@.len()));
            assert(value@ =~= bytes@.subrange(value_end - value_len, value_end as int));
        }
        let value_ref = match block.value_ref(value_end - value_len, value_len) {
            Ok(value_ref) => value_ref,
            Err(error) => {
                assert(false);
                return Err(error);
            },
        };
        let progress = scan_entry(key.as_slice(), value_ref, selection, seen, outcome, visitor);
        proof {
            lemma_scan_step(
                start,
                whole.plan,
                at_start,
                done,
                mid,
                counted,
                step,
                lend(select_lazily(rest, seen@, selection@).plan, borrowed),
                *visitor,
                progress_result(progress, *outcome),
            );
        }
        match progress {
            Ok(ScanProgress::More) => {
                proof {
                    done = plan_then(done, step);
                }
            },
            _ => return progress,
        }
    }
    proof {
        let ahead = select_lazily(block_entries(input@, key@), seen@, selection@).plan;
        lemma_scan_ends(
            start,
            whole.plan,
            at_start,
            done,
            *visitor,
            *outcome,
            lend(ahead, borrowed),
        );
    }
    Ok(ScanProgress::More)
}

} // verus!
