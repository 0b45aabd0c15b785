//! What holds of native tables as a whole.
//!
//! A table stands for the entries of its blocks, one after the other. Of the
//! entries with one user key the first is visible.
use crate::block::{native_entries, whole_list};
use crate::collect::shown_entries;
use crate::error::ErrorView;
use crate::internal_key::split;
use crate::keys::{has_prefix, inserted, key_before, key_order_total, key_order_transitive, Entry};
use crate::native::{block_in_table, handle_at_front, table_index, BlockHandle};
use crate::native_scan::{
    borrowed_blocks, everything, fetched_plan, index_plan, seen_after, select_block, select_entries,
    step_of, table_blocks, table_plan, wants_block, whole_blocks, with_prefix, within_prefix, Fetch,
    Reading, ReadingOf, Selected, Selection, Step,
};
use crate::native_table::{native_contents, next_block, plan_map, NextBlock};
use crate::scan::{
    done_plan, lemma_lend_then, lend, lent_items, plan_then, ScanEnd, ScanItem, ScanPlan,
};
use vstd::prelude::*;

verus! {

// ---------------------------------------------------------------------------
// The entries of a table.

/// The entries of the block that an index entry points at.
pub open spec fn block_of(entry: Entry, fetch: Fetch) -> Result<Seq<Entry>, ErrorView> {
    match handle_at_front(entry.1) {
        Err(error) => Err(error),
        Ok((handle, _)) => match fetch(handle) {
            Err(error) => Err(error),
            Ok(block) => whole_list(native_entries(block)),
        },
    }
}

/// Whether every block of a table can be read.
pub open spec fn readable(index: Seq<Entry>, fetch: Fetch) -> bool {
    forall|i: int| 0 <= i < index.len() ==> block_of(#[trigger] index[i], fetch) is Ok
}

/// The entries of a table, block after block.
pub open spec fn all_entries(index: Seq<Entry>, fetch: Fetch) -> Seq<Entry>
    decreases index.len(),
{
    if index.len() == 0 {
        Seq::empty()
    } else {
        block_of(index[0], fetch)->Ok_0 + all_entries(index.skip(1), fetch)
    }
}

/// The value that is visible under a user key: that of the first entry with the
/// key, unless it is a deletion.
pub open spec fn visible(entries: Seq<Entry>, key: Seq<u8>) -> Option<Seq<u8>>
    decreases entries.len(),
{
    if entries.len() == 0 {
        None
    } else {
        match split(entries[0].0) {
            Some((user_key, is_value)) => if user_key != key {
                visible(entries.skip(1), key)
            } else if is_value {
                Some(entries[0].1)
            } else {
                None
            },
            None => visible(entries.skip(1), key),
        }
    }
}

/// What a map holds under a key.
pub open spec fn map_get(map: Map<Seq<u8>, Seq<u8>>, key: Seq<u8>) -> Option<Seq<u8>> {
    if map.contains_key(key) {
        Some(map[key])
    } else {
        None
    }
}

/// What a scan shows of entries that can all be read.
pub open spec fn selected(entries: Seq<Entry>, seen: Set<Seq<u8>>, selection: Selection) -> Selected {
    select_entries(entries, None, seen, selection)
}

/// Scanning entries and then more entries is scanning both in turn.
proof fn lemma_select_concat(
    front: Seq<Entry>,
    back: Seq<Entry>,
    seen: Set<Seq<u8>>,
    selection: Selection,
)
    ensures
        ({
            let first = selected(front, seen, selection);
            let whole = selected(front + back, seen, selection);
            if first.plan.end is More {
                let second = selected(back, first.seen, selection);
                whole.plan == plan_then(first.plan, second.plan) && whole.seen == second.seen
            } else {
                whole == first
            }
        }),
    decreases front.len(),
{
    let whole = front + back;
    if front.len() == 0 {
        assert(whole =~= back);
        let second = selected(back, seen, selection);
        assert(plan_then(selected(front, seen, selection).plan, second.plan).items
            =~= second.plan.items);
    } else {
        let now = seen_after(front[0].0, seen);
        assert(whole[0] == front[0]);
        assert(whole.skip(1) =~= front.skip(1) + back);
        lemma_select_concat(front.skip(1), back, now, selection);
        if let Step::Show(user_key) = step_of(front[0].0, seen, selection) {
            let first = selected(front.skip(1), now, selection);
            let item = ScanItem { key: user_key, value: front[0].1, shown: true, borrowed: false };
            if first.plan.end is More {
                let second = selected(back, first.seen, selection);
                assert((seq![item] + first.plan.items) + second.plan.items =~= seq![item] + (
                first.plan.items + second.plan.items));
            }
        }
    }
}

/// A scan of entries that can be read ends open, unless it may end behind its
/// prefix.
proof fn lemma_select_end(entries: Seq<Entry>, seen: Set<Seq<u8>>, selection: Selection)
    ensures
        selected(entries, seen, selection).plan.end is More || (selection.ends_behind && selected(
            entries,
            seen,
            selection,
        ).plan.end is Done),
    decreases entries.len(),
{
    if entries.len() > 0 {
        lemma_select_end(entries.skip(1), seen_after(entries[0].0, seen), selection);
    }
}

/// A plan, as it is carried out where a block is read in this way.
pub open spec fn lent_by(plan: ScanPlan, reading: Reading) -> ScanPlan {
    match reading {
        Reading::Whole => plan,
        Reading::Entries { borrowed } => lend(plan, borrowed),
    }
}

/// The block of an index entry, whichever way it is read.
proof fn lemma_block_selected(
    entry: Entry,
    fetch: Fetch,
    rest: Seq<Entry>,
    seen: Set<Seq<u8>>,
    selection: Selection,
    reading: ReadingOf,
)
    requires
        block_of(entry, fetch) is Ok,
    ensures
        handle_at_front(entry.1) is Ok,
        ({
            let handle = handle_at_front(entry.1)->Ok_0.0;
            let block = selected(block_of(entry, fetch)->Ok_0, seen, selection);
            fetched_plan(handle, rest, seen, selection, fetch, reading) == plan_then(
                lent_by(block.plan, reading(handle)),
                index_plan(rest, block.seen, selection, fetch, reading),
            )
        }),
{
}

/// The blocks behind the first can be read too.
proof fn lemma_readable_rest(index: Seq<Entry>, fetch: Fetch)
    requires
        index.len() > 0,
        readable(index, fetch),
    ensures
        readable(index.skip(1), fetch),
        block_of(index[0], fetch) is Ok,
{
    let rest = index.skip(1);
    assert forall|i: int| 0 <= i < rest.len() implies block_of(#[trigger] rest[i], fetch)
        is Ok by {
        assert(rest[i] == index[i + 1]);
    }
}

/// A scan of everything shows what a scan of all entries in a row shows.
pub proof fn full_scan_shows_all_entries(index: Seq<Entry>, seen: Set<Seq<u8>>, fetch: Fetch)
    requires
        readable(index, fetch),
    ensures
        index_plan(index, seen, everything(), fetch, whole_blocks()) == (ScanPlan {
            items: selected(all_entries(index, fetch), seen, everything()).plan.items,
            end: ScanEnd::Done,
        }),
    decreases index.len(),
{
    if index.len() == 0 {
        assert(index_plan(index, seen, everything(), fetch, whole_blocks()) == done_plan());
    } else {
        let rest = index.skip(1);
        let block = block_of(index[0], fetch)->Ok_0;
        let first = selected(block, seen, everything());
        lemma_readable_rest(index, fetch);
        lemma_select_end(block, seen, everything());
        lemma_select_concat(block, all_entries(rest, fetch), seen, everything());
        lemma_block_selected(index[0], fetch, rest, seen, everything(), whole_blocks());
        full_scan_shows_all_entries(rest, first.seen, fetch);
    }
}

// ---------------------------------------------------------------------------
// Borrowed values.

/// Whether every block of a table is read in the same way.
pub open spec fn read_alike(index: Seq<Entry>, reading: ReadingOf, way: Reading) -> bool {
    forall|i: int|
        0 <= i < index.len() ==> (handle_at_front((#[trigger] index[i]).1) matches Ok((handle, _))
            ==> reading(handle) == way)
}

/// Entries that are decoded as a whole are not borrowed.
proof fn lemma_selected_unlent(entries: Seq<Entry>, seen: Set<Seq<u8>>, selection: Selection)
    ensures
        lend(selected(entries, seen, selection).plan, false) == selected(
            entries,
            seen,
            selection,
        ).plan,
    decreases entries.len(),
{
    let whole = selected(entries, seen, selection).plan;
    if entries.len() > 0 {
        let now = seen_after(entries[0].0, seen);
        let rest = selected(entries.skip(1), now, selection).plan;
        lemma_selected_unlent(entries.skip(1), now, selection);
        assert forall|i: int| 0 <= i < whole.items.len() implies !(
        #[trigger] whole.items[i]).borrowed by {
            if step_of(entries[0].0, seen, selection) is Show {
                if i > 0 {
                    assert(whole.items[i] == rest.items[i - 1]);
                    assert(lend(rest, false).items[i - 1] == rest.items[i - 1]);
                }
            } else {
                assert(lend(rest, false).items[i] == rest.items[i]);
            }
        }
    }
    assert(lend(whole, false).items =~= whole.items);
}

/// A scan that reads entry by entry shows what one that decodes whole blocks
/// shows: only that its values may be borrowed tells them apart. Where it reads
/// every block in the same way, all values are borrowed or none is.
pub proof fn borrowing_changes_no_entry(
    index: Seq<Entry>,
    seen: Set<Seq<u8>>,
    selection: Selection,
    fetch: Fetch,
    reading: ReadingOf,
    borrowed: bool,
)
    requires
        readable(index, fetch),
    ensures
        lend(index_plan(index, seen, selection, fetch, reading), false) == index_plan(
            index,
            seen,
            selection,
            fetch,
            whole_blocks(),
        ),
        read_alike(index, reading, Reading::Entries { borrowed }) ==> index_plan(
            index,
            seen,
            selection,
            fetch,
            reading,
        ) == lend(index_plan(index, seen, selection, fetch, whole_blocks()), borrowed),
    decreases index.len(),
{
    let plan = index_plan(index, seen, selection, fetch, reading);
    let copies = index_plan(index, seen, selection, fetch, whole_blocks());
    let way = Reading::Entries { borrowed };
    if index.len() == 0 {
        assert(lend(plan, false).items =~= copies.items);
        assert(lend(copies, borrowed).items =~= plan.items);
    } else {
        let rest = index.skip(1);
        lemma_readable_rest(index, fetch);
        if read_alike(index, reading, way) {
            assert forall|i: int| 0 <= i < rest.len() implies (handle_at_front(
                (#[trigger] rest[i]).1,
            ) matches Ok((handle, _)) ==> reading(handle) == way) by {
                assert(rest[i] == index[i + 1]);
            }
            assert(read_alike(rest, reading, way));
        }
        if !wants_block(index[0].0, selection) {
            borrowing_changes_no_entry(rest, seen, selection, fetch, reading, borrowed);
        } else {
            let handle = handle_at_front(index[0].1)->Ok_0.0;
            let block = selected(block_of(index[0], fetch)->Ok_0, seen, selection);
            let first = lent_by(block.plan, reading(handle));
            let later = index_plan(rest, block.seen, selection, fetch, reading);
            let later_copies = index_plan(rest, block.seen, selection, fetch, whole_blocks());
            lemma_block_selected(index[0], fetch, rest, seen, selection, reading);
            lemma_block_selected(index[0], fetch, rest, seen, selection, whole_blocks());
            borrowing_changes_no_entry(rest, block.seen, selection, fetch, reading, borrowed);
            assert(plan == plan_then(first, later));
            assert(copies == plan_then(block.plan, later_copies));
            lemma_lend_then(first, later, false);
            lemma_lend_then(block.plan, later_copies, borrowed);
            lemma_selected_unlent(block_of(index[0], fetch)->Ok_0, seen, selection);
            assert(lend(first, false).items =~= lend(block.plan, false).items);
            if read_alike(index, reading, way) {
                assert(reading(handle) == way);
            }
        }
    }
}

// ---------------------------------------------------------------------------
// What a table holds.

proof fn lemma_inserted_front(entry: Entry, rest: Seq<Entry>)
    ensures
        inserted(seq![entry] + rest) == if inserted(rest).contains_key(entry.0) {
            inserted(rest)
        } else {
            inserted(rest).insert(entry.0, entry.1)
        },
    decreases rest.len(),
{
    let whole = seq![entry] + rest;
    if rest.len() == 0 {
        assert(whole.drop_last() =~= Seq::<Entry>::empty());
        assert(rest =~= Seq::<Entry>::empty());
    } else {
        assert(whole.drop_last() =~= seq![entry] + rest.drop_last());
        assert(whole.last() == rest.last());
        lemma_inserted_front(entry, rest.drop_last());
        let expected = if inserted(rest).contains_key(entry.0) {
            inserted(rest)
        } else {
            inserted(rest).insert(entry.0, entry.1)
        };
        assert(inserted(whole) =~= expected);
    }
}

/// The map that a scan of everything makes: what it holds under a key.
proof fn lemma_selected_map(entries: Seq<Entry>, seen: Set<Seq<u8>>, key: Seq<u8>)
    ensures
        map_get(
            inserted(shown_entries(selected(entries, seen, everything()).plan.items)),
            key,
        ) == if seen.contains(key) {
            None
        } else {
            visible(entries, key)
        },
    decreases entries.len(),
{
    let items = selected(entries, seen, everything()).plan.items;
    if entries.len() > 0 {
        let rest = entries.skip(1);
        let now = seen_after(entries[0].0, seen);
        lemma_selected_map(rest, now, key);
        match step_of(entries[0].0, seen, everything()) {
            Step::Show(user_key) => {
                let later = selected(rest, now, everything()).plan.items;
                assert(items.skip(1) =~= later);
                lemma_inserted_front((user_key, entries[0].1), shown_entries(later));
                lemma_selected_map(rest, now, user_key);
            },
            _ => {
                if let Some((user_key, is_value)) = split(entries[0].0) {
                    assert(user_key.take(0) =~= Seq::<u8>::empty());
                }
            },
        }
    }
}

/// Reading a table gives, under every key, the value that is visible there:
/// of the entries with one user key the first counts, and a deletion hides it.
pub proof fn table_holds_what_is_visible(
    index: Seq<Entry>,
    fetch: Fetch,
    key: Seq<u8>,
)
    requires
        readable(index, fetch),
    ensures
        ({
            let map = plan_map(
                index_plan(index, Set::empty(), everything(), fetch, whole_blocks()),
            );
            map is Ok && map_get(map->Ok_0, key) == visible(all_entries(index, fetch), key)
        }),
{
    full_scan_shows_all_entries(index, Set::empty(), fetch);
    lemma_selected_map(all_entries(index, fetch), Set::empty(), key);
}

// ---------------------------------------------------------------------------
// No key twice.

/// Whether the items have distinct keys, none of which was seen.
pub open spec fn fresh(items: Seq<ScanItem>, seen: Set<Seq<u8>>) -> bool {
    &&& forall|i: int| 0 <= i < items.len() ==> !seen.contains((#[trigger] items[i]).key)
    &&& forall|i: int, j: int|
        #![trigger items[i], items[j]]
        0 <= i < j < items.len() ==> items[i].key != items[j].key
}

/// Whether `later` holds what `earlier` holds, and the keys of the items.
spec fn remembers(earlier: Set<Seq<u8>>, items: Seq<ScanItem>, later: Set<Seq<u8>>) -> bool {
    &&& forall|key: Seq<u8>| #[trigger] earlier.contains(key) ==> later.contains(key)
    &&& forall|i: int| 0 <= i < items.len() ==> later.contains((#[trigger] items[i]).key)
}

proof fn lemma_select_fresh(
    entries: Seq<Entry>,
    error: Option<ErrorView>,
    seen: Set<Seq<u8>>,
    selection: Selection,
)
    ensures
        fresh(select_entries(entries, error, seen, selection).plan.items, seen),
        remembers(
            seen,
            select_entries(entries, error, seen, selection).plan.items,
            select_entries(entries, error, seen, selection).seen,
        ),
    decreases entries.len(),
{
    if entries.len() > 0 {
        let now = seen_after(entries[0].0, seen);
        let rest = select_entries(entries.skip(1), error, now, selection);
        let whole = select_entries(entries, error, seen, selection);
        lemma_select_fresh(entries.skip(1), error, now, selection);
        assert forall|key: Seq<u8>| #[trigger] seen.contains(key) implies whole.seen.contains(
            key,
        ) by {
            assert(now.contains(key));
        }
        match step_of(entries[0].0, seen, selection) {
            Step::Show(user_key) => {
                let items = whole.plan.items;
                assert forall|i: int| 0 <= i < items.len() implies !seen.contains(
                    (#[trigger] items[i]).key,
                ) && whole.seen.contains(items[i].key) by {
                    if i > 0 {
                        assert(items[i] == rest.plan.items[i - 1]);
                    } else {
                        assert(now.contains(user_key));
                    }
                }
                assert forall|i: int, j: int|
                    #![trigger items[i], items[j]]
                    0 <= i < j < items.len() implies items[i].key != items[j].key by {
                    assert(items[j] == rest.plan.items[j - 1]);
                    if i > 0 {
                        assert(items[i] == rest.plan.items[i - 1]);
                    } else {
                        assert(now.contains(user_key));
                    }
                }
            },
            Step::Finish => {},
            Step::Skip => {
                assert forall|i: int| 0 <= i < whole.plan.items.len() implies !seen.contains(
                    (#[trigger] whole.plan.items[i]).key,
                ) by {
                    assert(!now.contains(rest.plan.items[i].key));
                }
            },
        }
    }
}

/// No scan of a native table shows a user key twice, whatever can be read of the
/// table.
pub proof fn scan_shows_no_key_twice(
    index: Seq<Entry>,
    seen: Set<Seq<u8>>,
    selection: Selection,
    fetch: Fetch,
    reading: ReadingOf,
)
    ensures
        fresh(index_plan(index, seen, selection, fetch, reading).items, seen),
    decreases index.len(),
{
    if index.len() > 0 {
        let rest = index.skip(1);
        if !wants_block(index[0].0, selection) {
            scan_shows_no_key_twice(rest, seen, selection, fetch, reading);
        } else if let Ok((handle, _)) = handle_at_front(index[0].1) {
            let whole = index_plan(index, seen, selection, fetch, reading);
            assert(whole == fetched_plan(handle, rest, seen, selection, fetch, reading));
            if let Ok(block) = fetch(handle) {
                let list = native_entries(block);
                let first = select_block(block, seen, selection, reading(handle));
                let later = index_plan(rest, first.seen, selection, fetch, reading);
                lemma_select_fresh(list.entries, list.error, seen, selection);
                scan_shows_no_key_twice(rest, first.seen, selection, fetch, reading);
                assert(whole == plan_then(first.plan, later));
                assert(fresh(first.plan.items, seen));
                if first.plan.end is More {
                    let items = first.plan.items + later.items;
                    assert(remembers(seen, first.plan.items, first.seen));
                    assert forall|i: int| 0 <= i < items.len() implies !seen.contains(
                        (#[trigger] items[i]).key,
                    ) by {
                        if i >= first.plan.items.len() {
                            assert(items[i] == later.items[i - first.plan.items.len()]);
                        }
                    }
                    assert forall|i: int, j: int|
                        #![trigger items[i], items[j]]
                        0 <= i < j < items.len() implies items[i].key != items[j].key by {
                        let n = first.plan.items.len();
                        if i < n {
                            assert(items[i] == first.plan.items[i]);
                        } else {
                            assert(items[i] == later.items[i - n]);
                        }
                        if j < n {
                            assert(items[j] == first.plan.items[j]);
                        } else {
                            assert(items[j] == later.items[j - n]);
                        }
                    }
                }
            }
        }
    }
}

// ---------------------------------------------------------------------------
// Nothing but the prefix.

/// Whether all items are shown, and have keys that start with `prefix`.
pub open spec fn shows_prefix_only(items: Seq<ScanItem>, prefix: Seq<u8>) -> bool {
    forall|i: int|
        0 <= i < items.len() ==> (#[trigger] items[i]).shown && has_prefix(items[i].key, prefix)
}

proof fn lemma_select_prefix_only(
    entries: Seq<Entry>,
    error: Option<ErrorView>,
    seen: Set<Seq<u8>>,
    selection: Selection,
)
    ensures
        shows_prefix_only(
            select_entries(entries, error, seen, selection).plan.items,
            selection.prefix,
        ),
    decreases entries.len(),
{
    if entries.len() > 0 {
        let now = seen_after(entries[0].0, seen);
        let rest = select_entries(entries.skip(1), error, now, selection).plan.items;
        let items = select_entries(entries, error, seen, selection).plan.items;
        lemma_select_prefix_only(entries.skip(1), error, now, selection);
        if step_of(entries[0].0, seen, selection) is Show {
            assert forall|i: int| 0 <= i < items.len() implies (#[trigger] items[i]).shown
                && has_prefix(items[i].key, selection.prefix) by {
                if i > 0 {
                    assert(items[i] == rest[i - 1]);
                }
            }
        }
    }
}

/// A scan of a native table counts what it shows, and shows only keys that start
/// with its prefix, whatever can be read of the table.
pub proof fn scan_shows_only_the_prefix(
    index: Seq<Entry>,
    seen: Set<Seq<u8>>,
    selection: Selection,
    fetch: Fetch,
    reading: ReadingOf,
)
    ensures
        shows_prefix_only(
            index_plan(index, seen, selection, fetch, reading).items,
            selection.prefix,
        ),
    decreases index.len(),
{
    if index.len() > 0 {
        let rest = index.skip(1);
        if !wants_block(index[0].0, selection) {
            scan_shows_only_the_prefix(rest, seen, selection, fetch, reading);
        } else if let Ok((handle, _)) = handle_at_front(index[0].1) {
            let whole = index_plan(index, seen, selection, fetch, reading);
            assert(whole == fetched_plan(handle, rest, seen, selection, fetch, reading));
            if let Ok(block) = fetch(handle) {
                let list = native_entries(block);
                let first = select_block(block, seen, selection, reading(handle));
                let later = index_plan(rest, first.seen, selection, fetch, reading);
                let plain = select_entries(list.entries, list.error, seen, selection).plan.items;
                lemma_select_prefix_only(list.entries, list.error, seen, selection);
                scan_shows_only_the_prefix(rest, first.seen, selection, fetch, reading);
                assert(whole == plan_then(first.plan, later));
                assert forall|i: int| 0 <= i < whole.items.len() implies (
                #[trigger] whole.items[i]).shown && has_prefix(
                    whole.items[i].key,
                    selection.prefix,
                ) by {
                    if i < first.plan.items.len() {
                        assert(plain[i].shown && has_prefix(plain[i].key, selection.prefix));
                    } else {
                        assert(whole.items[i] == later.items[i - first.plan.items.len()]);
                    }
                }
            }
        }
    }
}

// ---------------------------------------------------------------------------
// Prefix scans.

/// Those items whose keys start with `prefix`.
pub open spec fn prefixed(items: Seq<ScanItem>, prefix: Seq<u8>) -> Seq<ScanItem>
    decreases items.len(),
{
    if items.len() == 0 {
        Seq::empty()
    } else if has_prefix(items[0].key, prefix) {
        seq![items[0]] + prefixed(items.skip(1), prefix)
    } else {
        prefixed(items.skip(1), prefix)
    }
}

/// Whether the block of an index entry can be read and holds no user key behind
/// the one of the index entry.
pub open spec fn block_bounded(entry: Entry, fetch: Fetch) -> bool {
    &&& block_of(entry, fetch) is Ok
    &&& split(entry.0) is Some
    &&& forall|a: int|
        #![trigger block_of(entry, fetch)->Ok_0[a]]
        0 <= a < block_of(entry, fetch)->Ok_0.len() && split(block_of(entry, fetch)->Ok_0[a].0)
            is Some ==> !key_before(
            split(entry.0)->Some_0.0,
            split(block_of(entry, fetch)->Ok_0[a].0)->Some_0.0,
        )
}

/// Whether all blocks can be read, and none holds a user key behind the one of
/// its index entry.
pub open spec fn bounded(index: Seq<Entry>, fetch: Fetch) -> bool {
    forall|i: int| 0 <= i < index.len() ==> block_bounded(#[trigger] index[i], fetch)
}

/// Whether no user key comes before that of an earlier entry.
pub open spec fn ascending(entries: Seq<Entry>) -> bool {
    forall|a: int, b: int|
        #![trigger entries[a], entries[b]]
        0 <= a < b < entries.len() && split(entries[a].0) is Some && split(entries[b].0) is Some
            ==> !key_before(split(entries[b].0)->Some_0.0, split(entries[a].0)->Some_0.0)
}

/// A key that starts with `prefix` does not come before it.
proof fn lemma_prefix_comes_first(key: Seq<u8>, prefix: Seq<u8>)
    requires
        has_prefix(key, prefix),
    ensures
        !key_before(key, prefix),
    decreases prefix.len(),
{
    if prefix.len() > 0 {
        assert(key.take(prefix.len() as int)[0] == key[0]);
        assert(key.skip(1).take(prefix.len() - 1) =~= key.take(prefix.len() as int).skip(1));
        lemma_prefix_comes_first(key.skip(1), prefix.skip(1));
    }
}

/// Behind a key that lies behind a prefix no key starts with the prefix.
proof fn lemma_behind_prefix(prefix: Seq<u8>, behind: Seq<u8>, key: Seq<u8>)
    requires
        key_before(prefix, behind),
        !has_prefix(behind, prefix),
        !key_before(key, behind),
    ensures
        !has_prefix(key, prefix),
    decreases prefix.len(),
{
    if has_prefix(key, prefix) {
        if prefix.len() == 0 {
            assert(behind.take(0) =~= prefix);
        } else {
            assert(key.take(prefix.len() as int)[0] == key[0]);
            assert(key.skip(1).take(prefix.len() - 1) =~= prefix.skip(1)) by {
                assert(key.skip(1).take(prefix.len() - 1) =~= key.take(prefix.len() as int).skip(
                    1,
                ));
            }
            if prefix[0] == behind[0] {
                if has_prefix(behind.skip(1), prefix.skip(1)) {
                    assert(behind.take(prefix.len() as int) =~= prefix) by {
                        let tail = behind.skip(1).take(prefix.len() - 1);
                        assert forall|i: int| 0 <= i < prefix.len() implies behind[i]
                            == prefix[i] by {
                            if i > 0 {
                                assert(tail[i - 1] == prefix.skip(1)[i - 1]);
                            }
                        }
                    }
                }
                lemma_behind_prefix(prefix.skip(1), behind.skip(1), key.skip(1));
            }
        }
    }
}

/// Every key that a scan shows is the user key of an entry.
proof fn lemma_item_is_entry(entries: Seq<Entry>, seen: Set<Seq<u8>>, i: int)
    requires
        0 <= i < selected(entries, seen, everything()).plan.items.len(),
    ensures
        exists|a: int|
            #![trigger entries[a]]
            0 <= a < entries.len() && split(entries[a].0) is Some && split(entries[a].0)->Some_0.0
                == selected(entries, seen, everything()).plan.items[i].key,
    decreases entries.len(),
{
    if entries.len() > 0 {
        let rest = entries.skip(1);
        let now = seen_after(entries[0].0, seen);
        let later = selected(rest, now, everything()).plan.items;
        let key = selected(entries, seen, everything()).plan.items[i].key;
        let j: int = match step_of(entries[0].0, seen, everything()) {
            Step::Show(user_key) => i - 1,
            _ => i,
        };
        if j >= 0 {
            lemma_item_is_entry(rest, now, j);
            let a = choose|a: int|
                #![trigger rest[a]]
                0 <= a < rest.len() && split(rest[a].0) is Some && split(rest[a].0)->Some_0.0
                    == later[j].key;
            assert(rest[a] == entries[a + 1]);
        }
    }
}

proof fn lemma_nothing_prefixed(items: Seq<ScanItem>, prefix: Seq<u8>)
    requires
        forall|i: int| 0 <= i < items.len() ==> !has_prefix((#[trigger] items[i]).key, prefix),
    ensures
        prefixed(items, prefix) == Seq::<ScanItem>::empty(),
    decreases items.len(),
{
    if items.len() > 0 {
        assert forall|i: int| 0 <= i < items.skip(1).len() implies !has_prefix(
            (#[trigger] items.skip(1)[i]).key,
            prefix,
        ) by {
            assert(items.skip(1)[i] == items[i + 1]);
        }
        lemma_nothing_prefixed(items.skip(1), prefix);
    }
}

pub proof fn lemma_prefixed_concat(front: Seq<ScanItem>, back: Seq<ScanItem>, prefix: Seq<u8>)
    ensures
        prefixed(front + back, prefix) == prefixed(front, prefix) + prefixed(back, prefix),
    decreases front.len(),
{
    if front.len() == 0 {
        assert(front + back =~= back);
    } else {
        assert((front + back)[0] == front[0]);
        assert((front + back).skip(1) =~= front.skip(1) + back);
        lemma_prefixed_concat(front.skip(1), back, prefix);
    }
    assert(prefixed(front + back, prefix) =~= prefixed(front, prefix) + prefixed(back, prefix));
}

/// A scan shows nothing under a prefix that no entry has.
proof fn lemma_no_entry_prefixed(entries: Seq<Entry>, seen: Set<Seq<u8>>, prefix: Seq<u8>)
    requires
        forall|a: int|
            #![trigger entries[a]]
            0 <= a < entries.len() && split(entries[a].0) is Some ==> !has_prefix(
                split(entries[a].0)->Some_0.0,
                prefix,
            ),
    ensures
        prefixed(selected(entries, seen, everything()).plan.items, prefix) == Seq::<
            ScanItem,
        >::empty(),
{
    let items = selected(entries, seen, everything()).plan.items;
    assert forall|i: int| 0 <= i < items.len() implies !has_prefix(
        (#[trigger] items[i]).key,
        prefix,
    ) by {
        lemma_item_is_entry(entries, seen, i);
    }
    lemma_nothing_prefixed(items, prefix);
}

/// Whether two scans have seen the same keys from `prefix` on.
spec fn agree(one: Set<Seq<u8>>, other: Set<Seq<u8>>, prefix: Seq<u8>) -> bool {
    forall|key: Seq<u8>|
        #![trigger one.contains(key)]
        #![trigger other.contains(key)]
        !key_before(key, prefix) ==> one.contains(key) == other.contains(key)
}

/// Whether an entry lies behind a prefix.
spec fn lies_behind(entry: Entry, prefix: Seq<u8>) -> bool {
    split(entry.0) is Some && key_before(prefix, split(entry.0)->Some_0.0) && !has_prefix(
        split(entry.0)->Some_0.0,
        prefix,
    )
}

proof fn lemma_ascending_rest(entries: Seq<Entry>)
    requires
        entries.len() > 0,
        ascending(entries),
    ensures
        ascending(entries.skip(1)),
{
    let rest = entries.skip(1);
    assert forall|a: int, b: int|
        #![trigger rest[a], rest[b]]
        0 <= a < b < rest.len() && split(rest[a].0) is Some && split(rest[b].0)
            is Some implies !key_before(split(rest[b].0)->Some_0.0, split(rest[a].0)->Some_0.0) by {
        assert(rest[a] == entries[a + 1] && rest[b] == entries[b + 1]);
    }
}

/// Of a block, a prefix scan shows what a scan of everything shows under that
/// prefix.
proof fn lemma_block_prefixed(
    entries: Seq<Entry>,
    one: Set<Seq<u8>>,
    other: Set<Seq<u8>>,
    selection: Selection,
)
    requires
        agree(one, other, selection.prefix),
        selection.ends_behind ==> ascending(entries),
    ensures
        ({
            let narrow = selected(entries, one, selection);
            let wide = selected(entries, other, everything());
            &&& narrow.plan.items == prefixed(wide.plan.items, selection.prefix)
            &&& narrow.plan.end is More ==> agree(narrow.seen, wide.seen, selection.prefix)
            &&& !(narrow.plan.end is More) ==> selection.ends_behind && narrow.plan.end is Done
                && exists|a: int|
                #![trigger entries[a]]
                0 <= a < entries.len() && lies_behind(entries[a], selection.prefix)
        }),
    decreases entries.len(),
{
    let prefix = selection.prefix;
    if entries.len() > 0 {
        let rest = entries.skip(1);
        let one_now = seen_after(entries[0].0, one);
        let other_now = seen_after(entries[0].0, other);
        let wide = selected(entries, other, everything()).plan.items;
        let wide_later = selected(rest, other_now, everything()).plan.items;
        if selection.ends_behind {
            lemma_ascending_rest(entries);
        }
        lemma_block_prefixed(rest, one_now, other_now, selection);
        if let Some((user_key, is_value)) = split(entries[0].0) {
            assert(user_key.take(0) =~= Seq::<u8>::empty());
            if has_prefix(user_key, prefix) {
                lemma_prefix_comes_first(user_key, prefix);
            }
            if step_of(entries[0].0, other, everything()) is Show {
                assert(wide.skip(1) =~= wide_later);
            }
            match step_of(entries[0].0, one, selection) {
                Step::Finish => {
                    assert(lies_behind(entries[0], prefix));
                    assert forall|a: int|
                        #![trigger entries[a]]
                        0 <= a < entries.len() && split(entries[a].0) is Some implies !has_prefix(
                        split(entries[a].0)->Some_0.0,
                        prefix,
                    ) by {
                        if a > 0 {
                            assert(!key_before(
                                split(entries[a].0)->Some_0.0,
                                split(entries[0].0)->Some_0.0,
                            ));
                            lemma_behind_prefix(prefix, user_key, split(entries[a].0)->Some_0.0);
                        }
                    }
                    lemma_no_entry_prefixed(entries, other, prefix);
                },
                Step::Show(shown) => {
                    assert(step_of(entries[0].0, other, everything()) == Step::Show(user_key));
                },
                Step::Skip => {
                    if step_of(entries[0].0, other, everything()) is Show {
                        if has_prefix(user_key, prefix) {
                            assert(one.contains(user_key) == other.contains(user_key));
                            assert(false);
                        }
                    }
                },
            }
        }
        if !(selected(entries, one, selection).plan.end is More) && !(step_of(
            entries[0].0,
            one,
            selection,
        ) is Finish) {
            let a = choose|a: int|
                #![trigger rest[a]]
                0 <= a < rest.len() && lies_behind(rest[a], prefix);
            assert(rest[a] == entries[a + 1]);
        }
    }
}

/// Of a block that comes before the prefix nothing matters.
proof fn lemma_block_before(
    entries: Seq<Entry>,
    one: Set<Seq<u8>>,
    other: Set<Seq<u8>>,
    prefix: Seq<u8>,
)
    requires
        agree(one, other, prefix),
        forall|a: int|
            #![trigger entries[a]]
            0 <= a < entries.len() && split(entries[a].0) is Some ==> key_before(
                split(entries[a].0)->Some_0.0,
                prefix,
            ),
    ensures
        prefixed(selected(entries, other, everything()).plan.items, prefix) == Seq::<
            ScanItem,
        >::empty(),
        agree(one, selected(entries, other, everything()).seen, prefix),
    decreases entries.len(),
{
    assert forall|a: int|
        #![trigger entries[a]]
        0 <= a < entries.len() && split(entries[a].0) is Some implies !has_prefix(
        split(entries[a].0)->Some_0.0,
        prefix,
    ) by {
        if has_prefix(split(entries[a].0)->Some_0.0, prefix) {
            lemma_prefix_comes_first(split(entries[a].0)->Some_0.0, prefix);
        }
    }
    lemma_no_entry_prefixed(entries, other, prefix);
    if entries.len() > 0 {
        let rest = entries.skip(1);
        let now = seen_after(entries[0].0, other);
        assert forall|a: int|
            #![trigger rest[a]]
            0 <= a < rest.len() && split(rest[a].0) is Some implies key_before(
            split(rest[a].0)->Some_0.0,
            prefix,
        ) by {
            assert(rest[a] == entries[a + 1]);
        }
        if let Some((user_key, is_value)) = split(entries[0].0) {
            assert(user_key.take(0) =~= Seq::<u8>::empty());
            assert(key_before(user_key, prefix));
        }
        assert(agree(one, now, prefix));
        lemma_block_before(rest, one, now, prefix);
    }
}

/// The blocks behind the first are bounded too.
pub proof fn lemma_bounded_rest(index: Seq<Entry>, fetch: Fetch)
    requires
        index.len() > 0,
        bounded(index, fetch),
    ensures
        bounded(index.skip(1), fetch),
        block_bounded(index[0], fetch),
{
    let rest = index.skip(1);
    assert forall|i: int| 0 <= i < rest.len() implies block_bounded(#[trigger] rest[i], fetch) by {
        assert(rest[i] == index[i + 1]);
    }
}

/// Both parts of ascending entries ascend, one behind the other.
pub proof fn lemma_ascending_parts(front: Seq<Entry>, back: Seq<Entry>)
    requires
        ascending(front + back),
    ensures
        ascending(front),
        ascending(back),
        forall|a: int, b: int|
            #![trigger front[a], back[b]]
            0 <= a < front.len() && 0 <= b < back.len() && split(front[a].0) is Some && split(
                back[b].0,
            ) is Some ==> !key_before(split(back[b].0)->Some_0.0, split(front[a].0)->Some_0.0),
{
    let whole = front + back;
    assert forall|a: int, b: int|
        #![trigger front[a], front[b]]
        0 <= a < b < front.len() && split(front[a].0) is Some && split(front[b].0)
            is Some implies !key_before(split(front[b].0)->Some_0.0, split(front[a].0)->Some_0.0) by {
        assert(whole[a] == front[a] && whole[b] == front[b]);
    }
    assert forall|a: int, b: int|
        #![trigger back[a], back[b]]
        0 <= a < b < back.len() && split(back[a].0) is Some && split(back[b].0)
            is Some implies !key_before(split(back[b].0)->Some_0.0, split(back[a].0)->Some_0.0) by {
        assert(whole[a + front.len()] == back[a] && whole[b + front.len()] == back[b]);
    }
    assert forall|a: int, b: int|
        #![trigger front[a], back[b]]
        0 <= a < front.len() && 0 <= b < back.len() && split(front[a].0) is Some && split(back[b].0)
            is Some implies !key_before(split(back[b].0)->Some_0.0, split(front[a].0)->Some_0.0) by {
        assert(whole[a] == front[a] && whole[b + front.len()] == back[b]);
    }
}

/// Whether values are borrowed does not matter for which items have a prefix.
pub proof fn lemma_prefixed_lent(items: Seq<ScanItem>, prefix: Seq<u8>, borrowed: bool)
    ensures
        prefixed(lent_items(items, borrowed), prefix) == lent_items(
            prefixed(items, prefix),
            borrowed,
        ),
    decreases items.len(),
{
    let lent = lent_items(items, borrowed);
    if items.len() > 0 {
        lemma_prefixed_lent(items.skip(1), prefix, borrowed);
        assert(lent.skip(1) =~= lent_items(items.skip(1), borrowed));
        assert(prefixed(lent, prefix) =~= lent_items(prefixed(items, prefix), borrowed));
    } else {
        assert(prefixed(lent, prefix) =~= lent_items(prefixed(items, prefix), borrowed));
    }
}

/// No item of a scan has the prefix, where no entry of the table has it.
proof fn lemma_scan_without_prefix(
    index: Seq<Entry>,
    seen: Set<Seq<u8>>,
    prefix: Seq<u8>,
    fetch: Fetch,
    reading: ReadingOf,
)
    requires
        readable(index, fetch),
        prefixed(selected(all_entries(index, fetch), seen, everything()).plan.items, prefix)
            == Seq::<ScanItem>::empty(),
    ensures
        prefixed(index_plan(index, seen, everything(), fetch, reading).items, prefix)
            =~= Seq::<ScanItem>::empty(),
{
    let items = index_plan(index, seen, everything(), fetch, reading).items;
    borrowing_changes_no_entry(index, seen, everything(), fetch, reading, false);
    full_scan_shows_all_entries(index, seen, fetch);
    lemma_prefixed_lent(items, prefix, false);
}

/// Blocks that are bounded can be read.
pub proof fn lemma_bounded_readable(index: Seq<Entry>, fetch: Fetch)
    requires
        bounded(index, fetch),
    ensures
        readable(index, fetch),
{
    assert forall|i: int| 0 <= i < index.len() implies block_of(#[trigger] index[i], fetch)
        is Ok by {
        assert(block_bounded(index[i], fetch));
    }
}

proof fn lemma_prefix_plan(
    index: Seq<Entry>,
    one: Set<Seq<u8>>,
    other: Set<Seq<u8>>,
    selection: Selection,
    fetch: Fetch,
    reading: ReadingOf,
)
    requires
        bounded(index, fetch),
        selection.skips_blocks,
        selection.ends_behind ==> ascending(all_entries(index, fetch)),
        agree(one, other, selection.prefix),
    ensures
        index_plan(index, one, selection, fetch, reading) == (ScanPlan {
            items: prefixed(
                index_plan(index, other, everything(), fetch, reading).items,
                selection.prefix,
            ),
            end: ScanEnd::Done,
        }),
    decreases index.len(),
{
    let prefix = selection.prefix;
    let plan = index_plan(index, one, selection, fetch, reading);
    let full = index_plan(index, other, everything(), fetch, reading);
    if index.len() == 0 {
        assert(plan.items =~= Seq::<ScanItem>::empty());
    } else {
        let rest = index.skip(1);
        let handle = handle_at_front(index[0].1)->Ok_0.0;
        let block = block_of(index[0], fetch)->Ok_0;
        let later = all_entries(rest, fetch);
        let wide = selected(block, other, everything());
        let wide_lent = lent_by(wide.plan, reading(handle));
        let full_later = index_plan(rest, wide.seen, everything(), fetch, reading);
        lemma_bounded_rest(index, fetch);
        lemma_bounded_readable(rest, fetch);
        lemma_select_end(block, other, everything());
        lemma_block_selected(index[0], fetch, rest, other, everything(), reading);
        assert(full == plan_then(wide_lent, full_later));
        lemma_prefixed_concat(wide_lent.items, full_later.items, prefix);
        if reading(handle) is Entries {
            lemma_prefixed_lent(wide.plan.items, prefix, reading(handle)->borrowed);
        }
        if selection.ends_behind {
            lemma_ascending_parts(block, later);
        }
        let largest = split(index[0].0)->Some_0.0;
        if !wants_block(index[0].0, selection) {
            assert forall|a: int|
                #![trigger block[a]]
                0 <= a < block.len() && split(block[a].0) is Some implies key_before(
                split(block[a].0)->Some_0.0,
                prefix,
            ) by {
                let user_key = split(block[a].0)->Some_0.0;
                assert(!key_before(largest, user_key));
                key_order_total(user_key, largest);
                if user_key != largest {
                    key_order_transitive(user_key, largest, prefix);
                }
            }
            lemma_block_before(block, one, other, prefix);
            lemma_prefix_plan(rest, one, wide.seen, selection, fetch, reading);
            assert(prefixed(wide_lent.items, prefix).len() == 0);
        } else {
            let narrow = selected(block, one, selection);
            lemma_block_selected(index[0], fetch, rest, one, selection, reading);
            lemma_block_prefixed(block, one, other, selection);
            assert(lent_by(narrow.plan, reading(handle)).items == prefixed(
                wide_lent.items,
                prefix,
            ));
            if narrow.plan.end is More {
                lemma_prefix_plan(rest, narrow.seen, wide.seen, selection, fetch, reading);
            } else {
                let a = choose|a: int|
                    #![trigger block[a]]
                    0 <= a < block.len() && lies_behind(block[a], prefix);
                assert forall|b: int|
                    #![trigger later[b]]
                    0 <= b < later.len() && split(later[b].0) is Some implies !has_prefix(
                    split(later[b].0)->Some_0.0,
                    prefix,
                ) by {
                    assert(!key_before(
                        split(later[b].0)->Some_0.0,
                        split(block[a].0)->Some_0.0,
                    ));
                    lemma_behind_prefix(
                        prefix,
                        split(block[a].0)->Some_0.0,
                        split(later[b].0)->Some_0.0,
                    );
                }
                lemma_no_entry_prefixed(later, wide.seen, prefix);
                lemma_scan_without_prefix(rest, wide.seen, prefix, fetch, reading);
            }
        }
        assert(plan.items =~= prefixed(wide_lent.items, prefix) + prefixed(
            full_later.items,
            prefix,
        ));
    }
}

/// A prefix scan shows what a scan of everything shows under that prefix, in the
/// same order, and gets to its end.
pub proof fn prefix_scan_shows_what_has_the_prefix(
    index: Seq<Entry>,
    prefix: Seq<u8>,
    fetch: Fetch,
    reading: ReadingOf,
)
    requires
        bounded(index, fetch),
    ensures
        index_plan(index, Set::empty(), with_prefix(prefix), fetch, reading) == (ScanPlan {
            items: prefixed(
                index_plan(index, Set::empty(), everything(), fetch, reading).items,
                prefix,
            ),
            end: ScanEnd::Done,
        }),
        ascending(all_entries(index, fetch)) ==> index_plan(
            index,
            Set::empty(),
            within_prefix(prefix),
            fetch,
            reading,
        ) == index_plan(index, Set::empty(), with_prefix(prefix), fetch, reading),
{
    let none = Set::empty();
    lemma_prefix_plan(index, none, none, with_prefix(prefix), fetch, reading);
    if ascending(all_entries(index, fetch)) {
        lemma_prefix_plan(index, none, none, within_prefix(prefix), fetch, reading);
    }
}

// ---------------------------------------------------------------------------
// What a scan does about each entry, in tables of any order.

/// Whether none of some entries has a user key, and it was not seen before them.
pub open spec fn is_new(entries: Seq<Entry>, seen: Set<Seq<u8>>, user_key: Seq<u8>) -> bool {
    &&& !seen.contains(user_key)
    &&& forall|i: int|
        0 <= i < entries.len() ==> (split((#[trigger] entries[i]).0) matches Some((other, _))
            ==> other != user_key)
}

proof fn lemma_seen_grows(
    entries: Seq<Entry>,
    seen: Set<Seq<u8>>,
    selection: Selection,
    user_key: Seq<u8>,
)
    requires
        selected(entries, seen, selection).plan.end is More,
    ensures
        !selected(entries, seen, selection).seen.contains(user_key) <==> is_new(
            entries,
            seen,
            user_key,
        ),
    decreases entries.len(),
{
    if entries.len() > 0 {
        let rest = entries.skip(1);
        let now = seen_after(entries[0].0, seen);
        lemma_seen_grows(rest, now, selection, user_key);
        if is_new(entries, seen, user_key) {
            assert forall|i: int| 0 <= i < rest.len() && split((#[trigger] rest[i]).0)
                is Some implies split(rest[i].0)->Some_0.0 != user_key by {
                assert(rest[i] == entries[i + 1]);
            }
            assert(split(entries[0].0) is Some ==> split(entries[0].0)->Some_0.0 != user_key);
            assert(is_new(rest, now, user_key));
        }
        if is_new(rest, now, user_key) {
            assert forall|i: int| 0 <= i < entries.len() && split((#[trigger] entries[i]).0)
                is Some implies split(entries[i].0)->Some_0.0 != user_key by {
                if i > 0 {
                    assert(rest[i - 1] == entries[i]);
                    assert(split(rest[i - 1].0) is Some);
                }
            }
        }
    }
}

/// What one more entry adds to a scan. It is shown, last, where it is the first
/// with its user key, is no deletion and has the prefix. A scan that ends behind
/// its prefix is over at the first new user key that lies there. Everything else
/// is passed over. Once a scan is over nothing is added to it.
pub proof fn scans_decide_on_each_entry(
    entries: Seq<Entry>,
    entry: Entry,
    seen: Set<Seq<u8>>,
    selection: Selection,
)
    ensures
        ({
            let before = select_entries(entries, None, seen, selection).plan;
            let after = select_entries(entries.push(entry), None, seen, selection).plan;
            let none = select_entries(Seq::empty(), None, seen, selection).plan;
            &&& none.items.len() == 0 && none.end is More
            &&& before.end is More || before.end is Done
            &&& before.end is Done ==> after == before
            &&& before.end is More ==> match split(entry.0) {
                None => after == before,
                Some((user_key, is_value)) => if !is_new(entries, seen, user_key) {
                    after == before
                } else if has_prefix(user_key, selection.prefix) {
                    if is_value {
                        &&& after.end is More
                        &&& after.items.len() == before.items.len() + 1
                        &&& after.items.take(before.items.len() as int) == before.items
                        &&& after.items.last().key == user_key
                        &&& after.items.last().value == entry.1
                        &&& after.items.last().shown
                        &&& !after.items.last().borrowed
                    } else {
                        after == before
                    }
                } else if selection.ends_behind && key_before(selection.prefix, user_key) {
                    after.end is Done && after.items == before.items
                } else {
                    after == before
                },
            }
        }),
{
    let before = selected(entries, seen, selection);
    let after = selected(entries.push(entry), seen, selection);
    let one = seq![entry];
    assert(entries.push(entry) =~= entries + one);
    lemma_select_concat(entries, one, seen, selection);
    lemma_select_end(entries, seen, selection);
    if before.plan.end is More {
        let second = selected(one, before.seen, selection);
        let now = seen_after(entry.0, before.seen);
        assert(one.skip(1) =~= Seq::<Entry>::empty());
        assert(selected(one.skip(1), now, selection).plan.items.len() == 0);
        assert(one[0] == entry);
        if let Some((user_key, is_value)) = split(entry.0) {
            lemma_seen_grows(entries, seen, selection, user_key);
        }
        assert(after.plan == plan_then(before.plan, second.plan));
        if second.plan.items.len() == 0 {
            assert(before.plan.items + second.plan.items =~= before.plan.items);
        } else {
            assert(after.plan.items.take(before.plan.items.len() as int) =~= before.plan.items);
        }
    }
}

/// An entry that cannot be read changes only how a scan ends, and only where the
/// scan gets there.
pub proof fn scans_fail_where_they_cannot_read(
    entries: Seq<Entry>,
    error: ErrorView,
    seen: Set<Seq<u8>>,
    selection: Selection,
)
    ensures
        ({
            let whole = select_entries(entries, None, seen, selection).plan;
            let broken = select_entries(entries, Some(error), seen, selection).plan;
            &&& broken.items == whole.items
            &&& whole.end is More ==> broken.end == ScanEnd::Failed(error)
            &&& whole.end is Done ==> broken.end is Done
        }),
    decreases entries.len(),
{
    if entries.len() > 0 {
        let now = seen_after(entries[0].0, seen);
        scans_fail_where_they_cannot_read(entries.skip(1), error, now, selection);
    }
}

/// A block that is decoded as a whole is not shown at all where some of it cannot
/// be read. One that is read entry by entry is shown up to there. Values are
/// borrowed where the block is.
pub proof fn blocks_are_shown_as_they_are_read(
    block: Seq<u8>,
    seen: Set<Seq<u8>>,
    selection: Selection,
    borrowed: bool,
)
    ensures
        ({
            let list = native_entries(block);
            let whole = select_block(block, seen, selection, Reading::Whole).plan;
            let lazy = select_block(
                block,
                seen,
                selection,
                Reading::Entries { borrowed },
            ).plan;
            let plain = select_entries(list.entries, list.error, seen, selection).plan;
            &&& list.error matches Some(error) ==> whole.items.len() == 0 && whole.end
                == ScanEnd::Failed(error)
            &&& list.error is None ==> whole == plain
            &&& lazy.end == plain.end
            &&& lazy.items.len() == plain.items.len()
            &&& forall|i: int|
                0 <= i < plain.items.len() ==> {
                    &&& (#[trigger] lazy.items[i]).key == plain.items[i].key
                    &&& lazy.items[i].value == plain.items[i].value
                    &&& lazy.items[i].shown == plain.items[i].shown
                    &&& lazy.items[i].borrowed == borrowed
                }
        }),
{
}

/// A scan takes the blocks of an index in turn. A prefix scan passes over a block
/// whose index key does not split, or comes before the prefix; any other block is
/// fetched, and what it shows comes before what the blocks behind it show. A
/// block that cannot be fetched, and an index entry without a handle, end the
/// scan with their error.
pub proof fn scans_take_blocks_in_turn(
    entry: Entry,
    rest: Seq<Entry>,
    seen: Set<Seq<u8>>,
    selection: Selection,
    fetch: Fetch,
    reading: ReadingOf,
)
    ensures
        ({
            let none = index_plan(Seq::empty(), seen, selection, fetch, reading);
            none.items.len() == 0 && none.end is Done
        }),
        ({
            let plan = index_plan(seq![entry] + rest, seen, selection, fetch, reading);
            let passed_over = selection.skips_blocks && match split(entry.0) {
                None => true,
                Some((largest, _)) => key_before(largest, selection.prefix),
            };
            &&& passed_over ==> plan == index_plan(rest, seen, selection, fetch, reading)
            &&& !passed_over ==> match handle_at_front(entry.1) {
                Err(error) => plan.items.len() == 0 && plan.end == ScanEnd::Failed(error),
                Ok((handle, _)) => match fetch(handle) {
                    Err(error) => plan.items.len() == 0 && plan.end == ScanEnd::Failed(error),
                    Ok(block) => {
                        let first = select_block(block, seen, selection, reading(handle));
                        let later = index_plan(rest, first.seen, selection, fetch, reading);
                        if first.plan.end is More {
                            plan.items == first.plan.items + later.items && plan.end == later.end
                        } else {
                            plan == first.plan
                        }
                    },
                },
            }
        }),
{
    let index = seq![entry] + rest;
    assert(index[0] == entry);
    assert(index.skip(1) =~= rest);
    if wants_block(entry.0, selection) {
        if let Ok((handle, _)) = handle_at_front(entry.1) {
            assert(index_plan(index, seen, selection, fetch, reading) == fetched_plan(
                handle,
                rest,
                seen,
                selection,
                fetch,
                reading,
            ));
        }
    }
}

// ---------------------------------------------------------------------------
// Whole tables.

proof fn lemma_unreadable_fails(index: Seq<Entry>, seen: Set<Seq<u8>>, fetch: Fetch)
    requires
        !readable(index, fetch),
    ensures
        index_plan(index, seen, everything(), fetch, whole_blocks()).end is Failed,
    decreases index.len(),
{
    let rest = index.skip(1);
    let i = choose|i: int| 0 <= i < index.len() && !(block_of(#[trigger] index[i], fetch) is Ok);
    let plan = index_plan(index, seen, everything(), fetch, whole_blocks());
    if let Ok((handle, _)) = handle_at_front(index[0].1) {
        assert(plan == fetched_plan(handle, rest, seen, everything(), fetch, whole_blocks()));
        if block_of(index[0], fetch) is Ok {
            let block = block_of(index[0], fetch)->Ok_0;
            let first = selected(block, seen, everything());
            assert(rest[i - 1] == index[i]);
            assert(!(block_of(rest[i - 1], fetch) is Ok));
            lemma_unreadable_fails(rest, first.seen, fetch);
            lemma_select_end(block, seen, everything());
            lemma_block_selected(index[0], fetch, rest, seen, everything(), whole_blocks());
        }
    }
}

/// A table can be read into a map exactly where its index and all its blocks can
/// be read. The map holds, under every key, what is visible there: of the entries
/// with that user key the first counts, unless it is a deletion.
pub proof fn tables_are_read_as_what_is_visible(
    path: Seq<char>,
    table: Seq<u8>,
    paranoid_checks: bool,
    key: Seq<u8>,
)
    ensures
        ({
            let index = table_index(path, table, paranoid_checks);
            let fetch = |handle: BlockHandle| block_in_table(path, table, handle, paranoid_checks);
            let map = native_contents(path, table, paranoid_checks);
            &&& map is Ok <==> index is Ok && readable(index->Ok_0, fetch)
            &&& map is Ok ==> map_get(map->Ok_0, key) == visible(
                all_entries(index->Ok_0, fetch),
                key,
            )
            &&& index matches Err(error) ==> map == Err::<Map<Seq<u8>, Seq<u8>>, ErrorView>(error)
            &&& index matches Ok(entries) ==> (index_plan(
                entries,
                Set::empty(),
                everything(),
                fetch,
                whole_blocks(),
            ).end matches ScanEnd::Failed(error) ==> map == Err::<
                Map<Seq<u8>, Seq<u8>>,
                ErrorView,
            >(error))
        }),
{
    let fetch = |handle: BlockHandle| block_in_table(path, table, handle, paranoid_checks);
    assert(fetch =~= table_blocks(path, table, paranoid_checks));
    if let Ok(index) = table_index(path, table, paranoid_checks) {
        if readable(index, fetch) {
            table_holds_what_is_visible(index, fetch, key);
        } else {
            lemma_unreadable_fails(index, Set::empty(), fetch);
        }
    }
}

/// What is visible under a key is decided by the first entry that has it as its
/// user key.
pub proof fn first_entry_decides_what_is_visible(
    entries: Seq<Entry>,
    key: Seq<u8>,
    value: Seq<u8>,
)
    ensures
        visible(entries, key) == Some(value) <==> exists|i: int|
            #![trigger entries[i]]
            0 <= i < entries.len() && split(entries[i].0) == Some((key, true)) && entries[i].1
                == value && forall|j: int|
                0 <= j < i ==> (split((#[trigger] entries[j]).0) matches Some((other, _)) ==> other
                    != key),
    decreases entries.len(),
{
    if entries.len() > 0 {
        let rest = entries.skip(1);
        first_entry_decides_what_is_visible(rest, key, value);
        let here = split(entries[0].0) is Some && split(entries[0].0)->Some_0.0 == key;
        if !here && visible(entries, key) == Some(value) {
            let i = choose|i: int|
                #![trigger rest[i]]
                0 <= i < rest.len() && split(rest[i].0) == Some((key, true)) && rest[i].1 == value
                    && forall|j: int|
                    0 <= j < i ==> (split((#[trigger] rest[j]).0) matches Some((other, _)) ==> other
                        != key);
            assert(entries[i + 1] == rest[i]);
            assert forall|j: int| 0 <= j < i + 1 && split((#[trigger] entries[j]).0)
                is Some implies split(entries[j].0)->Some_0.0 != key by {
                if j > 0 {
                    assert(rest[j - 1] == entries[j]);
                    assert(split(rest[j - 1].0) is Some);
                }
            }
        }
        if exists|i: int|
            #![trigger entries[i]]
            0 <= i < entries.len() && split(entries[i].0) == Some((key, true)) && entries[i].1
                == value && forall|j: int|
                0 <= j < i ==> (split((#[trigger] entries[j]).0) matches Some((other, _)) ==> other
                    != key) {
            let i = choose|i: int|
                #![trigger entries[i]]
                0 <= i < entries.len() && split(entries[i].0) == Some((key, true)) && entries[i].1
                    == value && forall|j: int|
                    0 <= j < i ==> (split((#[trigger] entries[j]).0) matches Some((other, _))
                        ==> other != key);
            if i > 0 {
                assert(split(entries[0].0) is Some ==> split(entries[0].0)->Some_0.0 != key);
                assert(rest[i - 1] == entries[i]);
                assert forall|j: int| 0 <= j < i - 1 && split((#[trigger] rest[j]).0)
                    is Some implies split(rest[j].0)->Some_0.0 != key by {
                    assert(entries[j + 1] == rest[j]);
                    assert(split(entries[j + 1].0) is Some);
                }
            }
        }
    }
}

/// A scan of a table starts from nothing seen, with the blocks of that table. A
/// table whose index cannot be read shows nothing, and fails with that error.
pub proof fn table_scans_start_at_the_index(
    path: Seq<char>,
    table: Seq<u8>,
    paranoid_checks: bool,
    selection: Selection,
    reading: ReadingOf,
)
    ensures
        ({
            let plan = table_plan(path, table, paranoid_checks, selection, reading);
            match table_index(path, table, paranoid_checks) {
                Err(error) => plan.items.len() == 0 && plan.end == ScanEnd::Failed(error),
                Ok(index) => plan == index_plan(
                    index,
                    Set::empty(),
                    selection,
                    |handle: BlockHandle| block_in_table(path, table, handle, paranoid_checks),
                    reading,
                ),
            }
        }),
{
    let fetch = |handle: BlockHandle| block_in_table(path, table, handle, paranoid_checks);
    assert(fetch =~= table_blocks(path, table, paranoid_checks));
}

/// A block that leaves more to scan leaves behind what was seen before it, and
/// the user keys of its entries, those of deletions and of other prefixes too.
pub proof fn scans_remember_user_keys(
    block: Seq<u8>,
    seen: Set<Seq<u8>>,
    selection: Selection,
    reading: Reading,
    user_key: Seq<u8>,
)
    requires
        select_block(block, seen, selection, reading).plan.end is More,
    ensures
        select_block(block, seen, selection, reading).seen.contains(user_key) <==> !is_new(
            native_entries(block).entries,
            seen,
            user_key,
        ),
{
    let list = native_entries(block);
    if list.error is Some {
        scans_fail_where_they_cannot_read(list.entries, list.error->Some_0, seen, selection);
        lemma_select_end(list.entries, seen, selection);
    }
    lemma_seen_grows(list.entries, seen, selection, user_key);
}

/// What the kinds of scans select: everything; or a prefix, with blocks before it
/// passed over, to the end of the table or only to the end of the prefix. Scans
/// with copies decode whole blocks; scans without them borrow where the tag of a
/// block is 0.
pub proof fn kinds_of_scans(prefix: Seq<u8>, table: Seq<u8>, handle: BlockHandle)
    ensures
        everything().prefix.len() == 0 && !everything().skips_blocks && !everything().ends_behind,
        with_prefix(prefix).prefix == prefix && with_prefix(prefix).skips_blocks && !with_prefix(
            prefix,
        ).ends_behind,
        within_prefix(prefix).prefix == prefix && within_prefix(prefix).skips_blocks
            && within_prefix(prefix).ends_behind,
        whole_blocks()(handle) is Whole,
        borrowed_blocks(table)(handle) is Entries,
        borrowed_blocks(table)(handle)->borrowed <==> table[handle.offset + handle.size] == 0,
{
}

/// The block that a scan reads next is that of the first index entry which is not
/// passed over. The entries behind it are left.
pub proof fn next_block_is_the_first_wanted(
    entry: Entry,
    rest: Seq<Entry>,
    selection: Selection,
)
    ensures
        next_block(Seq::empty(), selection) is Nothing,
        ({
            let next = next_block(seq![entry] + rest, selection);
            let passed_over = selection.skips_blocks && match split(entry.0) {
                None => true,
                Some((largest, _)) => key_before(largest, selection.prefix),
            };
            &&& passed_over ==> next == next_block(rest, selection)
            &&& !passed_over ==> match handle_at_front(entry.1) {
                Err(error) => next == NextBlock::Unreadable(error),
                Ok((handle, _)) => next == NextBlock::Read(handle, rest),
            }
        }),
{
    let index = seq![entry] + rest;
    assert(index[0] == entry);
    assert(index.skip(1) =~= rest);
}

} // verus!
