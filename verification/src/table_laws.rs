//! What holds of tables of either format.
use crate::gather::all_contents;
use crate::block::entries_view;
use crate::cache::block_view;
use crate::blob::contents;
use crate::codec::bytes_result;
use crate::native_lookup::{native_lookup, native_lookups};
use crate::native_table::{map_view, native_contents};
use crate::custom_scan::custom_ref_plan;
use crate::collect::{
    always_continues, entry_keys, key_collector_keeps_what_is_shown, shown_entries,
    steady_visitor_gets_to_the_end, tally_counts_every_item, value_bytes, KeyCollector,
};
use crate::custom::{
    custom_contents, custom_entries, is_custom, table_magic, tables_start_with_their_letters,
};
use crate::custom_lookup::{
    all_looked_up, first_value, looked_up, lookup_view, lookups_agree, lookups_view,
};
use crate::custom_write::{complete, custom_table, custom_table_round_trip, written_custom};
use crate::error::{ErrorView, LevelDbError};
use crate::keys::{
    as_map, entry_pairs, has_key, has_prefix, key_before, lemma_sorted_places, place_of, sorted,
    Entry, KeyMap,
};
use crate::native::table_index;
use crate::native_laws::{
    all_entries, ascending, borrowing_changes_no_entry, bounded, lemma_prefixed_concat,
    lemma_prefixed_lent, map_get, prefix_scan_shows_what_has_the_prefix, prefixed, readable,
    scan_shows_only_the_prefix, shows_prefix_only,
};
use crate::native_lookup_laws::{lookup_agrees_with_table, lookups_agree_with_table, separated};
use crate::native_scan::{
    borrowed_blocks, everything, table_blocks, table_plan, whole_blocks, with_prefix, within_prefix,
};
use crate::native_write::{native_table, written};
use crate::native_write_laws::{
    every_entry, written_table_is_native, written_table_looks_up, written_table_looks_up_several,
    written_table_reads_back, written_table_scans_back, written_table_scans_prefix_back,
};
use crate::options::{capped_sum, empty_outcome, CompressionPolicy, ScanOutcome};
use crate::scan::{
    lend, lent_items, matching_items, matching_plan, prefix_item, prefix_items, prefix_plan, runs,
    scans, table_result, ScanEnd, ScanItem, ScanPlan, ScanResult, Visitor,
};
use crate::table::{
    entry_scan_plan, key_scan_plan, ref_scan_plan, table_contents, table_lookup, table_lookups,
};
use bytes::Bytes;
use vstd::prelude::*;

verus! {

/// Those entries whose keys start with `prefix`.
pub open spec fn entries_with_prefix(entries: Seq<Entry>, prefix: Seq<u8>) -> Seq<Entry>
    decreases entries.len(),
{
    if entries.len() == 0 {
        Seq::empty()
    } else if has_prefix(entries.last().0, prefix) {
        entries_with_prefix(entries.drop_last(), prefix).push(entries.last())
    } else {
        entries_with_prefix(entries.drop_last(), prefix)
    }
}

proof fn lemma_shown_push(items: Seq<ScanItem>, item: ScanItem)
    ensures
        shown_entries(items.push(item)) == if item.shown {
            shown_entries(items).push((item.key, item.value))
        } else {
            shown_entries(items)
        },
    decreases items.len(),
{
    let whole = items.push(item);
    if items.len() == 0 {
        assert(whole.skip(1) =~= Seq::<ScanItem>::empty());
        assert(shown_entries(whole.skip(1)) =~= Seq::<Entry>::empty());
    } else {
        assert(whole[0] == items[0]);
        assert(whole.skip(1) =~= items.skip(1).push(item));
        lemma_shown_push(items.skip(1), item);
    }
    let expected = if item.shown {
        shown_entries(items).push((item.key, item.value))
    } else {
        shown_entries(items)
    };
    assert(shown_entries(whole) =~= expected);
}

/// Of a list, an entry scan and a key scan both show the entries whose keys
/// start with the prefix, in the order of the list.
pub proof fn list_scans_show_what_has_the_prefix(entries: Seq<Entry>, prefix: Seq<u8>)
    ensures
        shown_entries(prefix_items(entries, prefix)) == entries_with_prefix(entries, prefix),
        shown_entries(matching_items(entries, prefix)) == entries_with_prefix(entries, prefix),
    decreases entries.len(),
{
    if entries.len() > 0 {
        let front = entries.drop_last();
        list_scans_show_what_has_the_prefix(front, prefix);
        let item = prefix_item(entries.last(), prefix);
        assert(prefix_items(entries, prefix) =~= prefix_items(front, prefix).push(item));
        lemma_shown_push(prefix_items(front, prefix), item);
        lemma_shown_push(matching_items(front, prefix), item);
    }
}

/// A key scan shows the keys of the entries that an entry scan of the same
/// table and prefix shows, in the same order, and ends the same way.
pub proof fn key_scan_shows_keys_of_entry_scan(
    path: Seq<char>,
    bytes: Seq<u8>,
    prefix: Seq<u8>,
    paranoid_checks: bool,
)
    ensures
        shown_entries(key_scan_plan(path, bytes, prefix, paranoid_checks).items) == shown_entries(
            entry_scan_plan(path, bytes, prefix, paranoid_checks).items,
        ),
        key_scan_plan(path, bytes, prefix, paranoid_checks).end == entry_scan_plan(
            path,
            bytes,
            prefix,
            paranoid_checks,
        ).end,
{
    list_scans_show_what_has_the_prefix(
        custom_entries(path, bytes, paranoid_checks).entries,
        prefix,
    );
}

proof fn lemma_first_is_only(entries: Seq<Entry>, key: Seq<u8>)
    requires
        sorted(entries),
    ensures
        first_value(entries, key) == map_get(as_map(entries), key),
    decreases entries.len(),
{
    if entries.len() == 0 {
        assert(!has_key(entries, key));
    } else {
        let rest = entries.skip(1);
        assert forall|i: int, j: int| 0 <= i < j < rest.len() implies key_before(
            #[trigger] rest[i].0,
            #[trigger] rest[j].0,
        ) by {
            assert(rest[i] == entries[i + 1] && rest[j] == entries[j + 1]);
        }
        lemma_first_is_only(rest, key);
        if entries[0].0 == key {
            lemma_sorted_places(entries, 0);
        } else {
            if has_key(rest, key) {
                let i = place_of(rest, key);
                assert(entries[i + 1].0 == key);
                lemma_sorted_places(rest, i);
                lemma_sorted_places(entries, i + 1);
            }
            if has_key(entries, key) {
                let i = place_of(entries, key);
                assert(rest[i - 1].0 == key);
            }
        }
    }
}

/// A lookup in a list of entries in ascending order gives what the map of those
/// entries holds.
pub proof fn list_lookup_agrees_with_map(entries: Seq<Entry>, key: Seq<u8>)
    requires
        sorted(entries),
    ensures
        looked_up(complete(entries), key) == Ok::<Option<Seq<u8>>, ErrorView>(
            map_get(as_map(entries), key),
        ),
{
    lemma_first_is_only(entries, key);
}

/// A lookup of several keys in a list of entries in ascending order gives, at
/// each place, what the map of those entries holds under the key asked for there.
pub proof fn list_lookups_agree_with_map(entries: Seq<Entry>, keys: Seq<Seq<u8>>)
    requires
        sorted(entries),
    ensures
        all_looked_up(complete(entries), keys) == Ok::<Seq<Option<Seq<u8>>>, ErrorView>(
            Seq::new(keys.len(), |i: int| map_get(as_map(entries), keys[i])),
        ),
{
    let list = complete(entries);
    let values = all_looked_up(list, keys)->Ok_0;
    assert forall|i: int| 0 <= i < keys.len() implies #[trigger] values[i] == map_get(
        as_map(entries),
        keys[i],
    ) by {
        lookups_agree(list, keys, i);
        list_lookup_agrees_with_map(entries, keys[i]);
    }
    assert(values =~= Seq::new(keys.len(), |i: int| map_get(as_map(entries), keys[i])));
}

/// A scan without copies shows what a scan with copies shows, in the same order,
/// and counts the same: only that its values may be borrowed tells them apart. A
/// native table has to be readable for that, and for a prefix in order.
pub proof fn ref_scan_shows_what_entry_scan_shows(
    path: Seq<char>,
    bytes: Seq<u8>,
    prefix: Seq<u8>,
    paranoid_checks: bool,
)
    requires
        is_custom(bytes) || (!has_prefix(bytes, table_magic()) && {
            let index = table_index(path, bytes, paranoid_checks);
            let fetch = table_blocks(path, bytes, paranoid_checks);
            &&& index is Ok
            &&& readable(index->Ok_0, fetch)
            &&& prefix.len() > 0 ==> bounded(index->Ok_0, fetch) && ascending(
                all_entries(index->Ok_0, fetch),
            )
        }),
    ensures
        lend(ref_scan_plan(path, bytes, prefix, paranoid_checks), false) == entry_scan_plan(
            path,
            bytes,
            prefix,
            paranoid_checks,
        ),
{
    if is_custom(bytes) {
        let list = custom_entries(path, bytes, paranoid_checks);
        assert(lend(ref_scan_plan(path, bytes, prefix, paranoid_checks), false).items
            =~= prefix_items(list.entries, prefix));
    } else {
        let index = table_index(path, bytes, paranoid_checks)->Ok_0;
        let fetch = table_blocks(path, bytes, paranoid_checks);
        let reading = borrowed_blocks(bytes);
        let none = Set::empty();
        if prefix.len() == 0 {
            borrowing_changes_no_entry(index, none, everything(), fetch, reading, false);
        } else {
            borrowing_changes_no_entry(index, none, with_prefix(prefix), fetch, reading, false);
            prefix_scan_shows_what_has_the_prefix(index, prefix, fetch, whole_blocks());
        }
    }
}

/// What was written into a `BWLDB` table is read back from it, whichever way it
/// is read, with and without checksums, whatever its path is.
pub proof fn written_custom_table_reads_back(
    entries: Seq<Entry>,
    policy: CompressionPolicy,
    path: Seq<char>,
    paranoid_checks: bool,
    prefix: Seq<u8>,
    key: Seq<u8>,
    keys: Seq<Seq<u8>>,
)
    requires
        written_custom(entries, policy),
    ensures
        ({
            let bytes = custom_table(entries, policy)->Ok_0;
            &&& table_contents(path, bytes, paranoid_checks) == Ok::<
                Map<Seq<u8>, Seq<u8>>,
                ErrorView,
            >(as_map(entries))
            &&& table_lookup(path, bytes, key, paranoid_checks) == Ok::<
                Option<Seq<u8>>,
                ErrorView,
            >(map_get(as_map(entries), key))
            &&& table_lookups(path, bytes, keys, paranoid_checks) == Ok::<
                Seq<Option<Seq<u8>>>,
                ErrorView,
            >(Seq::new(keys.len(), |i: int| map_get(as_map(entries), keys[i])))
            &&& entry_scan_plan(path, bytes, prefix, paranoid_checks) == (ScanPlan {
                items: prefix_items(entries, prefix),
                end: ScanEnd::Done,
            })
            &&& ref_scan_plan(path, bytes, prefix, paranoid_checks) == (ScanPlan {
                items: lent_items(prefix_items(entries, prefix), policy is Uncompressed),
                end: ScanEnd::Done,
            })
            &&& key_scan_plan(path, bytes, prefix, paranoid_checks) == (ScanPlan {
                items: matching_items(entries, prefix),
                end: ScanEnd::Done,
            })
        }),
{
    custom_table_round_trip(entries, policy, path, paranoid_checks);
    list_lookup_agrees_with_map(entries, key);
    list_lookups_agree_with_map(entries, keys);
    let none = Seq::new(keys.len(), |i: int| map_get(as_map(entries), keys[i]));
    if keys.len() == 0 {
        assert(none =~= Seq::<Option<Seq<u8>>>::empty());
    }
}

proof fn lemma_everything_has_empty_prefix(items: Seq<ScanItem>)
    ensures
        prefixed(items, Seq::empty()) == items,
    decreases items.len(),
{
    if items.len() > 0 {
        assert(items[0].key.take(0) =~= Seq::<u8>::empty());
        lemma_everything_has_empty_prefix(items.skip(1));
    }
    assert(prefixed(items, Seq::empty()) =~= items);
}

/// What was written into a native table is read back from it, whichever way it
/// is read, with and without checksums, whatever its path is.
pub proof fn written_native_table_reads_back(
    entries: Seq<Entry>,
    sequence: u64,
    policy: CompressionPolicy,
    path: Seq<char>,
    paranoid_checks: bool,
    prefix: Seq<u8>,
    key: Seq<u8>,
    keys: Seq<Seq<u8>>,
)
    requires
        written(entries, sequence, policy),
    ensures
        ({
            let bytes = native_table(entries, sequence, policy)->Ok_0;
            let plan = ScanPlan {
                items: prefixed(every_entry(entries), prefix),
                end: ScanEnd::Done,
            };
            &&& table_contents(path, bytes, paranoid_checks) == Ok::<
                Map<Seq<u8>, Seq<u8>>,
                ErrorView,
            >(as_map(entries))
            &&& table_lookup(path, bytes, key, paranoid_checks) == Ok::<
                Option<Seq<u8>>,
                ErrorView,
            >(map_get(as_map(entries), key))
            &&& table_lookups(path, bytes, keys, paranoid_checks) == Ok::<
                Seq<Option<Seq<u8>>>,
                ErrorView,
            >(Seq::new(keys.len(), |i: int| map_get(as_map(entries), keys[i])))
            &&& entry_scan_plan(path, bytes, prefix, paranoid_checks) == plan
            &&& key_scan_plan(path, bytes, prefix, paranoid_checks) == plan
            &&& ref_scan_plan(path, bytes, prefix, paranoid_checks) == lend(
                plan,
                policy is Uncompressed,
            )
        }),
{
    let items = every_entry(entries);
    written_table_is_native(entries, sequence, policy);
    written_table_reads_back(entries, sequence, policy, path, paranoid_checks);
    written_table_looks_up(entries, sequence, policy, path, paranoid_checks, key);
    written_table_looks_up_several(entries, sequence, policy, path, paranoid_checks, keys);
    assert(lent_items(items, false) =~= items);
    if prefix.len() == 0 {
        assert(prefix =~= Seq::<u8>::empty());
        lemma_everything_has_empty_prefix(items);
        written_table_scans_back(entries, sequence, policy, path, paranoid_checks, false);
        written_table_scans_back(entries, sequence, policy, path, paranoid_checks, true);
    } else {
        lemma_prefixed_lent(items, prefix, policy is Uncompressed);
        written_table_scans_prefix_back(
            entries,
            sequence,
            policy,
            path,
            paranoid_checks,
            prefix,
            false,
        );
        written_table_scans_prefix_back(
            entries,
            sequence,
            policy,
            path,
            paranoid_checks,
            prefix,
            true,
        );
    }
    let none = Seq::new(keys.len(), |i: int| map_get(as_map(entries), keys[i]));
    if keys.len() == 0 {
        assert(none =~= Seq::<Option<Seq<u8>>>::empty());
    }
}

// ---------------------------------------------------------------------------
// Lookups of several keys.

/// A lookup of several keys answers each place as a lookup of its key alone
/// would. The blocks of a native table have to be in order for that.
pub proof fn lookups_answer_as_single_lookups(
    path: Seq<char>,
    bytes: Seq<u8>,
    keys: Seq<Seq<u8>>,
    paranoid_checks: bool,
    i: int,
)
    requires
        0 <= i < keys.len(),
        table_lookups(path, bytes, keys, paranoid_checks) is Ok,
        has_prefix(bytes, table_magic()) || {
            let index = table_index(path, bytes, paranoid_checks);
            let fetch = table_blocks(path, bytes, paranoid_checks);
            &&& index is Ok
            &&& bounded(index->Ok_0, fetch)
            &&& separated(index->Ok_0, fetch)
            &&& ascending(all_entries(index->Ok_0, fetch))
        },
    ensures
        table_lookups(path, bytes, keys, paranoid_checks)->Ok_0.len() == keys.len(),
        table_lookup(path, bytes, keys[i], paranoid_checks) == Ok::<Option<Seq<u8>>, ErrorView>(
            table_lookups(path, bytes, keys, paranoid_checks)->Ok_0[i],
        ),
{
    if has_prefix(bytes, table_magic()) {
        lookups_agree(custom_entries(path, bytes, paranoid_checks), keys, i);
    } else {
        let index = table_index(path, bytes, paranoid_checks)->Ok_0;
        let fetch = table_blocks(path, bytes, paranoid_checks);
        lookup_agrees_with_table(index, keys[i], fetch);
        lookups_agree_with_table(keys, index, fetch);
    }
}

// ---------------------------------------------------------------------------
// Key scans.

/// Every item of a key scan is shown, and has a key that starts with the prefix.
pub proof fn key_scan_shows_only_the_prefix(
    path: Seq<char>,
    bytes: Seq<u8>,
    prefix: Seq<u8>,
    paranoid_checks: bool,
)
    ensures
        shows_prefix_only(key_scan_plan(path, bytes, prefix, paranoid_checks).items, prefix),
{
    if has_prefix(bytes, table_magic()) {
        lemma_matching_has_prefix(
            custom_entries(path, bytes, paranoid_checks).entries,
            prefix,
        );
    } else if let Ok(index) = table_index(path, bytes, paranoid_checks) {
        let fetch = table_blocks(path, bytes, paranoid_checks);
        let selection = if prefix.len() == 0 {
            assert(prefix =~= Seq::<u8>::empty());
            everything()
        } else {
            within_prefix(prefix)
        };
        scan_shows_only_the_prefix(index, Set::empty(), selection, fetch, whole_blocks());
    }
}

proof fn lemma_matching_has_prefix(entries: Seq<Entry>, prefix: Seq<u8>)
    ensures
        shows_prefix_only(matching_items(entries, prefix), prefix),
    decreases entries.len(),
{
    if entries.len() > 0 {
        lemma_matching_has_prefix(entries.drop_last(), prefix);
    }
}

proof fn lemma_all_shown(items: Seq<ScanItem>, prefix: Seq<u8>)
    requires
        shows_prefix_only(items, prefix),
    ensures
        shown_entries(items).len() == items.len(),
    decreases items.len(),
{
    if items.len() > 0 {
        let rest = items.skip(1);
        assert(items[0].shown);
        assert forall|i: int| 0 <= i < rest.len() implies (#[trigger] rest[i]).shown && has_prefix(
            rest[i].key,
            prefix,
        ) by {
            assert(rest[i] == items[i + 1]);
        }
        lemma_all_shown(rest, prefix);
    }
}

/// A key scan by a visitor that never stops reports how often the visitor was
/// called, that it was not stopped, and one table.
pub proof fn key_scan_reports_its_calls<V: Visitor>(
    path: Seq<char>,
    bytes: Seq<u8>,
    prefix: Seq<u8>,
    paranoid_checks: bool,
    before: V,
    after: V,
    r: Result<ScanOutcome, ErrorView>,
)
    requires
        always_continues::<V>(),
        scans(before, key_scan_plan(path, bytes, prefix, paranoid_checks), after, r),
    ensures
        ({
            let plan = key_scan_plan(path, bytes, prefix, paranoid_checks);
            match plan.end {
                ScanEnd::Failed(error) => r == Err::<ScanOutcome, ErrorView>(error),
                _ => {
                    &&& r is Ok
                    &&& r->Ok_0.visited == capped_sum(0, shown_entries(plan.items).len())
                    &&& r->Ok_0.bytes_read == capped_sum(0, value_bytes(plan.items))
                    &&& !r->Ok_0.stopped
                    &&& r->Ok_0.tables_scanned == 1
                },
            }
        }),
{
    let plan = key_scan_plan(path, bytes, prefix, paranoid_checks);
    let result = choose|result: ScanResult| #[trigger]
        runs(before, plan, empty_outcome(), after, result) && r == table_result(result);
    steady_visitor_gets_to_the_end(before, plan, empty_outcome(), after, result);
    tally_counts_every_item(empty_outcome(), plan.items);
    key_scan_shows_only_the_prefix(path, bytes, prefix, paranoid_checks);
    lemma_all_shown(plan.items, prefix);
}

/// Whether `bytes` are a table, of either format, into which `entries` were
/// written.
pub open spec fn written_into(entries: Seq<Entry>, bytes: Seq<u8>) -> bool {
    ||| exists|policy: CompressionPolicy| #[trigger]
        written_custom(entries, policy) && bytes == custom_table(entries, policy)->Ok_0
    ||| exists|sequence: u64, policy: CompressionPolicy| #[trigger]
        written(entries, sequence, policy) && bytes == native_table(
            entries,
            sequence,
            policy,
        )->Ok_0
}

proof fn lemma_prefixed_entries(entries: Seq<Entry>, prefix: Seq<u8>)
    ensures
        shown_entries(prefixed(every_entry(entries), prefix)) == entries_with_prefix(
            entries,
            prefix,
        ),
    decreases entries.len(),
{
    let items = every_entry(entries);
    if entries.len() == 0 {
        assert(prefixed(items, prefix) =~= Seq::<ScanItem>::empty());
    } else {
        let front = every_entry(entries.drop_last());
        let last = items.last();
        lemma_prefixed_entries(entries.drop_last(), prefix);
        assert(items =~= front + seq![last]);
        lemma_prefixed_concat(front, seq![last], prefix);
        assert(seq![last].skip(1) =~= Seq::<ScanItem>::empty());
        let tail = prefixed(seq![last].skip(1), prefix);
        assert(tail =~= Seq::<ScanItem>::empty());
        if has_prefix(last.key, prefix) {
            assert(prefixed(seq![last], prefix) =~= seq![last]);
            assert(prefixed(items, prefix) =~= prefixed(front, prefix).push(last));
            lemma_shown_push(prefixed(front, prefix), last);
        } else {
            assert(prefixed(items, prefix) =~= prefixed(front, prefix));
        }
    }
}

/// The entries with a prefix are in the order of all entries.
pub proof fn entries_with_prefix_are_sorted(entries: Seq<Entry>, prefix: Seq<u8>)
    requires
        sorted(entries),
    ensures
        sorted(entries_with_prefix(entries, prefix)),
        forall|entry: Entry| #[trigger]
            entries_with_prefix(entries, prefix).contains(entry) <==> entries.contains(entry)
                && has_prefix(entry.0, prefix),
    decreases entries.len(),
{
    let kept = entries_with_prefix(entries, prefix);
    if entries.len() > 0 {
        let front = entries.drop_last();
        let last = entries.last();
        let kept_front = entries_with_prefix(front, prefix);
        assert forall|i: int, j: int| 0 <= i < j < front.len() implies key_before(
            #[trigger] front[i].0,
            #[trigger] front[j].0,
        ) by {
            assert(front[i] == entries[i] && front[j] == entries[j]);
        }
        entries_with_prefix_are_sorted(front, prefix);
        assert(entries =~= front.push(last));
        if has_prefix(last.0, prefix) {
            assert forall|i: int, j: int| 0 <= i < j < kept.len() implies key_before(
                #[trigger] kept[i].0,
                #[trigger] kept[j].0,
            ) by {
                assert(kept_front[i] == kept[i]);
                if j < kept_front.len() {
                    assert(kept_front[j] == kept[j]);
                } else {
                    assert(kept_front.contains(kept[i]));
                    let at = choose|at: int| 0 <= at < front.len() && front[at] == kept[i];
                    assert(entries[at] == front[at]);
                    assert(key_before(entries[at].0, entries[entries.len() - 1].0));
                }
            }
        }
        assert forall|entry: Entry| #[trigger] kept.contains(entry) <==> entries.contains(entry)
            && has_prefix(entry.0, prefix) by {
            lemma_contains_push(front, last, entry);
            lemma_contains_push(kept_front, last, entry);
            assert(kept_front.contains(entry) <==> front.contains(entry) && has_prefix(
                entry.0,
                prefix,
            ));
        }
    }
}

proof fn lemma_contains_push(entries: Seq<Entry>, last: Entry, entry: Entry)
    ensures
        entries.push(last).contains(entry) <==> entries.contains(entry) || entry == last,
{
    let longer = entries.push(last);
    if entries.contains(entry) {
        let i = choose|i: int| 0 <= i < entries.len() && entries[i] == entry;
        assert(longer[i] == entry);
    }
    assert(longer[entries.len() as int] == last);
    if longer.contains(entry) && entry != last {
        let i = choose|i: int| 0 <= i < longer.len() && longer[i] == entry;
        assert(entries[i] == entry);
    }
}

/// A key scan of a written table by a visitor that never stops shows exactly the
/// keys with the prefix, in ascending order and each of them once, and reports
/// how many there are.
pub proof fn written_table_lists_its_keys<V: Visitor>(
    entries: Seq<Entry>,
    path: Seq<char>,
    bytes: Seq<u8>,
    prefix: Seq<u8>,
    paranoid_checks: bool,
    before: V,
    after: V,
    r: Result<ScanOutcome, ErrorView>,
)
    requires
        written_into(entries, bytes),
        always_continues::<V>(),
        scans(before, key_scan_plan(path, bytes, prefix, paranoid_checks), after, r),
    ensures
        shown_entries(key_scan_plan(path, bytes, prefix, paranoid_checks).items)
            == entries_with_prefix(entries, prefix),
        sorted(entries_with_prefix(entries, prefix)),
        r is Ok,
        r->Ok_0.visited == capped_sum(0, entries_with_prefix(entries, prefix).len()),
        !r->Ok_0.stopped,
        r->Ok_0.tables_scanned == 1,
{
    lemma_written_into(entries, path, bytes, prefix, paranoid_checks);
    entries_with_prefix_are_sorted(entries, prefix);
    key_scan_reports_its_calls(path, bytes, prefix, paranoid_checks, before, after, r);
}

proof fn lemma_written_into(
    entries: Seq<Entry>,
    path: Seq<char>,
    bytes: Seq<u8>,
    prefix: Seq<u8>,
    paranoid_checks: bool,
)
    requires
        written_into(entries, bytes),
    ensures
        sorted(entries),
        key_scan_plan(path, bytes, prefix, paranoid_checks).end is Done,
        shown_entries(key_scan_plan(path, bytes, prefix, paranoid_checks).items)
            == entries_with_prefix(entries, prefix),
{
    let none = Seq::empty();
    if exists|policy: CompressionPolicy| #[trigger]
        written_custom(entries, policy) && bytes == custom_table(entries, policy)->Ok_0 {
        let policy = choose|policy: CompressionPolicy| #[trigger]
            written_custom(entries, policy) && bytes == custom_table(entries, policy)->Ok_0;
        written_custom_table_reads_back(
            entries,
            policy,
            path,
            paranoid_checks,
            prefix,
            prefix,
            none,
        );
        list_scans_show_what_has_the_prefix(entries, prefix);
    } else {
        let (sequence, policy) = choose|sequence: u64, policy: CompressionPolicy| #[trigger]
            written(entries, sequence, policy) && bytes == native_table(
                entries,
                sequence,
                policy,
            )->Ok_0;
        written_native_table_reads_back(
            entries,
            sequence,
            policy,
            path,
            paranoid_checks,
            prefix,
            prefix,
            none,
        );
        lemma_prefixed_entries(entries, prefix);
    }
}

/// A collector of keys that scans a written table keeps exactly the keys with
/// the prefix, in ascending order.
pub proof fn key_collector_lists_written_keys(
    entries: Seq<Entry>,
    path: Seq<char>,
    bytes: Seq<u8>,
    prefix: Seq<u8>,
    paranoid_checks: bool,
    before: KeyCollector,
    after: KeyCollector,
    r: Result<ScanOutcome, ErrorView>,
)
    requires
        written_into(entries, bytes),
        scans(before, key_scan_plan(path, bytes, prefix, paranoid_checks), after, r),
    ensures
        after.kept() == before.kept() + entry_keys(entries_with_prefix(entries, prefix)),
        r is Ok,
        r->Ok_0.visited == capped_sum(0, entries_with_prefix(entries, prefix).len()),
{
    let plan = key_scan_plan(path, bytes, prefix, paranoid_checks);
    let result = choose|result: ScanResult| #[trigger]
        runs(before, plan, empty_outcome(), after, result) && r == table_result(result);
    key_collector_keeps_what_is_shown(before, plan, empty_outcome(), after, result);
    written_table_lists_its_keys(
        entries,
        path,
        bytes,
        prefix,
        paranoid_checks,
        before,
        after,
        r,
    );
}

// ---------------------------------------------------------------------------
// Which format a table has.

/// Scans with copies and lookups go by the nine letters alone; scans without
/// copies and whole reads ask for a whole header too. A native table is scanned
/// as a whole for an empty prefix, and within the prefix otherwise; without copies
/// it is read to its end.
pub proof fn tables_are_told_apart_by_their_letters(
    path: Seq<char>,
    bytes: Seq<u8>,
    prefix: Seq<u8>,
    paranoid_checks: bool,
)
    ensures
        ({
            let lettered = bytes.len() >= 9 && bytes[0] == 0x42 && bytes[1] == 0x57 && bytes[2]
                == 0x4c && bytes[3] == 0x44 && bytes[4] == 0x42 && bytes[5] == 0x54 && bytes[6]
                == 0x42 && bytes[7] == 0x4c && bytes[8] == 0x31;
            let list = custom_entries(path, bytes, paranoid_checks);
            let selection = if prefix.len() == 0 {
                everything()
            } else {
                within_prefix(prefix)
            };
            let lazy_selection = if prefix.len() == 0 {
                everything()
            } else {
                with_prefix(prefix)
            };
            let entry_plan = entry_scan_plan(path, bytes, prefix, paranoid_checks);
            let key_plan = key_scan_plan(path, bytes, prefix, paranoid_checks);
            let ref_plan = ref_scan_plan(path, bytes, prefix, paranoid_checks);
            &&& lettered ==> entry_plan == prefix_plan(list, prefix)
            &&& lettered ==> key_plan == matching_plan(list, prefix)
            &&& !lettered ==> entry_plan == table_plan(
                path,
                bytes,
                paranoid_checks,
                selection,
                whole_blocks(),
            )
            &&& !lettered ==> key_plan == entry_plan
            &&& lettered && bytes.len() >= 18 ==> ref_plan == custom_ref_plan(
                path,
                bytes,
                prefix,
                paranoid_checks,
            )
            &&& !(lettered && bytes.len() >= 18) ==> ref_plan == table_plan(
                path,
                bytes,
                paranoid_checks,
                lazy_selection,
                borrowed_blocks(bytes),
            )
        }),
{
    tables_start_with_their_letters(bytes);
}

/// Whether two results are the same, but that corruption which names no file is
/// tied to `path` in the second.
pub open spec fn same_but_for_path<T>(
    r: Result<T, ErrorView>,
    named: Result<T, ErrorView>,
    path: Seq<char>,
) -> bool {
    match r {
        Ok(value) => named == Ok::<T, ErrorView>(value),
        Err(ErrorView::Corruption { path: None, message }) => named == Err::<T, ErrorView>(
            ErrorView::Corruption { path: Some(path), message },
        ),
        Err(error) => named == Err::<T, ErrorView>(error),
    }
}

/// Reads and lookups give what those of the format of the table give, and name
/// the table in errors that name none. A lookup of no keys gives nothing and does
/// not look at the table.
pub proof fn reads_go_by_the_format_and_name_the_table(
    path: Seq<char>,
    bytes: Seq<u8>,
    paranoid_checks: bool,
    key: Seq<u8>,
    keys: Seq<Seq<u8>>,
)
    ensures
        ({
            let lettered = bytes.len() >= 9 && bytes[0] == 0x42 && bytes[1] == 0x57 && bytes[2]
                == 0x4c && bytes[3] == 0x44 && bytes[4] == 0x42 && bytes[5] == 0x54 && bytes[6]
                == 0x42 && bytes[7] == 0x4c && bytes[8] == 0x31;
            let list = custom_entries(path, bytes, paranoid_checks);
            let map = table_contents(path, bytes, paranoid_checks);
            let one = table_lookup(path, bytes, key, paranoid_checks);
            let several = table_lookups(path, bytes, keys, paranoid_checks);
            &&& lettered && bytes.len() >= 18 ==> same_but_for_path(
                custom_contents(path, bytes, paranoid_checks),
                map,
                path,
            )
            &&& !(lettered && bytes.len() >= 18) ==> same_but_for_path(
                native_contents(path, bytes, paranoid_checks),
                map,
                path,
            )
            &&& lettered ==> same_but_for_path(looked_up(list, key), one, path)
            &&& !lettered ==> same_but_for_path(
                native_lookup(path, bytes, key, paranoid_checks),
                one,
                path,
            )
            &&& keys.len() == 0 ==> several is Ok && several->Ok_0.len() == 0
            &&& keys.len() > 0 && lettered ==> same_but_for_path(
                all_looked_up(list, keys),
                several,
                path,
            )
            &&& keys.len() > 0 && !lettered ==> same_but_for_path(
                native_lookups(path, bytes, keys, paranoid_checks),
                several,
                path,
            )
        }),
{
    tables_start_with_their_letters(bytes);
}

// ---------------------------------------------------------------------------
// Results.

/// What reads, lookups and codecs return is seen as the bytes that it holds.
pub proof fn results_are_seen_as_they_are(
    bytes: Result<Vec<u8>, LevelDbError>,
    block: Result<Bytes, LevelDbError>,
    value: Result<Option<Bytes>, LevelDbError>,
    values: Result<Vec<Option<Bytes>>, LevelDbError>,
    entries: Result<Vec<(Vec<u8>, Bytes)>, LevelDbError>,
    map: Result<KeyMap<Bytes>, LevelDbError>,
    keys: Seq<Bytes>,
    i: int,
)
    ensures
        match bytes {
            Ok(found) => bytes_result(bytes) == Ok::<Seq<u8>, ErrorView>(found@),
            Err(error) => bytes_result(bytes) == Err::<Seq<u8>, ErrorView>(error@),
        },
        match block {
            Ok(found) => block_view(block) == Ok::<Seq<u8>, ErrorView>(contents(found)),
            Err(error) => block_view(block) == Err::<Seq<u8>, ErrorView>(error@),
        },
        match value {
            Ok(Some(found)) => lookup_view(value) == Ok::<Option<Seq<u8>>, ErrorView>(
                Some(contents(found)),
            ),
            Ok(None) => lookup_view(value) == Ok::<Option<Seq<u8>>, ErrorView>(None),
            Err(error) => lookup_view(value) == Err::<Option<Seq<u8>>, ErrorView>(error@),
        },
        match values {
            Ok(found) => {
                &&& lookups_view(values) is Ok
                &&& lookups_view(values)->Ok_0.len() == found@.len()
                &&& 0 <= i < found@.len() ==> match found@[i] {
                    Some(one) => lookups_view(values)->Ok_0[i] == Some(contents(one)),
                    None => lookups_view(values)->Ok_0[i] is None,
                }
            },
            Err(error) => lookups_view(values) == Err::<Seq<Option<Seq<u8>>>, ErrorView>(error@),
        },
        match entries {
            Ok(found) => {
                &&& entries_view(entries) is Ok
                &&& entries_view(entries)->Ok_0.len() == found@.len()
                &&& 0 <= i < found@.len() ==> entries_view(entries)->Ok_0[i] == (
                    found@[i].0@,
                    contents(found@[i].1),
                )
            },
            Err(error) => entries_view(entries) == Err::<Seq<Entry>, ErrorView>(error@),
        },
        match map {
            Ok(found) => {
                &&& map_view(map) is Ok
                &&& sorted(found@) && 0 <= i < found@.len() ==> map_get(
                    map_view(map)->Ok_0,
                    found@[i].0,
                ) == Some(contents(found@[i].1))
                &&& forall|key: Seq<u8>| #[trigger]
                    map_view(map)->Ok_0.contains_key(key) ==> exists|k: int|
                        0 <= k < found@.len() && (#[trigger] found@[k]).0 == key
            },
            Err(error) => map_view(map) == Err::<Map<Seq<u8>, Seq<u8>>, ErrorView>(error@),
        },
        all_contents(keys).len() == keys.len(),
        0 <= i < keys.len() ==> all_contents(keys)[i] == contents(keys[i]),
{
    if let Ok(found) = map {
        let pairs = entry_pairs(found@);
        if sorted(found@) && 0 <= i < found@.len() {
            assert forall|x: int, y: int| 0 <= x < y < pairs.len() implies key_before(
                #[trigger] pairs[x].0,
                #[trigger] pairs[y].0,
            ) by {
                assert(key_before(found@[x].0, found@[y].0));
            }
            lemma_sorted_places(pairs, i);
        }
        assert forall|key: Seq<u8>| #[trigger]
            map_view(map)->Ok_0.contains_key(key) implies exists|k: int|
            0 <= k < found@.len() && (#[trigger] found@[k]).0 == key by {
            let k = place_of(pairs, key);
            assert(has_key(pairs, key));
            assert(found@[k].0 == key);
        }
    }
}

} // verus!
