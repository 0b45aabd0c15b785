//! Visitors that keep what they are shown.
use crate::blob::{contents, ValueRef};
use crate::error::{ErrorView, LevelDbError};
use crate::keys::Entry;
use crate::options::{capped_sum, empty_outcome, halted, recorded, ScanOutcome, VisitorControl};
use crate::scan::{
    end_result, runs, scans, table_result, Answer, EntryVisitor, KeyVisitor, ScanEnd, ScanItem,
    ScanPlan, ScanResult, Visitor,
};
use bytes::Bytes;
use vstd::prelude::*;
use vstd::slice::slice_to_vec;

verus! {

/// Owned entries as the bytes that they hold.
pub open spec fn owned_entries(entries: Seq<(Vec<u8>, Bytes)>) -> Seq<Entry> {
    Seq::new(entries.len(), |i: int| (entries[i].0@, contents(entries[i].1)))
}

/// The entries that a visitor who does not stop is shown.
pub open spec fn shown_entries(items: Seq<ScanItem>) -> Seq<Entry>
    decreases items.len(),
{
    if items.len() == 0 {
        Seq::empty()
    } else if items[0].shown {
        seq![(items[0].key, items[0].value)] + shown_entries(items.skip(1))
    } else {
        shown_entries(items.skip(1))
    }
}

/// What is counted where the visitor does not stop.
pub open spec fn tally(outcome: ScanOutcome, items: Seq<ScanItem>) -> ScanOutcome
    decreases items.len(),
{
    if items.len() == 0 {
        outcome
    } else {
        tally(recorded(outcome, items[0].value.len()), items.skip(1))
    }
}

/// The value bytes of items.
pub open spec fn value_bytes(items: Seq<ScanItem>) -> nat
    decreases items.len(),
{
    if items.len() == 0 {
        0
    } else {
        items[0].value.len() + value_bytes(items.skip(1))
    }
}

/// What is counted: every item, and the bytes of its value, up to the largest
/// `usize`.
pub proof fn tally_counts_every_item(outcome: ScanOutcome, items: Seq<ScanItem>)
    ensures
        tally(outcome, items) == (ScanOutcome {
            visited: capped_sum(outcome.visited, items.len()),
            bytes_read: capped_sum(outcome.bytes_read, value_bytes(items)),
            ..outcome
        }),
    decreases items.len(),
{
    if items.len() > 0 {
        tally_counts_every_item(recorded(outcome, items[0].value.len()), items.skip(1));
    }
}

/// Whether a visitor never stops and never fails.
pub open spec fn always_continues<V: Visitor>() -> bool {
    forall|
        before: V,
        key: Seq<u8>,
        value: Seq<u8>,
        borrowed: bool,
        after: V,
        answer: Answer,
    | #[trigger]
        V::visits(before, key, value, borrowed, after, answer) ==> answer == Ok::<
            VisitorControl,
            ErrorView,
        >(VisitorControl::Continue)
}

/// A visitor that never stops and never fails is shown all there is to show: the
/// scan gets to the end of its plan, and counts every item of it.
pub proof fn steady_visitor_gets_to_the_end<V: Visitor>(
    before: V,
    plan: ScanPlan,
    outcome: ScanOutcome,
    after: V,
    result: ScanResult,
)
    requires
        runs(before, plan, outcome, after, result),
        always_continues::<V>(),
    ensures
        result == end_result(plan.end, tally(outcome, plan.items)),
    decreases plan.items.len(),
{
    if plan.items.len() > 0 {
        let item = plan.items[0];
        let rest = ScanPlan { items: plan.items.skip(1), end: plan.end };
        let counted = recorded(outcome, item.value.len());
        if item.shown {
            let (mid, answer) = choose|mid: V, answer: Answer| #[trigger]
                V::visits(before, item.key, item.value, item.borrowed, mid, answer)
                    && match answer {
                    Err(error) => after == mid && result == ScanResult::Failed(error),
                    Ok(VisitorControl::Stop) => after == mid && result == ScanResult::Done(
                        halted(counted),
                    ),
                    Ok(VisitorControl::Continue) => runs(mid, rest, counted, after, result),
                };
            steady_visitor_gets_to_the_end(mid, rest, counted, after, result);
        } else {
            steady_visitor_gets_to_the_end(before, rest, counted, after, result);
        }
    }
}

/// A visitor that keeps every entry.
pub struct EntryCollector {
    entries: Vec<(Vec<u8>, Bytes)>,
}

impl EntryCollector {
    /// The entries that were kept.
    pub closed spec fn kept(&self) -> Seq<Entry> {
        owned_entries(self.entries@)
    }

    /// A collector that has not kept anything.
    pub fn new() -> (r: EntryCollector)
        ensures
            r.kept() == Seq::<Entry>::empty(),
    {
        let r = EntryCollector { entries: Vec::new() };
        assert(r.kept() =~= Seq::<Entry>::empty());
        r
    }

    /// Hands the entries out.
    pub fn into_entries(self) -> (r: Vec<(Vec<u8>, Bytes)>)
        ensures
            owned_entries(r@) == self.kept(),
    {
        self.entries
    }
}

impl Visitor for EntryCollector {
    open spec fn visits(
        before: Self,
        key: Seq<u8>,
        value: Seq<u8>,
        borrowed: bool,
        after: Self,
        answer: Answer,
    ) -> bool {
        &&& after.kept() == before.kept().push((key, value))
        &&& answer == Ok::<VisitorControl, ErrorView>(VisitorControl::Continue)
    }
}

impl EntryVisitor for EntryCollector {
    fn visit(&mut self, key: &[u8], value: ValueRef<'_>) -> (r: Result<
        VisitorControl,
        LevelDbError,
    >) {
        self.entries.push((slice_to_vec(key), value.to_bytes()));
        assert(self.kept() =~= old(self).kept().push((key@, value@)));
        Ok(VisitorControl::Continue)
    }
}

/// A collector of entries keeps those that the scan shows, in its order, and
/// the scan gets to its end.
pub proof fn entry_collector_keeps_what_is_shown(
    before: EntryCollector,
    plan: ScanPlan,
    outcome: ScanOutcome,
    after: EntryCollector,
    result: ScanResult,
)
    requires
        runs(before, plan, outcome, after, result),
    ensures
        after.kept() == before.kept() + shown_entries(plan.items),
        result == end_result(plan.end, tally(outcome, plan.items)),
    decreases plan.items.len(),
{
    if plan.items.len() > 0 {
        let item = plan.items[0];
        let rest = ScanPlan { items: plan.items.skip(1), end: plan.end };
        let counted = recorded(outcome, item.value.len());
        if item.shown {
            let (mid, answer) = choose|mid: EntryCollector, answer: Answer| #[trigger]
                EntryCollector::visits(before, item.key, item.value, item.borrowed, mid, answer)
                    && match answer {
                    Err(error) => after == mid && result == ScanResult::Failed(error),
                    Ok(VisitorControl::Stop) => after == mid && result == ScanResult::Done(
                        halted(counted),
                    ),
                    Ok(VisitorControl::Continue) => runs(mid, rest, counted, after, result),
                };
            entry_collector_keeps_what_is_shown(mid, rest, counted, after, result);
        } else {
            entry_collector_keeps_what_is_shown(before, rest, counted, after, result);
        }
    }
    assert(after.kept() =~= before.kept() + shown_entries(plan.items));
}

/// A visitor that keeps every key.
pub struct KeyCollector {
    keys: Vec<Vec<u8>>,
}

/// Owned keys as the bytes that they hold.
pub open spec fn key_bytes(keys: Seq<Vec<u8>>) -> Seq<Seq<u8>> {
    Seq::new(keys.len(), |i: int| keys[i]@)
}

/// The keys of entries.
pub open spec fn entry_keys(entries: Seq<Entry>) -> Seq<Seq<u8>> {
    Seq::new(entries.len(), |i: int| entries[i].0)
}

impl KeyCollector {
    /// The keys that were kept.
    pub closed spec fn kept(&self) -> Seq<Seq<u8>> {
        key_bytes(self.keys@)
    }

    /// A collector that has not kept anything.
    pub fn new() -> (r: KeyCollector)
        ensures
            r.kept() == Seq::<Seq<u8>>::empty(),
    {
        let r = KeyCollector { keys: Vec::new() };
        assert(r.kept() =~= Seq::<Seq<u8>>::empty());
        r
    }

    /// Hands the keys out.
    pub fn into_keys(self) -> (r: Vec<Vec<u8>>)
        ensures
            key_bytes(r@) == self.kept(),
    {
        self.keys
    }
}

impl Visitor for KeyCollector {
    open spec fn visits(
        before: Self,
        key: Seq<u8>,
        value: Seq<u8>,
        borrowed: bool,
        after: Self,
        answer: Answer,
    ) -> bool {
        &&& after.kept() == before.kept().push(key)
        &&& answer == Ok::<VisitorControl, ErrorView>(VisitorControl::Continue)
    }
}

impl KeyVisitor for KeyCollector {
    fn visit_key(&mut self, key: &[u8]) -> (r: Result<VisitorControl, LevelDbError>) {
        self.keys.push(slice_to_vec(key));
        assert(self.kept() =~= old(self).kept().push(key@));
        Ok(VisitorControl::Continue)
    }
}

/// A collector of keys keeps those that the scan shows, in its order, and the
/// scan gets to its end.
pub proof fn key_collector_keeps_what_is_shown(
    before: KeyCollector,
    plan: ScanPlan,
    outcome: ScanOutcome,
    after: KeyCollector,
    result: ScanResult,
)
    requires
        runs(before, plan, outcome, after, result),
    ensures
        after.kept() == before.kept() + entry_keys(shown_entries(plan.items)),
        result == end_result(plan.end, tally(outcome, plan.items)),
    decreases plan.items.len(),
{
    if plan.items.len() > 0 {
        let item = plan.items[0];
        let rest = ScanPlan { items: plan.items.skip(1), end: plan.end };
        let counted = recorded(outcome, item.value.len());
        if item.shown {
            let (mid, answer) = choose|mid: KeyCollector, answer: Answer| #[trigger]
                KeyCollector::visits(before, item.key, item.value, item.borrowed, mid, answer)
                    && match answer {
                    Err(error) => after == mid && result == ScanResult::Failed(error),
                    Ok(VisitorControl::Stop) => after == mid && result == ScanResult::Done(
                        halted(counted),
                    ),
                    Ok(VisitorControl::Continue) => runs(mid, rest, counted, after, result),
                };
            key_collector_keeps_what_is_shown(mid, rest, counted, after, result);
        } else {
            key_collector_keeps_what_is_shown(before, rest, counted, after, result);
        }
    }
    assert(after.kept() =~= before.kept() + entry_keys(shown_entries(plan.items)));
}

// ---------------------------------------------------------------------------
// Where a scan ends.

/// A visitor is shown the items of a plan in turn, each after it was counted,
/// and exactly those that the plan shows. The scan gets behind an item that is
/// shown only where the visitor wants it to go on. A visitor that stops ends the
/// scan right there, with that item counted and the stop reported; one that fails
/// ends it with its error.
pub proof fn visitors_decide_how_far_a_scan_goes<V: Visitor>(
    before: V,
    item: ScanItem,
    rest: ScanPlan,
    outcome: ScanOutcome,
    after: V,
    result: ScanResult,
)
    ensures
        ({
            let plan = ScanPlan { items: seq![item] + rest.items, end: rest.end };
            let counted = ScanOutcome {
                visited: capped_sum(outcome.visited, 1),
                bytes_read: capped_sum(outcome.bytes_read, item.value.len()),
                ..outcome
            };
            &&& !item.shown ==> (runs(before, plan, outcome, after, result) <==> runs(
                before,
                rest,
                counted,
                after,
                result,
            ))
            &&& item.shown ==> (runs(before, plan, outcome, after, result) <==> exists|
                next: V,
                answer: Answer,
            |
                #![trigger V::visits(before, item.key, item.value, item.borrowed, next, answer)]
                V::visits(before, item.key, item.value, item.borrowed, next, answer)
                    && match answer {
                    Ok(VisitorControl::Continue) => runs(next, rest, counted, after, result),
                    Ok(VisitorControl::Stop) => after == next && result == ScanResult::Done(
                        ScanOutcome { stopped: true, ..counted },
                    ),
                    Err(error) => after == next && result == ScanResult::Failed(error),
                })
        }),
{
    let plan = ScanPlan { items: seq![item] + rest.items, end: rest.end };
    let tail = ScanPlan { items: plan.items.skip(1), end: plan.end };
    assert(plan.items[0] == item);
    assert(tail.items =~= rest.items);
    assert(tail == rest);
    if item.shown && runs(before, plan, outcome, after, result) {
        let counted = recorded(outcome, item.value.len());
        let (next, answer) = choose|next: V, answer: Answer| #[trigger]
            V::visits(before, item.key, item.value, item.borrowed, next, answer) && match answer {
                Err(error) => after == next && result == ScanResult::Failed(error),
                Ok(VisitorControl::Stop) => after == next && result == ScanResult::Done(
                    halted(counted),
                ),
                Ok(VisitorControl::Continue) => runs(next, tail, counted, after, result),
            };
        assert(V::visits(before, item.key, item.value, item.borrowed, next, answer));
    }
}

/// A plan without items changes nothing, and ends as it says. A table that was
/// scanned to its end, or to a stop, is counted once; one that failed is an error.
pub proof fn scans_end_as_planned<V: Visitor>(
    before: V,
    end: ScanEnd,
    outcome: ScanOutcome,
    after: V,
    result: ScanResult,
    plan: ScanPlan,
    r: Result<ScanOutcome, ErrorView>,
)
    ensures
        runs(before, ScanPlan { items: Seq::empty(), end }, outcome, after, result) <==> after
            == before && match end {
            ScanEnd::More => result == ScanResult::More(outcome),
            ScanEnd::Done => result == ScanResult::Done(outcome),
            ScanEnd::Failed(error) => result == ScanResult::Failed(error),
        },
        scans(before, plan, after, r) <==> exists|became: ScanResult|
            #![trigger runs(before, plan, empty_outcome(), after, became)]
            runs(before, plan, empty_outcome(), after, became) && match became {
                ScanResult::More(o) => r matches Ok(found) && found == (ScanOutcome {
                    tables_scanned: capped_sum(o.tables_scanned, 1),
                    ..o
                }),
                ScanResult::Done(o) => r matches Ok(found) && found == (ScanOutcome {
                    tables_scanned: capped_sum(o.tables_scanned, 1),
                    ..o
                }),
                ScanResult::Failed(error) => r matches Err(found) && found == error,
            },
{
    if scans(before, plan, after, r) {
        let became = choose|became: ScanResult| #[trigger]
            runs(before, plan, empty_outcome(), after, became) && r == table_result(became);
        assert(runs(before, plan, empty_outcome(), after, became));
    }
    if exists|became: ScanResult|
        #![trigger runs(before, plan, empty_outcome(), after, became)]
        runs(before, plan, empty_outcome(), after, became) && match became {
            ScanResult::More(o) => r matches Ok(found) && found == (ScanOutcome {
                tables_scanned: capped_sum(o.tables_scanned, 1),
                ..o
            }),
            ScanResult::Done(o) => r matches Ok(found) && found == (ScanOutcome {
                tables_scanned: capped_sum(o.tables_scanned, 1),
                ..o
            }),
            ScanResult::Failed(error) => r matches Err(found) && found == error,
        } {
        let became = choose|became: ScanResult|
            #![trigger runs(before, plan, empty_outcome(), after, became)]
            runs(before, plan, empty_outcome(), after, became) && match became {
                ScanResult::More(o) => r matches Ok(found) && found == (ScanOutcome {
                    tables_scanned: capped_sum(o.tables_scanned, 1),
                    ..o
                }),
                ScanResult::Done(o) => r matches Ok(found) && found == (ScanOutcome {
                    tables_scanned: capped_sum(o.tables_scanned, 1),
                    ..o
                }),
                ScanResult::Failed(error) => r matches Err(found) && found == error,
            };
        assert(r == table_result(became));
    }
}

/// What a collector of entries or of keys is shown, it keeps: the key and the
/// value as they are, in the order in which they came. It never ends a scan.
pub proof fn collectors_keep_entries_as_they_are(
    before: EntryCollector,
    after: EntryCollector,
    key: Seq<u8>,
    value: Seq<u8>,
    borrowed: bool,
    answer: Answer,
    keys_before: KeyCollector,
    keys_after: KeyCollector,
    item: ScanItem,
    items: Seq<ScanItem>,
)
    ensures
        EntryCollector::visits(before, key, value, borrowed, after, answer) ==> {
            &&& after.kept().len() == before.kept().len() + 1
            &&& after.kept().last() == (key, value)
            &&& after.kept().drop_last() == before.kept()
            &&& answer matches Ok(VisitorControl::Continue)
        },
        KeyCollector::visits(keys_before, key, value, borrowed, keys_after, answer) ==> {
            &&& keys_after.kept().len() == keys_before.kept().len() + 1
            &&& keys_after.kept().last() == key
            &&& keys_after.kept().drop_last() == keys_before.kept()
            &&& answer matches Ok(VisitorControl::Continue)
        },
        shown_entries(Seq::empty()).len() == 0,
        item.shown ==> shown_entries(seq![item] + items) == seq![(item.key, item.value)]
            + shown_entries(items),
        !item.shown ==> shown_entries(seq![item] + items) == shown_entries(items),
{
    assert((seq![item] + items).skip(1) =~= items);
    if EntryCollector::visits(before, key, value, borrowed, after, answer) {
        assert(after.kept().drop_last() =~= before.kept());
    }
    if KeyCollector::visits(keys_before, key, value, borrowed, keys_after, answer) {
        assert(keys_after.kept().drop_last() =~= keys_before.kept());
    }
}

/// Owned entries and keys stand for the bytes that they hold, one for one.
pub proof fn owned_entries_are_seen_as_they_are(
    entries: Seq<(Vec<u8>, Bytes)>,
    keys: Seq<Vec<u8>>,
    pairs: Seq<Entry>,
    i: int,
)
    ensures
        owned_entries(entries).len() == entries.len(),
        0 <= i < entries.len() ==> owned_entries(entries)[i] == (
            entries[i].0@,
            contents(entries[i].1),
        ),
        key_bytes(keys).len() == keys.len(),
        0 <= i < keys.len() ==> key_bytes(keys)[i] == keys[i]@,
        entry_keys(pairs).len() == pairs.len(),
        0 <= i < pairs.len() ==> entry_keys(pairs)[i] == pairs[i].0,
{
}

} // verus!
