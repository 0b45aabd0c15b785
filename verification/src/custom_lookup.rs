//! Lookups in `BWLDB` tables.
use crate::blob::{
    as_slice, bytes_slice_from_payload, contents, from_vec, optional_contents, ValueRef,
};
use crate::codec::decompress_payload;
use crate::custom::{
    counted_entries, custom_entries, entry_at_front, get_count, get_entry, header_readable,
    lemma_reading_step, open_custom_table, payload_entries,
};
use crate::custom_scan::for_each_custom_table_entry_bytes;
use crate::error::{ErrorView, LevelDbError};
use crate::gather::{all_contents, all_optional_contents, answers, offered, pending, Gather};
use crate::keys::{key_order, Entry, KeyOrder};
use crate::options::{empty_outcome, recorded, ScanOutcome, VisitorControl};
use crate::scan::{
    outcome_view, prefix_item, prefix_plan, reading, runs, Answer, EntryList, EntryVisitor,
    ScanPlan, ScanResult, Visitor,
};
use bytes::Bytes;
use vstd::prelude::*;

verus! {

/// The value of the first entry with the key `key`.
pub open spec fn first_value(entries: Seq<Entry>, key: Seq<u8>) -> Option<Seq<u8>>
    decreases entries.len(),
{
    if entries.len() == 0 {
        None
    } else if entries[0].0 == key {
        Some(entries[0].1)
    } else {
        first_value(entries.skip(1), key)
    }
}

/// What a lookup finds in a list. It does not get to an unreadable entry behind
/// the one that it looks for.
pub open spec fn looked_up(list: EntryList, key: Seq<u8>) -> Result<
    Option<Seq<u8>>,
    ErrorView,
> {
    match (first_value(list.entries, key), list.error) {
        (None, Some(error)) => Err(error),
        (value, _) => Ok(value),
    }
}

/// What a lookup of several keys finds: the first value of each of them.
pub open spec fn gathered(
    keys: Seq<Seq<u8>>,
    found: Map<Seq<u8>, Seq<u8>>,
    entries: Seq<Entry>,
) -> Map<Seq<u8>, Seq<u8>>
    decreases entries.len(),
{
    if entries.len() == 0 {
        found
    } else {
        gathered(keys, offered(keys, found, entries[0].0, entries[0].1), entries.skip(1))
    }
}

/// What a lookup of several keys returns. It does not get to an unreadable
/// entry behind the last of the keys that it looks for.
pub open spec fn all_looked_up(list: EntryList, keys: Seq<Seq<u8>>) -> Result<
    Seq<Option<Seq<u8>>>,
    ErrorView,
> {
    let found = gathered(keys, Map::empty(), list.entries);
    if pending(keys, found) == Set::<Seq<u8>>::empty() {
        Ok(answers(keys, found))
    } else {
        match list.error {
            Some(error) => Err(error),
            None => Ok(answers(keys, found)),
        }
    }
}

/// The mathematical value of what a lookup returns.
pub open spec fn lookup_view(r: Result<Option<Bytes>, LevelDbError>) -> Result<
    Option<Seq<u8>>,
    ErrorView,
> {
    match r {
        Ok(value) => Ok(optional_contents(value)),
        Err(error) => Err(error@),
    }
}

/// The mathematical value of what a lookup of several keys returns.
pub open spec fn lookups_view(r: Result<Vec<Option<Bytes>>, LevelDbError>) -> Result<
    Seq<Option<Seq<u8>>>,
    ErrorView,
> {
    match r {
        Ok(values) => Ok(all_optional_contents(values@)),
        Err(error) => Err(error@),
    }
}

/// A visitor that stops at the first entry with one key.
pub struct EntryFinder<'k> {
    key: &'k [u8],
    found: Option<Bytes>,
}

impl<'k> EntryFinder<'k> {
    /// The key that is looked for.
    pub closed spec fn key(&self) -> Seq<u8> {
        self.key@
    }

    /// What was found.
    pub closed spec fn found(&self) -> Option<Seq<u8>> {
        optional_contents(self.found)
    }
}

impl<'k> Visitor for EntryFinder<'k> {
    open spec fn visits(
        before: Self,
        key: Seq<u8>,
        value: Seq<u8>,
        borrowed: bool,
        after: Self,
        answer: Answer,
    ) -> bool {
        &&& after.key() == before.key()
        &&& if key == before.key() {
            &&& after.found() == Some(value)
            &&& answer == Ok::<VisitorControl, ErrorView>(VisitorControl::Stop)
        } else {
            &&& after.found() == before.found()
            &&& answer == Ok::<VisitorControl, ErrorView>(VisitorControl::Continue)
        }
    }
}

impl<'k> EntryVisitor for EntryFinder<'k> {
    fn visit(&mut self, key: &[u8], value: ValueRef<'_>) -> (r: Result<
        VisitorControl,
        LevelDbError,
    >) {
        if let KeyOrder::Same = key_order(key, self.key) {
            self.found = Some(value.to_bytes());
            Ok(VisitorControl::Stop)
        } else {
            Ok(VisitorControl::Continue)
        }
    }
}

/// A finder that goes through a list finds what a lookup finds.
proof fn lemma_finder_runs<'k>(
    before: EntryFinder<'k>,
    list: EntryList,
    prefix: Seq<u8>,
    outcome: ScanOutcome,
    after: EntryFinder<'k>,
    result: ScanResult,
)
    requires
        before.found() is None,
        prefix.len() == 0,
        runs(before, prefix_plan(list, prefix), outcome, after, result),
    ensures
        match result {
            ScanResult::Failed(error) => looked_up(list, before.key()) == Err::<
                Option<Seq<u8>>,
                ErrorView,
            >(error),
            _ => looked_up(list, before.key()) == Ok::<Option<Seq<u8>>, ErrorView>(after.found()),
        },
    decreases list.entries.len(),
{
    let plan = prefix_plan(list, prefix);
    if list.entries.len() > 0 {
        let entry = list.entries[0];
        let rest = EntryList { entries: list.entries.skip(1), error: list.error };
        let item = plan.items[0];
        let counted = recorded(outcome, item.value.len());
        assert(item == prefix_item(entry, prefix));
        assert(entry.0.take(0) =~= prefix);
        assert(item.shown);
        assert(plan.items.skip(1) =~= prefix_plan(rest, prefix).items);
        let (mid, answer) = choose|mid: EntryFinder<'k>, answer: Answer| #[trigger]
            EntryFinder::visits(before, item.key, item.value, item.borrowed, mid, answer)
                && match answer {
                Err(error) => after == mid && result == ScanResult::Failed(error),
                Ok(VisitorControl::Stop) => after == mid && result == ScanResult::Done(
                    crate::options::halted(counted),
                ),
                Ok(VisitorControl::Continue) => runs(
                    mid,
                    ScanPlan { items: plan.items.skip(1), end: plan.end },
                    counted,
                    after,
                    result,
                ),
            };
        if entry.0 != before.key() {
            lemma_finder_runs(mid, rest, prefix, counted, after, result);
        }
    }
}

/// Looks a key up in a table. Of entries with that key the first one counts.
pub fn get_custom_table_entry(path: &str, bytes: &[u8], key: &[u8], paranoid_checks: bool) -> (r:
    Result<Option<Bytes>, LevelDbError>)
    requires
        header_readable(bytes@),
    ensures
        lookup_view(r) == looked_up(custom_entries(path@, bytes@, paranoid_checks), key@),
{
    let mut finder = EntryFinder { key, found: None };
    let ghost before = finder;
    let outcome = for_each_custom_table_entry_bytes(path, bytes, paranoid_checks, &mut finder);
    proof {
        let list = custom_entries(path@, bytes@, paranoid_checks);
        let plan = prefix_plan(list, Seq::empty());
        let result = choose|result: ScanResult| #[trigger]
            runs(before, plan, empty_outcome(), finder, result) && outcome_view(outcome)
                == crate::scan::table_result(result);
        lemma_finder_runs(before, list, Seq::empty(), empty_outcome(), finder, result);
    }
    match outcome {
        Ok(_) => Ok(finder.found),
        Err(error) => Err(error),
    }
}

/// Once every key is found, further entries change nothing.
proof fn lemma_gathered_complete(
    keys: Seq<Seq<u8>>,
    found: Map<Seq<u8>, Seq<u8>>,
    entries: Seq<Entry>,
)
    requires
        pending(keys, found) == Set::<Seq<u8>>::empty(),
    ensures
        gathered(keys, found, entries) == found,
    decreases entries.len(),
{
    if entries.len() > 0 {
        assert(!pending(keys, found).contains(entries[0].0));
        lemma_gathered_complete(keys, found, entries.skip(1));
    }
}

/// Entries can be offered in two parts.
proof fn lemma_gathered_push(
    keys: Seq<Seq<u8>>,
    found: Map<Seq<u8>, Seq<u8>>,
    front: Seq<Entry>,
    back: Seq<Entry>,
)
    ensures
        gathered(keys, found, front + back) == gathered(keys, gathered(keys, found, front), back),
    decreases front.len(),
{
    if front.len() == 0 {
        assert(front + back =~= back);
    } else {
        assert((front + back).skip(1) =~= front.skip(1) + back);
        lemma_gathered_push(
            keys,
            offered(keys, found, front[0].0, front[0].1),
            front.skip(1),
            back,
        );
    }
}

/// Looks several keys up in the payload of a table.
pub fn gather_from_payload(payload: &Bytes, keys: &[Bytes]) -> (r: Result<
    Vec<Option<Bytes>>,
    LevelDbError,
>)
    requires
        keys@.len() > 0,
    ensures
        lookups_view(r) == all_looked_up(payload_entries(contents(*payload)), all_contents(keys@)),
{
    let bytes = as_slice(payload);
    let total: usize = bytes.len();
    let mut gather = Gather::new(keys);
    let ghost wanted = all_contents(keys@);
    let ghost nothing = Map::<Seq<u8>, Seq<u8>>::empty();
    let ghost whole = payload_entries(bytes@);
    proof {
        assert(wanted[0] == contents(keys@[0]));
        assert(wanted.contains(wanted[0]));
        assert(pending(wanted, nothing).contains(wanted[0]));
    }
    let mut input = bytes;
    let count: u32 = match get_count(&mut input) {
        Ok(count) => count,
        Err(error) => return Err(error),
    };
    let ghost mut done: Seq<Entry> = Seq::empty();
    let mut i: u32 = 0;
    proof {
        assert(whole.entries =~= done + whole.entries);
    }
    while i < count
        invariant
            i <= count,
            bytes@ == contents(*payload),
            total == bytes@.len(),
            whole == payload_entries(bytes@),
            reading(whole, done, counted_entries(input@, (count - i) as nat)),
            input@.len() <= total,
            input@ == bytes@.skip(total - input@.len()),
            gather.wf(),
            gather.keys() == wanted,
            nothing == Map::<Seq<u8>, Seq<u8>>::empty(),
            gather.found() == gathered(wanted, nothing, done),
            pending(wanted, gather.found()) != Set::<Seq<u8>>::empty(),
            wanted == all_contents(keys@),
        decreases count - i,
    {
        let ghost before = input@;
        let (key, value) = match get_entry(&mut input) {
            Ok(entry) => entry,
            Err(error) => {
                proof {
                    assert(whole.entries =~= done);
                }
                return Err(error);
            },
        };
        proof {
            let (k, v, size) = entry_at_front(before)->Ok_0;
            lemma_reading_step(whole, done, before, (count - i) as nat, k, v, size);
            let one = seq![(k, v)];
            lemma_gathered_push(wanted, nothing, done, one);
            assert(one.skip(1).len() == 0);
            assert(gathered(wanted, gather.found(), one) == offered(wanted, gather.found(), k, v))
                by {
                assert(one[0] == (k, v));
                assert(gathered(
                    wanted,
                    offered(wanted, gather.found(), k, v),
                    one.skip(1),
                ) == offered(wanted, gather.found(), k, v));
            }
            assert(done + one =~= done.push((k, v)));
            done = done.push((k, v));
        }
        let value_len: usize = value.len();
        let value_end: usize = total - input.len();
        proof {
            assert(input@ =~= bytes@.skip(total - input@.len()));
            assert(value@ =~= bytes@.subrange(value_end - value_len, value_end as int));
        }
        if gather.wants(key) {
            match bytes_slice_from_payload(payload, value_end - value_len, value_len) {
                Ok(value) => {
                    gather.offer(key, &value);
                },
                Err(error) => {
                    assert(false);
                    return Err(error);
                },
            }
        }
        if gather.is_complete() {
            proof {
                let rest = whole.entries.skip(done.len() as int);
                assert(whole.entries =~= done + rest);
                lemma_gathered_push(wanted, nothing, done, rest);
                lemma_gathered_complete(wanted, gather.found(), rest);
            }
            return Ok(gather.into_results());
        }
        i = i + 1;
    }
    proof {
        assert(whole.entries =~= done);
    }
    if !input.is_empty() {
        return Err(LevelDbError::corruption("table contains trailing bytes"));
    }
    Ok(gather.into_results())
}

/// Looks several keys up in a table, in one pass. The values come in the order
/// of the keys, and a key that occurs twice is answered twice. Without keys the
/// table is not looked at.
pub fn get_custom_table_entries(
    path: &str,
    bytes: &[u8],
    keys: &[Bytes],
    paranoid_checks: bool,
) -> (r: Result<Vec<Option<Bytes>>, LevelDbError>)
    requires
        keys@.len() > 0 ==> header_readable(bytes@),
    ensures
        lookups_view(r) == if keys@.len() == 0 {
            Ok::<Seq<Option<Seq<u8>>>, ErrorView>(Seq::empty())
        } else {
            all_looked_up(custom_entries(path@, bytes@, paranoid_checks), all_contents(keys@))
        },
{
    if keys.len() == 0 {
        let nothing: Vec<Option<Bytes>> = Vec::new();
        assert(all_optional_contents(nothing@) =~= Seq::<Option<Seq<u8>>>::empty());
        return Ok(nothing);
    }
    proof {
        let wanted = all_contents(keys@);
        let nothing = Map::<Seq<u8>, Seq<u8>>::empty();
        assert(wanted.contains(wanted[0]));
        assert(pending(wanted, nothing).contains(wanted[0]));
    }
    let (tag, encoded) = match open_custom_table(path, bytes, paranoid_checks) {
        Ok(opened) => opened,
        Err(error) => return Err(error),
    };
    match decompress_payload(tag, encoded) {
        Ok(payload) => gather_from_payload(&from_vec(payload), keys),
        Err(error) => Err(error),
    }
}

proof fn lemma_gathered_value(
    keys: Seq<Seq<u8>>,
    found: Map<Seq<u8>, Seq<u8>>,
    entries: Seq<Entry>,
    key: Seq<u8>,
)
    requires
        keys.contains(key),
    ensures
        found.contains_key(key) ==> gathered(keys, found, entries).contains_key(key) && gathered(
            keys,
            found,
            entries,
        )[key] == found[key],
        !found.contains_key(key) ==> match first_value(entries, key) {
            Some(value) => gathered(keys, found, entries).contains_key(key) && gathered(
                keys,
                found,
                entries,
            )[key] == value,
            None => !gathered(keys, found, entries).contains_key(key),
        },
    decreases entries.len(),
{
    if entries.len() > 0 {
        let next = offered(keys, found, entries[0].0, entries[0].1);
        if entries[0].0 == key && !found.contains_key(key) {
            assert(pending(keys, found).contains(key));
        }
        lemma_gathered_value(keys, next, entries.skip(1), key);
    }
}

/// A lookup of several keys answers each place as a lookup of its key alone
/// would, wherever the table can be read that far.
pub proof fn lookups_agree(list: EntryList, keys: Seq<Seq<u8>>, i: int)
    requires
        0 <= i < keys.len(),
        all_looked_up(list, keys) is Ok,
    ensures
        all_looked_up(list, keys)->Ok_0.len() == keys.len(),
        looked_up(list, keys[i]) == Ok::<Option<Seq<u8>>, ErrorView>(
            all_looked_up(list, keys)->Ok_0[i],
        ),
{
    let nothing = Map::<Seq<u8>, Seq<u8>>::empty();
    let found = gathered(keys, nothing, list.entries);
    assert(keys.contains(keys[i]));
    lemma_gathered_value(keys, nothing, list.entries, keys[i]);
    if pending(keys, found) == Set::<Seq<u8>>::empty() {
        assert(!pending(keys, found).contains(keys[i]));
    }
}

/// A lookup finds the first entry with its key, also where what follows cannot be
/// read. It finds nothing where all of the list can be read and has no such
/// entry, and fails with the error of the list otherwise.
pub proof fn lookups_find_the_first_entry(list: EntryList, key: Seq<u8>, value: Seq<u8>)
    ensures
        looked_up(list, key) == Ok::<Option<Seq<u8>>, ErrorView>(Some(value)) <==> exists|i: int|
            #![trigger list.entries[i]]
            0 <= i < list.entries.len() && list.entries[i] == (key, value) && forall|j: int|
                0 <= j < i ==> (#[trigger] list.entries[j]).0 != key,
        looked_up(list, key) == Ok::<Option<Seq<u8>>, ErrorView>(None) <==> list.error is None
            && forall|i: int| 0 <= i < list.entries.len() ==> (#[trigger] list.entries[i]).0 != key,
        looked_up(list, key) matches Err(error) ==> list.error == Some(error) && forall|i: int|
            0 <= i < list.entries.len() ==> (#[trigger] list.entries[i]).0 != key,
{
    lemma_first_value(list.entries, key, value);
    lemma_first_value_place(list.entries, key);
}

proof fn lemma_first_value_place(entries: Seq<Entry>, key: Seq<u8>)
    ensures
        first_value(entries, key) is None <==> forall|i: int|
            0 <= i < entries.len() ==> (#[trigger] entries[i]).0 != key,
    decreases entries.len(),
{
    if entries.len() > 0 {
        let rest = entries.skip(1);
        lemma_first_value_place(rest, key);
        if first_value(entries, key) is None {
            assert forall|i: int| 0 <= i < entries.len() implies (#[trigger] entries[i]).0
                != key by {
                if i > 0 {
                    assert(rest[i - 1] == entries[i]);
                }
            }
        } else if forall|i: int| 0 <= i < entries.len() ==> (#[trigger] entries[i]).0 != key {
            assert(entries[0].0 != key);
            assert forall|i: int| 0 <= i < rest.len() implies (#[trigger] rest[i]).0 != key by {
                assert(rest[i] == entries[i + 1]);
            }
        }
    }
}

proof fn lemma_first_value(entries: Seq<Entry>, key: Seq<u8>, value: Seq<u8>)
    ensures
        first_value(entries, key) == Some(value) <==> exists|i: int|
            #![trigger entries[i]]
            0 <= i < entries.len() && entries[i] == (key, value) && forall|j: int|
                0 <= j < i ==> (#[trigger] entries[j]).0 != key,
    decreases entries.len(),
{
    if entries.len() > 0 {
        let rest = entries.skip(1);
        lemma_first_value(rest, key, value);
        if first_value(entries, key) == Some(value) {
            if entries[0].0 == key {
                assert(entries[0] == (key, value));
            } else {
                let i = choose|i: int|
                    #![trigger rest[i]]
                    0 <= i < rest.len() && rest[i] == (key, value) && forall|j: int|
                        0 <= j < i ==> (#[trigger] rest[j]).0 != key;
                assert(entries[i + 1] == rest[i]);
                assert forall|j: int| 0 <= j < i + 1 implies (#[trigger] entries[j]).0 != key by {
                    if j > 0 {
                        assert(rest[j - 1] == entries[j]);
                    }
                }
            }
        }
        if exists|i: int|
            #![trigger entries[i]]
            0 <= i < entries.len() && entries[i] == (key, value) && forall|j: int|
                0 <= j < i ==> (#[trigger] entries[j]).0 != key {
            let i = choose|i: int|
                #![trigger entries[i]]
                0 <= i < entries.len() && entries[i] == (key, value) && forall|j: int|
                    0 <= j < i ==> (#[trigger] entries[j]).0 != key;
            if i > 0 {
                assert(entries[0].0 != key);
                assert(rest[i - 1] == entries[i]);
                assert forall|j: int| 0 <= j < i - 1 implies (#[trigger] rest[j]).0 != key by {
                    assert(rest[j] == entries[j + 1]);
                }
            }
        }
    }
}

/// A lookup of several keys fails exactly where the list cannot be read to its
/// end and one of the keys was not found before that, and then with the error of
/// the list.
pub proof fn lookups_fail_where_a_key_is_missing(list: EntryList, keys: Seq<Seq<u8>>)
    ensures
        all_looked_up(list, keys) is Err <==> list.error is Some && exists|i: int|
            #![trigger keys[i]]
            0 <= i < keys.len() && looked_up(list, keys[i]) is Err,
        all_looked_up(list, keys) matches Err(error) ==> list.error == Some(error),
        all_looked_up(list, keys) matches Ok(values) ==> values.len() == keys.len(),
{
    let nothing = Map::<Seq<u8>, Seq<u8>>::empty();
    let found = gathered(keys, nothing, list.entries);
    if all_looked_up(list, keys) is Err {
        assert(!(pending(keys, found) =~= Set::<Seq<u8>>::empty()));
        let key = choose|key: Seq<u8>| pending(keys, found).contains(key);
        assert(pending(keys, found).contains(key));
        let i = choose|i: int| 0 <= i < keys.len() && keys[i] == key;
        lemma_gathered_value(keys, nothing, list.entries, key);
        assert(looked_up(list, keys[i]) is Err);
    }
    if list.error is Some && exists|i: int|
        #![trigger keys[i]]
        0 <= i < keys.len() && looked_up(list, keys[i]) is Err {
        let i = choose|i: int|
            #![trigger keys[i]]
            0 <= i < keys.len() && looked_up(list, keys[i]) is Err;
        assert(keys.contains(keys[i]));
        lemma_gathered_value(keys, nothing, list.entries, keys[i]);
        assert(pending(keys, found).contains(keys[i]));
    }
}

} // verus!
