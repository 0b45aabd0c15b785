//! Native blocks: entries whose keys share prefixes with the keys before them,
//! then an array of restart offsets, then the count of those offsets.
use crate::blob::{as_slice, bytes_slice_from_payload, contents, BlockValue};
use crate::collect::{
    entry_collector_keeps_what_is_shown, owned_entries, shown_entries, EntryCollector,
};
use crate::coding::{
    base128, get_fixed32, get_varint32, is_one_varint, le_u32, lemma_varint_lens,
    lemma_varint_sizes, unfinished_varints_are_refused, varint32, varint_bytes,
    varints_are_read_in_base_128, varints_are_written_in_base_128,
};
use crate::error::{corrupt, ErrorView, LevelDbError};
use crate::keys::Entry;
use crate::options::{empty_outcome, recorded, VisitorControl};
use crate::scan::{
    answer_result, answer_view, entry_then, lemma_read_entry, lemma_scan_ends, lemma_scan_starts,
    lemma_scan_step, lemma_shown_runs, lend, lent_items, open_plan, plan_then, prefix_items,
    reading, runs, scanning, showing, unreadable, Answer, EntryList, EntryVisitor, ScanEnd,
    ScanItem, ScanPlan, ScanResult, Visitor,
};
use bytes::Bytes;
use vstd::prelude::*;
use vstd::slice::{slice_subrange, slice_to_vec};

verus! {

/// Where the entries of a block end.
pub open spec fn entries_end(block: Seq<u8>) -> Result<nat, ErrorView> {
    if block.len() < 4 {
        Err(corrupt("native block is missing restart count"@))
    } else {
        let restarts = 4 * le_u32(block.skip(block.len() - 4));
        if restarts > usize::MAX {
            Err(corrupt("native block restart array overflow"@))
        } else if restarts > block.len() - 4 {
            Err(corrupt("native block restart array is truncated"@))
        } else {
            Ok((block.len() - 4 - restarts) as nat)
        }
    }
}

/// Reads an entry at the front of `input`, behind an entry with the key
/// `previous`: its key, its value, and the count of its bytes.
pub open spec fn block_entry_at_front(input: Seq<u8>, previous: Seq<u8>) -> Result<
    (Seq<u8>, Seq<u8>, nat),
    ErrorView,
> {
    match varint32(input) {
        Err(error) => Err(error),
        Ok((shared, shared_size)) => match varint32(input.skip(shared_size as int)) {
            Err(error) => Err(error),
            Ok((fresh, fresh_size)) => {
                match varint32(input.skip(shared_size as int).skip(fresh_size as int)) {
                    Err(error) => Err(error),
                    Ok((value_len, value_size)) => {
                        let start = shared_size + fresh_size + value_size;
                        if shared > previous.len() {
                            Err(corrupt("native block shared prefix exceeds previous key"@))
                        } else if input.len() < start + fresh + value_len {
                            Err(corrupt("native block entry is truncated"@))
                        } else {
                            Ok(
                                (
                                    previous.take(shared as int) + input.subrange(
                                        start as int,
                                        start + fresh,
                                    ),
                                    input.subrange(start + fresh, start + fresh + value_len),
                                    (start + fresh + value_len) as nat,
                                ),
                            )
                        }
                    },
                }
            },
        },
    }
}

/// An entry takes at least one byte.
pub proof fn lemma_block_entry_size(input: Seq<u8>, previous: Seq<u8>)
    ensures
        block_entry_at_front(input, previous) matches Ok((key, value, size)) ==> 1 <= size
            <= input.len() && value.len() <= size && value == input.subrange(
            size - value.len(),
            size as int,
        ),
{
    lemma_varint_sizes(input);
    if let Ok((shared, shared_size)) = varint32(input) {
        lemma_varint_sizes(input.skip(shared_size as int));
        if let Ok((fresh, fresh_size)) = varint32(input.skip(shared_size as int)) {
            lemma_varint_sizes(input.skip(shared_size as int).skip(fresh_size as int));
        }
    }
}

/// Reads entries that take all of `input`, behind an entry with the key
/// `previous`.
pub open spec fn block_entries(input: Seq<u8>, previous: Seq<u8>) -> EntryList
    decreases input.len(),
{
    if input.len() == 0 {
        EntryList { entries: Seq::empty(), error: None }
    } else {
        match block_entry_at_front(input, previous) {
            Err(error) => unreadable(error),
            Ok((key, value, size)) => {
                proof {
                    lemma_block_entry_size(input, previous);
                }
                entry_then(key, value, block_entries(input.skip(size as int), key))
            },
        }
    }
}

/// The entries of a block.
pub open spec fn native_entries(block: Seq<u8>) -> EntryList {
    match entries_end(block) {
        Err(error) => unreadable(error),
        Ok(end) => block_entries(block.take(end as int), Seq::empty()),
    }
}

/// Keys and the lengths of values.
pub open spec fn keys_and_lens(entries: Seq<Entry>) -> Seq<(Seq<u8>, nat)> {
    Seq::new(entries.len(), |i: int| (entries[i].0, entries[i].1.len()))
}

/// Owned keys and lengths of values as the bytes that they hold.
pub open spec fn owned_keys(entries: Seq<(Vec<u8>, usize)>) -> Seq<(Seq<u8>, nat)> {
    Seq::new(entries.len(), |i: int| (entries[i].0@, entries[i].1 as nat))
}

/// All entries of a list, where all of it can be read.
pub open spec fn whole_list(list: EntryList) -> Result<Seq<Entry>, ErrorView> {
    match list.error {
        Some(error) => Err(error),
        None => Ok(list.entries),
    }
}

/// The mathematical value of a result that holds owned entries.
pub open spec fn entries_view(r: Result<Vec<(Vec<u8>, Bytes)>, LevelDbError>) -> Result<
    Seq<Entry>,
    ErrorView,
> {
    match r {
        Ok(entries) => Ok(owned_entries(entries@)),
        Err(error) => Err(error@),
    }
}

/// Finds where the entries of a block end.
pub fn native_entries_end(block: &[u8]) -> (r: Result<usize, LevelDbError>)
    ensures
        match r {
            Ok(end) => entries_end(block@) == Ok::<nat, ErrorView>(end as nat) && end
                <= block@.len(),
            Err(error) => entries_end(block@) == Err::<nat, ErrorView>(error@),
        },
{
    if block.len() < 4 {
        return Err(LevelDbError::corruption("native block is missing restart count"));
    }
    let restart_count_offset: usize = block.len() - 4;
    let restart_count: u32 = get_fixed32(
        slice_subrange(block, restart_count_offset, block.len()),
    );
    match (restart_count as usize).checked_mul(4) {
        None => Err(LevelDbError::corruption("native block restart array overflow")),
        Some(restart_bytes) => {
            if restart_bytes > restart_count_offset {
                return Err(LevelDbError::corruption("native block restart array is truncated"));
            }
            Ok(restart_count_offset - restart_bytes)
        },
    }
}

/// Takes an entry off the front of `input`: `key` becomes its key, and its value
/// is returned.
pub fn get_block_entry<'a>(input: &mut &'a [u8], key: &mut Vec<u8>) -> (r: Result<
    &'a [u8],
    LevelDbError,
>)
    ensures
        match r {
            Ok(value) => {
                &&& block_entry_at_front(old(input)@, old(key)@) matches Ok((k, v, size))
                &&& k == final(key)@
                &&& v == value@
                &&& final(input)@ == old(input)@.skip(size as int)
            },
            Err(error) => block_entry_at_front(old(input)@, old(key)@) == Err::<
                (Seq<u8>, Seq<u8>, nat),
                ErrorView,
            >(error@),
        },
{
    let ghost all = input@;
    let ghost previous = key@;
    proof {
        lemma_varint_sizes(all);
    }
    let shared: u32 = match get_varint32(input) {
        Ok(shared) => shared,
        Err(error) => return Err(error),
    };
    proof {
        lemma_varint_sizes(input@);
    }
    let fresh: u32 = match get_varint32(input) {
        Ok(fresh) => fresh,
        Err(error) => return Err(error),
    };
    proof {
        lemma_varint_sizes(input@);
    }
    let value_len: u32 = match get_varint32(input) {
        Ok(value_len) => value_len,
        Err(error) => return Err(error),
    };
    let ghost start = all.len() - input@.len();
    proof {
        assert(input@ =~= all.skip(start));
    }
    if shared as usize > key.len() {
        return Err(LevelDbError::corruption("native block shared prefix exceeds previous key"));
    }
    if (input.len() as u64) < fresh as u64 + value_len as u64 {
        return Err(LevelDbError::corruption("native block entry is truncated"));
    }
    let rest = *input;
    let fresh: usize = fresh as usize;
    let size: usize = fresh + value_len as usize;
    key.truncate(shared as usize);
    key.extend_from_slice(slice_subrange(rest, 0, fresh));
    let value = slice_subrange(rest, fresh, size);
    *input = slice_subrange(rest, size, rest.len());
    proof {
        assert(key@ =~= previous.take(shared as int) + all.subrange(start, start + fresh));
        assert(value@ =~= all.subrange(start + fresh, start + size));
        assert(input@ =~= all.skip(start + size));
    }
    Ok(value)
}

/// Decodes all entries of a block, with values that share the block.
pub fn decode_native_block_entries_bytes(block: &Bytes) -> (r: Result<
    Vec<(Vec<u8>, Bytes)>,
    LevelDbError,
>)
    ensures
        entries_view(r) == whole_list(native_entries(contents(*block))),
{
    let bytes = as_slice(block);
    let end: usize = match native_entries_end(bytes) {
        Ok(end) => end,
        Err(error) => return Err(error),
    };
    let body = slice_subrange(bytes, 0, end);
    let ghost whole = native_entries(bytes@);
    let ghost mut done: Seq<Entry> = Seq::empty();
    let mut input = body;
    let mut key: Vec<u8> = Vec::new();
    let mut entries: Vec<(Vec<u8>, Bytes)> = Vec::new();
    proof {
        assert(key@ =~= Seq::<u8>::empty());
        assert(body@ =~= bytes@.take(end as int));
        assert(whole.entries =~= done + whole.entries);
        assert(owned_entries(entries@) =~= done);
    }
    while !input.is_empty()
        invariant
            bytes@ == contents(*block),
            end <= bytes@.len(),
            body@ == bytes@.take(end as int),
            whole == native_entries(bytes@),
            input@.len() <= end,
            input@ == body@.skip(end - input@.len()),
            reading(whole, done, block_entries(input@, key@)),
            owned_entries(entries@) == done,
        decreases input@.len(),
    {
        let ghost before = input@;
        let ghost previous = key@;
        proof {
            lemma_block_entry_size(before, previous);
        }
        let value = match get_block_entry(&mut input, &mut key) {
            Ok(value) => value,
            Err(error) => return Err(error),
        };
        let value_len: usize = value.len();
        let value_end: usize = end - input.len();
        proof {
            let (k, v, size) = block_entry_at_front(before, previous)->Ok_0;
            lemma_read_entry(whole, done, k, v, block_entries(input@, key@));
            assert(input@ =~= body@.skip(end - input@.len()));
            assert(value@ =~= bytes@.subrange(value_end - value_len, value_end as int));
            done = done.push((k, v));
        }
        let value = match bytes_slice_from_payload(block, value_end - value_len, value_len) {
            Ok(value) => value,
            Err(error) => {
                assert(false);
                return Err(error);
            },
        };
        entries.push((slice_to_vec(key.as_slice()), value));
        assert(owned_entries(entries@) =~= done);
    }
    proof {
        assert(whole.entries =~= done);
    }
    Ok(entries)
}

/// Decodes all keys of a block, each with the length of its value.
pub fn decode_native_block_keys_bytes(block: &Bytes) -> (r: Result<
    Vec<(Vec<u8>, usize)>,
    LevelDbError,
>)
    ensures
        match r {
            Ok(entries) => whole_list(native_entries(contents(*block))) matches Ok(list)
                && owned_keys(entries@) == keys_and_lens(list),
            Err(error) => whole_list(native_entries(contents(*block))) == Err::<
                Seq<Entry>,
                ErrorView,
            >(error@),
        },
{
    let bytes = as_slice(block);
    let end: usize = match native_entries_end(bytes) {
        Ok(end) => end,
        Err(error) => return Err(error),
    };
    let ghost whole = native_entries(bytes@);
    let ghost mut done: Seq<Entry> = Seq::empty();
    let mut input = slice_subrange(bytes, 0, end);
    let mut key: Vec<u8> = Vec::new();
    let mut entries: Vec<(Vec<u8>, usize)> = Vec::new();
    proof {
        assert(key@ =~= Seq::<u8>::empty());
        assert(input@ =~= bytes@.take(end as int));
        assert(whole.entries =~= done + whole.entries);
        assert(owned_keys(entries@) =~= keys_and_lens(done));
    }
    while !input.is_empty()
        invariant
            bytes@ == contents(*block),
            whole == native_entries(bytes@),
            reading(whole, done, block_entries(input@, key@)),
            owned_keys(entries@) == keys_and_lens(done),
        decreases input@.len(),
    {
        let ghost before = input@;
        let ghost previous = key@;
        proof {
            lemma_block_entry_size(before, previous);
        }
        let value = match get_block_entry(&mut input, &mut key) {
            Ok(value) => value,
            Err(error) => return Err(error),
        };
        let ghost items = keys_and_lens(done);
        proof {
            let (k, v, size) = block_entry_at_front(before, previous)->Ok_0;
            lemma_read_entry(whole, done, k, v, block_entries(input@, key@));
            done = done.push((k, v));
            assert(keys_and_lens(done) =~= items.push((k, v.len())));
        }
        entries.push((slice_to_vec(key.as_slice()), value.len()));
        assert(owned_keys(entries@) =~= keys_and_lens(done));
    }
    proof {
        assert(whole.entries =~= done);
    }
    Ok(entries)
}

/// A walk through a list that shows every entry.
pub open spec fn walk_plan(list: EntryList) -> ScanPlan {
    ScanPlan {
        items: prefix_items(list.entries, Seq::empty()),
        end: match list.error {
            Some(error) => ScanEnd::Failed(error),
            None => ScanEnd::More,
        },
    }
}

/// What a walk answers, from what became of it.
pub open spec fn walk_answer(result: ScanResult) -> Answer {
    match result {
        ScanResult::More(_) => Ok(VisitorControl::Continue),
        ScanResult::Done(_) => Ok(VisitorControl::Stop),
        ScanResult::Failed(error) => Err(error),
    }
}

/// Whether a walk through `list` may turn the visitor `before` into `after` and
/// answer `answer`, where values are borrowed or are not.
pub open spec fn walks<V: Visitor>(
    before: V,
    list: EntryList,
    borrowed: bool,
    after: V,
    answer: Answer,
) -> bool {
    exists|result: ScanResult| #[trigger]
        runs(before, lend(walk_plan(list), borrowed), empty_outcome(), after, result) && answer
            == walk_answer(result)
}

/// The first entry of a list is the first that a walk shows.
proof fn lemma_walk_step(key: Seq<u8>, value: Seq<u8>, rest: EntryList, borrowed: bool)
    ensures
        lend(walk_plan(entry_then(key, value, rest)), borrowed) == plan_then(
            showing(key, value, borrowed),
            lend(walk_plan(rest), borrowed),
        ),
{
    assert(key.take(0) =~= Seq::<u8>::empty());
    assert(lend(walk_plan(entry_then(key, value, rest)), borrowed).items =~= showing(
        key,
        value,
        borrowed,
    ).items + lend(walk_plan(rest), borrowed).items);
}

/// Shows a visitor the entries of a block one by one, until it stops. An entry
/// that cannot be read fails the walk only when the walk gets there. Values are
/// borrowed from a borrowed block.
pub fn decode_native_block_entries_ref<V: EntryVisitor>(
    block: &BlockValue<'_>,
    visitor: &mut V,
) -> (r: Result<VisitorControl, LevelDbError>)
    ensures
        walks(
            *old(visitor),
            native_entries(block@),
            *block is Borrowed,
            *final(visitor),
            answer_view(r),
        ),
{
    let bytes = block.as_bytes();
    let ghost start = *visitor;
    let ghost borrowed = *block is Borrowed;
    let ghost plan = lend(walk_plan(native_entries(bytes@)), borrowed);
    let ghost mut outcome = empty_outcome();
    let ghost mut done = open_plan(Seq::empty());
    proof {
        lemma_scan_starts(start, plan, outcome);
    }
    let end: usize = match native_entries_end(bytes) {
        Ok(end) => end,
        Err(error) => {
            proof {
                lemma_scan_ends(start, plan, empty_outcome(), done, start, outcome, plan);
            }
            return Err(error);
        },
    };
    let body = slice_subrange(bytes, 0, end);
    let mut input = body;
    let mut key: Vec<u8> = Vec::new();
    proof {
        assert(key@ =~= Seq::<u8>::empty());
        assert(body@ =~= bytes@.take(end as int));
    }
    while !input.is_empty()
        invariant
            start == *old(visitor),
            bytes@ == block@,
            end <= bytes@.len(),
            body@ == bytes@.take(end as int),
            borrowed == (*block is Borrowed),
            plan == lend(walk_plan(native_entries(bytes@)), borrowed),
            input@.len() <= end,
            input@ == body@.skip(end - input@.len()),
            scanning(
                start,
                plan,
                empty_outcome(),
                done,
                *visitor,
                outcome,
                lend(walk_plan(block_entries(input@, key@)), borrowed),
            ),
        decreases input@.len(),
    {
        let ghost before = input@;
        let ghost previous = key@;
        let ghost mid = *visitor;
        let ghost ahead = lend(walk_plan(block_entries(input@, key@)), borrowed);
        proof {
            lemma_block_entry_size(before, previous);
        }
        let value = match get_block_entry(&mut input, &mut key) {
            Ok(value) => value,
            Err(error) => {
                proof {
                    lemma_scan_ends(start, plan, empty_outcome(), done, mid, outcome, ahead);
                }
                return Err(error);
            },
        };
        let value_len: usize = value.len();
        let value_end: usize = end - input.len();
        let ghost rest = block_entries(input@, key@);
        proof {
            lemma_walk_step(key@, value@, rest, borrowed);
            assert(input@ =~= body@.skip(end - input@.len()));
            assert(value@ =~= bytes@.subrange(value_end - value_len, value_end as int));
        }
        let value_ref = match block.value_ref(value_end - value_len, value_len) {
            Ok(value_ref) => value_ref,
            Err(error) => {
                assert(false);
                return Err(error);
            },
        };
        let answer = visitor.visit(key.as_slice(), value_ref);
        proof {
            let item = ScanItem { key: key@, value: value@, shown: true, borrowed };
            lemma_shown_runs(mid, item, outcome, *visitor, answer_view(answer));
            lemma_scan_step(
                start,
                plan,
                empty_outcome(),
                done,
                mid,
                outcome,
                showing(key@, value@, borrowed),
                lend(walk_plan(rest), borrowed),
                *visitor,
                answer_result(answer_view(answer), recorded(outcome, value@.len())),
            );
            done = plan_then(done, showing(key@, value@, borrowed));
            outcome = recorded(outcome, value@.len());
        }
        match answer {
            Ok(VisitorControl::Continue) => {},
            Ok(VisitorControl::Stop) => return Ok(VisitorControl::Stop),
            Err(error) => return Err(error),
        }
    }
    proof {
        let ahead = lend(walk_plan(block_entries(input@, key@)), borrowed);
        lemma_scan_ends(start, plan, empty_outcome(), done, *visitor, outcome, ahead);
    }
    Ok(VisitorControl::Continue)
}

/// A walk shows every entry.
proof fn lemma_walk_shows(entries: Seq<Entry>, borrowed: bool)
    ensures
        shown_entries(lent_items(prefix_items(entries, Seq::empty()), borrowed)) == entries,
    decreases entries.len(),
{
    let items = lent_items(prefix_items(entries, Seq::empty()), borrowed);
    if entries.len() > 0 {
        assert(entries[0].0.take(0) =~= Seq::<u8>::empty());
        assert(items.skip(1) =~= lent_items(
            prefix_items(entries.skip(1), Seq::empty()),
            borrowed,
        ));
        lemma_walk_shows(entries.skip(1), borrowed);
    }
    assert(shown_entries(items) =~= entries);
}

/// Collects all entries of a block.
pub fn collect_native_block_entries(block: &BlockValue<'_>) -> (r: Result<
    Vec<(Vec<u8>, Bytes)>,
    LevelDbError,
>)
    ensures
        entries_view(r) == whole_list(native_entries(block@)),
{
    let mut collector = EntryCollector::new();
    let ghost before = collector;
    let ghost borrowed = *block is Borrowed;
    let answer = decode_native_block_entries_ref(block, &mut collector);
    proof {
        let list = native_entries(block@);
        let plan = lend(walk_plan(list), borrowed);
        let result = choose|result: ScanResult| #[trigger]
            runs(before, plan, empty_outcome(), collector, result) && answer_view(answer)
                == walk_answer(result);
        entry_collector_keeps_what_is_shown(before, plan, empty_outcome(), collector, result);
        lemma_walk_shows(list.entries, borrowed);
        assert(collector.kept() =~= list.entries);
    }
    match answer {
        Ok(_) => Ok(collector.into_entries()),
        Err(error) => Err(error),
    }
}

// ---------------------------------------------------------------------------
// What the bytes of a block mean.

#[verifier::spinoff_prover]
proof fn lemma_three_numbers(
    shared: Seq<u8>,
    fresh: Seq<u8>,
    value_len: Seq<u8>,
    rest: Seq<u8>,
    previous: Seq<u8>,
)
    requires
        is_one_varint(shared) && shared.len() <= 5 && base128(shared) <= 0xffff_ffff,
        is_one_varint(fresh) && fresh.len() <= 5 && base128(fresh) <= 0xffff_ffff,
        is_one_varint(value_len) && value_len.len() <= 5 && base128(value_len) <= 0xffff_ffff,
    ensures
        ({
            let input = shared + fresh + value_len + rest;
            let (s, f, n) = (base128(shared), base128(fresh), base128(value_len));
            let start = shared.len() + fresh.len() + value_len.len();
            block_entry_at_front(input, previous) == if s > previous.len() {
                Err(corrupt("native block shared prefix exceeds previous key"@))
            } else if f + n > rest.len() {
                Err(corrupt("native block entry is truncated"@))
            } else {
                Ok(
                    (
                        previous.take(s as int) + rest.take(f as int),
                        rest.subrange(f as int, (f + n) as int),
                        start + f + n,
                    ),
                )
            }
        }),
{
    let input = shared + fresh + value_len + rest;
    let (s, f, n) = (base128(shared), base128(fresh), base128(value_len));
    let second = fresh + value_len + rest;
    let third = value_len + rest;
    let start = shared.len() + fresh.len() + value_len.len();
    assert(input =~= shared + second);
    assert(second =~= fresh + third);
    varints_are_read_in_base_128(shared, second);
    varints_are_read_in_base_128(fresh, third);
    varints_are_read_in_base_128(value_len, rest);
    assert(input.skip(shared.len() as int) =~= second);
    assert(second.skip(fresh.len() as int) =~= third);
    if f + n <= rest.len() {
        assert(input.subrange(start as int, (start + f) as int) =~= rest.take(f as int));
        assert(input.subrange((start + f) as int, (start + f + n) as int) =~= rest.subrange(
            f as int,
            (f + n) as int,
        ));
    }
}

/// An entry is three numbers, the bytes of the key that it does not share with
/// the key before it, and the value. The first number says how many bytes are
/// shared, the other two how many bytes follow of the key and of the value. It is
/// refused exactly where there are not that many.
pub proof fn entries_are_three_numbers_and_two_slices(
    shared: Seq<u8>,
    fresh: Seq<u8>,
    value_len: Seq<u8>,
    rest: Seq<u8>,
    previous: Seq<u8>,
)
    requires
        is_one_varint(shared) && shared.len() <= 5 && base128(shared) <= 0xffff_ffff,
        is_one_varint(fresh) && fresh.len() <= 5 && base128(fresh) <= 0xffff_ffff,
        is_one_varint(value_len) && value_len.len() <= 5 && base128(value_len) <= 0xffff_ffff,
    ensures
        ({
            let r = block_entry_at_front(shared + fresh + value_len + rest, previous);
            let (s, f, n) = (base128(shared), base128(fresh), base128(value_len));
            &&& r is Ok <==> s <= previous.len() && f + n <= rest.len()
            &&& r matches Ok((key, value, size)) ==> {
                &&& key.len() == s + f
                &&& forall|i: int| 0 <= i < s ==> key[i] == previous[i]
                &&& forall|i: int| 0 <= i < f ==> key[s + i] == rest[i]
                &&& value == rest.subrange(f as int, (f + n) as int)
                &&& size == shared.len() + fresh.len() + value_len.len() + f + n
            }
            &&& r matches Err(error) ==> error == (ErrorView::Corruption {
                path: None,
                message: if s > previous.len() {
                    "native block shared prefix exceeds previous key"@
                } else {
                    "native block entry is truncated"@
                },
            })
        }),
{
    lemma_three_numbers(shared, fresh, value_len, rest, previous);
}

/// An entry whose numbers are not all there is refused.
pub proof fn entries_without_their_numbers_are_refused(
    shared: Seq<u8>,
    fresh: Seq<u8>,
    unfinished: Seq<u8>,
    previous: Seq<u8>,
)
    requires
        is_one_varint(shared),
        is_one_varint(fresh),
        forall|i: int| 0 <= i < unfinished.len() ==> #[trigger] unfinished[i] >= 128,
    ensures
        block_entry_at_front(unfinished, previous) matches Err(error) && varint32(unfinished)
            == Err::<(u32, nat), ErrorView>(error),
        block_entry_at_front(shared + unfinished, previous) is Err,
        block_entry_at_front(shared + fresh + unfinished, previous) is Err,
{
    let second = fresh + unfinished;
    assert(shared + fresh + unfinished =~= shared + second);
    unfinished_varints_are_refused(unfinished);
    varints_are_read_in_base_128(shared, unfinished);
    varints_are_read_in_base_128(shared, second);
    varints_are_read_in_base_128(fresh, unfinished);
    assert((shared + unfinished).skip(shared.len() as int) =~= unfinished);
    assert((shared + second).skip(shared.len() as int) =~= second);
    assert(second.skip(fresh.len() as int) =~= unfinished);
}

/// Whether two keys have their first `n` bytes in common.
pub open spec fn share_front(a: Seq<u8>, b: Seq<u8>, n: nat) -> bool {
    &&& n <= a.len()
    &&& n <= b.len()
    &&& forall|i: int| 0 <= i < n ==> #[trigger] a[i] == b[i]
}

/// The bytes of an entry that leaves out the first `shared` bytes of its key.
pub open spec fn shared_entry(key: Seq<u8>, value: Seq<u8>, shared: nat) -> Seq<u8> {
    varint_bytes(shared) + varint_bytes((key.len() - shared) as nat) + varint_bytes(value.len())
        + key.skip(shared as int) + value
}

proof fn lemma_short_varint(v: nat)
    requires
        v <= u32::MAX,
    ensures
        is_one_varint(varint_bytes(v)),
        varint_bytes(v).len() <= 5,
        base128(varint_bytes(v)) == v,
{
    lemma_varint_lens(v);
    varints_are_written_in_base_128(v);
}

/// An entry that shares bytes with the key before it is read as its whole key and
/// its value, however many bytes are shared, and what follows it is left.
#[verifier::spinoff_prover]
pub proof fn shared_entries_are_read_whole(
    previous: Seq<u8>,
    key: Seq<u8>,
    value: Seq<u8>,
    shared: nat,
    tail: Seq<u8>,
)
    requires
        share_front(previous, key, shared),
        key.len() <= u32::MAX,
        value.len() <= u32::MAX,
    ensures
        block_entry_at_front(shared_entry(key, value, shared) + tail, previous) == Ok::<
            (Seq<u8>, Seq<u8>, nat),
            ErrorView,
        >((key, value, shared_entry(key, value, shared).len())),
        (shared_entry(key, value, shared) + tail).skip(
            shared_entry(key, value, shared).len() as int,
        ) == tail,
{
    let a = varint_bytes(shared);
    let b = varint_bytes((key.len() - shared) as nat);
    let c = varint_bytes(value.len());
    let rest = key.skip(shared as int) + value + tail;
    let all = shared_entry(key, value, shared) + tail;
    lemma_short_varint(shared);
    lemma_short_varint((key.len() - shared) as nat);
    lemma_short_varint(value.len());
    assert(all =~= a + b + c + rest);
    lemma_three_numbers(a, b, c, rest, previous);
    assert(previous.take(shared as int) + rest.take(key.len() - shared) =~= key);
    assert(rest.subrange(key.len() - shared, key.len() - shared + value.len()) =~= value);
    assert(all.skip(shared_entry(key, value, shared).len() as int) =~= tail);
}

/// The bytes of entries that leave out bytes which they share with the key
/// before them; `shares` says how many.
pub open spec fn shared_body(entries: Seq<Entry>, shares: Seq<nat>) -> Seq<u8>
    decreases entries.len(),
{
    if entries.len() == 0 {
        Seq::empty()
    } else {
        shared_entry(entries[0].0, entries[0].1, shares[0]) + shared_body(
            entries.skip(1),
            shares.skip(1),
        )
    }
}

/// Whether entries behind the key `previous` can leave out so many bytes of their
/// keys, and have lengths that fit in 32 bits.
pub open spec fn shares_are_right(
    entries: Seq<Entry>,
    shares: Seq<nat>,
    previous: Seq<u8>,
) -> bool {
    &&& shares.len() == entries.len()
    &&& forall|i: int|
        0 <= i < entries.len() ==> (#[trigger] entries[i]).0.len() <= u32::MAX
            && entries[i].1.len() <= u32::MAX && share_front(
            if i == 0 {
                previous
            } else {
                entries[i - 1].0
            },
            entries[i].0,
            shares[i],
        )
}

proof fn lemma_shared_body_reads(entries: Seq<Entry>, shares: Seq<nat>, previous: Seq<u8>)
    requires
        shares_are_right(entries, shares, previous),
    ensures
        block_entries(shared_body(entries, shares), previous) == (EntryList {
            entries,
            error: None,
        }),
    decreases entries.len(),
{
    if entries.len() == 0 {
        assert(entries =~= Seq::<Entry>::empty());
    } else {
        let (key, value) = entries[0];
        let rest = entries.skip(1);
        let tail = shared_body(rest, shares.skip(1));
        let input = shared_body(entries, shares);
        assert(share_front(previous, entries[0].0, shares[0]));
        shared_entries_are_read_whole(previous, key, value, shares[0], tail);
        assert forall|i: int| 0 <= i < rest.len() implies (#[trigger] rest[i]).0.len() <= u32::MAX
            && rest[i].1.len() <= u32::MAX && share_front(
            if i == 0 {
                key
            } else {
                rest[i - 1].0
            },
            rest[i].0,
            shares.skip(1)[i],
        ) by {
            assert(rest[i] == entries[i + 1]);
            if i > 0 {
                assert(rest[i - 1] == entries[i]);
            }
        }
        lemma_shared_body_reads(rest, shares.skip(1), key);
        lemma_block_entry_size(input, previous);
        assert(entry_then(key, value, EntryList { entries: rest, error: None }).entries
            =~= entries);
    }
}

/// A block of entries that share bytes in any way, followed by any restart
/// offsets and by their count, holds those entries with their whole keys.
pub proof fn blocks_hold_what_was_shared(
    entries: Seq<Entry>,
    shares: Seq<nat>,
    restarts: Seq<u8>,
    count: Seq<u8>,
)
    requires
        shares_are_right(entries, shares, Seq::empty()),
        count.len() == 4,
        restarts.len() == 4 * (count[0] + count[1] * 256 + count[2] * 65536 + count[3] * 16777216),
        shared_body(entries, shares).len() + restarts.len() + 4 <= usize::MAX,
    ensures
        native_entries(shared_body(entries, shares) + restarts + count).entries == entries,
        native_entries(shared_body(entries, shares) + restarts + count).error is None,
        whole_list(native_entries(shared_body(entries, shares) + restarts + count)) == Ok::<
            Seq<Entry>,
            ErrorView,
        >(entries),
{
    let body = shared_body(entries, shares);
    let block = body + restarts + count;
    assert(block.skip(block.len() - 4) =~= count);
    assert(block.take(body.len() as int) =~= body);
    lemma_shared_body_reads(entries, shares, Seq::empty());
}

/// Where the entries of a block end is said by the number in its last four bytes:
/// so many offsets of four bytes stand before it. A block that is too short for
/// them cannot be read at all.
pub proof fn blocks_end_in_restart_offsets(block: Seq<u8>)
    requires
        block.len() <= usize::MAX,
    ensures
        block.len() < 4 ==> native_entries(block).entries.len() == 0 && native_entries(
            block,
        ).error == Some(
            ErrorView::Corruption {
                path: None,
                message: "native block is missing restart count"@,
            },
        ),
        block.len() >= 4 ==> {
            let n = block.len();
            let offsets = 4 * (block[n - 4] + block[n - 3] * 256 + block[n - 2] * 65536 + block[n
                - 1] * 16777216);
            &&& offsets <= n - 4 ==> native_entries(block) == block_entries(
                block.subrange(0, n - 4 - offsets),
                Seq::empty(),
            )
            &&& offsets > n - 4 ==> native_entries(block).entries.len() == 0 && native_entries(
                block,
            ).error == Some(
                ErrorView::Corruption {
                    path: None,
                    message: if offsets > usize::MAX {
                        "native block restart array overflow"@
                    } else {
                        "native block restart array is truncated"@
                    },
                },
            )
        },
{
    if block.len() >= 4 {
        let last = block.skip(block.len() - 4);
        assert(last[0] == block[block.len() - 4]);
        assert(last[1] == block[block.len() - 3]);
        assert(last[2] == block[block.len() - 2]);
        assert(last[3] == block[block.len() - 1]);
    }
}

/// Entries are read one behind the other: each takes the key of the one before
/// it, and the first that cannot be read ends the list with its error.
pub proof fn blocks_are_read_entry_by_entry(input: Seq<u8>, previous: Seq<u8>)
    ensures
        input.len() == 0 ==> block_entries(input, previous).entries.len() == 0 && block_entries(
            input,
            previous,
        ).error is None,
        input.len() > 0 ==> match block_entry_at_front(input, previous) {
            Ok((key, value, size)) => {
                let list = block_entries(input, previous);
                let rest = block_entries(input.skip(size as int), key);
                &&& list.entries.len() == rest.entries.len() + 1
                &&& list.entries[0] == (key, value)
                &&& list.entries.skip(1) == rest.entries
                &&& list.error == rest.error
            },
            Err(error) => block_entries(input, previous).entries.len() == 0 && block_entries(
                input,
                previous,
            ).error == Some(error),
        },
{
    if input.len() > 0 {
        if let Ok((key, value, size)) = block_entry_at_front(input, previous) {
            lemma_block_entry_size(input, previous);
            let list = block_entries(input, previous);
            let rest = block_entries(input.skip(size as int), key);
            assert(list.entries.skip(1) =~= rest.entries);
        }
    }
}

/// A list is handed out as a whole exactly where all of it can be read.
pub proof fn whole_lists_are_readable_to_their_end(list: EntryList)
    ensures
        whole_list(list) is Ok <==> list.error is None,
        whole_list(list) matches Ok(entries) ==> entries == list.entries,
        whole_list(list) matches Err(error) ==> list.error == Some(error),
{
}

/// A walk shows every entry of a list, in order. One that reads the whole list
/// answers that it goes on; a visitor that stops or fails, and an entry that
/// cannot be read, are answered as such.
pub proof fn walks_show_every_entry<V: Visitor>(
    before: V,
    list: EntryList,
    borrowed: bool,
    after: V,
    answer: Answer,
    i: int,
)
    ensures
        walk_plan(list).items.len() == list.entries.len(),
        0 <= i < list.entries.len() ==> {
            &&& walk_plan(list).items[i].key == list.entries[i].0
            &&& walk_plan(list).items[i].value == list.entries[i].1
            &&& walk_plan(list).items[i].shown
        },
        list.error is None ==> walk_plan(list).end is More,
        list.error matches Some(error) ==> walk_plan(list).end == ScanEnd::Failed(error),
        walks(before, list, borrowed, after, answer) <==> exists|result: ScanResult|
            #[trigger]
            runs(before, lend(walk_plan(list), borrowed), empty_outcome(), after, result)
                && match result {
                ScanResult::More(_) => answer matches Ok(VisitorControl::Continue),
                ScanResult::Done(_) => answer matches Ok(VisitorControl::Stop),
                ScanResult::Failed(error) => answer matches Err(found) && found == error,
            },
{
    let plan = lend(walk_plan(list), borrowed);
    if 0 <= i < list.entries.len() {
        assert(list.entries[i].0.take(0) =~= Seq::<u8>::empty());
    }
    if walks(before, list, borrowed, after, answer) {
        let result = choose|result: ScanResult| #[trigger]
            runs(before, plan, empty_outcome(), after, result) && answer == walk_answer(result);
        assert(runs(before, plan, empty_outcome(), after, result));
    }
    if exists|result: ScanResult|
        #![trigger runs(before, plan, empty_outcome(), after, result)]
        runs(before, plan, empty_outcome(), after, result) && match result {
            ScanResult::More(_) => answer matches Ok(VisitorControl::Continue),
            ScanResult::Done(_) => answer matches Ok(VisitorControl::Stop),
            ScanResult::Failed(error) => answer matches Err(found) && found == error,
        } {
        let result = choose|result: ScanResult|
            #![trigger runs(before, plan, empty_outcome(), after, result)]
            runs(before, plan, empty_outcome(), after, result) && match result {
                ScanResult::More(_) => answer matches Ok(VisitorControl::Continue),
                ScanResult::Done(_) => answer matches Ok(VisitorControl::Stop),
                ScanResult::Failed(error) => answer matches Err(found) && found == error,
            };
        assert(answer == walk_answer(result));
    }
}

/// Keys and lengths of values, and owned ones, stand for those of the entries,
/// one for one.
pub proof fn keys_and_lengths_are_those_of_the_entries(
    entries: Seq<Entry>,
    owned: Seq<(Vec<u8>, usize)>,
    list: EntryList,
    i: int,
)
    ensures
        keys_and_lens(entries).len() == entries.len(),
        0 <= i < entries.len() ==> keys_and_lens(entries)[i].0 == entries[i].0 && keys_and_lens(
            entries,
        )[i].1 == entries[i].1.len(),
        owned_keys(owned).len() == owned.len(),
        0 <= i < owned.len() ==> owned_keys(owned)[i].0 == owned[i].0@ && owned_keys(owned)[i].1
            == owned[i].1,
        match list.error {
            Some(error) => whole_list(list) == Err::<Seq<Entry>, ErrorView>(error),
            None => whole_list(list) == Ok::<Seq<Entry>, ErrorView>(list.entries),
        },
{
}

} // verus!
