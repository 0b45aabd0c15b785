//! Looking keys up in native tables.
use crate::blob::{as_slice, contents, from_vec, optional_contents, share};
use crate::block::{decode_native_block_entries_bytes, native_entries, whole_list};
use crate::collect::owned_entries;
use crate::custom_lookup::{lookup_view, lookups_view};
use crate::error::{ErrorView, LevelDbError};
use crate::gather::{
    all_contents, all_optional_contents, answers, is_first, offered, pending, Gather,
};
use crate::internal_key::{split, split_internal_key};
use crate::keys::{key_before, key_order, key_order_transitive, Entry, KeyOrder, KeySet};
use crate::native::{
    handle_at_front, read_block_handle, read_native_block, read_native_index_entries_bytes,
    table_index, BlockHandle,
};
use crate::native_scan::{seen_after, table_blocks, within_prefix, Fetch, NativeSelection};
use crate::native_table::{next_block, NativeScan, NextBlock};
use bytes::Bytes;
use vstd::prelude::*;
use vstd::slice::slice_to_vec;

verus! {

// ---------------------------------------------------------------------------
// One key.

/// What a search through entries in ascending order finds of a key: the search
/// ends at the first entry that has the key, or lies behind it.
pub open spec fn found_in_entries(entries: Seq<Entry>, key: Seq<u8>) -> Option<Seq<u8>>
    decreases entries.len(),
{
    if entries.len() == 0 {
        None
    } else {
        match split(entries[0].0) {
            None => found_in_entries(entries.skip(1), key),
            Some((user_key, is_value)) => if key_before(user_key, key) {
                found_in_entries(entries.skip(1), key)
            } else if user_key == key && is_value {
                Some(entries[0].1)
            } else {
                None
            },
        }
    }
}

/// What a search through a block finds of a key.
pub open spec fn found_in_block(block: Seq<u8>, key: Seq<u8>) -> Result<
    Option<Seq<u8>>,
    ErrorView,
> {
    match whole_list(native_entries(block)) {
        Err(error) => Err(error),
        Ok(entries) => Ok(found_in_entries(entries, key)),
    }
}

/// What a table with this index holds under a key: only the first block whose
/// largest key does not come before the key is searched.
pub open spec fn found_by_index(index: Seq<Entry>, key: Seq<u8>, fetch: Fetch) -> Result<
    Option<Seq<u8>>,
    ErrorView,
> {
    match next_block(index, within_prefix(key)) {
        NextBlock::Nothing => Ok(None),
        NextBlock::Unreadable(error) => Err(error),
        NextBlock::Read(handle, _) => match fetch(handle) {
            Err(error) => Err(error),
            Ok(block) => found_in_block(block, key),
        },
    }
}

/// What a table holds under a key.
pub open spec fn native_lookup(
    path: Seq<char>,
    table: Seq<u8>,
    key: Seq<u8>,
    paranoid_checks: bool,
) -> Result<Option<Seq<u8>>, ErrorView> {
    match table_index(path, table, paranoid_checks) {
        Err(error) => Err(error),
        Ok(index) => found_by_index(index, key, table_blocks(path, table, paranoid_checks)),
    }
}

/// Finds the block that may hold a key.
pub fn find_native_block(index: Vec<(Vec<u8>, Bytes)>, key: &[u8]) -> (r: Result<
    Option<BlockHandle>,
    LevelDbError,
>)
    ensures
        match r {
            Ok(None) => next_block(owned_entries(index@), within_prefix(key@)) is Nothing,
            Ok(Some(handle)) => next_block(owned_entries(index@), within_prefix(key@)) matches
                NextBlock::Read(found, _) && found == handle,
            Err(error) => next_block(owned_entries(index@), within_prefix(key@))
                == NextBlock::Unreadable(error@),
        },
{
    let mut scan = NativeScan::new(index, NativeSelection::within_prefix(key));
    scan.next_block()
}

/// Searches a block for a key.
pub fn find_in_native_block(block: &Bytes, key: &[u8]) -> (r: Result<Option<Bytes>, LevelDbError>)
    ensures
        match r {
            Ok(value) => found_in_block(contents(*block), key@) == Ok::<
                Option<Seq<u8>>,
                ErrorView,
            >(optional_contents(value)),
            Err(error) => found_in_block(contents(*block), key@) == Err::<
                Option<Seq<u8>>,
                ErrorView,
            >(error@),
        },
{
    let entries = match decode_native_block_entries_bytes(block) {
        Ok(entries) => entries,
        Err(error) => return Err(error),
    };
    let ghost list = owned_entries(entries@);
    let mut i: usize = 0;
    proof {
        assert(list.skip(0) =~= list);
    }
    while i < entries.len()
        invariant
            i <= entries@.len(),
            list == owned_entries(entries@),
            found_in_block(contents(*block), key@) == Ok::<Option<Seq<u8>>, ErrorView>(
                found_in_entries(list.skip(i as int), key@),
            ),
        decreases entries@.len() - i,
    {
        proof {
            assert(list.skip(i as int)[0] == list[i as int]);
            assert(list.skip(i as int).skip(1) =~= list.skip(i + 1));
        }
        if let Some((user_key, is_value)) = split_internal_key(entries[i].0.as_slice()) {
            match key_order(user_key, key) {
                KeyOrder::Before => {},
                KeyOrder::Same => {
                    if is_value {
                        return Ok(Some(share(&entries[i].1)));
                    }
                    return Ok(None);
                },
                KeyOrder::After => return Ok(None),
            }
        }
        i = i + 1;
    }
    Ok(None)
}

// ---------------------------------------------------------------------------
// Several keys.

/// Whether a block with this largest key may hold one of some keys.
pub open spec fn covers(largest: Seq<u8>, keys: Set<Seq<u8>>) -> bool {
    exists|key: Seq<u8>| #[trigger] keys.contains(key) && !key_before(largest, key)
}

/// The block to read next for keys that are still pending.
pub open spec fn next_pending_block(index: Seq<Entry>, keys: Set<Seq<u8>>) -> NextBlock
    decreases index.len(),
{
    if index.len() == 0 {
        NextBlock::Nothing
    } else {
        match split(index[0].0) {
            None => next_pending_block(index.skip(1), keys),
            Some((largest, _)) => if !covers(largest, keys) {
                next_pending_block(index.skip(1), keys)
            } else {
                match handle_at_front(index[0].1) {
                    Err(error) => NextBlock::Unreadable(error),
                    Ok((handle, _)) => NextBlock::Read(handle, index.skip(1)),
                }
            },
        }
    }
}

/// What was found of some keys, and the user keys that were seen.
#[verifier::ext_equal]
pub struct Gathered {
    pub found: Map<Seq<u8>, Seq<u8>>,
    pub seen: Set<Seq<u8>>,
}

/// What the entry with an internal key adds to what was found.
pub open spec fn found_after(keys: Seq<Seq<u8>>, so_far: Gathered, entry: Entry) -> Map<
    Seq<u8>,
    Seq<u8>,
> {
    match split(entry.0) {
        Some((user_key, is_value)) => if is_value && !so_far.seen.contains(user_key) {
            offered(keys, so_far.found, user_key, entry.1)
        } else {
            so_far.found
        },
        None => so_far.found,
    }
}

/// What is found of some keys after a pass through entries. Of the entries with
/// one user key only the first counts.
pub open spec fn gathered_from_entries(
    keys: Seq<Seq<u8>>,
    so_far: Gathered,
    entries: Seq<Entry>,
) -> Gathered
    decreases entries.len(),
{
    if entries.len() == 0 {
        so_far
    } else {
        gathered_from_entries(
            keys,
            Gathered {
                found: found_after(keys, so_far, entries[0]),
                seen: seen_after(entries[0].0, so_far.seen),
            },
            entries.skip(1),
        )
    }
}

/// What is found of some keys after the rest of a table. No block is read once
/// nothing is pending.
pub open spec fn gathered_by_index(
    keys: Seq<Seq<u8>>,
    so_far: Gathered,
    index: Seq<Entry>,
    fetch: Fetch,
) -> Result<Map<Seq<u8>, Seq<u8>>, ErrorView>
    decreases index.len(),
{
    match next_pending_block(index, pending(keys, so_far.found)) {
        NextBlock::Nothing => Ok(so_far.found),
        NextBlock::Unreadable(error) => Err(error),
        NextBlock::Read(handle, rest) => match fetch(handle) {
            Err(error) => Err(error),
            Ok(block) => match whole_list(native_entries(block)) {
                Err(error) => Err(error),
                Ok(entries) => {
                    proof {
                        lemma_next_pending_shrinks(index, pending(keys, so_far.found));
                    }
                    gathered_by_index(
                        keys,
                        gathered_from_entries(keys, so_far, entries),
                        rest,
                        fetch,
                    )
                },
            },
        },
    }
}

/// Nothing found and nothing seen.
pub open spec fn nothing_gathered() -> Gathered {
    Gathered { found: Map::empty(), seen: Set::empty() }
}

/// What a table holds under some keys, for each place in the order in which they
/// are asked for.
pub open spec fn native_lookups(
    path: Seq<char>,
    table: Seq<u8>,
    keys: Seq<Seq<u8>>,
    paranoid_checks: bool,
) -> Result<Seq<Option<Seq<u8>>>, ErrorView> {
    match table_index(path, table, paranoid_checks) {
        Err(error) => Err(error),
        Ok(index) => match gathered_by_index(
            keys,
            nothing_gathered(),
            index,
            table_blocks(path, table, paranoid_checks),
        ) {
            Err(error) => Err(error),
            Ok(found) => Ok(answers(keys, found)),
        },
    }
}

/// A step to the next block leaves less of the index.
pub proof fn lemma_next_pending_shrinks(index: Seq<Entry>, keys: Set<Seq<u8>>)
    ensures
        next_pending_block(index, keys) matches NextBlock::Read(_, rest) ==> rest.len()
            < index.len(),
    decreases index.len(),
{
    if index.len() > 0 {
        lemma_next_pending_shrinks(index.skip(1), keys);
    }
}

proof fn lemma_first_covers(largest: Seq<u8>, keys: Set<Seq<u8>>, first: Seq<u8>)
    requires
        is_first(keys, first),
    ensures
        covers(largest, keys) == !key_before(largest, first),
{
    if key_before(largest, first) {
        assert forall|key: Seq<u8>| #[trigger] keys.contains(key) implies key_before(
            largest,
            key,
        ) by {
            if key != first {
                key_order_transitive(largest, first, key);
            }
        }
    } else {
        assert(keys.contains(first));
    }
}

proof fn lemma_nothing_pending(keys: Seq<Seq<u8>>, so_far: Gathered, entries: Seq<Entry>)
    requires
        pending(keys, so_far.found) == Set::<Seq<u8>>::empty(),
    ensures
        gathered_from_entries(keys, so_far, entries).found == so_far.found,
    decreases entries.len(),
{
    if entries.len() > 0 {
        let next = Gathered {
            found: found_after(keys, so_far, entries[0]),
            seen: seen_after(entries[0].0, so_far.seen),
        };
        assert(next.found == so_far.found);
        lemma_nothing_pending(keys, next, entries.skip(1));
    }
}

proof fn lemma_no_block_pending(index: Seq<Entry>, keys: Set<Seq<u8>>)
    requires
        keys == Set::<Seq<u8>>::empty(),
    ensures
        next_pending_block(index, keys) is Nothing,
    decreases index.len(),
{
    if index.len() > 0 {
        lemma_no_block_pending(index.skip(1), keys);
    }
}

/// A lookup of several keys in a native table whose blocks are handed to it one
/// by one.
pub struct NativeGather {
    index: Vec<(Vec<u8>, Bytes)>,
    next: usize,
    seen: KeySet,
    gather: Gather,
}

impl NativeGather {
    /// What is left of the index.
    pub closed spec fn left(&self) -> Seq<Entry> {
        owned_entries(self.index@).skip(self.next as int)
    }

    /// The keys that are looked up, in the order in which they were asked for.
    pub closed spec fn keys(&self) -> Seq<Seq<u8>> {
        self.gather.keys()
    }

    /// What was found and seen so far.
    pub closed spec fn so_far(&self) -> Gathered {
        Gathered { found: self.gather.found(), seen: self.seen@ }
    }

    /// The invariant.
    pub closed spec fn wf(&self) -> bool {
        self.next <= self.index@.len() && self.seen.wf() && self.gather.wf()
    }

    /// Starts to look `keys` up in the table with this index.
    pub fn new(index: Vec<(Vec<u8>, Bytes)>, keys: &[Bytes]) -> (r: NativeGather)
        ensures
            r.wf(),
            r.left() == owned_entries(index@),
            r.keys() == all_contents(keys@),
            r.so_far() == nothing_gathered(),
    {
        let r = NativeGather { index, next: 0, seen: KeySet::new(), gather: Gather::new(keys) };
        assert(r.left() =~= owned_entries(index@));
        r
    }

    /// Finds the block to read next, and moves behind its index entry. Returns
    /// `None` where there is none left that may hold a pending key.
    pub fn next_block(&mut self) -> (r: Result<Option<BlockHandle>, LevelDbError>)
        requires
            old(self).wf(),
        ensures
            final(self).wf(),
            final(self).keys() == old(self).keys(),
            final(self).so_far() == old(self).so_far(),
            match r {
                Ok(None) => next_pending_block(
                    old(self).left(),
                    pending(old(self).keys(), old(self).so_far().found),
                ) is Nothing,
                Ok(Some(handle)) => next_pending_block(
                    old(self).left(),
                    pending(old(self).keys(), old(self).so_far().found),
                ) == NextBlock::Read(handle, final(self).left()),
                Err(error) => next_pending_block(
                    old(self).left(),
                    pending(old(self).keys(), old(self).so_far().found),
                ) == NextBlock::Unreadable(error@),
            },
            r matches Ok(Some(_)) ==> final(self).left().len() < old(self).left().len(),
    {
        let ghost all = owned_entries(self.index@);
        let ghost asked = pending(self.keys(), self.so_far().found);
        let ghost whole = next_pending_block(self.left(), asked);
        while self.next < self.index.len()
            invariant
                self.wf(),
                all == owned_entries(self.index@),
                self.keys() == old(self).keys(),
                self.so_far() == old(self).so_far(),
                asked == pending(self.keys(), self.so_far().found),
                self.left() == all.skip(self.next as int),
                self.left().len() <= old(self).left().len(),
                whole == next_pending_block(old(self).left(), asked),
                whole == next_pending_block(self.left(), asked),
            decreases self.index@.len() - self.next,
        {
            let i: usize = self.next;
            let ghost before = self.left();
            self.next = i + 1;
            proof {
                assert(before[0] == all[i as int]);
                assert(before.skip(1) =~= self.left());
            }
            if let Some((largest, _)) = split_internal_key(self.index[i].0.as_slice()) {
                let reads: bool = match self.gather.first_pending() {
                    None => {
                        proof {
                            lemma_no_block_pending(before, asked);
                        }
                        return Ok(None);
                    },
                    Some(first) => {
                        proof {
                            lemma_first_covers(largest@, asked, first@);
                        }
                        key_order(largest, first) != KeyOrder::Before
                    },
                };
                if reads {
                    let mut input = as_slice(&self.index[i].1);
                    return match read_block_handle(&mut input) {
                        Ok(handle) => Ok(Some(handle)),
                        Err(error) => Err(error),
                    };
                }
            }
        }
        Ok(None)
    }

    /// Looks the pending keys up in the block that was asked for last.
    pub fn gather_block(&mut self, block: &Bytes) -> (r: Result<(), LevelDbError>)
        requires
            old(self).wf(),
        ensures
            final(self).wf(),
            final(self).keys() == old(self).keys(),
            final(self).left() == old(self).left(),
            match r {
                Ok(_) => {
                    &&& whole_list(native_entries(contents(*block))) matches Ok(entries)
                    &&& final(self).so_far().found == gathered_from_entries(
                        old(self).keys(),
                        old(self).so_far(),
                        entries,
                    ).found
                    &&& pending(old(self).keys(), final(self).so_far().found) != Set::<
                        Seq<u8>,
                    >::empty() ==> final(self).so_far() == gathered_from_entries(
                        old(self).keys(),
                        old(self).so_far(),
                        entries,
                    )
                },
                Err(error) => whole_list(native_entries(contents(*block))) == Err::<
                    Seq<Entry>,
                    ErrorView,
                >(error@) && final(self).so_far() == old(self).so_far(),
            },
    {
        let entries = match decode_native_block_entries_bytes(block) {
            Ok(entries) => entries,
            Err(error) => return Err(error),
        };
        let ghost list = owned_entries(entries@);
        let ghost keys = self.keys();
        let ghost whole = gathered_from_entries(keys, self.so_far(), list);
        let mut i: usize = 0;
        proof {
            assert(list.skip(0) =~= list);
        }
        while i < entries.len()
            invariant
                i <= entries@.len(),
                self.wf(),
                list == owned_entries(entries@),
                keys == old(self).keys(),
                self.keys() == keys,
                self.left() == old(self).left(),
                whole == gathered_from_entries(keys, old(self).so_far(), list),
                whole == gathered_from_entries(keys, self.so_far(), list.skip(i as int)),
                whole_list(native_entries(contents(*block))) == Ok::<Seq<Entry>, ErrorView>(list),
            decreases entries@.len() - i,
        {
            let ghost before = self.so_far();
            let ghost next = Gathered {
                found: found_after(keys, before, list[i as int]),
                seen: seen_after(list[i as int].0, before.seen),
            };
            proof {
                assert(list.skip(i as int)[0] == list[i as int]);
                assert(list.skip(i as int).skip(1) =~= list.skip(i + 1));
            }
            if let Some((user_key, is_value)) = split_internal_key(entries[i].0.as_slice()) {
                if self.seen.insert(slice_to_vec(user_key)) {
                    if is_value {
                        let taken: bool = self.gather.offer(user_key, &entries[i].1);
                        if taken && self.gather.is_complete() {
                            proof {
                                assert(self.so_far() =~= next);
                                lemma_nothing_pending(keys, next, list.skip(i + 1));
                            }
                            return Ok(());
                        }
                    }
                }
            }
            proof {
                assert(self.so_far() =~= next);
            }
            i = i + 1;
        }
        Ok(())
    }

    /// Ends the lookup.
    pub fn finish(self) -> (r: Vec<Option<Bytes>>)
        requires
            self.wf(),
        ensures
            all_optional_contents(r@) == answers(self.keys(), self.so_far().found),
    {
        self.gather.into_results()
    }
}

// ---------------------------------------------------------------------------
// Tables in memory.

/// Looks a key up in a table.
pub fn get_native_table_entry_bytes(
    path: &str,
    table_bytes: &[u8],
    key: &[u8],
    paranoid_checks: bool,
) -> (r: Result<Option<Bytes>, LevelDbError>)
    ensures
        lookup_view(r) == native_lookup(path@, table_bytes@, key@, paranoid_checks),
{
    let ghost fetch = table_blocks(path@, table_bytes@, paranoid_checks);
    let index = match read_native_index_entries_bytes(path, table_bytes, paranoid_checks) {
        Ok(index) => index,
        Err(error) => return Err(error),
    };
    let handle = match find_native_block(index, key) {
        Ok(Some(handle)) => handle,
        Ok(None) => return Ok(None),
        Err(error) => return Err(error),
    };
    match read_native_block(path, table_bytes, handle, paranoid_checks) {
        Err(error) => {
            assert(fetch(handle) == Err::<Seq<u8>, ErrorView>(error@));
            Err(error)
        },
        Ok(block) => {
            assert(fetch(handle) == Ok::<Seq<u8>, ErrorView>(block@));
            find_in_native_block(&from_vec(block), key)
        },
    }
}

/// Looks several keys up in a table.
pub fn get_native_table_entries_bytes(
    path: &str,
    table_bytes: &[u8],
    keys: &[Bytes],
    paranoid_checks: bool,
) -> (r: Result<Vec<Option<Bytes>>, LevelDbError>)
    ensures
        lookups_view(r) == native_lookups(
            path@,
            table_bytes@,
            all_contents(keys@),
            paranoid_checks,
        ),
{
    let ghost fetch = table_blocks(path@, table_bytes@, paranoid_checks);
    let ghost asked = all_contents(keys@);
    let index = match read_native_index_entries_bytes(path, table_bytes, paranoid_checks) {
        Ok(index) => index,
        Err(error) => return Err(error),
    };
    let ghost whole = gathered_by_index(asked, nothing_gathered(), owned_entries(index@), fetch);
    let mut gather = NativeGather::new(index, keys);
    loop
        invariant
            gather.wf(),
            gather.keys() == asked,
            asked == all_contents(keys@),
            fetch == table_blocks(path@, table_bytes@, paranoid_checks),
            whole == gathered_by_index(asked, gather.so_far(), gather.left(), fetch),
            table_index(path@, table_bytes@, paranoid_checks) == Ok::<Seq<Entry>, ErrorView>(
                owned_entries(index@),
            ),
            whole == gathered_by_index(asked, nothing_gathered(), owned_entries(index@), fetch),
        decreases gather.left().len(),
    {
        let handle = match gather.next_block() {
            Err(error) => return Err(error),
            Ok(None) => return Ok(gather.finish()),
            Ok(Some(handle)) => handle,
        };
        let block = match read_native_block(path, table_bytes, handle, paranoid_checks) {
            Err(error) => {
                assert(fetch(handle) == Err::<Seq<u8>, ErrorView>(error@));
                return Err(error);
            },
            Ok(block) => from_vec(block),
        };
        assert(fetch(handle) == Ok::<Seq<u8>, ErrorView>(contents(block)));
        let ghost before = gather.so_far();
        if let Err(error) = gather.gather_block(&block) {
            return Err(error);
        }
        proof {
            let entries = whole_list(native_entries(contents(block)))->Ok_0;
            let exact = gathered_from_entries(asked, before, entries);
            let left = pending(asked, exact.found);
            assert(whole == gathered_by_index(asked, exact, gather.left(), fetch));
            if left =~= Set::<Seq<u8>>::empty() {
                lemma_no_block_pending(gather.left(), left);
            }
        }
    }
}

} // verus!
