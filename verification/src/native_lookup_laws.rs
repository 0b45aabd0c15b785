//! Lookups in native tables agree with reading them as a whole.
use crate::error::ErrorView;
use crate::block::native_entries;
use crate::native::{block_in_table, handle_at_front, table_index, BlockHandle};
use crate::gather::{answers, pending};
use crate::internal_key::split;
use crate::keys::{key_before, key_order_irreflexive, key_order_total, Entry};
use crate::native_laws::{
    all_entries, ascending, block_of, bounded, lemma_ascending_parts, lemma_bounded_readable,
    lemma_bounded_rest, map_get, table_holds_what_is_visible, visible,
};
use crate::native_lookup::{
    covers, found_after, found_by_index, found_in_entries, gathered_by_index, gathered_from_entries,
    lemma_next_pending_shrinks, native_lookup, native_lookups, next_pending_block, nothing_gathered,
    Gathered,
};
use crate::native_scan::{
    everything, index_plan, seen_after, table_blocks, wants_block, whole_blocks, within_prefix,
    Fetch,
};
use crate::native_table::{plan_map, NextBlock};
use vstd::prelude::*;

verus! {

/// Whether an entry has this user key.
pub open spec fn has_user_key(entry: Entry, key: Seq<u8>) -> bool {
    split(entry.0) is Some && split(entry.0)->Some_0.0 == key
}

/// Whether some entry has this user key.
pub open spec fn holds_user_key(entries: Seq<Entry>, key: Seq<u8>) -> bool {
    exists|a: int|
        #![trigger entries[a]]
        0 <= a < entries.len() && has_user_key(entries[a], key)
}

/// Whether the user keys of the block of `later` lie behind that of the index
/// entry `earlier`. They may equal it where the block of `earlier` holds it.
pub open spec fn blocks_apart(earlier: Entry, later: Entry, fetch: Fetch) -> bool {
    forall|b: int|
        #![trigger block_of(later, fetch)->Ok_0[b]]
        0 <= b < block_of(later, fetch)->Ok_0.len() && split(block_of(later, fetch)->Ok_0[b].0)
            is Some ==> {
            let largest = split(earlier.0)->Some_0.0;
            let user_key = split(block_of(later, fetch)->Ok_0[b].0)->Some_0.0;
            key_before(largest, user_key) || (user_key == largest && holds_user_key(
                block_of(earlier, fetch)->Ok_0,
                user_key,
            ))
        }
}

/// Whether the index tells the blocks apart.
pub open spec fn separated(index: Seq<Entry>, fetch: Fetch) -> bool {
    forall|i: int, j: int|
        #![trigger index[i], index[j]]
        0 <= i < j < index.len() ==> blocks_apart(index[i], index[j], fetch)
}

proof fn lemma_visible_concat(front: Seq<Entry>, back: Seq<Entry>, key: Seq<u8>)
    ensures
        visible(front + back, key) == if holds_user_key(front, key) {
            visible(front, key)
        } else {
            visible(back, key)
        },
        !holds_user_key(front, key) ==> visible(front, key) is None,
    decreases front.len(),
{
    let whole = front + back;
    if front.len() == 0 {
        assert(whole =~= back);
    } else {
        let rest = front.skip(1);
        assert(whole[0] == front[0]);
        assert(whole.skip(1) =~= rest + back);
        lemma_visible_concat(rest, back, key);
        if holds_user_key(rest, key) {
            let a = choose|a: int|
                #![trigger rest[a]]
                0 <= a < rest.len() && has_user_key(rest[a], key);
            assert(rest[a] == front[a + 1]);
        }
        if holds_user_key(front, key) && !has_user_key(front[0], key) {
            let a = choose|a: int|
                #![trigger front[a]]
                0 <= a < front.len() && has_user_key(front[a], key);
            assert(rest[a - 1] == front[a]);
        }
    }
}

proof fn lemma_search(entries: Seq<Entry>, key: Seq<u8>)
    requires
        ascending(entries),
    ensures
        found_in_entries(entries, key) == visible(entries, key),
    decreases entries.len(),
{
    if entries.len() > 0 {
        let rest = entries.skip(1);
        assert forall|a: int, b: int|
            #![trigger rest[a], rest[b]]
            0 <= a < b < rest.len() && split(rest[a].0) is Some && split(rest[b].0)
                is Some implies !key_before(
            split(rest[b].0)->Some_0.0,
            split(rest[a].0)->Some_0.0,
        ) by {
            assert(rest[a] == entries[a + 1] && rest[b] == entries[b + 1]);
        }
        lemma_search(rest, key);
        if let Some((user_key, is_value)) = split(entries[0].0) {
            key_order_irreflexive(key);
            if user_key != key && !key_before(user_key, key) {
                key_order_total(user_key, key);
                assert(key_before(key, user_key));
                if holds_user_key(rest, key) {
                    let a = choose|a: int|
                        #![trigger rest[a]]
                        0 <= a < rest.len() && has_user_key(rest[a], key);
                    assert(rest[a] == entries[a + 1]);
                    assert(!key_before(key, user_key));
                }
                lemma_visible_concat(rest, Seq::empty(), key);
            }
        }
    }
}

proof fn lemma_separated_rest(index: Seq<Entry>, fetch: Fetch)
    requires
        index.len() > 0,
        separated(index, fetch),
    ensures
        separated(index.skip(1), fetch),
{
    let rest = index.skip(1);
    assert forall|i: int, j: int|
        #![trigger rest[i], rest[j]]
        0 <= i < j < rest.len() implies blocks_apart(rest[i], rest[j], fetch) by {
        assert(rest[i] == index[i + 1] && rest[j] == index[j + 1]);
    }
}

/// Every entry behind the first block stands in one of the other blocks.
proof fn lemma_entry_has_block(index: Seq<Entry>, fetch: Fetch, b: int)
    requires
        0 <= b < all_entries(index, fetch).len(),
    ensures
        exists|j: int, c: int|
            #![trigger block_of(index[j], fetch)->Ok_0[c]]
            0 <= j < index.len() && 0 <= c < block_of(index[j], fetch)->Ok_0.len() && block_of(
                index[j],
                fetch,
            )->Ok_0[c] == all_entries(index, fetch)[b],
    decreases index.len(),
{
    if index.len() > 0 {
        let block = block_of(index[0], fetch)->Ok_0;
        if b >= block.len() {
            let rest = index.skip(1);
            lemma_entry_has_block(rest, fetch, b - block.len());
            let (j, c) = choose|j: int, c: int|
                #![trigger block_of(rest[j], fetch)->Ok_0[c]]
                0 <= j < rest.len() && 0 <= c < block_of(rest[j], fetch)->Ok_0.len() && block_of(
                    rest[j],
                    fetch,
                )->Ok_0[c] == all_entries(rest, fetch)[b - block.len()];
            assert(rest[j] == index[j + 1]);
            assert(block_of(index[j + 1], fetch)->Ok_0[c] == all_entries(index, fetch)[b]);
        } else {
            assert(block_of(index[0], fetch)->Ok_0[b] == all_entries(index, fetch)[b]);
        }
    }
}

proof fn lemma_lookup(index: Seq<Entry>, key: Seq<u8>, fetch: Fetch)
    requires
        bounded(index, fetch),
        ascending(all_entries(index, fetch)),
        separated(index, fetch),
    ensures
        found_by_index(index, key, fetch) == Ok::<Option<Seq<u8>>, crate::error::ErrorView>(
            visible(all_entries(index, fetch), key),
        ),
    decreases index.len(),
{
    if index.len() > 0 {
        let rest = index.skip(1);
        let block = block_of(index[0], fetch)->Ok_0;
        let later = all_entries(rest, fetch);
        let largest = split(index[0].0)->Some_0.0;
        lemma_bounded_rest(index, fetch);
        lemma_separated_rest(index, fetch);
        lemma_ascending_parts(block, later);
        lemma_visible_concat(block, later, key);
        if !wants_block(index[0].0, within_prefix(key)) {
            lemma_lookup(rest, key, fetch);
            if holds_user_key(block, key) {
                let a = choose|a: int|
                    #![trigger block[a]]
                    0 <= a < block.len() && has_user_key(block[a], key);
                assert(!key_before(largest, key));
            }
        } else {
            lemma_search(block, key);
            if !holds_user_key(block, key) && holds_user_key(later, key) {
                let b = choose|b: int|
                    #![trigger later[b]]
                    0 <= b < later.len() && has_user_key(later[b], key);
                lemma_entry_has_block(rest, fetch, b);
                let (j, c) = choose|j: int, c: int|
                    #![trigger block_of(rest[j], fetch)->Ok_0[c]]
                    0 <= j < rest.len() && 0 <= c < block_of(rest[j], fetch)->Ok_0.len()
                        && block_of(rest[j], fetch)->Ok_0[c] == later[b];
                assert(rest[j] == index[j + 1]);
                assert(blocks_apart(index[0], index[j + 1], fetch));
                assert(key_before(largest, key) || (key == largest && holds_user_key(block, key)));
            }
            lemma_visible_concat(later, Seq::empty(), key);
        }
    }
}

/// Looking a key up gives what reading the whole table gives under that key.
pub proof fn lookup_agrees_with_table(index: Seq<Entry>, key: Seq<u8>, fetch: Fetch)
    requires
        bounded(index, fetch),
        ascending(all_entries(index, fetch)),
        separated(index, fetch),
    ensures
        ({
            let map = plan_map(
                index_plan(index, Set::empty(), everything(), fetch, whole_blocks()),
            );
            &&& map is Ok
            &&& found_by_index(index, key, fetch) == Ok::<
                Option<Seq<u8>>,
                crate::error::ErrorView,
            >(map_get(map->Ok_0, key))
        }),
{
    lemma_bounded_readable(index, fetch);
    lemma_lookup(index, key, fetch);
    table_holds_what_is_visible(index, fetch, key);
}

// ---------------------------------------------------------------------------
// Several keys.

/// What is found of a key in the end, from what was found before and from the
/// entries that are left.
spec fn found_finally(so_far: Gathered, entries: Seq<Entry>, key: Seq<u8>) -> Option<Seq<u8>> {
    if so_far.found.contains_key(key) {
        Some(so_far.found[key])
    } else if so_far.seen.contains(key) {
        None
    } else {
        visible(entries, key)
    }
}

proof fn lemma_gathered_from_entries(
    keys: Seq<Seq<u8>>,
    so_far: Gathered,
    entries: Seq<Entry>,
    more: Seq<Entry>,
    key: Seq<u8>,
)
    requires
        keys.contains(key),
    ensures
        found_finally(gathered_from_entries(keys, so_far, entries), more, key) == found_finally(
            so_far,
            entries + more,
            key,
        ),
    decreases entries.len(),
{
    let whole = entries + more;
    if entries.len() == 0 {
        assert(whole =~= more);
    } else {
        let rest = entries.skip(1);
        let next = Gathered {
            found: found_after(keys, so_far, entries[0]),
            seen: seen_after(entries[0].0, so_far.seen),
        };
        assert(whole[0] == entries[0]);
        assert(whole.skip(1) =~= rest + more);
        lemma_gathered_from_entries(keys, next, rest, more, key);
        assert(found_finally(next, rest + more, key) == found_finally(so_far, whole, key));
    }
}

proof fn lemma_gather(
    keys: Seq<Seq<u8>>,
    so_far: Gathered,
    index: Seq<Entry>,
    fetch: Fetch,
    key: Seq<u8>,
)
    requires
        bounded(index, fetch),
        keys.contains(key),
    ensures
        ({
            let found = gathered_by_index(keys, so_far, index, fetch);
            &&& found is Ok
            &&& map_get(found->Ok_0, key) == found_finally(
                so_far,
                all_entries(index, fetch),
                key,
            )
        }),
    decreases index.len(),
{
    let asked = pending(keys, so_far.found);
    if index.len() > 0 {
        let rest = index.skip(1);
        let block = block_of(index[0], fetch)->Ok_0;
        let later = all_entries(rest, fetch);
        let largest = split(index[0].0)->Some_0.0;
        lemma_bounded_rest(index, fetch);
        if covers(largest, asked) {
            let next = gathered_from_entries(keys, so_far, block);
            lemma_gather(keys, next, rest, fetch, key);
            lemma_gathered_from_entries(keys, so_far, block, later, key);
        } else {
            lemma_gather(keys, so_far, rest, fetch, key);
            lemma_skipped_block(keys, so_far, index, fetch);
            lemma_visible_concat(block, later, key);
            if !so_far.found.contains_key(key) && holds_user_key(block, key) {
                assert(asked.contains(key));
                let a = choose|a: int|
                    #![trigger block[a]]
                    0 <= a < block.len() && has_user_key(block[a], key);
                assert(!key_before(largest, key));
            }
        }
    }
}

/// A block that holds no pending key is passed over.
proof fn lemma_skipped_block(keys: Seq<Seq<u8>>, so_far: Gathered, index: Seq<Entry>, fetch: Fetch)
    requires
        index.len() > 0,
        split(index[0].0) is Some,
        !covers(split(index[0].0)->Some_0.0, pending(keys, so_far.found)),
    ensures
        gathered_by_index(keys, so_far, index, fetch) == gathered_by_index(
            keys,
            so_far,
            index.skip(1),
            fetch,
        ),
{
    let asked = pending(keys, so_far.found);
    assert(next_pending_block(index, asked) == next_pending_block(index.skip(1), asked));
}

/// Looking several keys up gives, at each place, what reading the whole table
/// gives under the key that is asked for there.
pub proof fn lookups_agree_with_table(keys: Seq<Seq<u8>>, index: Seq<Entry>, fetch: Fetch)
    requires
        bounded(index, fetch),
    ensures
        ({
            let map = plan_map(
                index_plan(index, Set::empty(), everything(), fetch, whole_blocks()),
            );
            let found = gathered_by_index(keys, nothing_gathered(), index, fetch);
            &&& map is Ok
            &&& found is Ok
            &&& answers(keys, found->Ok_0) == Seq::new(
                keys.len(),
                |i: int| map_get(map->Ok_0, keys[i]),
            )
        }),
{
    lemma_bounded_readable(index, fetch);
    let map = plan_map(index_plan(index, Set::empty(), everything(), fetch, whole_blocks()));
    let found = gathered_by_index(keys, nothing_gathered(), index, fetch);
    let expected = Seq::new(keys.len(), |i: int| map_get(map->Ok_0, keys[i]));
    table_holds_what_is_visible(index, fetch, Seq::empty());
    assert(found is Ok) by {
        if keys.len() > 0 {
            assert(keys.contains(keys[0]));
            lemma_gather(keys, nothing_gathered(), index, fetch, keys[0]);
        } else {
            lemma_nothing_asked(keys, index);
        }
    }
    assert forall|i: int| 0 <= i < keys.len() implies #[trigger] answers(keys, found->Ok_0)[i]
        == expected[i] by {
        assert(keys.contains(keys[i]));
        lemma_gather(keys, nothing_gathered(), index, fetch, keys[i]);
        table_holds_what_is_visible(index, fetch, keys[i]);
    }
    assert(answers(keys, found->Ok_0) =~= expected);
}

proof fn lemma_nothing_asked(keys: Seq<Seq<u8>>, index: Seq<Entry>)
    requires
        keys.len() == 0,
    ensures
        next_pending_block(index, pending(keys, nothing_gathered().found)) is Nothing,
    decreases index.len(),
{
    if index.len() > 0 {
        lemma_nothing_asked(keys, index.skip(1));
    }
}

// ---------------------------------------------------------------------------
// Lookups in tables of any order.

/// A search through entries finds a value exactly where some entry has the key
/// and is no deletion, and every entry before it that splits has a key that
/// comes before.
pub proof fn searches_end_at_the_key_or_behind_it(
    entries: Seq<Entry>,
    key: Seq<u8>,
    value: Seq<u8>,
)
    ensures
        found_in_entries(entries, key) == Some(value) <==> exists|i: int|
            #![trigger entries[i]]
            0 <= i < entries.len() && split(entries[i].0) == Some((key, true)) && entries[i].1
                == value && forall|j: int|
                0 <= j < i ==> (split((#[trigger] entries[j]).0) matches Some((other, _))
                    ==> key_before(other, key)),
    decreases entries.len(),
{
    if entries.len() > 0 {
        let rest = entries.skip(1);
        searches_end_at_the_key_or_behind_it(rest, key, value);
        key_order_irreflexive(key);
        let passed = split(entries[0].0) is Some ==> key_before(
            split(entries[0].0)->Some_0.0,
            key,
        );
        if found_in_entries(entries, key) == Some(value) {
            if passed {
                let i = choose|i: int|
                    #![trigger rest[i]]
                    0 <= i < rest.len() && split(rest[i].0) == Some((key, true)) && rest[i].1
                        == value && forall|j: int|
                        0 <= j < i ==> (split((#[trigger] rest[j]).0) matches Some((other, _))
                            ==> key_before(other, key));
                assert(entries[i + 1] == rest[i]);
                assert forall|j: int| 0 <= j < i + 1 && split((#[trigger] entries[j]).0)
                    is Some implies key_before(split(entries[j].0)->Some_0.0, key) by {
                    if j > 0 {
                        assert(rest[j - 1] == entries[j]);
                        assert(split(rest[j - 1].0) is Some);
                    }
                }
            } else {
                assert(split(entries[0].0) == Some((key, true)));
            }
        }
        if exists|i: int|
            #![trigger entries[i]]
            0 <= i < entries.len() && split(entries[i].0) == Some((key, true)) && entries[i].1
                == value && forall|j: int|
                0 <= j < i ==> (split((#[trigger] entries[j]).0) matches Some((other, _))
                    ==> key_before(other, key)) {
            let i = choose|i: int|
                #![trigger entries[i]]
                0 <= i < entries.len() && split(entries[i].0) == Some((key, true)) && entries[i].1
                    == value && forall|j: int|
                    0 <= j < i ==> (split((#[trigger] entries[j]).0) matches Some((other, _))
                        ==> key_before(other, key));
            if i > 0 {
                assert(split(entries[0].0) is Some ==> key_before(
                    split(entries[0].0)->Some_0.0,
                    key,
                ));
                assert(rest[i - 1] == entries[i]);
                assert forall|j: int| 0 <= j < i - 1 && split((#[trigger] rest[j]).0)
                    is Some implies key_before(split(rest[j].0)->Some_0.0, key) by {
                    assert(entries[j + 1] == rest[j]);
                    assert(split(entries[j + 1].0) is Some);
                }
            }
        }
    }
}

/// A lookup passes over the blocks whose index key does not split or comes before
/// the key, and searches the first other one, which decides. Where there is none,
/// nothing is found and nothing is fetched.
pub proof fn lookups_search_one_block(
    entry: Entry,
    rest: Seq<Entry>,
    key: Seq<u8>,
    fetch: Fetch,
)
    ensures
        found_by_index(Seq::empty(), key, fetch) == Ok::<Option<Seq<u8>>, ErrorView>(None),
        ({
            let found = found_by_index(seq![entry] + rest, key, fetch);
            let passed_over = match split(entry.0) {
                None => true,
                Some((largest, _)) => key_before(largest, key),
            };
            &&& passed_over ==> found == found_by_index(rest, key, fetch)
            &&& !passed_over ==> match handle_at_front(entry.1) {
                Err(error) => found == Err::<Option<Seq<u8>>, ErrorView>(error),
                Ok((handle, _)) => match fetch(handle) {
                    Err(error) => found == Err::<Option<Seq<u8>>, ErrorView>(error),
                    Ok(block) => match native_entries(block).error {
                        Some(error) => found == Err::<Option<Seq<u8>>, ErrorView>(error),
                        None => found == Ok::<Option<Seq<u8>>, ErrorView>(
                            found_in_entries(native_entries(block).entries, key),
                        ),
                    },
                },
            }
        }),
{
    let index = seq![entry] + rest;
    assert(index[0] == entry);
    assert(index.skip(1) =~= rest);
}

/// A lookup of several keys is over, and fetches nothing more, once no key is
/// pending. It passes over the blocks whose index key does not split or comes
/// before every pending key. Any other block is fetched and has to be readable;
/// the keys that it does not hold stay pending for the blocks behind it.
pub proof fn lookups_of_several_keys_go_on_while_keys_are_pending(
    keys: Seq<Seq<u8>>,
    so_far: Gathered,
    entry: Entry,
    rest: Seq<Entry>,
    fetch: Fetch,
)
    ensures
        ({
            let found = gathered_by_index(keys, so_far, seq![entry] + rest, fetch);
            let covered = split(entry.0) is Some && exists|key: Seq<u8>|
                keys.contains(key) && !so_far.found.contains_key(key) && !(
                #[trigger] key_before(split(entry.0)->Some_0.0, key));
            &&& gathered_by_index(keys, so_far, Seq::empty(), fetch) == Ok::<
                Map<Seq<u8>, Seq<u8>>,
                ErrorView,
            >(so_far.found)
            &&& !covered ==> found == gathered_by_index(keys, so_far, rest, fetch)
            &&& covered ==> match handle_at_front(entry.1) {
                Err(error) => found == Err::<Map<Seq<u8>, Seq<u8>>, ErrorView>(error),
                Ok((handle, _)) => match fetch(handle) {
                    Err(error) => found == Err::<Map<Seq<u8>, Seq<u8>>, ErrorView>(error),
                    Ok(block) => match native_entries(block).error {
                        Some(error) => found == Err::<Map<Seq<u8>, Seq<u8>>, ErrorView>(error),
                        None => found == gathered_by_index(
                            keys,
                            gathered_from_entries(keys, so_far, native_entries(block).entries),
                            rest,
                            fetch,
                        ),
                    },
                },
            }
        }),
        (forall|i: int| 0 <= i < keys.len() ==> so_far.found.contains_key(#[trigger] keys[i]))
            ==> gathered_by_index(keys, so_far, seq![entry] + rest, fetch) == Ok::<
            Map<Seq<u8>, Seq<u8>>,
            ErrorView,
        >(so_far.found),
{
    let index = seq![entry] + rest;
    let wanted = pending(keys, so_far.found);
    assert(index[0] == entry);
    assert(index.skip(1) =~= rest);
    if let Some((largest, _)) = split(entry.0) {
        if exists|key: Seq<u8>|
            keys.contains(key) && !so_far.found.contains_key(key) && !(
            #[trigger] key_before(largest, key)) {
            let key = choose|key: Seq<u8>|
                keys.contains(key) && !so_far.found.contains_key(key) && !(
                #[trigger] key_before(largest, key));
            assert(wanted.contains(key));
        }
    }
    lemma_next_pending_shrinks(index, wanted);
    lemma_next_pending_shrinks(rest, wanted);
    if forall|i: int| 0 <= i < keys.len() ==> so_far.found.contains_key(#[trigger] keys[i]) {
        assert forall|key: Seq<u8>| !wanted.contains(key) by {
            if keys.contains(key) {
                let i = choose|i: int| 0 <= i < keys.len() && keys[i] == key;
                assert(so_far.found.contains_key(keys[i]));
            }
        }
        lemma_nothing_is_next(index, wanted);
    }
}

proof fn lemma_nothing_is_next(index: Seq<Entry>, keys: Set<Seq<u8>>)
    requires
        forall|key: Seq<u8>| !keys.contains(key),
    ensures
        next_pending_block(index, keys) is Nothing,
    decreases index.len(),
{
    if index.len() > 0 {
        lemma_nothing_is_next(index.skip(1), keys);
    }
}

/// Of the entries of a block a lookup of several keys takes one in exactly where
/// it is the first with its user key, is no deletion, and its key is asked for
/// and not found yet.
pub proof fn lookups_of_several_keys_take_first_entries(
    keys: Seq<Seq<u8>>,
    so_far: Gathered,
    entry: Entry,
    rest: Seq<Entry>,
)
    ensures
        gathered_from_entries(keys, so_far, Seq::empty()) == so_far,
        ({
            let after = gathered_from_entries(keys, so_far, seq![entry] + rest);
            match split(entry.0) {
                None => after == gathered_from_entries(keys, so_far, rest),
                Some((user_key, is_value)) => after == gathered_from_entries(
                    keys,
                    Gathered {
                        found: if is_value && !so_far.seen.contains(user_key) && keys.contains(
                            user_key,
                        ) && !so_far.found.contains_key(user_key) {
                            so_far.found.insert(user_key, entry.1)
                        } else {
                            so_far.found
                        },
                        seen: so_far.seen.insert(user_key),
                    },
                    rest,
                ),
            }
        }),
        nothing_gathered().found == Map::<Seq<u8>, Seq<u8>>::empty(),
        nothing_gathered().seen == Set::<Seq<u8>>::empty(),
{
    let entries = seq![entry] + rest;
    assert(entries[0] == entry);
    assert(entries.skip(1) =~= rest);
}

/// Lookups in a table go by its index and its blocks; several keys are answered
/// at their places. A table whose index cannot be read fails them.
pub proof fn table_lookups_start_at_the_index(
    path: Seq<char>,
    table: Seq<u8>,
    paranoid_checks: bool,
    key: Seq<u8>,
    keys: Seq<Seq<u8>>,
    i: int,
)
    ensures
        ({
            let fetch = |handle: BlockHandle| block_in_table(path, table, handle, paranoid_checks);
            let one = native_lookup(path, table, key, paranoid_checks);
            let several = native_lookups(path, table, keys, paranoid_checks);
            match table_index(path, table, paranoid_checks) {
                Err(error) => {
                    &&& one == Err::<Option<Seq<u8>>, ErrorView>(error)
                    &&& several == Err::<Seq<Option<Seq<u8>>>, ErrorView>(error)
                },
                Ok(index) => {
                    &&& one == found_by_index(index, key, fetch)
                    &&& match gathered_by_index(keys, nothing_gathered(), index, fetch) {
                        Err(error) => several == Err::<Seq<Option<Seq<u8>>>, ErrorView>(error),
                        Ok(found) => {
                            &&& several is Ok
                            &&& several->Ok_0.len() == keys.len()
                            &&& 0 <= i < keys.len() && found.contains_key(keys[i])
                                ==> several->Ok_0[i] == Some(found[keys[i]])
                            &&& 0 <= i < keys.len() && !found.contains_key(keys[i])
                                ==> several->Ok_0[i] is None
                        },
                    }
                },
            }
        }),
{
    let fetch = |handle: BlockHandle| block_in_table(path, table, handle, paranoid_checks);
    assert(fetch =~= table_blocks(path, table, paranoid_checks));
}

/// The block that a lookup of several keys reads next is that of the first index
/// entry whose key splits and does not come before every pending key. The entries
/// behind it are left.
pub proof fn next_pending_block_is_the_first_that_covers(
    entry: Entry,
    rest: Seq<Entry>,
    keys: Set<Seq<u8>>,
)
    ensures
        next_pending_block(Seq::empty(), keys) is Nothing,
        ({
            let next = next_pending_block(seq![entry] + rest, keys);
            let covered = split(entry.0) is Some && exists|key: Seq<u8>|
                keys.contains(key) && !(#[trigger] key_before(split(entry.0)->Some_0.0, key));
            &&& !covered ==> next == next_pending_block(rest, keys)
            &&& covered ==> match handle_at_front(entry.1) {
                Err(error) => next == NextBlock::Unreadable(error),
                Ok((handle, _)) => next == NextBlock::Read(handle, rest),
            }
        }),
{
    let index = seq![entry] + rest;
    assert(index[0] == entry);
    assert(index.skip(1) =~= rest);
    if split(entry.0) is Some && exists|key: Seq<u8>|
        keys.contains(key) && !(#[trigger] key_before(split(entry.0)->Some_0.0, key)) {
        let key = choose|key: Seq<u8>|
            keys.contains(key) && !(#[trigger] key_before(split(entry.0)->Some_0.0, key));
        assert(keys.contains(key));
    }
}

} // verus!
