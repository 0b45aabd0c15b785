//! A bounded cache of decoded blocks.
use crate::blob::{as_slice, contents, optional_contents, share};
use crate::error::{ErrorView, LevelDbError};
use crate::keys::{key_order, KeyOrder};
use crate::options::capped_sum;
use bytes::Bytes;
use vstd::prelude::*;

verus! {

/// Which block of which table, and whether its checksum was verified.
#[derive(Debug, Clone)]
pub struct NativeBlockCacheKey {
    /// The bytes of the table's path.
    pub path: Vec<u8>,
    /// Where the block starts.
    pub offset: u64,
    /// How many bytes the block takes.
    pub size: u64,
    /// Whether its checksum was verified.
    pub paranoid_checks: bool,
}

/// The mathematical value of a cache key.
#[verifier::ext_equal]
pub struct CacheKeyView {
    pub path: Seq<u8>,
    pub offset: u64,
    pub size: u64,
    pub paranoid_checks: bool,
}

impl View for NativeBlockCacheKey {
    type V = CacheKeyView;

    open spec fn view(&self) -> CacheKeyView {
        CacheKeyView {
            path: self.path@,
            offset: self.offset,
            size: self.size,
            paranoid_checks: self.paranoid_checks,
        }
    }
}

impl NativeBlockCacheKey {
    /// Finds whether two keys are the same.
    pub fn same(&self, other: &NativeBlockCacheKey) -> (r: bool)
        ensures
            r == (self@ == other@),
    {
        let same_path: bool = key_order(self.path.as_slice(), other.path.as_slice())
            == KeyOrder::Same;
        let r: bool = same_path && self.offset == other.offset && self.size == other.size
            && self.paranoid_checks == other.paranoid_checks;
        proof {
            if r {
                assert(self@ =~= other@);
            }
        }
        r
    }
}

/// The mathematical value of a result that holds a block.
pub open spec fn block_view(r: Result<Bytes, LevelDbError>) -> Result<Seq<u8>, ErrorView> {
    match r {
        Ok(block) => Ok(contents(block)),
        Err(error) => Err(error@),
    }
}

/// A cached block under its key.
pub type CacheEntry = (CacheKeyView, Seq<u8>);

/// What a cache holds, the block that came first in front, and what it counts
/// as the bytes of its blocks.
#[verifier::ext_equal]
pub struct CacheView {
    pub capacity: usize,
    pub bytes: usize,
    pub entries: Seq<CacheEntry>,
}

/// Whether no key occurs twice.
pub open spec fn distinct(entries: Seq<CacheEntry>) -> bool {
    forall|i: int, j: int|
        #![trigger entries[i], entries[j]]
        0 <= i < j < entries.len() ==> entries[i].0 != entries[j].0
}

/// Whether a block is held under `key` at place `i`.
pub open spec fn held_at(entries: Seq<CacheEntry>, key: CacheKeyView, i: int) -> bool {
    0 <= i < entries.len() && entries[i].0 == key
}

/// The bytes of all blocks.
pub open spec fn total(entries: Seq<CacheEntry>) -> nat
    decreases entries.len(),
{
    if entries.len() == 0 {
        0
    } else {
        total(entries.drop_last()) + entries.last().1.len()
    }
}

/// Whether no key occurs twice in a cache, and it counts no more bytes than its
/// blocks have. It may count fewer: a count beyond the largest `usize` is cut off.
pub open spec fn sound(cache: CacheView) -> bool {
    distinct(cache.entries) && cache.bytes <= total(cache.entries)
}

/// The block under `key`.
pub open spec fn cached(entries: Seq<CacheEntry>, key: CacheKeyView) -> Option<Seq<u8>> {
    if exists|i: int| held_at(entries, key, i) {
        Some(entries[choose|i: int| held_at(entries, key, i)].1)
    } else {
        None
    }
}

/// What a cache answers for `key`; one without capacity answers nothing.
pub open spec fn cache_get(cache: CacheView, key: CacheKeyView) -> Option<Seq<u8>> {
    if cache.capacity == 0 {
        None
    } else {
        cached(cache.entries, key)
    }
}

/// `a - b`, or zero where `b` is larger.
pub open spec fn floored_difference(a: usize, b: nat) -> usize {
    if b <= a {
        (a - b) as usize
    } else {
        0
    }
}

/// A cache without the block under `key`.
pub open spec fn cache_without(cache: CacheView, key: CacheKeyView) -> CacheView {
    if exists|i: int| held_at(cache.entries, key, i) {
        let i = choose|i: int| held_at(cache.entries, key, i);
        CacheView {
            bytes: floored_difference(cache.bytes, cache.entries[i].1.len()),
            entries: cache.entries.remove(i),
            ..cache
        }
    } else {
        cache
    }
}

/// A cache that has given up its oldest blocks until the rest fits.
pub open spec fn cache_trimmed(cache: CacheView) -> CacheView
    decreases cache.entries.len(),
{
    if cache.bytes <= cache.capacity || cache.entries.len() == 0 {
        cache
    } else {
        cache_trimmed(
            CacheView {
                bytes: floored_difference(cache.bytes, cache.entries[0].1.len()),
                entries: cache.entries.skip(1),
                ..cache
            },
        )
    }
}

/// A cache with `block` under `key` as its newest block. A block that is larger
/// than the cache is not taken.
pub open spec fn cache_insert(cache: CacheView, key: CacheKeyView, block: Seq<u8>) -> CacheView {
    if cache.capacity == 0 || block.len() > cache.capacity {
        cache
    } else {
        let rest = cache_without(cache, key);
        cache_trimmed(
            CacheView {
                bytes: capped_sum(rest.bytes, block.len()),
                entries: rest.entries.push((key, block)),
                ..cache
            },
        )
    }
}

/// A cache after the block under `key` was read: it takes what could be read.
pub open spec fn cache_stored(
    cache: CacheView,
    key: CacheKeyView,
    read: Result<Seq<u8>, ErrorView>,
) -> CacheView {
    match read {
        Ok(block) => cache_insert(cache, key, block),
        Err(_) => cache,
    }
}

/// A bounded cache of decoded blocks that gives up its oldest blocks first.
#[derive(Debug)]
pub struct NativeBlockCache {
    capacity: usize,
    bytes: usize,
    entries: Vec<(NativeBlockCacheKey, Bytes)>,
}

/// Cached blocks as the bytes that they hold.
pub closed spec fn cache_entries(entries: Seq<(NativeBlockCacheKey, Bytes)>) -> Seq<CacheEntry> {
    Seq::new(entries.len(), |i: int| (entries[i].0@, contents(entries[i].1)))
}

impl View for NativeBlockCache {
    type V = CacheView;

    closed spec fn view(&self) -> CacheView {
        CacheView {
            capacity: self.capacity,
            bytes: self.bytes,
            entries: cache_entries(self.entries@),
        }
    }
}

proof fn lemma_cached_at(entries: Seq<CacheEntry>, key: CacheKeyView, i: int)
    requires
        distinct(entries),
        held_at(entries, key, i),
    ensures
        (choose|i: int| held_at(entries, key, i)) == i,
        cached(entries, key) == Some(entries[i].1),
{
    let j = choose|i: int| held_at(entries, key, i);
    assert(held_at(entries, key, j));
    if i < j {
        assert(entries[i].0 != entries[j].0);
    } else if j < i {
        assert(entries[j].0 != entries[i].0);
    }
}

impl NativeBlockCache {
    /// The invariant: no key occurs twice, and no more bytes are counted than
    /// there are.
    pub open spec fn wf(&self) -> bool {
        sound(self@)
    }

    /// An empty cache for blocks of at most `capacity` bytes in all.
    pub fn new(capacity: usize) -> (r: NativeBlockCache)
        ensures
            r.wf(),
            r@ == (CacheView { capacity, bytes: 0, entries: Seq::empty() }),
    {
        let r = NativeBlockCache { capacity, bytes: 0, entries: Vec::new() };
        assert(r@.entries =~= Seq::<CacheEntry>::empty());
        r
    }

    fn find(&self, key: &NativeBlockCacheKey) -> (r: Option<usize>)
        ensures
            match r {
                Some(i) => held_at(self@.entries, key@, i as int),
                None => forall|i: int| !held_at(self@.entries, key@, i),
            },
    {
        let mut i: usize = 0;
        while i < self.entries.len()
            invariant
                i <= self.entries@.len(),
                forall|k: int| 0 <= k < i ==> !held_at(self@.entries, key@, k),
            decreases self.entries@.len() - i,
        {
            if self.entries[i].0.same(key) {
                return Some(i);
            }
            i = i + 1;
        }
        None
    }

    /// The block under `key`.
    pub fn get(&self, key: &NativeBlockCacheKey) -> (r: Option<Bytes>)
        requires
            self.wf(),
        ensures
            optional_contents(r) == cache_get(self@, key@),
    {
        if self.capacity == 0 {
            return None;
        }
        match self.find(key) {
            None => None,
            Some(i) => {
                proof {
                    lemma_cached_at(self@.entries, key@, i as int);
                }
                Some(share(&self.entries[i].1))
            },
        }
    }

    /// Puts `block` under `key` as the newest block, and gives up the oldest
    /// blocks until the rest fits. A block that is larger than the cache is not
    /// taken.
    pub fn insert(&mut self, key: NativeBlockCacheKey, block: Bytes)
        requires
            old(self).wf(),
        ensures
            final(self).wf(),
            final(self)@ == cache_insert(old(self)@, key@, contents(block)),
    {
        let block_len: usize = as_slice(&block).len();
        if self.capacity == 0 || block_len > self.capacity {
            return;
        }
        let ghost whole = self@;
        match self.find(&key) {
            None => {},
            Some(i) => {
                proof {
                    lemma_cached_at(whole.entries, key@, i as int);
                }
                let (_, old_block) = self.entries.remove(i);
                let old_len: usize = as_slice(&old_block).len();
                self.bytes = self.bytes.saturating_sub(old_len);
                assert(self@.entries =~= whole.entries.remove(i as int));
            },
        }
        let ghost rest = self@;
        proof {
            assert(rest == cache_without(whole, key@));
            lemma_insert_is_sound(whole, key@, contents(block));
        }
        self.entries.push((key, block));
        self.bytes = self.bytes.saturating_add(block_len);
        let ghost full = self@;
        proof {
            assert(full.entries =~= rest.entries.push((key@, contents(block))));
        }
        while self.bytes > self.capacity && self.entries.len() > 0
            invariant
                cache_trimmed(self@) == cache_trimmed(full),
            decreases self.entries@.len(),
        {
            let ghost before = self@;
            let (_, old_block) = self.entries.remove(0);
            let old_len: usize = as_slice(&old_block).len();
            self.bytes = self.bytes.saturating_sub(old_len);
            assert(self@.entries =~= before.entries.skip(1));
        }
    }

    /// Takes what a read of the block under `key` gave, where it gave a block.
    pub fn store(&mut self, key: NativeBlockCacheKey, read: &Result<Bytes, LevelDbError>)
        requires
            old(self).wf(),
        ensures
            final(self).wf(),
            final(self)@ == cache_stored(old(self)@, key@, block_view(*read)),
    {
        if let Ok(block) = read {
            self.insert(key, share(block));
        }
    }
}

proof fn lemma_distinct_remove(entries: Seq<CacheEntry>, at: int)
    requires
        distinct(entries),
        0 <= at < entries.len(),
    ensures
        distinct(entries.remove(at)),
{
    let rest = entries.remove(at);
    assert forall|i: int, j: int|
        #![trigger rest[i], rest[j]]
        0 <= i < j < rest.len() implies rest[i].0 != rest[j].0 by {
        let a = if i < at { i } else { i + 1 };
        let b = if j < at { j } else { j + 1 };
        assert(rest[i] == entries[a] && rest[j] == entries[b]);
    }
}

/// Without the block under a key no block is held under it.
proof fn lemma_without(cache: CacheView, key: CacheKeyView, k: int)
    requires
        distinct(cache.entries),
        0 <= k < cache_without(cache, key).entries.len(),
    ensures
        cache_without(cache, key).entries[k].0 != key,
{
    if exists|i: int| held_at(cache.entries, key, i) {
        let i = choose|i: int| held_at(cache.entries, key, i);
        let at = if k < i { k } else { k + 1 };
        assert(cache.entries.remove(i)[k] == cache.entries[at]);
        assert(cache.entries[i].0 == key);
        if at < i {
            assert(cache.entries[at].0 != cache.entries[i].0);
        } else {
            assert(cache.entries[i].0 != cache.entries[at].0);
        }
    } else {
        assert(!held_at(cache.entries, key, k));
    }
}

/// Whether a cache counts the bytes of its blocks exactly, and they fit.
pub open spec fn within_capacity(cache: CacheView) -> bool {
    cache.bytes == total(cache.entries) && cache.bytes <= cache.capacity
}

proof fn lemma_total_remove(entries: Seq<CacheEntry>, at: int)
    requires
        0 <= at < entries.len(),
    ensures
        total(entries) == total(entries.remove(at)) + entries[at].1.len(),
    decreases entries.len(),
{
    let last = entries.len() - 1;
    if at == last {
        assert(entries.remove(at) =~= entries.drop_last());
    } else {
        lemma_total_remove(entries.drop_last(), at);
        assert(entries.remove(at).drop_last() =~= entries.drop_last().remove(at));
        assert(entries.remove(at).last() == entries.last());
    }
}

proof fn lemma_total_push(entries: Seq<CacheEntry>, entry: CacheEntry)
    ensures
        total(entries.push(entry)) == total(entries) + entry.1.len(),
{
    assert(entries.push(entry).drop_last() =~= entries);
}

/// A cache without its oldest block.
spec fn without_oldest(cache: CacheView) -> CacheView {
    CacheView {
        bytes: floored_difference(cache.bytes, cache.entries[0].1.len()),
        entries: cache.entries.skip(1),
        ..cache
    }
}

proof fn lemma_without_oldest(cache: CacheView)
    requires
        cache.entries.len() > 0,
    ensures
        total(cache.entries) == total(without_oldest(cache).entries) + cache.entries[0].1.len(),
{
    lemma_total_remove(cache.entries, 0);
    assert(cache.entries.remove(0) =~= cache.entries.skip(1));
}

/// Giving up blocks keeps the newest ones, and the capacity.
proof fn lemma_trimmed(cache: CacheView)
    ensures
        ({
            let trimmed = cache_trimmed(cache);
            &&& trimmed.capacity == cache.capacity
            &&& trimmed.entries.len() <= cache.entries.len()
            &&& trimmed.entries == cache.entries.skip(
                cache.entries.len() - trimmed.entries.len(),
            )
        }),
    decreases cache.entries.len(),
{
    if cache.bytes <= cache.capacity || cache.entries.len() == 0 {
        assert(cache.entries.skip(0) =~= cache.entries);
    } else {
        lemma_trimmed(without_oldest(cache));
        let trimmed = cache_trimmed(cache);
        assert(trimmed.entries =~= cache.entries.skip(
            cache.entries.len() - trimmed.entries.len(),
        ));
    }
}

/// Giving up blocks never takes the newest one, where that fits alone, and never
/// leaves more bytes counted than there are.
proof fn lemma_trimmed_keeps_newest(cache: CacheView)
    requires
        cache.bytes <= total(cache.entries),
    ensures
        cache_trimmed(cache).bytes <= total(cache_trimmed(cache).entries),
        cache.entries.len() > 0 && cache.entries.last().1.len() <= cache.capacity
            ==> cache_trimmed(cache).entries.len() > 0,
    decreases cache.entries.len(),
{
    if cache.bytes > cache.capacity && cache.entries.len() > 0 {
        lemma_without_oldest(cache);
        if cache.entries.len() == 1 {
            assert(cache.entries.drop_last() =~= Seq::<CacheEntry>::empty());
        }
        lemma_trimmed_keeps_newest(without_oldest(cache));
    }
}

/// Giving up blocks makes the rest fit, where bytes are counted exactly.
proof fn lemma_trimmed_fits(cache: CacheView)
    requires
        cache.bytes == total(cache.entries),
    ensures
        within_capacity(cache_trimmed(cache)),
    decreases cache.entries.len(),
{
    if cache.bytes > cache.capacity && cache.entries.len() > 0 {
        lemma_without_oldest(cache);
        lemma_trimmed_fits(without_oldest(cache));
    }
}

/// A cache with a new block, before it gives up any.
spec fn cache_full(cache: CacheView, key: CacheKeyView, block: Seq<u8>) -> CacheView {
    let rest = cache_without(cache, key);
    CacheView {
        bytes: capped_sum(rest.bytes, block.len()),
        entries: rest.entries.push((key, block)),
        ..cache
    }
}

proof fn lemma_full(cache: CacheView, key: CacheKeyView, block: Seq<u8>)
    requires
        distinct(cache.entries),
    ensures
        distinct(cache_full(cache, key, block).entries),
        cache.bytes <= total(cache.entries) ==> cache_full(cache, key, block).bytes <= total(
            cache_full(cache, key, block).entries,
        ),
        cache.bytes == total(cache.entries) && cache_without(cache, key).bytes + block.len()
            <= usize::MAX ==> cache_full(cache, key, block).bytes == total(
            cache_full(cache, key, block).entries,
        ),
{
    let rest = cache_without(cache, key);
    if exists|i: int| held_at(cache.entries, key, i) {
        let i = choose|i: int| held_at(cache.entries, key, i);
        lemma_total_remove(cache.entries, i);
        lemma_distinct_remove(cache.entries, i);
    }
    assert forall|k: int| 0 <= k < rest.entries.len() implies rest.entries[k].0 != key by {
        lemma_without(cache, key, k);
    }
    lemma_total_push(rest.entries, (key, block));
}

/// Putting a block into a cache keeps the cache sound.
proof fn lemma_insert_is_sound(cache: CacheView, key: CacheKeyView, block: Seq<u8>)
    requires
        distinct(cache.entries),
    ensures
        distinct(cache_insert(cache, key, block).entries),
        sound(cache) ==> sound(cache_insert(cache, key, block)),
{
    if cache.capacity > 0 && block.len() <= cache.capacity {
        let full = cache_full(cache, key, block);
        let trimmed = cache_trimmed(full);
        lemma_full(cache, key, block);
        lemma_trimmed(full);
        lemma_distinct_skip(full.entries, full.entries.len() - trimmed.entries.len());
        if sound(cache) {
            lemma_trimmed_keeps_newest(full);
        }
    }
}

/// Putting a block into a cache does not change its capacity.
pub proof fn cache_keeps_its_capacity(cache: CacheView, key: CacheKeyView, block: Seq<u8>)
    ensures
        cache_insert(cache, key, block).capacity == cache.capacity,
{
    lemma_trimmed(cache_full(cache, key, block));
}

/// A block that is larger than the cache, or any block where the cache has no
/// capacity, changes nothing.
pub proof fn cache_refuses_large_block(cache: CacheView, key: CacheKeyView, block: Seq<u8>)
    requires
        cache.capacity == 0 || block.len() > cache.capacity,
    ensures
        cache_insert(cache, key, block) == cache,
{
}

/// A cache never holds more bytes than its capacity.
pub proof fn cache_stays_within_capacity(cache: CacheView, key: CacheKeyView, block: Seq<u8>)
    requires
        distinct(cache.entries),
        within_capacity(cache),
        cache_without(cache, key).bytes + block.len() <= usize::MAX,
    ensures
        within_capacity(cache_insert(cache, key, block)),
{
    if cache.capacity > 0 && block.len() <= cache.capacity {
        lemma_full(cache, key, block);
        lemma_trimmed_fits(cache_full(cache, key, block));
    }
}

/// A block that fits is found under its key once it was put there.
pub proof fn cache_holds_newest_block(cache: CacheView, key: CacheKeyView, block: Seq<u8>)
    requires
        sound(cache),
        0 < cache.capacity,
        block.len() <= cache.capacity,
    ensures
        cache_get(cache_insert(cache, key, block), key) == Some(block),
{
    let full = cache_full(cache, key, block);
    lemma_full(cache, key, block);
    lemma_trimmed(full);
    lemma_trimmed_keeps_newest(full);
    let trimmed = cache_trimmed(full);
    let last = trimmed.entries.len() - 1;
    assert(full.entries.last() == (key, block));
    assert(trimmed.entries[last] == full.entries[full.entries.len() - 1]);
    lemma_distinct_skip(full.entries, full.entries.len() - trimmed.entries.len());
    assert(held_at(trimmed.entries, key, last));
    lemma_cached_at(trimmed.entries, key, last);
}

proof fn lemma_distinct_skip(entries: Seq<CacheEntry>, n: int)
    requires
        distinct(entries),
        0 <= n <= entries.len(),
    ensures
        distinct(entries.skip(n)),
{
    let rest = entries.skip(n);
    assert forall|i: int, j: int|
        #![trigger rest[i], rest[j]]
        0 <= i < j < rest.len() implies rest[i].0 != rest[j].0 by {
        assert(rest[i] == entries[i + n] && rest[j] == entries[j + n]);
    }
}

/// Putting a block under one key never changes the block under another: it is
/// kept or given up.
pub proof fn cache_keeps_or_gives_up_others(
    cache: CacheView,
    key: CacheKeyView,
    block: Seq<u8>,
    other: CacheKeyView,
)
    requires
        distinct(cache.entries),
        other != key,
    ensures
        cache_get(cache_insert(cache, key, block), other) is None || cache_get(
            cache_insert(cache, key, block),
            other,
        ) == cache_get(cache, other),
{
    if cache.capacity > 0 && block.len() <= cache.capacity {
        let full = cache_full(cache, key, block);
        lemma_full(cache, key, block);
        lemma_trimmed(full);
        let trimmed = cache_trimmed(full);
        let n = full.entries.len() - trimmed.entries.len();
        lemma_distinct_skip(full.entries, n);
        if exists|i: int| held_at(trimmed.entries, other, i) {
            let i = choose|i: int| held_at(trimmed.entries, other, i);
            assert(held_at(trimmed.entries, other, i));
            let rest = cache_without(cache, key).entries;
            let at = i + n;
            assert(trimmed.entries[i] == full.entries[at]);
            assert(at < rest.len());
            assert(full.entries[at] == rest[at]);
            let place = if exists|k: int| held_at(cache.entries, key, k) {
                let gone = choose|k: int| held_at(cache.entries, key, k);
                if at < gone {
                    at
                } else {
                    at + 1
                }
            } else {
                at
            };
            assert(rest[at] == cache.entries[place]);
            assert(held_at(cache.entries, other, place));
            lemma_cached_at(cache.entries, other, place);
            lemma_cached_at(trimmed.entries, other, i);
        }
    }
}

// ---------------------------------------------------------------------------
// A cache over its whole life.

/// A new cache into which blocks were put in turn.
pub open spec fn filled(capacity: usize, history: Seq<CacheEntry>) -> CacheView
    decreases history.len(),
{
    if history.len() == 0 {
        CacheView { capacity, bytes: 0, entries: Seq::empty() }
    } else {
        let (key, block) = history.last();
        cache_insert(filled(capacity, history.drop_last()), key, block)
    }
}

/// The last block that was put under `key` and was not too large.
pub open spec fn newest(capacity: usize, history: Seq<CacheEntry>, key: CacheKeyView) -> Option<
    Seq<u8>,
>
    decreases history.len(),
{
    if history.len() == 0 {
        None
    } else if history.last().0 == key && history.last().1.len() <= capacity {
        Some(history.last().1)
    } else {
        newest(capacity, history.drop_last(), key)
    }
}

/// Whether the bytes of a cache could be counted exactly each time a block was
/// put into it.
pub open spec fn countable(capacity: usize, history: Seq<CacheEntry>) -> bool
    decreases history.len(),
{
    history.len() > 0 ==> {
        let (key, block) = history.last();
        let before = filled(capacity, history.drop_last());
        &&& countable(capacity, history.drop_last())
        &&& block.len() <= capacity ==> cache_without(before, key).bytes + block.len()
            <= usize::MAX
    }
}

/// Whatever was put into a new cache, it keeps its capacity, no key occurs twice
/// in it, and what it answers for a key is nothing or the last block that was put
/// there and was not too large. It holds no more bytes than its capacity, as long
/// as they could be counted.
pub proof fn cache_is_bounded_over_its_life(
    capacity: usize,
    history: Seq<CacheEntry>,
    key: CacheKeyView,
)
    ensures
        filled(capacity, history).capacity == capacity,
        sound(filled(capacity, history)),
        cache_get(filled(capacity, history), key) is None || cache_get(
            filled(capacity, history),
            key,
        ) == newest(capacity, history, key),
        countable(capacity, history) ==> within_capacity(filled(capacity, history)),
    decreases history.len(),
{
    let cache = filled(capacity, history);
    if history.len() == 0 {
        assert(total(cache.entries) == 0);
    } else {
        let front = history.drop_last();
        let before = filled(capacity, front);
        let (last, block) = history.last();
        cache_is_bounded_over_its_life(capacity, front, key);
        cache_keeps_its_capacity(before, last, block);
        lemma_insert_is_sound(before, last, block);
        if block.len() <= capacity {
            if countable(capacity, history) {
                cache_stays_within_capacity(before, last, block);
            }
            if last != key {
                cache_keeps_or_gives_up_others(before, last, block, key);
            } else if capacity > 0 {
                cache_holds_newest_block(before, last, block);
            }
        }
    }
}

/// The block that was put into a cache last is found there, unless it was too
/// large: then every answer is what it was before.
pub proof fn cache_answers_with_the_last_block(
    capacity: usize,
    history: Seq<CacheEntry>,
    key: CacheKeyView,
    block: Seq<u8>,
    other: CacheKeyView,
)
    ensures
        0 < capacity && block.len() <= capacity ==> cache_get(
            filled(capacity, history.push((key, block))),
            key,
        ) == Some(block),
        capacity == 0 || block.len() > capacity ==> cache_get(
            filled(capacity, history.push((key, block))),
            other,
        ) == cache_get(filled(capacity, history), other),
{
    let longer = history.push((key, block));
    assert(longer.drop_last() =~= history);
    cache_is_bounded_over_its_life(capacity, history, key);
    if 0 < capacity && block.len() <= capacity {
        cache_holds_newest_block(filled(capacity, history), key, block);
    }
}

// ---------------------------------------------------------------------------
// What a cache answers.

/// What reading a block from its table gives.
pub type ReadBlock = spec_fn(CacheKeyView) -> Result<Seq<u8>, ErrorView>;

/// Whether every cached block is what reading it would give.
pub open spec fn faithful(cache: CacheView, read: ReadBlock) -> bool {
    forall|i: int|
        0 <= i < cache.entries.len() ==> read((#[trigger] cache.entries[i]).0) == Ok::<
            Seq<u8>,
            ErrorView,
        >(cache.entries[i].1)
}

proof fn lemma_trimmed_is_faithful(cache: CacheView, read: ReadBlock)
    requires
        faithful(cache, read),
    ensures
        faithful(cache_trimmed(cache), read),
    decreases cache.entries.len(),
{
    if cache.bytes > cache.capacity && cache.entries.len() > 0 {
        let rest = CacheView {
            bytes: floored_difference(cache.bytes, cache.entries[0].1.len()),
            entries: cache.entries.skip(1),
            ..cache
        };
        assert forall|i: int| 0 <= i < rest.entries.len() implies read(
            (#[trigger] rest.entries[i]).0,
        ) == Ok::<Seq<u8>, ErrorView>(rest.entries[i].1) by {
            assert(rest.entries[i] == cache.entries[i + 1]);
        }
        lemma_trimmed_is_faithful(rest, read);
    }
}

/// A cache into which only blocks go that were read answers as reading would.
pub proof fn cache_answers_as_reading_would(
    cache: CacheView,
    key: CacheKeyView,
    block: Seq<u8>,
    read: ReadBlock,
)
    requires
        faithful(cache, read),
        read(key) == Ok::<Seq<u8>, ErrorView>(block),
    ensures
        faithful(cache_insert(cache, key, block), read),
        forall|other: CacheKeyView| #[trigger]
            cache_get(cache, other) matches Some(found) ==> read(other) == Ok::<
                Seq<u8>,
                ErrorView,
            >(found),
{
    assert forall|other: CacheKeyView| #[trigger] cache_get(cache, other) is Some implies read(
        other,
    ) == Ok::<Seq<u8>, ErrorView>(cache_get(cache, other)->Some_0) by {
        let i = choose|i: int| held_at(cache.entries, other, i);
        assert(held_at(cache.entries, other, i));
        assert(read(cache.entries[i].0) == Ok::<Seq<u8>, ErrorView>(cache.entries[i].1));
    }
    if cache.capacity > 0 && block.len() <= cache.capacity {
        let rest = cache_without(cache, key);
        let full = CacheView {
            bytes: capped_sum(rest.bytes, block.len()),
            entries: rest.entries.push((key, block)),
            ..cache
        };
        assert forall|k: int| 0 <= k < full.entries.len() implies read(
            (#[trigger] full.entries[k]).0,
        ) == Ok::<Seq<u8>, ErrorView>(full.entries[k].1) by {
            if k < rest.entries.len() {
                if exists|i: int| held_at(cache.entries, key, i) {
                    let i = choose|i: int| held_at(cache.entries, key, i);
                    assert(held_at(cache.entries, key, i));
                    let at = if k < i {
                        k
                    } else {
                        k + 1
                    };
                    assert(full.entries[k] == cache.entries[at]);
                } else {
                    assert(full.entries[k] == cache.entries[k]);
                }
            }
        }
        lemma_trimmed_is_faithful(full, read);
    }
}

// ---------------------------------------------------------------------------
// Which blocks a cache keeps.

/// A cache answers for a key with a block exactly where it has capacity and holds
/// that block under that key: path, place and checks all have to be the same.
pub proof fn caches_answer_with_what_they_hold(
    cache: CacheView,
    key: CacheKeyView,
    block: Seq<u8>,
)
    requires
        distinct(cache.entries),
    ensures
        cache_get(cache, key) == Some(block) <==> cache.capacity > 0 && exists|i: int|
            #![trigger cache.entries[i]]
            0 <= i < cache.entries.len() && cache.entries[i].0.path == key.path
                && cache.entries[i].0.offset == key.offset && cache.entries[i].0.size == key.size
                && cache.entries[i].0.paranoid_checks == key.paranoid_checks && cache.entries[i].1
                == block,
{
    if cache_get(cache, key) == Some(block) {
        let i = choose|i: int| held_at(cache.entries, key, i);
        assert(held_at(cache.entries, key, i));
        assert(cache.entries[i].1 == block);
    }
    if cache.capacity > 0 && exists|i: int|
        #![trigger cache.entries[i]]
        0 <= i < cache.entries.len() && cache.entries[i].0.path == key.path
            && cache.entries[i].0.offset == key.offset && cache.entries[i].0.size == key.size
            && cache.entries[i].0.paranoid_checks == key.paranoid_checks && cache.entries[i].1
            == block {
        let i = choose|i: int|
            #![trigger cache.entries[i]]
            0 <= i < cache.entries.len() && cache.entries[i].0.path == key.path
                && cache.entries[i].0.offset == key.offset && cache.entries[i].0.size == key.size
                && cache.entries[i].0.paranoid_checks == key.paranoid_checks && cache.entries[i].1
                == block;
        assert(cache.entries[i].0 =~= key);
        assert(held_at(cache.entries, key, i));
        lemma_cached_at(cache.entries, key, i);
    }
}

/// What a cache holds besides the block under `key`, in the same order.
pub open spec fn others(entries: Seq<CacheEntry>, key: CacheKeyView) -> Seq<CacheEntry>
    decreases entries.len(),
{
    if entries.len() == 0 {
        Seq::empty()
    } else if entries.last().0 == key {
        others(entries.drop_last(), key)
    } else {
        others(entries.drop_last(), key).push(entries.last())
    }
}

proof fn lemma_others(entries: Seq<CacheEntry>, key: CacheKeyView)
    requires
        distinct(entries),
    ensures
        forall|i: int| held_at(entries, key, i) ==> others(entries, key) == #[trigger] entries.remove(
            i,
        ),
        (forall|i: int| !held_at(entries, key, i)) ==> others(entries, key) == entries,
    decreases entries.len(),
{
    if entries.len() > 0 {
        let front = entries.drop_last();
        let last = entries.len() - 1;
        assert forall|i: int, j: int|
            #![trigger front[i], front[j]]
            0 <= i < j < front.len() implies front[i].0 != front[j].0 by {
            assert(front[i] == entries[i] && front[j] == entries[j]);
        }
        lemma_others(front, key);
        assert(entries =~= front.push(entries.last()));
        if entries.last().0 == key {
            assert forall|i: int| !held_at(front, key, i) by {
                if held_at(front, key, i) {
                    assert(entries[i].0 != entries[last].0);
                }
            }
            assert forall|i: int| held_at(entries, key, i) implies others(entries, key)
                == #[trigger] entries.remove(i) by {
                if i < last {
                    assert(entries[i].0 != entries[last].0);
                }
                assert(entries.remove(i) =~= front);
            }
            assert(held_at(entries, key, last));
        } else {
            assert forall|i: int| held_at(entries, key, i) implies others(entries, key)
                == #[trigger] entries.remove(i) by {
                assert(held_at(front, key, i));
                assert(entries.remove(i) =~= front.remove(i).push(entries.last()));
            }
            if forall|i: int| !held_at(entries, key, i) {
                assert forall|i: int| !held_at(front, key, i) by {
                    if held_at(front, key, i) {
                        assert(held_at(entries, key, i));
                    }
                }
            }
        }
    }
}

/// A block that fits is put behind all others, in place of what was held under
/// its key. Then blocks leave from the front, the oldest first, and no more of
/// them than have to: with one more of them the cache would hold more bytes than
/// its capacity.
pub proof fn caches_give_up_their_oldest_blocks(
    cache: CacheView,
    key: CacheKeyView,
    block: Seq<u8>,
)
    requires
        distinct(cache.entries),
        0 < cache.capacity,
        block.len() <= cache.capacity,
    ensures
        ({
            let all = others(cache.entries, key).push((key, block));
            let after = cache_insert(cache, key, block).entries;
            let gone = all.len() - after.len();
            &&& 0 <= gone
            &&& after == all.skip(gone)
            &&& cache.bytes == total(cache.entries) && total(all) <= usize::MAX && gone > 0
                ==> total(all.skip(gone - 1)) > cache.capacity
        }),
{
    let all = others(cache.entries, key).push((key, block));
    let full = cache_full(cache, key, block);
    lemma_others(cache.entries, key);
    if exists|i: int| held_at(cache.entries, key, i) {
        let i = choose|i: int| held_at(cache.entries, key, i);
        assert(held_at(cache.entries, key, i));
        assert(others(cache.entries, key) == cache.entries.remove(i));
        lemma_total_remove(cache.entries, i);
    }
    assert(full.entries == all);
    lemma_trimmed(full);
    lemma_total_push(others(cache.entries, key), (key, block));
    if cache.bytes == total(cache.entries) && total(all) <= usize::MAX {
        lemma_trimmed_no_further(full);
    }
}

proof fn lemma_trimmed_no_further(cache: CacheView)
    requires
        cache.bytes == total(cache.entries),
    ensures
        ({
            let gone = cache.entries.len() - cache_trimmed(cache).entries.len();
            gone > 0 ==> total(cache.entries.skip(gone - 1)) > cache.capacity
        }),
    decreases cache.entries.len(),
{
    if cache.bytes > cache.capacity && cache.entries.len() > 0 {
        let rest = without_oldest(cache);
        lemma_without_oldest(cache);
        lemma_trimmed(rest);
        lemma_trimmed_no_further(rest);
        let gone = cache.entries.len() - cache_trimmed(cache).entries.len();
        if gone == 1 {
            assert(cache.entries.skip(0) =~= cache.entries);
        } else {
            assert(rest.entries.skip(gone - 2) =~= cache.entries.skip(gone - 1));
        }
    }
}

/// What a read could not give is not put into a cache; what it gave is.
pub proof fn caches_store_what_was_read(
    cache: CacheView,
    key: CacheKeyView,
    block: Seq<u8>,
    error: ErrorView,
)
    ensures
        cache_stored(cache, key, Err(error)) == cache,
        cache_stored(cache, key, Ok(block)) == cache_insert(cache, key, block),
        cache.capacity == 0 || block.len() > cache.capacity ==> cache_insert(cache, key, block)
            == cache,
{
}

/// Two cache keys are the same exactly where their paths, offsets, sizes and
/// checks are.
pub proof fn cache_keys_differ_in_any_part(a: NativeBlockCacheKey, b: NativeBlockCacheKey)
    ensures
        a@ == b@ <==> a.path@ == b.path@ && a.offset == b.offset && a.size == b.size
            && a.paranoid_checks == b.paranoid_checks,
{
}

} // verus!
