use bedrock_leveldb::cache::{NativeBlockCache, NativeBlockCacheKey};
use bedrock_leveldb::error::{ErrorKind, LevelDbError};
use bedrock_leveldb::native::{decode_native_frame, BlockHandle};
use bedrock_leveldb::native_read::{begin_block_read, BlockStep};
use bedrock_leveldb::native_write::push_native_block_trailer;
use bytes::Bytes;

fn key(offset: u64) -> NativeBlockCacheKey {
    NativeBlockCacheKey { path: b"a.ldb".to_vec(), offset, size: 4, paranoid_checks: true }
}

#[test]
fn cached_blocks_are_found_again() {
    let mut cache = NativeBlockCache::new(10);
    assert_eq!(cache.get(&key(0)), None);
    cache.insert(key(0), Bytes::from_static(b"zero"));
    assert_eq!(cache.get(&key(0)), Some(Bytes::from_static(b"zero")));
    assert_eq!(cache.get(&key(1)), None);
    let mut unchecked = key(0);
    unchecked.paranoid_checks = false;
    assert_eq!(cache.get(&unchecked), None);
    let mut elsewhere = key(0);
    elsewhere.path = b"b.ldb".to_vec();
    assert_eq!(cache.get(&elsewhere), None);
}

#[test]
fn the_oldest_blocks_leave_first() {
    let mut cache = NativeBlockCache::new(10);
    cache.insert(key(0), Bytes::from_static(b"aaaa"));
    cache.insert(key(1), Bytes::from_static(b"bbbb"));
    cache.insert(key(2), Bytes::from_static(b"cccc"));
    assert_eq!(cache.get(&key(0)), None);
    assert_eq!(cache.get(&key(1)), Some(Bytes::from_static(b"bbbb")));
    assert_eq!(cache.get(&key(2)), Some(Bytes::from_static(b"cccc")));
}

#[test]
fn putting_a_block_again_makes_it_the_newest() {
    let mut cache = NativeBlockCache::new(10);
    cache.insert(key(0), Bytes::from_static(b"aaaa"));
    cache.insert(key(1), Bytes::from_static(b"bbbb"));
    cache.insert(key(0), Bytes::from_static(b"AAAAA"));
    cache.insert(key(2), Bytes::from_static(b"cccc"));
    assert_eq!(cache.get(&key(0)), Some(Bytes::from_static(b"AAAAA")));
    assert_eq!(cache.get(&key(1)), None);
    assert_eq!(cache.get(&key(2)), Some(Bytes::from_static(b"cccc")));
}

#[test]
fn blocks_larger_than_the_cache_are_not_taken() {
    let mut cache = NativeBlockCache::new(4);
    cache.insert(key(0), Bytes::from_static(b"aaaa"));
    cache.insert(key(0), Bytes::from_static(b"bbbbb"));
    assert_eq!(cache.get(&key(0)), Some(Bytes::from_static(b"aaaa")));
    cache.insert(key(1), Bytes::from_static(b"cccc"));
    assert_eq!(cache.get(&key(0)), None);
    assert_eq!(cache.get(&key(1)), Some(Bytes::from_static(b"cccc")));
}

#[test]
fn a_cache_without_capacity_holds_nothing() {
    let mut cache = NativeBlockCache::new(0);
    cache.insert(key(0), Bytes::new());
    assert_eq!(cache.get(&key(0)), None);
}

#[test]
fn a_cache_stays_bounded_over_its_life() {
    let mut cache = NativeBlockCache::new(10);
    let sizes = [4_usize, 7, 11, 0, 10, 3, 3, 5, 12, 2];
    let mut newest: Vec<Option<Bytes>> = vec![None; 4];
    for (i, size) in sizes.iter().enumerate() {
        let block = Bytes::from(vec![i as u8; *size]);
        let before: Vec<_> = (0..4).map(|k| cache.get(&key(k))).collect();
        cache.insert(key(i as u64 % 4), block.clone());
        let after: Vec<_> = (0..4).map(|k| cache.get(&key(k))).collect();
        if *size <= 10 {
            newest[i % 4] = Some(block.clone());
            assert_eq!(after[i % 4], Some(block));
        } else {
            assert_eq!(after, before);
        }
        let held: usize = after.iter().flatten().map(|block| block.len()).sum();
        assert!(held <= 10);
        for k in 0..4 {
            assert!(after[k].is_none() || after[k] == newest[k]);
        }
    }
}

/// Reads a block from a file that is in memory, and counts how often the file is
/// looked at.
fn read_through(
    cache: &mut NativeBlockCache,
    file: &[u8],
    handle: BlockHandle,
    reads: &mut usize,
) -> Result<Bytes, LevelDbError> {
    match begin_block_read(cache.get(&key(handle.offset)), "a.ldb", handle)? {
        BlockStep::Cached(block) => Ok(block),
        BlockStep::Read(len) => {
            *reads += 1;
            let start = handle.offset as usize;
            let read = decode_native_frame("a.ldb", handle, &file[start..start + len], true);
            cache.store(key(handle.offset), &read);
            read
        }
    }
}

#[test]
fn blocks_are_read_through_the_cache() {
    let mut file = b"zero".to_vec();
    push_native_block_trailer(&mut file, b"zero", 0);
    file.extend_from_slice(b"nine");
    push_native_block_trailer(&mut file, b"nine", 0);
    file[10] ^= 1;
    let good = BlockHandle { offset: 0, size: 4 };
    let bad = BlockHandle { offset: 9, size: 4 };
    let mut cache = NativeBlockCache::new(10);
    let mut reads = 0;
    for _ in 0..2 {
        let block = read_through(&mut cache, &file, good, &mut reads).expect("read");
        assert_eq!(block, Bytes::from_static(b"zero"));
        assert_eq!(reads, 1);
    }
    for expected in [2, 3] {
        let error = read_through(&mut cache, &file, bad, &mut reads).expect_err("corrupt");
        assert_eq!(error.kind(), ErrorKind::Corruption);
        assert_eq!(reads, expected);
        assert_eq!(cache.get(&key(9)), None);
        assert_eq!(cache.get(&key(0)), Some(Bytes::from_static(b"zero")));
    }
    let large = BlockHandle { offset: 0, size: u64::MAX };
    let error = begin_block_read(None, "a.ldb", large).expect_err("large");
    assert_eq!(error.message(), "table a.ldb block trailer overflows");
}

#[test]
fn a_block_in_the_cache_outlives_its_file() {
    let mut file = b"zero".to_vec();
    push_native_block_trailer(&mut file, b"zero", 0);
    let handle = BlockHandle { offset: 0, size: 4 };
    let mut cache = NativeBlockCache::new(4);
    let mut reads = 0;
    let block = read_through(&mut cache, &file, handle, &mut reads).expect("read");
    assert_eq!(block, Bytes::from_static(b"zero"));
    let block = read_through(&mut cache, &[], handle, &mut reads).expect("cached");
    assert_eq!(block, Bytes::from_static(b"zero"));
    assert_eq!(reads, 1);
}
