use bedrock_leveldb::checksum::{crc32c, masked_crc32c};
use bedrock_leveldb::coding::{
    get_fixed32, get_fixed64, get_length_prefixed_slice, get_varint32, get_varint64, put_fixed32,
    put_fixed64, put_length_prefixed_slice, put_varint32, put_varint64, VALUE_TYPE_DELETION,
    VALUE_TYPE_VALUE,
};
use bedrock_leveldb::error::{decimal_text, with_table_path, ErrorKind, LevelDbError};
use bedrock_leveldb::internal_key::{internal_key, split_internal_key};
use bedrock_leveldb::keys::{key_order, starts_with, KeyMap, KeyOrder, KeySet};
use bedrock_leveldb::native::{read_block_handle, write_block_handle, BlockHandle};

#[test]
fn fixed_integers_are_little_endian() {
    let mut out = Vec::new();
    put_fixed32(0x0102_0304, &mut out);
    assert_eq!(out, [4, 3, 2, 1]);
    assert_eq!(get_fixed32(&out), 0x0102_0304);
    let mut out = Vec::new();
    put_fixed64(0x0102_0304_0506_0708, &mut out);
    assert_eq!(out, [8, 7, 6, 5, 4, 3, 2, 1]);
    assert_eq!(get_fixed64(&out), 0x0102_0304_0506_0708);
}

#[test]
fn varints_use_seven_bits_per_byte() {
    let cases: [(u64, Vec<u8>); 6] = [
        (0, vec![0]),
        (127, vec![0x7f]),
        (128, vec![0x80, 1]),
        (300, vec![0xac, 2]),
        (u64::from(u32::MAX), vec![0xff, 0xff, 0xff, 0xff, 0x0f]),
        (u64::MAX, vec![0xff, 0xff, 0xff, 0xff, 0xff, 0xff, 0xff, 0xff, 0xff, 1]),
    ];
    for (value, bytes) in cases {
        let mut out = Vec::new();
        put_varint64(value, &mut out);
        assert_eq!(out, bytes);
        out.push(9);
        let mut input = out.as_slice();
        assert_eq!(get_varint64(&mut input).expect("varint"), value);
        assert_eq!(input, [9]);
    }
}

#[test]
fn varint32_round_trips_and_refuses_larger_numbers() {
    let mut out = Vec::new();
    put_varint32(u32::MAX, &mut out);
    let mut input = out.as_slice();
    assert_eq!(get_varint32(&mut input).expect("varint"), u32::MAX);
    assert!(input.is_empty());
    let mut input: &[u8] = &[0xff, 0xff, 0xff, 0xff, 0x1f];
    let error = get_varint32(&mut input).expect_err("too large");
    assert_eq!(error.kind(), ErrorKind::Corruption);
    assert_eq!(input.len(), 5);
}

#[test]
fn truncated_varints_are_corruption() {
    let mut input: &[u8] = &[0x80, 0x80];
    let error = get_varint64(&mut input).expect_err("truncated");
    assert_eq!(error.kind(), ErrorKind::Corruption);
    assert_eq!(error.path(), None);
}

#[test]
fn length_prefixed_slices_round_trip() {
    let mut out = Vec::new();
    put_length_prefixed_slice(b"hello", &mut out).expect("put");
    put_length_prefixed_slice(b"", &mut out).expect("put");
    assert_eq!(out, b"\x05hello\x00");
    let mut input = out.as_slice();
    assert_eq!(get_length_prefixed_slice(&mut input).expect("get"), b"hello");
    assert_eq!(get_length_prefixed_slice(&mut input).expect("get"), b"");
    assert!(input.is_empty());
    let mut input: &[u8] = b"\x05hell";
    assert_eq!(
        get_length_prefixed_slice(&mut input).expect_err("short").kind(),
        ErrorKind::Corruption
    );
}

#[test]
fn crc32c_has_its_known_values() {
    assert_eq!(crc32c(b""), 0);
    assert_eq!(crc32c(b"123456789"), 0xe306_9283);
    assert_eq!(crc32c(&[0; 32]), 0x8a91_36aa);
    assert_eq!(crc32c(&[0xff; 32]), 0x62a8_ab43);
}

#[test]
fn block_checksums_are_masked() {
    let crc = crc32c(b"12345678\x39");
    let masked = ((crc >> 15) | (crc << 17)).wrapping_add(0xa282_ead8);
    assert_eq!(masked_crc32c(b"12345678", 0x39), masked);
    assert_ne!(masked, crc);
    assert_ne!(masked_crc32c(b"12345678", 0x38), masked);
    assert_ne!(masked_crc32c(b"12345679", 0x39), masked);
}

#[test]
fn internal_keys_end_in_sequence_and_tag() {
    let key = internal_key(b"user", 7, VALUE_TYPE_VALUE);
    assert_eq!(key, b"user\x01\x07\x00\x00\x00\x00\x00\x00");
    assert_eq!(split_internal_key(&key), Some((b"user".as_slice(), true)));
    let gone = internal_key(b"user", 7, VALUE_TYPE_DELETION);
    assert_eq!(split_internal_key(&gone), Some((b"user".as_slice(), false)));
}

#[test]
fn internal_keys_keep_56_bits_of_the_sequence() {
    let wide = internal_key(b"k", u64::MAX, VALUE_TYPE_VALUE);
    let narrow = internal_key(b"k", u64::MAX >> 8, VALUE_TYPE_VALUE);
    assert_eq!(wide, narrow);
    assert_eq!(split_internal_key(&wide), Some((b"k".as_slice(), true)));
}

#[test]
fn malformed_internal_keys_do_not_split() {
    assert_eq!(split_internal_key(b"1234567"), None);
    assert_eq!(split_internal_key(&[2, 0, 0, 0, 0, 0, 0, 0]), None);
    assert_eq!(
        split_internal_key(&[1, 0, 0, 0, 0, 0, 0, 0]),
        Some((b"".as_slice(), true))
    );
}

#[test]
fn internal_keys_of_other_types_do_not_split() {
    for value_type in 0..=u8::MAX {
        let key = internal_key(b"user", 9, value_type);
        let expected = match value_type {
            VALUE_TYPE_VALUE => Some((b"user".as_slice(), true)),
            VALUE_TYPE_DELETION => Some((b"user".as_slice(), false)),
            _ => None,
        };
        assert_eq!(split_internal_key(&key), expected);
    }
}

#[test]
fn keys_are_ordered_bytewise() {
    assert_eq!(key_order(b"a", b"b"), KeyOrder::Before);
    assert_eq!(key_order(b"ab", b"a"), KeyOrder::After);
    assert_eq!(key_order(b"", b""), KeyOrder::Same);
    assert_eq!(key_order(&[0x7f], &[0x80]), KeyOrder::Before);
    assert!(starts_with(b"chunk:1", b"chunk:"));
    assert!(starts_with(b"chunk:1", b""));
    assert!(!starts_with(b"chun", b"chunk:"));
}

#[test]
fn key_maps_keep_keys_in_order() {
    let mut map = KeyMap::new();
    assert_eq!(map.insert(b"b".to_vec(), 2), None);
    assert_eq!(map.insert(b"a".to_vec(), 1), None);
    assert_eq!(map.insert(b"c".to_vec(), 3), None);
    assert_eq!(map.insert(b"b".to_vec(), 4), Some(2));
    assert_eq!(map.len(), 3);
    assert_eq!(map.key_at(0), b"a");
    assert_eq!(map.key_at(1), b"b");
    assert_eq!(*map.value_at(1), 4);
    assert_eq!(map.get(b"c"), Some(&3));
    assert_eq!(map.remove(b"a"), Some(1));
    assert_eq!(map.remove(b"a"), None);
    assert_eq!(map.get(b"a"), None);
    assert_eq!(map.len(), 2);
}

#[test]
fn key_sets_tell_new_keys() {
    let mut set = KeySet::new();
    assert!(set.insert(b"k".to_vec()));
    assert!(!set.insert(b"k".to_vec()));
    assert!(set.insert(b"j".to_vec()));
}

#[test]
fn block_handles_round_trip() {
    let mut out = Vec::new();
    write_block_handle(BlockHandle { offset: 300, size: 5 }, &mut out);
    assert_eq!(out, [0xac, 2, 5]);
    let mut input = out.as_slice();
    let handle = read_block_handle(&mut input).expect("handle");
    assert_eq!((handle.offset, handle.size), (300, 5));
    assert!(input.is_empty());
    let mut input: &[u8] = &[5];
    assert_eq!(
        read_block_handle(&mut input).expect_err("short").kind(),
        ErrorKind::Corruption
    );
}

#[test]
fn corruption_without_a_path_gets_one() {
    let error = with_table_path(LevelDbError::corruption("broken"), "a.ldb");
    assert_eq!(error.kind(), ErrorKind::Corruption);
    assert_eq!(error.path(), Some("a.ldb"));
    assert_eq!(error.message(), "broken");
    let error = with_table_path(LevelDbError::corruption_at("b.ldb", "broken"), "a.ldb");
    assert_eq!(error.path(), Some("b.ldb"));
    let error = with_table_path(LevelDbError::invalid_argument("no"), "a.ldb");
    assert_eq!(error.kind(), ErrorKind::InvalidArgument);
    assert_eq!(error.path(), None);
    let error = with_table_path(LevelDbError::compression("table", "no"), "a.ldb");
    assert_eq!(error.kind(), ErrorKind::Compression);
}

#[test]
fn numbers_are_written_in_decimal() {
    assert_eq!(decimal_text(0), "0");
    assert_eq!(decimal_text(40_902), "40902");
    assert_eq!(decimal_text(u64::MAX), "18446744073709551615");
}

#[test]
fn one_changed_byte_changes_number_and_checksum() {
    let bytes = *b"\x01\x02\x03\x04\x05\x06\x07\x08";
    for i in 0..8 {
        let mut changed = bytes;
        changed[i] ^= 0x40;
        assert_ne!(get_fixed64(&changed), get_fixed64(&bytes));
        assert_ne!(crc32c(&changed), crc32c(&bytes));
        assert_ne!(masked_crc32c(&changed, 0), masked_crc32c(&bytes, 0));
    }
}
