use bedrock_leveldb::blob::{BlockValue, ValueRef};
use bedrock_leveldb::block::{
    collect_native_block_entries, decode_native_block_entries_bytes,
    decode_native_block_entries_ref, decode_native_block_keys_bytes,
};
use bedrock_leveldb::codec::{compress_payload, compress_zlib};
use bedrock_leveldb::coding::{VALUE_TYPE_DELETION, VALUE_TYPE_VALUE};
use bedrock_leveldb::collect::{EntryCollector, KeyCollector};
use bedrock_leveldb::custom::has_table_magic;
use bedrock_leveldb::error::{ErrorKind, LevelDbError};
use bedrock_leveldb::internal_key::internal_key;
use bedrock_leveldb::keys::KeyMap;
use bedrock_leveldb::native::{
    decode_native_frame, native_footer_offset, native_frame_size, read_native_block,
    read_native_block_value, read_native_footer, read_native_index_entries_bytes,
    write_block_handle, BlockHandle,
};
use bedrock_leveldb::native_lookup::{find_in_native_block, find_native_block, NativeGather};
use bedrock_leveldb::native_scan::NativeSelection;
use bedrock_leveldb::native_table::{
    for_each_native_table_entry_ref_bytes, for_each_native_table_prefix_ref_bytes,
    read_native_table, NativeScan,
};
use bedrock_leveldb::native_write::{
    encode_native_block, push_native_block_trailer, push_native_footer, write_native_table_bytes,
};
use bedrock_leveldb::options::{CompressionPolicy, ScanOutcome, VisitorControl};
use bedrock_leveldb::scan::{EntryVisitor, ScanProgress, Visitor};
use bedrock_leveldb::table::{
    for_each_table_entry_bytes, for_each_table_entry_ref_bytes, for_each_table_key_bytes,
    for_each_table_prefix_bytes, for_each_table_prefix_key_bytes, for_each_table_prefix_ref_bytes,
    get_table_entries_bytes, get_table_entry_bytes, read_table_bytes,
};
use bytes::Bytes;

const PATH: &str = "db/000009.ldb";

const POLICIES: [CompressionPolicy; 3] = [
    CompressionPolicy::Uncompressed,
    CompressionPolicy::Snappy,
    CompressionPolicy::Zlib,
];

type Entries = Vec<(Vec<u8>, Bytes)>;

fn pairs(map: &KeyMap<Bytes>) -> Entries {
    (0..map.len())
        .map(|i| (map.key_at(i).to_vec(), map.value_at(i).clone()))
        .collect()
}

fn value(key: &[u8], value: &'static [u8]) -> (Vec<u8>, Bytes) {
    (internal_key(key, 5, VALUE_TYPE_VALUE), Bytes::from_static(value))
}

fn deletion(key: &[u8]) -> (Vec<u8>, Bytes) {
    (internal_key(key, 6, VALUE_TYPE_DELETION), Bytes::new())
}

fn entry(key: &[u8], value: &'static [u8]) -> (Vec<u8>, Bytes) {
    (key.to_vec(), Bytes::from_static(value))
}

fn append_block(table: &mut Vec<u8>, payload: &[u8], tag: u8) -> BlockHandle {
    let handle = BlockHandle { offset: table.len() as u64, size: payload.len() as u64 };
    table.extend_from_slice(payload);
    push_native_block_trailer(table, payload, tag);
    handle
}

fn finish_table(mut table: Vec<u8>, index: &[(Vec<u8>, BlockHandle)]) -> Vec<u8> {
    let mut entries = Vec::new();
    for (key, handle) in index {
        let mut bytes = Vec::new();
        write_block_handle(*handle, &mut bytes);
        entries.push((key.clone(), Bytes::from(bytes)));
    }
    let block = encode_native_block(&entries).expect("index");
    let handle = append_block(&mut table, &block, 0);
    push_native_footer(&mut table, BlockHandle { offset: 0, size: 0 }, handle);
    table
}

/// A table with one block for each list of entries, under its largest key.
fn table_of(blocks: &[Entries]) -> Vec<u8> {
    let mut table = Vec::new();
    let mut index = Vec::new();
    for block in blocks {
        let payload = encode_native_block(block).expect("block");
        let handle = append_block(&mut table, &payload, 0);
        index.push((block[block.len() - 1].0.clone(), handle));
    }
    finish_table(table, &index)
}

fn sample_table() -> Vec<u8> {
    table_of(&[
        vec![value(b"actor:1", b"a1"), value(b"chunk:1", b"one"), value(b"chunk:1", b"stale")],
        vec![deletion(b"chunk:2"), value(b"chunk:2", b"gone"), value(b"chunk:3", b"three")],
        vec![value(b"player", b"p"), value(b"z", b"zz")],
    ])
}

fn sample_entries() -> Entries {
    vec![
        entry(b"actor:1", b"a1"),
        entry(b"chunk:1", b"one"),
        entry(b"chunk:3", b"three"),
        entry(b"player", b"p"),
        entry(b"z", b"zz"),
    ]
}

/// Keeps whether values are borrowed.
struct Borrowing(Vec<bool>);

impl Visitor for Borrowing {}

impl EntryVisitor for Borrowing {
    fn visit(&mut self, _: &[u8], value: ValueRef<'_>) -> Result<VisitorControl, LevelDbError> {
        self.0.push(matches!(value, ValueRef::Borrowed(_)));
        Ok(VisitorControl::Continue)
    }
}

fn counts(outcome: &ScanOutcome) -> (usize, usize, bool, usize) {
    (outcome.visited, outcome.bytes_read, outcome.stopped, outcome.tables_scanned)
}

struct StopAfter {
    left: usize,
    borrowed: usize,
}

impl Visitor for StopAfter {}

impl EntryVisitor for StopAfter {
    fn visit(&mut self, _key: &[u8], value: ValueRef<'_>) -> Result<VisitorControl, LevelDbError> {
        if let ValueRef::Borrowed(_) = value {
            self.borrowed += 1;
        }
        self.left -= 1;
        if self.left == 0 {
            return Ok(VisitorControl::Stop);
        }
        Ok(VisitorControl::Continue)
    }
}

#[test]
fn blocks_have_a_fixed_layout() {
    let block = encode_native_block(&[entry(b"ab", b"x"), entry(b"c", b"")]).expect("encode");
    assert_eq!(block, b"\x00\x02\x01abx\x00\x01\x00c\x00\x00\x00\x00\x06\x00\x00\x00\x02\x00\x00\x00");
    assert_eq!(encode_native_block(&[]).expect("encode"), [0, 0, 0, 0]);
}

#[test]
fn blocks_round_trip() {
    let entries = vec![entry(b"ab", b"x"), entry(b"c", b""), entry(b"", b"yy")];
    let block = Bytes::from(encode_native_block(&entries).expect("encode"));
    assert_eq!(decode_native_block_entries_bytes(&block).expect("decode"), entries);
    assert_eq!(
        decode_native_block_keys_bytes(&block).expect("decode"),
        [(b"ab".to_vec(), 1), (b"c".to_vec(), 0), (b"".to_vec(), 2)]
    );
    assert_eq!(
        collect_native_block_entries(&BlockValue::Borrowed(&block)).expect("decode"),
        entries
    );
}

#[test]
fn keys_share_prefixes_with_the_keys_before_them() {
    let block = Bytes::from_static(
        b"\x00\x06\x01chunk1A\x05\x01\x012B\x03\x02\x00!!\x00\x00\x00\x00\x01\x00\x00\x00",
    );
    let expected = vec![entry(b"chunk1", b"A"), entry(b"chunk2", b"B"), entry(b"chu!!", b"")];
    assert_eq!(decode_native_block_entries_bytes(&block).expect("decode"), expected);
    assert_eq!(
        collect_native_block_entries(&BlockValue::Shared(block)).expect("decode"),
        expected
    );
}

#[test]
fn malformed_blocks_are_corruption() {
    let cases: [(&'static [u8], &str); 5] = [
        (b"\x00\x00\x00", "native block is missing restart count"),
        (b"\x01\x00\x00\x00", "native block restart array is truncated"),
        (b"\xff\xff\xff\xff", "native block restart array is truncated"),
        (b"\x01\x00\x00\x00\x00\x00\x00", "native block shared prefix exceeds previous key"),
        (b"\x00\x02\x00a\x00\x00\x00\x00", "native block entry is truncated"),
    ];
    for (bytes, message) in cases {
        let block = Bytes::from_static(bytes);
        let error = decode_native_block_entries_bytes(&block).expect_err("malformed");
        assert_eq!(error.kind(), ErrorKind::Corruption);
        assert_eq!(error.message(), message);
        assert_eq!(
            decode_native_block_keys_bytes(&block).expect_err("malformed").message(),
            message
        );
        assert_eq!(
            collect_native_block_entries(&BlockValue::Borrowed(bytes))
                .expect_err("malformed")
                .message(),
            message
        );
    }
}

#[test]
fn walks_show_entries_before_an_unreadable_one() {
    let bytes = b"\x00\x01\x01aA\x00\x02\x00b\x00\x00\x00\x00";
    let mut visitor = StopAfter { left: 1, borrowed: 0 };
    let answer = decode_native_block_entries_ref(&BlockValue::Borrowed(bytes), &mut visitor);
    assert_eq!(answer.expect("stopped"), VisitorControl::Stop);
    assert_eq!(visitor.borrowed, 1);
    let mut visitor = StopAfter { left: 9, borrowed: 0 };
    let answer = decode_native_block_entries_ref(&BlockValue::Borrowed(bytes), &mut visitor);
    assert_eq!(answer.expect_err("truncated").kind(), ErrorKind::Corruption);
    assert_eq!(visitor.left, 8);
}

#[test]
fn footers_hold_the_index_handle() {
    let mut footer = Vec::new();
    push_native_footer(
        &mut footer,
        BlockHandle { offset: 0, size: 0 },
        BlockHandle { offset: 1000, size: 77 },
    );
    assert_eq!(footer.len(), 48);
    assert_eq!(&footer[..5], [0, 0, 0xe8, 7, 77]);
    assert!(footer[5..40].iter().all(|byte| *byte == 0));
    assert_eq!(&footer[40..], [0x57, 0xfb, 0x80, 0x8b, 0x24, 0x75, 0x47, 0xdb]);
    let handle = read_native_footer(PATH, &footer).expect("footer");
    assert_eq!((handle.offset, handle.size), (1000, 77));
}

#[test]
fn short_files_have_no_footer() {
    assert_eq!(native_footer_offset(PATH, 48).expect("offset"), 0);
    assert_eq!(native_footer_offset(PATH, 100).expect("offset"), 52);
    let error = native_footer_offset(PATH, 47).expect_err("short");
    assert_eq!(error.kind(), ErrorKind::Corruption);
    assert_eq!(error.message(), "native table db/000009.ldb is truncated");
    let error = read_native_table(PATH, &[0; 47], true).err().expect("short");
    assert_eq!(error.message(), "native table db/000009.ldb is truncated");
}

#[test]
fn written_tables_report_size_and_keys() {
    let mut map = KeyMap::new();
    map.insert(b"b".to_vec(), Bytes::from_static(b"two"));
    map.insert(b"a".to_vec(), Bytes::from_static(b"one"));
    let (table, report) =
        write_native_table_bytes(&map, 9, CompressionPolicy::Uncompressed).expect("write");
    assert_eq!(report.file_size, table.len() as u64);
    assert_eq!(report.smallest_internal_key, internal_key(b"a", 9, VALUE_TYPE_VALUE));
    assert_eq!(report.largest_internal_key, internal_key(b"b", 9, VALUE_TYPE_VALUE));
}

#[test]
fn native_tables_need_an_entry() {
    let error = write_native_table_bytes(&KeyMap::new(), 1, CompressionPolicy::Uncompressed)
        .err()
        .expect("empty");
    assert_eq!(error.kind(), ErrorKind::InvalidArgument);
    assert_eq!(error.message(), "native table writer requires at least one entry");
}

#[test]
fn native_tables_round_trip_every_way() {
    let mut map = KeyMap::new();
    for (key, value) in sample_entries() {
        map.insert(key, value);
    }
    for policy in POLICIES {
        let (table, _) = write_native_table_bytes(&map, 77, policy).expect("write");
        for paranoid_checks in [false, true] {
            let read = read_table_bytes(PATH, &table, paranoid_checks).expect("read");
            assert_eq!(pairs(&read), sample_entries());
            let mut collector = EntryCollector::new();
            for_each_table_entry_bytes(PATH, &table, paranoid_checks, &mut collector)
                .expect("scan");
            assert_eq!(collector.into_entries(), sample_entries());
            let mut collector = EntryCollector::new();
            for_each_table_entry_ref_bytes(PATH, &table, paranoid_checks, &mut collector)
                .expect("scan");
            assert_eq!(collector.into_entries(), sample_entries());
            let mut collector = EntryCollector::new();
            for_each_table_prefix_bytes(PATH, &table, b"chunk:", paranoid_checks, &mut collector)
                .expect("scan");
            assert_eq!(collector.into_entries(), sample_entries()[1..3]);
            for (key, value) in sample_entries() {
                let found =
                    get_table_entry_bytes(PATH, &table, &key, paranoid_checks).expect("get");
                assert_eq!(found, Some(value));
            }
        }
    }
}

#[test]
fn the_first_entry_of_a_user_key_counts() {
    let table = read_native_table(PATH, &sample_table(), true).expect("read");
    assert_eq!(pairs(&table), sample_entries());
}

#[test]
fn native_scans_show_visible_entries() {
    let table = sample_table();
    let mut collector = EntryCollector::new();
    let outcome = for_each_table_entry_bytes(PATH, &table, true, &mut collector).expect("scan");
    assert_eq!(counts(&outcome), (5, 13, false, 1));
    assert_eq!(collector.into_entries(), sample_entries());

    let mut collector = KeyCollector::new();
    let outcome = for_each_table_key_bytes(PATH, &table, true, &mut collector).expect("scan");
    assert_eq!(counts(&outcome), (5, 13, false, 1));
    assert_eq!(
        collector.into_keys(),
        sample_entries().into_iter().map(|(key, _)| key).collect::<Vec<_>>()
    );
}

#[test]
fn native_prefix_scans_show_what_has_the_prefix() {
    let table = sample_table();
    let expected = sample_entries()[1..3].to_vec();

    let mut collector = EntryCollector::new();
    let outcome =
        for_each_table_prefix_bytes(PATH, &table, b"chunk:", true, &mut collector).expect("scan");
    assert_eq!(counts(&outcome), (2, 8, false, 1));
    assert_eq!(collector.into_entries(), expected);

    let mut collector = EntryCollector::new();
    let outcome = for_each_table_prefix_ref_bytes(PATH, &table, b"chunk:", true, &mut collector)
        .expect("scan");
    assert_eq!(counts(&outcome), (2, 8, false, 1));
    assert_eq!(collector.into_entries(), expected);

    let mut collector = KeyCollector::new();
    let outcome = for_each_table_prefix_key_bytes(PATH, &table, b"chunk:", true, &mut collector)
        .expect("scan");
    assert_eq!(counts(&outcome), (2, 8, false, 1));
    assert_eq!(collector.into_keys(), [b"chunk:1".to_vec(), b"chunk:3".to_vec()]);

    let mut collector = EntryCollector::new();
    for_each_table_prefix_bytes(PATH, &table, b"", true, &mut collector).expect("scan");
    assert_eq!(collector.into_entries(), sample_entries());
}

#[test]
fn uncompressed_values_are_borrowed() {
    let table = sample_table();
    let mut visitor = StopAfter { left: 3, borrowed: 0 };
    let outcome =
        for_each_native_table_entry_ref_bytes(PATH, &table, true, &mut visitor).expect("scan");
    assert_eq!(counts(&outcome), (3, 10, true, 1));
    assert_eq!(visitor.borrowed, 3);
    let mut visitor = StopAfter { left: 1, borrowed: 0 };
    let outcome =
        for_each_native_table_prefix_ref_bytes(PATH, &table, b"chunk:", true, &mut visitor)
            .expect("scan");
    assert_eq!(counts(&outcome), (1, 3, true, 1));
}

#[test]
fn native_lookups_find_visible_values() {
    let table = sample_table();
    let get = |key: &[u8]| get_table_entry_bytes(PATH, &table, key, true).expect("get");
    assert_eq!(get(b"actor:1"), Some(Bytes::from_static(b"a1")));
    assert_eq!(get(b"chunk:1"), Some(Bytes::from_static(b"one")));
    assert_eq!(get(b"chunk:2"), None);
    assert_eq!(get(b"chunk:3"), Some(Bytes::from_static(b"three")));
    assert_eq!(get(b"chunk:25"), None);
    assert_eq!(get(b"zz"), None);
    assert_eq!(get(b""), None);
}

#[test]
fn native_lookups_of_several_keys_keep_the_order_of_the_request() {
    let keys = [
        Bytes::from_static(b"z"),
        Bytes::from_static(b"chunk:2"),
        Bytes::from_static(b"actor:1"),
        Bytes::from_static(b"nothing"),
        Bytes::from_static(b"z"),
    ];
    assert_eq!(
        get_table_entries_bytes(PATH, &sample_table(), &keys, true).expect("get"),
        [
            Some(Bytes::from_static(b"zz")),
            None,
            Some(Bytes::from_static(b"a1")),
            None,
            Some(Bytes::from_static(b"zz")),
        ]
    );
    assert_eq!(get_table_entries_bytes(PATH, &[], &[], true).expect("get"), []);
}

#[test]
fn zlib_and_raw_deflate_blocks_are_read() {
    let payload = encode_native_block(&[value(b"k", b"legacy terrain")]).expect("block");
    let packed = compress_zlib(&payload).expect("compress");
    let raw = packed[2..packed.len() - 4].to_vec();
    for (tag, data) in [(2, packed), (4, raw)] {
        let mut table = Vec::new();
        let handle = append_block(&mut table, &data, tag);
        let table = finish_table(table, &[(internal_key(b"k", 5, VALUE_TYPE_VALUE), handle)]);
        assert_eq!(
            get_table_entry_bytes(PATH, &table, b"k", true).expect("get"),
            Some(Bytes::from_static(b"legacy terrain"))
        );
        assert_eq!(read_native_block(PATH, &table, handle, true).expect("block"), payload);
    }
}

#[test]
fn a_changed_byte_of_a_block_is_detected() {
    let good = table_of(&[vec![value(b"k", b"value")]]);
    let payload = encode_native_block(&[value(b"k", b"value")]).expect("block");
    for i in 0..payload.len() + 5 {
        let mut table = good.clone();
        table[i] ^= 1;
        let error = get_table_entry_bytes(PATH, &table, b"k", true).expect_err("corrupt");
        assert_eq!(error.kind(), ErrorKind::Corruption);
        assert_eq!(error.path(), Some(PATH));
        assert_eq!(
            error.message(),
            "table db/000009.ldb block checksum mismatch at offset 0"
        );
    }
}

#[test]
fn checksum_verification_detects_native_table_corruption() {
    let mut map = KeyMap::new();
    map.insert(b"k".to_vec(), Bytes::from_static(b"value"));
    let (mut table, _) =
        write_native_table_bytes(&map, 1, CompressionPolicy::Uncompressed).expect("write");
    let last = table.len() - 1;
    table[last] ^= 0xff;
    let error = get_table_entry_bytes(PATH, &table, b"k", true).expect_err("corrupt");
    assert_eq!(error.kind(), ErrorKind::Corruption);
    assert_eq!(error.path(), Some(PATH));
    assert_eq!(error.message(), "table db/000009.ldb has unsupported magic");
    let mut collector = EntryCollector::new();
    let error = for_each_table_entry_bytes(PATH, &table, true, &mut collector).expect_err("scan");
    assert_eq!(error.path(), None);
}

#[test]
fn handles_outside_the_table_are_refused() {
    let table = table_of(&[vec![value(b"k", b"value")]]);
    let handle = BlockHandle { offset: 5, size: table.len() as u64 };
    let error = read_native_block(PATH, &table, handle, true).expect_err("outside");
    assert_eq!(error.message(), "table db/000009.ldb block is truncated at offset 5");
    let handle = BlockHandle { offset: u64::MAX, size: 1 };
    let error = read_native_block(PATH, &table, handle, true).expect_err("outside");
    assert_eq!(error.message(), "table db/000009.ldb block range overflows");
    let handle = BlockHandle { offset: 1, size: u64::MAX - 2 };
    let error = read_native_block(PATH, &table, handle, true).expect_err("outside");
    assert_eq!(error.message(), "table db/000009.ldb block trailer overflows");
}

#[test]
fn scans_without_copies_show_entries_before_damage() {
    let mut table = Vec::new();
    let mut payload = b"\x00\x09\x01a\x01\x00\x00\x00\x00\x00\x00\x00A".to_vec();
    payload.extend_from_slice(b"\x00\x09\x00b\x00\x00\x00\x00");
    let handle = append_block(&mut table, &payload, 0);
    let table = finish_table(table, &[(internal_key(b"z", 1, VALUE_TYPE_VALUE), handle)]);
    let mut collector = EntryCollector::new();
    assert!(for_each_table_entry_ref_bytes(PATH, &table, true, &mut collector).is_err());
    assert_eq!(collector.into_entries(), [entry(b"a", b"A")]);
    let mut collector = EntryCollector::new();
    assert!(for_each_table_entry_bytes(PATH, &table, true, &mut collector).is_err());
    assert_eq!(collector.into_entries(), []);
}

#[test]
fn index_keys_that_do_not_split_are_passed_over_by_lookups() {
    let mut table = Vec::new();
    let payload = encode_native_block(&[value(b"k", b"v")]).expect("block");
    let handle = append_block(&mut table, &payload, 0);
    let table = finish_table(table, &[(b"short".to_vec(), handle)]);
    assert_eq!(get_table_entry_bytes(PATH, &table, b"k", true).expect("get"), None);
    let mut collector = EntryCollector::new();
    for_each_table_prefix_bytes(PATH, &table, b"k", true, &mut collector).expect("scan");
    assert_eq!(collector.into_entries(), []);
    let mut collector = EntryCollector::new();
    for_each_table_entry_bytes(PATH, &table, true, &mut collector).expect("scan");
    assert_eq!(collector.into_entries(), [entry(b"k", b"v")]);
}

#[test]
fn seeked_scans_read_blocks_one_by_one() {
    let table = sample_table();
    let index = read_native_index_entries_bytes(PATH, &table, true).expect("index");
    assert_eq!(index.len(), 3);
    let mut scan = NativeScan::new(index, NativeSelection::within_prefix(b"chunk:3"));
    let mut collector = EntryCollector::new();
    let mut blocks = 0;
    while let Some(handle) = scan.next_block().expect("handle") {
        blocks += 1;
        let block = Bytes::from(read_native_block(PATH, &table, handle, true).expect("block"));
        if scan.scan_block(&block, &mut collector).expect("scan") == ScanProgress::Done {
            break;
        }
    }
    assert_eq!(blocks, 2);
    assert_eq!(counts(&scan.finish()), (1, 5, false, 1));
    assert_eq!(collector.into_entries(), [entry(b"chunk:3", b"three")]);
}

#[test]
fn seeked_lookups_read_only_the_blocks_they_need() {
    let table = sample_table();
    let index = read_native_index_entries_bytes(PATH, &table, true).expect("index");
    let handle = find_native_block(index, b"chunk:3").expect("find").expect("handle");
    let block = Bytes::from(read_native_block(PATH, &table, handle, true).expect("block"));
    assert_eq!(
        find_in_native_block(&block, b"chunk:3").expect("find"),
        Some(Bytes::from_static(b"three"))
    );
    let index = read_native_index_entries_bytes(PATH, &table, true).expect("index");
    assert!(find_native_block(index, b"zzz").expect("find").is_none());

    let index = read_native_index_entries_bytes(PATH, &table, true).expect("index");
    let keys = [Bytes::from_static(b"player"), Bytes::from_static(b"chunk:3")];
    let mut gather = NativeGather::new(index, &keys);
    let mut blocks = 0;
    while let Some(handle) = gather.next_block().expect("handle") {
        blocks += 1;
        let block = Bytes::from(read_native_block(PATH, &table, handle, true).expect("block"));
        gather.gather_block(&block).expect("gather");
    }
    assert_eq!(blocks, 2);
    assert_eq!(
        gather.finish(),
        [Some(Bytes::from_static(b"p")), Some(Bytes::from_static(b"three"))]
    );
}

/// Reads a block as one would from a file with these bytes.
fn block_from_file(file: &[u8], handle: BlockHandle) -> Option<Bytes> {
    let len = native_frame_size(PATH, handle).ok()?;
    let start = usize::try_from(handle.offset).ok()?;
    let frame = file.get(start..start.checked_add(len)?)?;
    decode_native_frame(PATH, handle, frame, true).ok()
}

#[test]
fn tables_in_files_are_what_they_are_in_memory() {
    let table = sample_table();
    let mut damaged = table.clone();
    damaged[70] ^= 1;
    for file in [table, damaged] {
        let footer = native_footer_offset(PATH, file.len() as u64).expect("footer") as usize;
        let handle = read_native_footer(PATH, &file[footer..]).expect("handle");
        let block = block_from_file(&file, handle).expect("index");
        let index = decode_native_block_entries_bytes(&block).expect("index");
        assert_eq!(index, read_native_index_entries_bytes(PATH, &file, true).expect("index"));

        let mut scan = NativeScan::new(index.clone(), NativeSelection::everything());
        let mut from_file = EntryCollector::new();
        let mut readable = true;
        while let Some(handle) = scan.next_block().expect("handle") {
            let block = block_from_file(&file, handle);
            let memory = read_native_block(PATH, &file, handle, true).ok().map(Bytes::from);
            assert_eq!(block, memory);
            let Some(block) = block else {
                readable = false;
                break;
            };
            scan.scan_block(&block, &mut from_file).expect("scan");
        }
        let mut from_memory = EntryCollector::new();
        let outcome = for_each_table_entry_bytes(PATH, &file, true, &mut from_memory);
        assert_eq!(from_file.into_entries(), from_memory.into_entries());
        assert_eq!(outcome.is_ok(), readable);

        for key in [b"actor:1".as_slice(), b"chunk:2", b"chunk:3", b"z", b"zz"] {
            let handle = find_native_block(index.clone(), key).expect("find");
            let found = match handle {
                None => Some(None),
                Some(handle) => block_from_file(&file, handle)
                    .map(|block| find_in_native_block(&block, key).expect("search")),
            };
            assert_eq!(found, get_table_entry_bytes(PATH, &file, key, true).ok());
        }
    }
}

#[test]
fn frames_read_from_files_decode_as_in_memory() {
    let payload = b"some block".repeat(20);
    let packed = compress_payload(CompressionPolicy::Snappy, &payload).expect("compress");
    let mut frame = packed.clone();
    push_native_block_trailer(&mut frame, &packed, 1);
    let handle = BlockHandle { offset: 30, size: packed.len() as u64 };
    assert_eq!(native_frame_size(PATH, handle).expect("size"), frame.len());
    assert_eq!(decode_native_frame(PATH, handle, &frame, true).expect("decode"), payload);
    frame[0] ^= 1;
    let error = decode_native_frame(PATH, handle, &frame, true).expect_err("corrupt");
    assert_eq!(
        error.message(),
        "table db/000009.ldb block checksum mismatch at offset 30"
    );
    let handle = BlockHandle { offset: 0, size: u64::MAX };
    assert_eq!(
        native_frame_size(PATH, handle).expect_err("large").message(),
        "table db/000009.ldb block trailer overflows"
    );
}

#[test]
fn uncompressed_native_tables_are_not_taken_for_custom_ones() {
    let mut map = KeyMap::new();
    map.insert(b"BWLDBTBL1".to_vec(), Bytes::from_static(b"BWLDBTBL1"));
    let (table, _) =
        write_native_table_bytes(&map, 1, CompressionPolicy::Uncompressed).expect("write");
    assert_eq!(table[0], 0);
    assert!(!has_table_magic(&table));
    assert_eq!(pairs(&read_table_bytes(PATH, &table, true).expect("read")), pairs(&map));
}

#[test]
fn compressed_native_tables_are_not_taken_for_custom_ones() {
    // A block of 66 bytes makes a Snappy stream start with the letter B.
    let mut map = KeyMap::new();
    map.insert(b"k".to_vec(), Bytes::from(vec![7_u8; 46]));
    let (table, _) = write_native_table_bytes(&map, 1, CompressionPolicy::Snappy).expect("write");
    assert_eq!(table[0], b'B');
    assert_eq!(table[1] % 4, 0);
    assert!(!has_table_magic(&table));
    assert_eq!(pairs(&read_table_bytes(PATH, &table, true).expect("read")), pairs(&map));

    let (table, _) = write_native_table_bytes(&map, 1, CompressionPolicy::Zlib).expect("write");
    assert_eq!(table[0], 0x78);
    assert!(!has_table_magic(&table));
    assert_eq!(pairs(&read_table_bytes(PATH, &table, true).expect("read")), pairs(&map));
}

#[test]
fn only_blocks_that_are_not_compressed_are_borrowed() {
    let first = encode_native_block(&[value(b"a", b"one")]).expect("block");
    let second = encode_native_block(&[value(b"b", b"two")]).expect("block");
    let packed = compress_payload(CompressionPolicy::Snappy, &second).expect("compress");
    let mut table = Vec::new();
    let plain = append_block(&mut table, &first, 0);
    let snappy = append_block(&mut table, &packed, 1);
    let table = finish_table(
        table,
        &[
            (internal_key(b"a", 5, VALUE_TYPE_VALUE), plain),
            (internal_key(b"b", 5, VALUE_TYPE_VALUE), snappy),
        ],
    );
    match read_native_block_value(PATH, &table, plain, true).expect("block") {
        BlockValue::Borrowed(block) => assert_eq!(block, first),
        BlockValue::Shared(_) => panic!("copied"),
    }
    match read_native_block_value(PATH, &table, snappy, true).expect("block") {
        BlockValue::Borrowed(_) => panic!("borrowed"),
        BlockValue::Shared(block) => assert_eq!(block, second),
    }
    let mut borrowing = Borrowing(Vec::new());
    for_each_table_entry_ref_bytes(PATH, &table, true, &mut borrowing).expect("scan");
    assert_eq!(borrowing.0, [true, false]);
    let mut borrowing = Borrowing(Vec::new());
    for_each_table_prefix_ref_bytes(PATH, &table, b"b", true, &mut borrowing).expect("scan");
    assert_eq!(borrowing.0, [false]);
    let mut borrowing = Borrowing(Vec::new());
    for_each_table_entry_bytes(PATH, &table, true, &mut borrowing).expect("scan");
    assert_eq!(borrowing.0, [false, false]);
}

#[test]
fn walks_borrow_from_borrowed_blocks() {
    let block = encode_native_block(&[entry(b"a", b"one"), entry(b"b", b"two")]).expect("block");
    let mut borrowing = Borrowing(Vec::new());
    decode_native_block_entries_ref(&BlockValue::Borrowed(&block), &mut borrowing).expect("walk");
    assert_eq!(borrowing.0, [true, true]);
    let shared = BlockValue::Shared(Bytes::from(block));
    let mut borrowing = Borrowing(Vec::new());
    decode_native_block_entries_ref(&shared, &mut borrowing).expect("walk");
    assert_eq!(borrowing.0, [false, false]);
}

#[test]
fn written_native_tables_list_their_keys_by_prefix() {
    let mut map = KeyMap::new();
    for key in [b"chunk:2".as_slice(), b"player", b"chunk:1", b"actor", b"chunk:10"] {
        map.insert(key.to_vec(), Bytes::from_static(b"12"));
    }
    for policy in POLICIES {
        let (table, _) = write_native_table_bytes(&map, 3, policy).expect("write");
        let mut keys = KeyCollector::new();
        let outcome = for_each_table_prefix_key_bytes(PATH, &table, b"chunk:", true, &mut keys)
            .expect("scan");
        assert_eq!(
            keys.into_keys(),
            [b"chunk:1".to_vec(), b"chunk:10".to_vec(), b"chunk:2".to_vec()]
        );
        assert_eq!(counts(&outcome), (3, 6, false, 1));
    }
}

#[test]
fn native_lookups_of_several_keys_agree_with_single_ones() {
    let table = sample_table();
    let keys = [b"z".as_slice(), b"chunk:2", b"chunk:1", b"nowhere", b"z"].map(Bytes::from_static);
    let together = get_table_entries_bytes(PATH, &table, &keys, true).expect("get");
    assert_eq!(together.len(), keys.len());
    for (key, found) in keys.iter().zip(together) {
        assert_eq!(get_table_entry_bytes(PATH, &table, key, true).expect("get"), found);
    }
}

#[test]
fn keys_behind_the_last_block_need_no_block() {
    let table = sample_table();
    let index = read_native_index_entries_bytes(PATH, &table, true).expect("index");
    let mut scan = NativeScan::new(index, NativeSelection::with_prefix(b"zz"));
    assert!(scan.next_block().expect("handle").is_none());
    assert_eq!(counts(&scan.finish()), (0, 0, false, 1));
    let index = read_native_index_entries_bytes(PATH, &table, true).expect("index");
    let mut gather = NativeGather::new(index, &[Bytes::from_static(b"zz")]);
    assert!(gather.next_block().expect("handle").is_none());
    assert_eq!(gather.finish(), [None]);
}

#[test]
fn index_entries_without_a_handle_fail_the_scan() {
    let mut table = Vec::new();
    let block = encode_native_block(&[(
        internal_key(b"k", 1, VALUE_TYPE_VALUE),
        Bytes::from_static(b"\x80"),
    )])
    .expect("index");
    let handle = append_block(&mut table, &block, 0);
    push_native_footer(&mut table, BlockHandle { offset: 0, size: 0 }, handle);
    let mut collector = EntryCollector::new();
    let error = for_each_table_entry_bytes(PATH, &table, true, &mut collector).expect_err("handle");
    assert_eq!(error.kind(), ErrorKind::Corruption);
    let error = get_table_entry_bytes(PATH, &table, b"k", true).expect_err("handle");
    assert_eq!(error.path(), Some(PATH));
    assert_eq!(get_table_entry_bytes(PATH, &table, b"z", true).expect("get"), None);
}
