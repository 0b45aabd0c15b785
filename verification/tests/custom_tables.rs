use bedrock_leveldb::blob::ValueRef;
use bedrock_leveldb::codec::{
    compress_payload, compress_snappy, compress_zlib, compression_tag, decompress_deflate,
    decompress_payload, decompress_snappy, decompress_zlib,
};
use bedrock_leveldb::collect::{EntryCollector, KeyCollector};
use bedrock_leveldb::custom::{
    decode_entries, has_table_magic, is_custom_table_bytes, is_header_readable,
};
use bedrock_leveldb::custom_lookup::get_custom_table_entries;
use bedrock_leveldb::custom_write::write_table_bytes;
use bedrock_leveldb::error::{ErrorKind, LevelDbError};
use bedrock_leveldb::keys::KeyMap;
use bedrock_leveldb::options::{CompressionPolicy, ScanOutcome, VisitorControl};
use bedrock_leveldb::scan::{EntryVisitor, KeyVisitor, Visitor};
use bedrock_leveldb::table::{
    for_each_table_entry_bytes, for_each_table_entry_ref_bytes, for_each_table_key_bytes,
    for_each_table_prefix_bytes, for_each_table_prefix_key_bytes, for_each_table_prefix_ref_bytes,
    get_table_entries_bytes, get_table_entry_bytes, read_table_bytes,
};
use bytes::Bytes;

const PATH: &str = "tables/000007.ldb";

const POLICIES: [CompressionPolicy; 3] = [
    CompressionPolicy::Uncompressed,
    CompressionPolicy::Snappy,
    CompressionPolicy::Zlib,
];

fn map_of(entries: &[(&[u8], &[u8])]) -> KeyMap<Bytes> {
    let mut map = KeyMap::new();
    for (key, value) in entries {
        map.insert(key.to_vec(), Bytes::copy_from_slice(value));
    }
    map
}

fn pairs(map: &KeyMap<Bytes>) -> Vec<(Vec<u8>, Bytes)> {
    (0..map.len())
        .map(|i| (map.key_at(i).to_vec(), map.value_at(i).clone()))
        .collect()
}

fn sample() -> KeyMap<Bytes> {
    map_of(&[
        (b"chunk:1", b"one"),
        (b"chunk:2", b"three"),
        (b"player", b""),
        (b"z", b"last value"),
    ])
}

/// Keeps what it is shown, and answers from a script.
struct Scripted {
    seen: Vec<(Vec<u8>, Vec<u8>)>,
    stop_at: usize,
    fail_at: usize,
}

impl Scripted {
    fn stopping(at: usize) -> Self {
        Scripted { seen: Vec::new(), stop_at: at, fail_at: 0 }
    }

    fn failing(at: usize) -> Self {
        Scripted { seen: Vec::new(), stop_at: 0, fail_at: at }
    }

    fn answer(&self) -> Result<VisitorControl, LevelDbError> {
        if self.seen.len() == self.fail_at {
            return Err(LevelDbError::invalid_argument("visitor failed"));
        }
        if self.seen.len() == self.stop_at {
            return Ok(VisitorControl::Stop);
        }
        Ok(VisitorControl::Continue)
    }
}

impl Visitor for Scripted {}

impl EntryVisitor for Scripted {
    fn visit(&mut self, key: &[u8], value: ValueRef<'_>) -> Result<VisitorControl, LevelDbError> {
        self.seen.push((key.to_vec(), value.as_bytes().to_vec()));
        self.answer()
    }
}

impl KeyVisitor for Scripted {
    fn visit_key(&mut self, key: &[u8]) -> Result<VisitorControl, LevelDbError> {
        self.seen.push((key.to_vec(), Vec::new()));
        self.answer()
    }
}

/// Keeps whether values are borrowed.
struct Borrowing(Vec<bool>);

impl Visitor for Borrowing {}

impl EntryVisitor for Borrowing {
    fn visit(&mut self, _: &[u8], value: ValueRef<'_>) -> Result<VisitorControl, LevelDbError> {
        self.0.push(matches!(value, ValueRef::Borrowed(_)));
        Ok(VisitorControl::Continue)
    }
}

fn counts(outcome: &ScanOutcome) -> (usize, usize, bool, usize) {
    (outcome.visited, outcome.bytes_read, outcome.stopped, outcome.tables_scanned)
}

#[test]
fn table_roundtrips_without_compression() {
    let mut entries = KeyMap::new();
    entries.insert(b"a".to_vec(), Bytes::from_static(b"one"));
    entries.insert(b"b".to_vec(), Bytes::from_static(b"two"));

    let bytes = write_table_bytes(&entries, CompressionPolicy::Uncompressed).expect("write");
    let decoded = read_table_bytes(PATH, &bytes, true).expect("read");
    assert_eq!(pairs(&decoded), pairs(&entries));
}

#[test]
fn custom_tables_have_a_fixed_layout() {
    let entries = map_of(&[(b"a", b"one")]);
    let bytes = write_table_bytes(&entries, CompressionPolicy::Uncompressed).expect("write");
    assert_eq!(&bytes[..9], b"BWLDBTBL1");
    assert_eq!(&bytes[9..13], [1, 0, 0, 0]);
    assert_eq!(bytes[13], 0);
    assert_eq!(&bytes[18..], b"\x01\x01a\x03one");
    assert_eq!(
        bytes[14..18],
        bedrock_leveldb::checksum::crc32c(&bytes[18..]).to_le_bytes()
    );
    assert!(has_table_magic(&bytes));
    assert!(is_custom_table_bytes(&bytes));
    assert!(!is_custom_table_bytes(&bytes[..17]));
    assert!(is_header_readable(&bytes));
    assert!(!is_header_readable(&bytes[..17]));
}

#[test]
fn custom_tables_round_trip_with_every_policy() {
    for policy in POLICIES {
        for paranoid_checks in [false, true] {
            let bytes = write_table_bytes(&sample(), policy).expect("write");
            assert_eq!(bytes[13], compression_tag(policy));
            let decoded = read_table_bytes(PATH, &bytes, paranoid_checks).expect("read");
            assert_eq!(pairs(&decoded), pairs(&sample()));
        }
    }
}

#[test]
fn empty_custom_tables_round_trip() {
    let bytes = write_table_bytes(&map_of(&[]), CompressionPolicy::Zlib).expect("write");
    assert_eq!(read_table_bytes(PATH, &bytes, true).expect("read").len(), 0);
}

#[test]
fn custom_scans_show_every_entry_in_order() {
    let bytes = write_table_bytes(&sample(), CompressionPolicy::Snappy).expect("write");
    let mut collector = EntryCollector::new();
    let outcome = for_each_table_entry_bytes(PATH, &bytes, true, &mut collector).expect("scan");
    assert_eq!(counts(&outcome), (4, 18, false, 1));
    assert_eq!(collector.into_entries(), pairs(&sample()));

    let mut collector = EntryCollector::new();
    let outcome =
        for_each_table_entry_ref_bytes(PATH, &bytes, true, &mut collector).expect("scan");
    assert_eq!(counts(&outcome), (4, 18, false, 1));
    assert_eq!(collector.into_entries(), pairs(&sample()));

    let mut collector = KeyCollector::new();
    let outcome = for_each_table_key_bytes(PATH, &bytes, true, &mut collector).expect("scan");
    assert_eq!(counts(&outcome), (4, 18, false, 1));
    assert_eq!(collector.into_keys().len(), 4);
}

#[test]
fn custom_prefix_scans_show_what_has_the_prefix() {
    let bytes = write_table_bytes(&sample(), CompressionPolicy::Uncompressed).expect("write");
    let expected = pairs(&sample())[..2].to_vec();

    let mut collector = EntryCollector::new();
    let outcome =
        for_each_table_prefix_bytes(PATH, &bytes, b"chunk:", true, &mut collector).expect("scan");
    assert_eq!(collector.into_entries(), expected);
    assert_eq!(counts(&outcome), (4, 18, false, 1));

    let mut collector = EntryCollector::new();
    for_each_table_prefix_ref_bytes(PATH, &bytes, b"chunk:", true, &mut collector).expect("scan");
    assert_eq!(collector.into_entries(), expected);

    let mut collector = KeyCollector::new();
    let outcome = for_each_table_prefix_key_bytes(PATH, &bytes, b"chunk:", true, &mut collector)
        .expect("scan");
    assert_eq!(collector.into_keys(), [b"chunk:1".to_vec(), b"chunk:2".to_vec()]);
    assert_eq!(counts(&outcome), (2, 8, false, 1));
}

#[test]
fn stopping_a_custom_scan_is_not_an_error() {
    let bytes = write_table_bytes(&sample(), CompressionPolicy::Uncompressed).expect("write");
    let mut visitor = Scripted::stopping(2);
    let outcome = for_each_table_entry_bytes(PATH, &bytes, true, &mut visitor).expect("scan");
    assert_eq!(counts(&outcome), (2, 8, true, 1));
    assert_eq!(visitor.seen.len(), 2);

    let mut visitor = Scripted::stopping(1);
    let outcome = for_each_table_key_bytes(PATH, &bytes, true, &mut visitor).expect("scan");
    assert_eq!(counts(&outcome), (1, 3, true, 1));
}

#[test]
fn errors_of_visitors_end_custom_scans() {
    let bytes = write_table_bytes(&sample(), CompressionPolicy::Uncompressed).expect("write");
    let mut visitor = Scripted::failing(3);
    let error = for_each_table_entry_bytes(PATH, &bytes, true, &mut visitor).expect_err("fails");
    assert_eq!(error.kind(), ErrorKind::InvalidArgument);
    assert_eq!(error.message(), "visitor failed");
    assert_eq!(visitor.seen.len(), 3);
}

#[test]
fn custom_lookups_find_keys() {
    for policy in POLICIES {
        let bytes = write_table_bytes(&sample(), policy).expect("write");
        assert_eq!(
            get_table_entry_bytes(PATH, &bytes, b"chunk:2", true).expect("get"),
            Some(Bytes::from_static(b"three"))
        );
        assert_eq!(get_table_entry_bytes(PATH, &bytes, b"chunk", true).expect("get"), None);
        assert_eq!(
            get_table_entry_bytes(PATH, &bytes, b"player", true).expect("get"),
            Some(Bytes::new())
        );
    }
}

#[test]
fn custom_lookups_of_several_keys_keep_the_order_of_the_request() {
    let bytes = write_table_bytes(&sample(), CompressionPolicy::Zlib).expect("write");
    let keys = [
        Bytes::from_static(b"z"),
        Bytes::from_static(b"missing"),
        Bytes::from_static(b"chunk:1"),
        Bytes::from_static(b"z"),
    ];
    assert_eq!(
        get_table_entries_bytes(PATH, &bytes, &keys, true).expect("get"),
        [
            Some(Bytes::from_static(b"last value")),
            None,
            Some(Bytes::from_static(b"one")),
            Some(Bytes::from_static(b"last value")),
        ]
    );
    assert_eq!(get_table_entries_bytes(PATH, &bytes, &[], true).expect("get"), []);
}

#[test]
fn the_first_of_equal_keys_is_looked_up_and_the_last_is_read() {
    let payload = b"\x02\x01k\x03old\x01k\x03new";
    let mut bytes = b"BWLDBTBL1\x01\x00\x00\x00\x00\x00\x00\x00\x00".to_vec();
    bytes.extend_from_slice(payload);
    let map = read_table_bytes(PATH, &bytes, false).expect("read");
    assert_eq!(pairs(&map), [(b"k".to_vec(), Bytes::from_static(b"new"))]);
    assert_eq!(
        get_table_entry_bytes(PATH, &bytes, b"k", false).expect("get"),
        Some(Bytes::from_static(b"old"))
    );
}

#[test]
fn a_changed_byte_of_a_custom_table_is_detected() {
    let good = write_table_bytes(&sample(), CompressionPolicy::Uncompressed).expect("write");
    for i in 14..good.len() {
        let mut bytes = good.clone();
        bytes[i] ^= 0xff;
        let error = read_table_bytes(PATH, &bytes, true).err().expect("corrupt");
        assert_eq!(error.kind(), ErrorKind::Corruption);
        assert_eq!(error.path(), Some(PATH));
        assert_eq!(error.message(), "table tables/000007.ldb checksum mismatch");
        let mut collector = EntryCollector::new();
        assert!(for_each_table_entry_bytes(PATH, &bytes, true, &mut collector).is_err());
        assert_eq!(collector.into_entries(), []);
        assert!(get_table_entry_bytes(PATH, &bytes, b"chunk:1", true).is_err());
    }
}

#[test]
fn checksums_are_looked_at_only_when_asked_for() {
    let mut bytes = write_table_bytes(&sample(), CompressionPolicy::Uncompressed).expect("write");
    let last = bytes.len() - 1;
    bytes[last] = b'E';
    let map = read_table_bytes(PATH, &bytes, false).expect("read");
    assert_eq!(map.get(b"z"), Some(&Bytes::from_static(b"last valuE")));
}

#[test]
fn unknown_versions_are_refused() {
    let mut bytes = write_table_bytes(&sample(), CompressionPolicy::Uncompressed).expect("write");
    bytes[9] = 2;
    let error = read_table_bytes(PATH, &bytes, true).err().expect("version");
    assert_eq!(error.kind(), ErrorKind::Corruption);
    assert_eq!(error.path(), Some(PATH));
    assert_eq!(error.message(), "unsupported table version 2");
}

#[test]
fn trailing_bytes_are_refused() {
    let error = decode_entries(b"\x01\x01a\x03one?").err().expect("trailing");
    assert_eq!(error.kind(), ErrorKind::Corruption);
    assert_eq!(error.message(), "table contains trailing bytes");
    assert!(decode_entries(b"\x02\x01a\x03one").is_err());
    assert!(decode_entries(b"").is_err());
    assert_eq!(decode_entries(b"\x00").expect("empty").len(), 0);
}

#[test]
fn unknown_compression_is_refused() {
    let mut bytes = write_table_bytes(&sample(), CompressionPolicy::Uncompressed).expect("write");
    bytes[13] = 3;
    let error = read_table_bytes(PATH, &bytes, true).err().expect("tag");
    assert_eq!(error.kind(), ErrorKind::Compression);
    assert_eq!(error.path(), None);
}

#[test]
fn snappy_round_trips() {
    let payload = vec![b'a'; 1000];
    let packed = compress_snappy(&payload).expect("compress");
    assert!(packed.len() < 100);
    assert_eq!(decompress_snappy(&packed).expect("decompress"), payload);
    assert_eq!(decompress_payload(1, &packed).expect("decompress"), payload);
    let error = decompress_snappy(b"\xff\xff\xff").expect_err("garbage");
    assert_eq!(error.kind(), ErrorKind::Compression);
}

#[test]
fn zlib_round_trips() {
    let payload = vec![b'b'; 1000];
    let packed = compress_zlib(&payload).expect("compress");
    assert!(packed.len() < 100);
    assert_eq!(packed[0], 0x78);
    assert_eq!(decompress_zlib(&packed).expect("decompress"), payload);
    assert_eq!(decompress_payload(2, &packed).expect("decompress"), payload);
    let error = decompress_zlib(b"garbage").expect_err("garbage");
    assert_eq!(error.kind(), ErrorKind::Compression);
}

#[test]
fn raw_deflate_is_zlib_without_its_frame() {
    let payload = vec![b'c'; 1000];
    let packed = compress_zlib(&payload).expect("compress");
    let raw = &packed[2..packed.len() - 4];
    assert_eq!(decompress_deflate(raw).expect("decompress"), payload);
    assert_eq!(decompress_payload(4, raw).expect("decompress"), payload);
    assert!(decompress_deflate(&[0xff; 8]).is_err());
}

#[test]
fn policies_compress_as_they_say() {
    let payload = b"payload payload payload payload".repeat(10);
    for policy in POLICIES {
        let packed = compress_payload(policy, &payload).expect("compress");
        assert_eq!(
            decompress_payload(compression_tag(policy), &packed).expect("decompress"),
            payload
        );
    }
    assert_eq!(
        compress_payload(CompressionPolicy::Uncompressed, &payload).expect("store"),
        payload
    );
}

#[test]
fn flushed_custom_table_reopens_and_scans() {
    let entries = map_of(&[(b"chunk:1", b"one"), (b"chunk:2", b"two")]);
    let bytes = write_table_bytes(&entries, CompressionPolicy::Uncompressed).expect("write");
    assert_eq!(
        get_table_entry_bytes(PATH, &bytes, b"chunk:1", true).expect("get"),
        Some(Bytes::from_static(b"one"))
    );
    let mut values = EntryCollector::new();
    for_each_table_prefix_bytes(PATH, &bytes, b"chunk:", true, &mut values).expect("scan");
    assert_eq!(values.into_entries().len(), 2);
}

#[test]
fn checksum_verification_detects_custom_table_corruption() {
    let entries = map_of(&[(b"k", b"value")]);
    let mut bytes = write_table_bytes(&entries, CompressionPolicy::Uncompressed).expect("write");
    let last = bytes.last_mut().expect("non-empty table");
    *last ^= 0xff;
    let error = get_table_entry_bytes(PATH, &bytes, b"k", true).expect_err("corrupt");
    assert_eq!(error.kind(), ErrorKind::Corruption);
    assert_eq!(error.path(), Some(PATH));
}

#[test]
fn only_uncompressed_custom_tables_are_borrowed() {
    for policy in POLICIES {
        let bytes = write_table_bytes(&sample(), policy).expect("write");
        let borrowed = policy == CompressionPolicy::Uncompressed;
        let mut borrowing = Borrowing(Vec::new());
        for_each_table_entry_ref_bytes(PATH, &bytes, true, &mut borrowing).expect("scan");
        assert_eq!(borrowing.0, [borrowed; 4]);
        let mut borrowing = Borrowing(Vec::new());
        for_each_table_prefix_ref_bytes(PATH, &bytes, b"chunk:", true, &mut borrowing)
            .expect("scan");
        assert_eq!(borrowing.0, [borrowed; 2]);
        let mut borrowing = Borrowing(Vec::new());
        for_each_table_prefix_bytes(PATH, &bytes, b"chunk:", true, &mut borrowing).expect("scan");
        assert_eq!(borrowing.0, [false; 2]);
    }
}

#[test]
fn no_keys_are_looked_up_in_any_bytes() {
    let nothing: Vec<Option<Bytes>> = Vec::new();
    for bytes in [b"BWLDBTBL1".as_slice(), b"BWLDBTBL1\x01\x00", b"", b"short"] {
        assert_eq!(get_table_entries_bytes(PATH, bytes, &[], true).expect("get"), nothing);
        assert_eq!(get_custom_table_entries(PATH, bytes, &[], true).expect("get"), nothing);
    }
}

#[test]
fn snappy_starts_with_the_length_and_a_literal() {
    assert_eq!(compress_snappy(b"").expect("compress"), [0]);
    for len in [1_usize, 60, 61, 66, 127, 128, 300, 70_000] {
        let packed = compress_snappy(&vec![b'x'; len]).expect("compress");
        let mut head = 0;
        let mut rest = len;
        while rest >= 128 {
            assert_eq!(packed[head], (rest % 128 + 128) as u8);
            rest /= 128;
            head += 1;
        }
        assert_eq!(packed[head], rest as u8);
        assert_eq!(packed[head + 1] % 4, 0);
    }
}

#[test]
fn zlib_starts_with_its_header_and_does_not_fail() {
    for len in [0_usize, 1, 100, 70_000] {
        let packed = compress_zlib(&vec![b'x'; len]).expect("compress");
        assert_eq!(packed[0], 0x78);
        assert_eq!(decompress_zlib(&packed).expect("decompress").len(), len);
    }
}

#[test]
fn custom_lookups_of_several_keys_agree_with_single_ones() {
    let bytes = write_table_bytes(&sample(), CompressionPolicy::Snappy).expect("write");
    let keys = [b"z".as_slice(), b"nowhere", b"chunk:1", b"z"].map(Bytes::from_static);
    let together = get_table_entries_bytes(PATH, &bytes, &keys, true).expect("get");
    assert_eq!(together.len(), keys.len());
    for (key, found) in keys.iter().zip(together) {
        assert_eq!(get_table_entry_bytes(PATH, &bytes, key, true).expect("get"), found);
    }
}
