//! Writing `BWLDB` tables.
use crate::blob::as_slice;
use crate::checksum::{checksum_detects_one_changed_byte, crc32c, crc32c_of};
use crate::codec::{
    bytes_result, compress_payload, compressed, compressible, compression_tag, decompressed,
    tag_of,
};
use crate::coding::{
    fixed32_round_trip, fixed32_tells_bytes_apart, le_bytes_u32, le_u32, prefixed_bytes,
    prefixed_slice_round_trip, put_fixed32, put_length_prefixed_slice, put_varint32,
    varint32_round_trip, varint_bytes,
};
use crate::custom::{
    counted_entries, custom_contents, custom_entries, entry_at_front, header_readable, is_custom,
    magic_bytes, payload_entries, table_magic, version_of, TABLE_VERSION,
};
use crate::error::{corrupt_at, invalid, ErrorView, LevelDbError};
use crate::keys::{
    as_map, entry_pairs, lemma_entry_map, lemma_inserted_sorted, sorted, Entry, KeyMap,
};
use crate::options::CompressionPolicy;
use crate::scan::{unreadable, EntryList};
use bytes::Bytes;
use vstd::prelude::*;

verus! {

/// The bytes of entries in a payload.
pub open spec fn listed_bytes(entries: Seq<Entry>) -> Seq<u8>
    decreases entries.len(),
{
    if entries.len() == 0 {
        Seq::empty()
    } else {
        prefixed_bytes(entries[0].0) + prefixed_bytes(entries[0].1) + listed_bytes(entries.skip(1))
    }
}

/// The payload that lists `entries`.
pub open spec fn payload_of(entries: Seq<Entry>) -> Seq<u8> {
    varint_bytes(entries.len()) + listed_bytes(entries)
}

/// Whether every key and every value is short enough for the format.
pub open spec fn entries_fit(entries: Seq<Entry>) -> bool {
    forall|i: int|
        0 <= i < entries.len() ==> (#[trigger] entries[i]).0.len() <= u32::MAX
            && entries[i].1.len() <= u32::MAX
}

/// The table with a compressed payload.
pub open spec fn table_image(tag: u8, encoded: Seq<u8>) -> Seq<u8> {
    table_magic() + le_bytes_u32(TABLE_VERSION) + seq![tag] + le_bytes_u32(crc32c_of(encoded))
        + encoded
}

/// The table that holds `entries`.
pub open spec fn custom_table(entries: Seq<Entry>, policy: CompressionPolicy) -> Result<
    Seq<u8>,
    ErrorView,
> {
    if entries.len() > u32::MAX {
        Err(invalid("table has too many entries"@))
    } else if !entries_fit(entries) {
        Err(invalid("slice is too large"@))
    } else {
        match compressed(policy, payload_of(entries)) {
            Err(error) => Err(error),
            Ok(encoded) => Ok(table_image(tag_of(policy), encoded)),
        }
    }
}

/// Whether entries in ascending order were written, and can be read back as far
/// as the compression is concerned.
pub open spec fn written_custom(entries: Seq<Entry>, policy: CompressionPolicy) -> bool {
    &&& sorted(entries)
    &&& custom_table(entries, policy) is Ok
    &&& decompressed(tag_of(policy), compressed(policy, payload_of(entries))->Ok_0) == Ok::<
        Seq<u8>,
        ErrorView,
    >(payload_of(entries))
}

/// A list of which every entry can be read.
pub open spec fn complete(entries: Seq<Entry>) -> EntryList {
    EntryList { entries, error: None }
}

proof fn lemma_listed_push(entries: Seq<Entry>, i: int)
    requires
        0 <= i < entries.len(),
    ensures
        listed_bytes(entries.take(i + 1)) == listed_bytes(entries.take(i)) + prefixed_bytes(
            entries[i].0,
        ) + prefixed_bytes(entries[i].1),
    decreases i,
{
    let longer = entries.take(i + 1);
    let shorter = entries.take(i);
    if i == 0 {
        assert(longer.skip(1).len() == 0);
        assert(listed_bytes(longer.skip(1)) =~= Seq::<u8>::empty());
        assert(listed_bytes(longer) =~= listed_bytes(shorter) + prefixed_bytes(entries[i].0)
            + prefixed_bytes(entries[i].1));
    } else {
        let rest = entries.skip(1);
        assert(longer.skip(1) =~= rest.take(i));
        assert(shorter.skip(1) =~= rest.take(i - 1));
        lemma_listed_push(rest, i - 1);
        assert(listed_bytes(longer) =~= listed_bytes(shorter) + prefixed_bytes(entries[i].0)
            + prefixed_bytes(entries[i].1));
    }
}

proof fn lemma_listed_reads_back(entries: Seq<Entry>)
    requires
        entries_fit(entries),
    ensures
        counted_entries(listed_bytes(entries), entries.len()) == complete(entries),
    decreases entries.len(),
{
    if entries.len() == 0 {
        assert(entries =~= Seq::<Entry>::empty());
    } else {
        let (key, value) = entries[0];
        let rest = entries.skip(1);
        let input = listed_bytes(entries);
        let tail = listed_bytes(rest);
        assert forall|i: int| 0 <= i < rest.len() implies (#[trigger] rest[i]).0.len() <= u32::MAX
            && rest[i].1.len() <= u32::MAX by {
            assert(rest[i] == entries[i + 1]);
        }
        lemma_listed_reads_back(rest);
        assert(input =~= prefixed_bytes(key) + (prefixed_bytes(value) + tail));
        prefixed_slice_round_trip(key, prefixed_bytes(value) + tail);
        prefixed_slice_round_trip(value, tail);
        let size = prefixed_bytes(key).len() + prefixed_bytes(value).len();
        assert(input.skip(size as int) =~= tail);
        assert(entry_at_front(input) == Ok::<(Seq<u8>, Seq<u8>, nat), ErrorView>(
            (key, value, size),
        ));
        assert(seq![(key, value)] + rest =~= entries);
    }
}

/// A written payload lists what was written.
pub proof fn payload_round_trip(entries: Seq<Entry>)
    requires
        entries.len() <= u32::MAX,
        entries_fit(entries),
    ensures
        payload_entries(payload_of(entries)) == complete(entries),
{
    varint32_round_trip(entries.len() as u32, listed_bytes(entries));
    lemma_listed_reads_back(entries);
}

/// The parts of a table.
proof fn lemma_image_parts(tag: u8, encoded: Seq<u8>)
    ensures
        is_custom(table_image(tag, encoded)),
        header_readable(table_image(tag, encoded)),
        version_of(table_image(tag, encoded)) == TABLE_VERSION,
        table_image(tag, encoded)[13] == tag,
        le_u32(table_image(tag, encoded).subrange(14, 18)) == crc32c_of(encoded),
        table_image(tag, encoded).skip(18) == encoded,
        table_image(tag, encoded).len() == 18 + encoded.len(),
{
    let image = table_image(tag, encoded);
    fixed32_round_trip(TABLE_VERSION);
    fixed32_round_trip(crc32c_of(encoded));
    assert(image.take(9) =~= table_magic());
    assert(image.subrange(9, 13) =~= le_bytes_u32(TABLE_VERSION));
    assert(image.subrange(14, 18) =~= le_bytes_u32(crc32c_of(encoded)));
    assert(image.skip(18) =~= encoded);
}

/// A written table reads back as what was written, with and without checksums,
/// whatever its path is, and keeps its tag where the header has it.
pub proof fn custom_table_round_trip(
    entries: Seq<Entry>,
    policy: CompressionPolicy,
    path: Seq<char>,
    paranoid_checks: bool,
)
    requires
        written_custom(entries, policy),
    ensures
        is_custom(custom_table(entries, policy)->Ok_0),
        header_readable(custom_table(entries, policy)->Ok_0),
        custom_table(entries, policy)->Ok_0[13] == tag_of(policy),
        custom_entries(path, custom_table(entries, policy)->Ok_0, paranoid_checks) == complete(
            entries,
        ),
        custom_contents(path, custom_table(entries, policy)->Ok_0, paranoid_checks) == Ok::<
            Map<Seq<u8>, Seq<u8>>,
            ErrorView,
        >(as_map(entries)),
{
    lemma_image_parts(tag_of(policy), compressed(policy, payload_of(entries))->Ok_0);
    payload_round_trip(entries);
    lemma_inserted_sorted(entries);
}

/// With checksums, no table in which one byte of the compressed payload or of
/// the stored checksum was changed can be read: every read of it says so, and
/// shows no entry.
pub proof fn corrupted_custom_table_is_refused(
    tag: u8,
    encoded: Seq<u8>,
    i: int,
    byte: u8,
    path: Seq<char>,
)
    requires
        14 <= i < table_image(tag, encoded).len(),
        byte != table_image(tag, encoded)[i],
    ensures
        header_readable(table_image(tag, encoded).update(i, byte)),
        custom_entries(path, table_image(tag, encoded).update(i, byte), true) == unreadable(
            corrupt_at(path, "table "@ + path + " checksum mismatch"@),
        ),
{
    let image = table_image(tag, encoded);
    let changed = image.update(i, byte);
    lemma_image_parts(tag, encoded);
    assert(changed.subrange(9, 13) =~= image.subrange(9, 13));
    let stored = image.subrange(14, 18);
    if i < 18 {
        assert(changed.subrange(14, 18) =~= stored.update(i - 14, byte));
        assert(changed.skip(18) =~= encoded);
        assert(image[i] == stored[i - 14]);
        fixed32_tells_bytes_apart(stored, i - 14, byte);
    } else {
        assert(changed.subrange(14, 18) =~= stored);
        assert(changed.skip(18) =~= encoded.update(i - 18, byte));
        assert(image[i] == image.skip(18)[i - 18]);
        checksum_detects_one_changed_byte(encoded, i - 18, byte);
    }
}

/// Writes a table that holds `entries`. What it writes reads back as those
/// entries, in the order of their keys.
pub fn write_table_bytes(entries: &KeyMap<Bytes>, policy: CompressionPolicy) -> (r: Result<
    Vec<u8>,
    LevelDbError,
>)
    requires
        entries.wf(),
    ensures
        bytes_result(r) == custom_table(entry_pairs(entries@), policy),
        r is Ok <==> entries@.len() <= u32::MAX && entries_fit(entry_pairs(entries@))
            && compressible(policy, payload_of(entry_pairs(entries@)).len()),
        r is Ok ==> written_custom(entry_pairs(entries@), policy),
        r matches Ok(bytes) ==> is_custom(bytes@) && header_readable(bytes@) && forall|
            path: Seq<char>,
            paranoid_checks: bool,
        |
            #![trigger custom_entries(path, bytes@, paranoid_checks)]
            #![trigger custom_contents(path, bytes@, paranoid_checks)]
            custom_entries(path, bytes@, paranoid_checks) == complete(entry_pairs(entries@))
                && custom_contents(path, bytes@, paranoid_checks) == Ok::<
                Map<Seq<u8>, Seq<u8>>,
                ErrorView,
            >(as_map(entry_pairs(entries@))),
{
    let ghost list = entry_pairs(entries@);
    let count: u64 = entries.len() as u64;
    if count > u32::MAX as u64 {
        return Err(LevelDbError::invalid_argument("table has too many entries"));
    }
    let mut payload: Vec<u8> = Vec::new();
    put_varint32(count as u32, &mut payload);
    let mut i: usize = 0;
    proof {
        assert(payload@ =~= varint_bytes(list.len()) + listed_bytes(list.take(0)));
    }
    while i < entries.len()
        invariant
            list == entry_pairs(entries@),
            i <= list.len(),
            list.len() <= u32::MAX,
            payload@ == varint_bytes(list.len()) + listed_bytes(list.take(i as int)),
            entries_fit(list.take(i as int)),
        decreases list.len() - i,
    {
        proof {
            lemma_listed_push(list, i as int);
            assert(list[i as int].0 == entries@[i as int].0);
        }
        let key = entries.key_at(i);
        let value = as_slice(entries.value_at(i));
        if let Err(error) = put_length_prefixed_slice(key, &mut payload) {
            return Err(error);
        }
        if let Err(error) = put_length_prefixed_slice(value, &mut payload) {
            return Err(error);
        }
        proof {
            assert(payload@ =~= varint_bytes(list.len()) + listed_bytes(list.take(i + 1)));
            assert forall|k: int| 0 <= k < i + 1 implies (#[trigger] list.take(i + 1)[k]).0.len()
                <= u32::MAX && list.take(i + 1)[k].1.len() <= u32::MAX by {
                if k < i {
                    assert(list.take(i + 1)[k] == list.take(i as int)[k]);
                }
            }
        }
        i = i + 1;
    }
    proof {
        assert(list.take(i as int) =~= list);
    }
    let encoded = match compress_payload(policy, payload.as_slice()) {
        Ok(encoded) => encoded,
        Err(error) => return Err(error),
    };
    let mut bytes: Vec<u8> = magic_bytes();
    put_fixed32(TABLE_VERSION, &mut bytes);
    bytes.push(compression_tag(policy));
    put_fixed32(crc32c(encoded.as_slice()), &mut bytes);
    bytes.extend_from_slice(encoded.as_slice());
    proof {
        assert(bytes@ =~= table_image(tag_of(policy), encoded@));
        lemma_entry_map(entries@);
        assert forall|path: Seq<char>, paranoid_checks: bool|
            #![trigger custom_entries(path, bytes@, paranoid_checks)]
            #![trigger custom_contents(path, bytes@, paranoid_checks)]
            custom_entries(path, bytes@, paranoid_checks) == complete(list) && custom_contents(
                path,
                bytes@,
                paranoid_checks,
            ) == Ok::<Map<Seq<u8>, Seq<u8>>, ErrorView>(as_map(list)) by {
            custom_table_round_trip(list, policy, path, paranoid_checks);
        }
        lemma_image_parts(tag_of(policy), encoded@);
    }
    Ok(bytes)
}

/// A written table is, byte for byte: the nine letters, the version 1, the tag of
/// the codec, the checksum of the compressed payload, and that payload. The
/// payload is the number of entries and then each entry in turn: the length of
/// the key, the key, the length of the value, the value.
pub proof fn written_tables_have_their_bytes(
    entries: Seq<Entry>,
    policy: CompressionPolicy,
    key: Seq<u8>,
    value: Seq<u8>,
)
    ensures
        custom_table(entries, policy) is Ok <==> {
            &&& entries.len() <= 0xffff_ffff
            &&& forall|i: int|
                0 <= i < entries.len() ==> (#[trigger] entries[i]).0.len() <= 0xffff_ffff
                    && entries[i].1.len() <= 0xffff_ffff
            &&& compressed(policy, payload_of(entries)) is Ok
        },
        custom_table(entries, policy) matches Err(error) ==> if entries.len() > 0xffff_ffff {
            error == (ErrorView::InvalidArgument { message: "table has too many entries"@ })
        } else if exists|i: int|
            0 <= i < entries.len() && ((#[trigger] entries[i]).0.len() > 0xffff_ffff
                || entries[i].1.len() > 0xffff_ffff) {
            error == (ErrorView::InvalidArgument { message: "slice is too large"@ })
        } else {
            compressed(policy, payload_of(entries)) == Err::<Seq<u8>, ErrorView>(error)
        },
        custom_table(entries, policy) matches Ok(bytes) ==> {
            let encoded = compressed(policy, payload_of(entries))->Ok_0;
            bytes == seq![0x42u8, 0x57, 0x4c, 0x44, 0x42, 0x54, 0x42, 0x4c, 0x31, 1, 0, 0, 0]
                + seq![tag_of(policy)] + le_bytes_u32(crc32c_of(encoded)) + encoded
        },
        payload_of(entries) == varint_bytes(entries.len()) + listed_bytes(entries),
        listed_bytes(Seq::empty()).len() == 0,
        listed_bytes(entries.push((key, value))) == listed_bytes(entries) + varint_bytes(key.len())
            + key + varint_bytes(value.len()) + value,
{
    let longer = entries.push((key, value));
    let n = entries.len() as int;
    lemma_listed_push(longer, n);
    assert(longer.take(n + 1) =~= longer);
    assert(longer.take(n) =~= entries);
    assert(listed_bytes(longer) =~= listed_bytes(entries) + varint_bytes(key.len()) + key
        + varint_bytes(value.len()) + value);
    if let Ok(bytes) = custom_table(entries, policy) {
        let encoded = compressed(policy, payload_of(entries))->Ok_0;
        assert(le_bytes_u32(TABLE_VERSION) =~= seq![1u8, 0, 0, 0]);
        assert(bytes =~= seq![
            0x42u8,
            0x57,
            0x4c,
            0x44,
            0x42,
            0x54,
            0x42,
            0x4c,
            0x31,
            1,
            0,
            0,
            0,
        ] + seq![tag_of(policy)] + le_bytes_u32(crc32c_of(encoded)) + encoded);
    }
}

} // verus!
