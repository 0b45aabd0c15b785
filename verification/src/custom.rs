//! The `BWLDB` table format: one payload that lists all entries of the table.
//!
//! A table is the magic bytes, a version, the tag of its compression, the
//! checksum of its compressed payload, and the compressed payload. A payload is
//! the count of its entries, and then the key and the value of each of them.
use crate::blob::copy_from_slice;
use crate::checksum::{crc32c, crc32c_of};
use crate::codec::{decompress_payload, decompressed};
use crate::coding::{
    base128, get_fixed32, get_length_prefixed_slice, get_varint32, is_one_varint, le_u32,
    lemma_varint_sizes, prefixed_bytes, prefixed_slice, prefixed_slice_round_trip,
    unfinished_varints_are_refused, varint32, varint_bytes, varints_are_read_in_base_128,
};
use crate::error::{corrupt, corrupt_at, decimal, joined, numbered, ErrorView, LevelDbError};
use crate::keys::{
    as_map, entry_pairs, has_prefix, inserted, last_entry_with_a_key_stays, lemma_entry_insert,
    lemma_inserted_sorted, prefixes_are_compared_byte_by_byte, starts_with, Entry, KeyMap,
};
use crate::scan::{entry_then, lemma_read_entry, reading, unreadable, EntryList};
use bytes::Bytes;
use vstd::prelude::*;
use vstd::slice::{slice_subrange, slice_to_vec};

verus! {

/// The version of the format.
pub const TABLE_VERSION: u32 = 1;

/// How many magic bytes there are.
pub const TABLE_MAGIC_LEN: usize = 9;

/// Where the compressed payload starts.
pub const PAYLOAD_OFFSET: usize = 18;

// ---------------------------------------------------------------------------
// Headers.

/// The bytes `BWLDBTBL1` that every table starts with.
pub open spec fn table_magic() -> Seq<u8> {
    seq![0x42, 0x57, 0x4c, 0x44, 0x42, 0x54, 0x42, 0x4c, 0x31]
}

/// The magic bytes.
pub(crate) fn magic_bytes() -> (r: Vec<u8>)
    ensures
        r@ == table_magic(),
{
    let r: Vec<u8> = vec![0x42, 0x57, 0x4c, 0x44, 0x42, 0x54, 0x42, 0x4c, 0x31];
    assert(r@ =~= table_magic());
    r
}

/// Whether `bytes` start with the magic bytes.
pub fn has_table_magic(bytes: &[u8]) -> (r: bool)
    ensures
        r == has_prefix(bytes@, table_magic()),
{
    starts_with(bytes, magic_bytes().as_slice())
}

/// Whether `bytes` are a table of this format: they start with the magic bytes
/// and hold a whole header.
pub open spec fn is_custom(bytes: Seq<u8>) -> bool {
    bytes.len() >= PAYLOAD_OFFSET && has_prefix(bytes, table_magic())
}

/// Finds whether `bytes` are a table of this format.
pub fn is_custom_table_bytes(bytes: &[u8]) -> (r: bool)
    ensures
        r == is_custom(bytes@),
{
    bytes.len() >= PAYLOAD_OFFSET && has_table_magic(bytes)
}

/// The version that a table names.
pub open spec fn version_of(bytes: Seq<u8>) -> int {
    le_u32(bytes.subrange(9, 13))
}

/// Whether `bytes` are long enough for what a reader looks at: the version, and
/// with a known version the whole header.
pub open spec fn header_readable(bytes: Seq<u8>) -> bool {
    &&& bytes.len() >= 13
    &&& version_of(bytes) == TABLE_VERSION ==> bytes.len() >= PAYLOAD_OFFSET
}

/// Finds whether `bytes` are long enough for what a reader looks at.
pub fn is_header_readable(bytes: &[u8]) -> (r: bool)
    ensures
        r == header_readable(bytes@),
{
    if bytes.len() < 13 {
        return false;
    }
    let version: u32 = get_fixed32(slice_subrange(bytes, 9, 13));
    version != TABLE_VERSION || bytes.len() >= PAYLOAD_OFFSET
}

/// The decompressed payload of a table. With `paranoid_checks` the checksum of
/// the compressed payload has to match.
pub open spec fn custom_payload(path: Seq<char>, bytes: Seq<u8>, paranoid_checks: bool) -> Result<
    Seq<u8>,
    ErrorView,
> {
    if version_of(bytes) != TABLE_VERSION {
        Err(
            corrupt_at(path, "unsupported table version "@ + decimal(version_of(bytes) as nat)),
        )
    } else if paranoid_checks && crc32c_of(bytes.skip(18)) != le_u32(bytes.subrange(14, 18)) {
        Err(corrupt_at(path, "table "@ + path + " checksum mismatch"@))
    } else {
        decompressed(bytes[13], bytes.skip(18))
    }
}

/// Checks the header of a table, and returns the tag of its compression and its
/// compressed payload.
pub(crate) fn open_custom_table<'a>(path: &str, bytes: &'a [u8], paranoid_checks: bool) -> (r: Result<
    (u8, &'a [u8]),
    LevelDbError,
>)
    requires
        header_readable(bytes@),
    ensures
        match r {
            Ok((tag, encoded)) => tag == bytes@[13] && custom_payload(
                path@,
                bytes@,
                paranoid_checks,
            ) == decompressed(tag, encoded@),
            Err(error) => custom_payload(path@, bytes@, paranoid_checks) == Err::<
                Seq<u8>,
                ErrorView,
            >(error@),
        },
{
    let version: u32 = get_fixed32(slice_subrange(bytes, 9, 13));
    if version != TABLE_VERSION {
        let message = numbered("unsupported table version ", version as u64);
        return Err(LevelDbError::corruption_at(path, message.as_str()));
    }
    let tag: u8 = bytes[13];
    let expected_crc: u32 = get_fixed32(slice_subrange(bytes, 14, 18));
    let encoded = slice_subrange(bytes, PAYLOAD_OFFSET, bytes.len());
    if paranoid_checks && crc32c(encoded) != expected_crc {
        let message = joined("table ", path, " checksum mismatch");
        return Err(LevelDbError::corruption_at(path, message.as_str()));
    }
    Ok((tag, encoded))
}

// ---------------------------------------------------------------------------
// Payloads.

/// Reads an entry at the front of `input`: its key, its value, and the count of
/// its bytes.
pub open spec fn entry_at_front(input: Seq<u8>) -> Result<(Seq<u8>, Seq<u8>, nat), ErrorView> {
    match prefixed_slice(input) {
        Err(error) => Err(error),
        Ok((key, _, key_end)) => match prefixed_slice(input.skip(key_end as int)) {
            Err(error) => Err(error),
            Ok((value, _, value_end)) => Ok((key, value, key_end + value_end)),
        },
    }
}

/// Reads `count` entries, which have to take all of `input`.
pub open spec fn counted_entries(input: Seq<u8>, count: nat) -> EntryList
    decreases count,
{
    if count == 0 {
        EntryList {
            entries: Seq::empty(),
            error: if input.len() == 0 {
                None
            } else {
                Some(corrupt("table contains trailing bytes"@))
            },
        }
    } else {
        match entry_at_front(input) {
            Err(error) => unreadable(error),
            Ok((key, value, size)) => entry_then(
                key,
                value,
                counted_entries(input.skip(size as int), (count - 1) as nat),
            ),
        }
    }
}

/// The entries of a payload.
pub open spec fn payload_entries(payload: Seq<u8>) -> EntryList {
    match varint32(payload) {
        Err(error) => unreadable(error),
        Ok((count, size)) => counted_entries(payload.skip(size as int), count as nat),
    }
}

/// The entries of a table.
pub open spec fn custom_entries(path: Seq<char>, bytes: Seq<u8>, paranoid_checks: bool) -> EntryList {
    match custom_payload(path, bytes, paranoid_checks) {
        Err(error) => unreadable(error),
        Ok(payload) => payload_entries(payload),
    }
}

/// The map that a list of entries makes, where all of it can be read.
pub open spec fn list_map(list: EntryList) -> Result<Map<Seq<u8>, Seq<u8>>, ErrorView> {
    match list.error {
        Some(error) => Err(error),
        None => Ok(inserted(list.entries)),
    }
}

/// Takes an entry off the front of `input`.
pub(crate) fn get_entry<'a>(input: &mut &'a [u8]) -> (r: Result<(&'a [u8], &'a [u8]), LevelDbError>)
    ensures
        match r {
            Ok((key, value)) => {
                &&& entry_at_front(old(input)@) matches Ok((k, v, size))
                &&& k == key@
                &&& v == value@
                &&& size <= old(input)@.len()
                &&& final(input)@ == old(input)@.skip(size as int)
                &&& value@ == old(input)@.subrange(size - value@.len(), size as int)
                &&& value@.len() <= size
            },
            Err(error) => entry_at_front(old(input)@) == Err::<(Seq<u8>, Seq<u8>, nat), ErrorView>(
                error@,
            ),
        },
{
    let ghost all = input@;
    let key = match get_length_prefixed_slice(input) {
        Ok(key) => key,
        Err(error) => return Err(error),
    };
    let ghost middle = input@;
    let value = match get_length_prefixed_slice(input) {
        Ok(value) => value,
        Err(error) => return Err(error),
    };
    proof {
        let key_end = prefixed_slice(all)->Ok_0.2;
        let value_start = prefixed_slice(middle)->Ok_0.1;
        let value_end = prefixed_slice(middle)->Ok_0.2;
        assert(all.skip(key_end as int).skip(value_end as int) =~= all.skip(
            (key_end + value_end) as int,
        ));
        assert(value@ =~= all.subrange(
            key_end + value_end - value@.len(),
            (key_end + value_end) as int,
        ));
    }
    Ok((key, value))
}

/// Takes the count of entries off the front of a payload.
pub(crate) fn get_count(input: &mut &[u8]) -> (r: Result<u32, LevelDbError>)
    ensures
        match r {
            Ok(count) => {
                &&& payload_entries(old(input)@) == counted_entries(final(input)@, count as nat)
                &&& final(input)@.len() <= old(input)@.len()
                &&& final(input)@ == old(input)@.skip(old(input)@.len() - final(input)@.len())
            },
            Err(error) => payload_entries(old(input)@) == unreadable(error@),
        },
{
    proof {
        lemma_varint_sizes(input@);
    }
    get_varint32(input)
}

pub(crate) proof fn lemma_reading_step(
    whole: EntryList,
    done: Seq<Entry>,
    input: Seq<u8>,
    count: nat,
    key: Seq<u8>,
    value: Seq<u8>,
    size: nat,
)
    requires
        count > 0,
        reading(whole, done, counted_entries(input, count)),
        entry_at_front(input) == Ok::<(Seq<u8>, Seq<u8>, nat), ErrorView>((key, value, size)),
    ensures
        reading(
            whole,
            done.push((key, value)),
            counted_entries(input.skip(size as int), (count - 1) as nat),
        ),
        done.push((key, value)) == whole.entries.take(done.len() as int + 1),
{
    lemma_read_entry(
        whole,
        done,
        key,
        value,
        counted_entries(input.skip(size as int), (count - 1) as nat),
    );
}

/// Decodes a payload into a map. Of entries with one key the last one stays.
pub fn decode_entries(payload: &[u8]) -> (r: Result<KeyMap<Bytes>, LevelDbError>)
    ensures
        match r {
            Ok(map) => map.wf() && list_map(payload_entries(payload@)) == Ok::<
                Map<Seq<u8>, Seq<u8>>,
                ErrorView,
            >(as_map(entry_pairs(map@))),
            Err(error) => list_map(payload_entries(payload@)) == Err::<
                Map<Seq<u8>, Seq<u8>>,
                ErrorView,
            >(error@),
        },
{
    let mut input = payload;
    let count: u32 = match get_count(&mut input) {
        Ok(count) => count,
        Err(error) => return Err(error),
    };
    let ghost whole = payload_entries(payload@);
    let ghost mut done: Seq<Entry> = Seq::empty();
    let mut map: KeyMap<Bytes> = KeyMap::new();
    let mut i: u32 = 0;
    proof {
        assert(entry_pairs(map@) =~= Seq::<Entry>::empty());
        lemma_inserted_sorted(entry_pairs(map@));
        assert(whole.entries =~= done + whole.entries);
    }
    while i < count
        invariant
            i <= count,
            whole == payload_entries(payload@),
            reading(whole, done, counted_entries(input@, (count - i) as nat)),
            map.wf(),
            as_map(entry_pairs(map@)) == inserted(done),
        decreases count - i,
    {
        let ghost before = input@;
        let (key, value) = match get_entry(&mut input) {
            Ok(entry) => entry,
            Err(error) => {
                return Err(error);
            },
        };
        let ghost pairs = map@;
        let value = copy_from_slice(value);
        map.insert(slice_to_vec(key), value);
        proof {
            let (k, v, size) = entry_at_front(before)->Ok_0;
            lemma_reading_step(whole, done, before, (count - i) as nat, k, v, size);
            lemma_entry_insert(pairs, map@, k, value);
            assert(done.push((k, v)).drop_last() =~= done);
            done = done.push((k, v));
        }
        i = i + 1;
    }
    if !input.is_empty() {
        return Err(LevelDbError::corruption("table contains trailing bytes"));
    }
    proof {
        assert(whole.entries =~= done);
    }
    Ok(map)
}

/// The map that a table holds.
pub open spec fn custom_contents(path: Seq<char>, bytes: Seq<u8>, paranoid_checks: bool) -> Result<
    Map<Seq<u8>, Seq<u8>>,
    ErrorView,
> {
    list_map(custom_entries(path, bytes, paranoid_checks))
}

/// Decodes a table into a map.
pub fn read_custom_table(path: &str, bytes: &[u8], paranoid_checks: bool) -> (r: Result<
    KeyMap<Bytes>,
    LevelDbError,
>)
    requires
        header_readable(bytes@),
    ensures
        match r {
            Ok(map) => map.wf() && custom_contents(path@, bytes@, paranoid_checks) == Ok::<
                Map<Seq<u8>, Seq<u8>>,
                ErrorView,
            >(as_map(entry_pairs(map@))),
            Err(error) => custom_contents(path@, bytes@, paranoid_checks) == Err::<
                Map<Seq<u8>, Seq<u8>>,
                ErrorView,
            >(error@),
        },
{
    let (tag, encoded) = match open_custom_table(path, bytes, paranoid_checks) {
        Ok(opened) => opened,
        Err(error) => return Err(error),
    };
    let payload = match decompress_payload(tag, encoded) {
        Ok(payload) => payload,
        Err(error) => return Err(error),
    };
    decode_entries(payload.as_slice())
}

// ---------------------------------------------------------------------------
// What the bytes of a table mean.

/// Tables of this format start with the letters `BWLDBTBL1`. They are taken for
/// such tables by their magic bytes alone, or by those and a whole header.
pub proof fn tables_start_with_their_letters(bytes: Seq<u8>)
    ensures
        has_prefix(bytes, table_magic()) <==> bytes.len() >= 9 && bytes[0] == 0x42 && bytes[1]
            == 0x57 && bytes[2] == 0x4c && bytes[3] == 0x44 && bytes[4] == 0x42 && bytes[5] == 0x54
            && bytes[6] == 0x42 && bytes[7] == 0x4c && bytes[8] == 0x31,
        is_custom(bytes) <==> bytes.len() >= 18 && has_prefix(bytes, table_magic()),
        table_magic().len() == 9,
{
    prefixes_are_compared_byte_by_byte(bytes, table_magic());
    let magic = table_magic();
    if has_prefix(bytes, magic) {
        assert(bytes[0] == magic[0]);
        assert(bytes[1] == magic[1]);
        assert(bytes[2] == magic[2]);
        assert(bytes[3] == magic[3]);
        assert(bytes[4] == magic[4]);
        assert(bytes[5] == magic[5]);
        assert(bytes[6] == magic[6]);
        assert(bytes[7] == magic[7]);
        assert(bytes[8] == magic[8]);
    }
}

/// Whether a result is the corruption of the file at `path`, explained by `text`.
pub open spec fn is_corruption_of(
    r: Result<Seq<u8>, ErrorView>,
    path: Seq<char>,
    text: Seq<char>,
) -> bool {
    match r {
        Err(ErrorView::Corruption { path: Some(file), message }) => file == path && message == text,
        _ => false,
    }
}

/// Behind the nine letters stand the version, the tag of the codec and the
/// checksum of the compressed payload, numbers least significant byte first; the
/// payload is the rest. Only version 1 is read. The checksum is looked at only
/// where that is asked for, and refuses the table only where it is wrong.
pub proof fn tables_are_header_and_payload(
    path: Seq<char>,
    letters: Seq<u8>,
    version: Seq<u8>,
    tag: u8,
    stored: Seq<u8>,
    encoded: Seq<u8>,
)
    requires
        letters.len() == 9,
        version.len() == 4,
        stored.len() == 4,
    ensures
        ({
            let bytes = letters + version + seq![tag] + stored + encoded;
            let named = version[0] + version[1] * 256 + version[2] * 65536 + version[3] * 16777216;
            let number = stored[0] + stored[1] * 256 + stored[2] * 65536 + stored[3] * 16777216;
            &&& version_of(bytes) == named
            &&& header_readable(bytes)
            &&& named != 1 ==> is_corruption_of(
                custom_payload(path, bytes, true),
                path,
                "unsupported table version "@ + decimal(named as nat),
            )
            &&& named != 1 ==> custom_payload(path, bytes, false) == custom_payload(
                path,
                bytes,
                true,
            )
            &&& named == 1 ==> custom_payload(path, bytes, false) == decompressed(tag, encoded)
            &&& named == 1 && number == crc32c_of(encoded) ==> custom_payload(path, bytes, true)
                == decompressed(tag, encoded)
            &&& named == 1 && number != crc32c_of(encoded) ==> is_corruption_of(
                custom_payload(path, bytes, true),
                path,
                "table "@ + path + " checksum mismatch"@,
            )
        }),
{
    let bytes = letters + version + seq![tag] + stored + encoded;
    assert(bytes.subrange(9, 13) =~= version);
    assert(bytes[13] == tag);
    assert(bytes.subrange(14, 18) =~= stored);
    assert(bytes.skip(18) =~= encoded);
}

/// A header can be read where the version is there, and behind version 1 the rest
/// of the header too.
pub proof fn headers_are_readable_as_far_as_needed(bytes: Seq<u8>)
    ensures
        header_readable(bytes) <==> bytes.len() >= 18 || (bytes.len() >= 13 && bytes[9] + bytes[10]
            * 256 + bytes[11] * 65536 + bytes[12] * 16777216 != 1),
{
    if bytes.len() >= 13 {
        let version = bytes.subrange(9, 13);
        assert(version[0] == bytes[9]);
        assert(version[1] == bytes[10]);
        assert(version[2] == bytes[11]);
        assert(version[3] == bytes[12]);
    }
}

/// An entry is two slices, each behind its length: the key, and then the value.
pub proof fn entries_are_two_slices(
    key: Seq<u8>,
    value: Seq<u8>,
    tail: Seq<u8>,
    input: Seq<u8>,
)
    requires
        key.len() <= 0xffff_ffff,
        value.len() <= 0xffff_ffff,
    ensures
        entry_at_front(
            varint_bytes(key.len()) + key + varint_bytes(value.len()) + value + tail,
        ) == Ok::<(Seq<u8>, Seq<u8>, nat), ErrorView>(
            (
                key,
                value,
                varint_bytes(key.len()).len() + key.len() + varint_bytes(value.len()).len()
                    + value.len(),
            ),
        ),
        entry_at_front(input) is Ok <==> prefixed_slice(input) is Ok && prefixed_slice(
            input.skip(prefixed_slice(input)->Ok_0.2 as int),
        ) is Ok,
        entry_at_front(input) matches Ok((k, v, size)) ==> {
            let first = prefixed_slice(input)->Ok_0;
            let second = prefixed_slice(input.skip(first.2 as int))->Ok_0;
            k == first.0 && v == second.0 && size == first.2 + second.2
        },
{
    let all = varint_bytes(key.len()) + key + varint_bytes(value.len()) + value + tail;
    let second = prefixed_bytes(value) + tail;
    assert(all =~= prefixed_bytes(key) + second);
    prefixed_slice_round_trip(key, second);
    prefixed_slice_round_trip(value, tail);
}

/// A payload is the count of its entries and then the entries, which have to take
/// all of it. Reading ends at the first entry that is not there, with those
/// before it read.
pub proof fn payloads_are_counted_entries(
    count: Seq<u8>,
    unfinished: Seq<u8>,
    input: Seq<u8>,
    n: nat,
)
    requires
        is_one_varint(count) && count.len() <= 5 && base128(count) <= 0xffff_ffff,
        forall|i: int| 0 <= i < unfinished.len() ==> #[trigger] unfinished[i] >= 128,
    ensures
        payload_entries(count + input) == counted_entries(input, base128(count)),
        payload_entries(unfinished).entries.len() == 0 && payload_entries(unfinished).error is Some,
        counted_entries(input, 0).entries.len() == 0,
        counted_entries(input, 0).error is None <==> input.len() == 0,
        counted_entries(input, 0).error matches Some(error) ==> error == (ErrorView::Corruption {
            path: None,
            message: "table contains trailing bytes"@,
        }),
        match entry_at_front(input) {
            Err(error) => counted_entries(input, n + 1).entries.len() == 0 && counted_entries(
                input,
                n + 1,
            ).error == Some(error),
            Ok((key, value, size)) => {
                let list = counted_entries(input, n + 1);
                let rest = counted_entries(input.skip(size as int), n);
                &&& list.entries.len() == rest.entries.len() + 1
                &&& list.entries[0] == (key, value)
                &&& list.entries.skip(1) == rest.entries
                &&& list.error == rest.error
            },
        },
{
    varints_are_read_in_base_128(count, input);
    unfinished_varints_are_refused(unfinished);
    assert((count + input).skip(count.len() as int) =~= input);
    if let Ok((key, value, size)) = entry_at_front(input) {
        let list = counted_entries(input, n + 1);
        let rest = counted_entries(input.skip(size as int), n);
        assert(list.entries.skip(1) =~= rest.entries);
    }
}

/// A table lists the entries of its payload; one without a payload lists none and
/// has its error. A list makes a map exactly where all of it can be read, and of
/// entries with one key the last one stays.
pub proof fn tables_list_their_payload(
    path: Seq<char>,
    bytes: Seq<u8>,
    paranoid_checks: bool,
    list: EntryList,
    key: Seq<u8>,
    value: Seq<u8>,
)
    ensures
        match custom_payload(path, bytes, paranoid_checks) {
            Ok(payload) => custom_entries(path, bytes, paranoid_checks) == payload_entries(payload),
            Err(error) => custom_entries(path, bytes, paranoid_checks).entries.len() == 0
                && custom_entries(path, bytes, paranoid_checks).error == Some(error),
        },
        custom_contents(path, bytes, paranoid_checks) == list_map(
            custom_entries(path, bytes, paranoid_checks),
        ),
        list_map(list) is Ok <==> list.error is None,
        list_map(list) matches Err(error) ==> list.error == Some(error),
        list_map(list) matches Ok(map) ==> (map.contains_key(key) && map[key] == value
            <==> exists|i: int|
            #![trigger list.entries[i]]
            0 <= i < list.entries.len() && list.entries[i] == (key, value) && forall|j: int|
                i < j < list.entries.len() ==> (#[trigger] list.entries[j]).0 != key),
{
    last_entry_with_a_key_stays(list.entries, key, value);
}

} // verus!
