//! Internal keys: a user key, then eight bytes that hold a sequence number and
//! a tag.
use crate::coding::{
    fixed_numbers_are_little_endian, le_bytes_u64, put_fixed64, VALUE_TYPE_DELETION,
    VALUE_TYPE_VALUE,
};
use vstd::prelude::*;
use vstd::slice::slice_subrange;

verus! {

/// The number at the end of an internal key. Of a sequence number it keeps the
/// low 56 bits.
pub open spec fn trailer(sequence: u64, value_type: u8) -> u64 {
    ((sequence % 0x100_0000_0000_0000) * 0x100 + value_type) as u64
}

/// The internal key of a user key.
pub open spec fn internal(user_key: Seq<u8>, sequence: u64, value_type: u8) -> Seq<u8> {
    user_key + le_bytes_u64(trailer(sequence, value_type))
}

/// The user key in an internal key, and whether it carries a value. A key that
/// is too short, or whose tag is unknown, holds none.
pub open spec fn split(internal_key: Seq<u8>) -> Option<(Seq<u8>, bool)> {
    if internal_key.len() < 8 {
        None
    } else {
        let tag = internal_key[internal_key.len() - 8];
        let user_key = internal_key.take(internal_key.len() - 8);
        if tag == VALUE_TYPE_VALUE {
            Some((user_key, true))
        } else if tag == VALUE_TYPE_DELETION {
            Some((user_key, false))
        } else {
            None
        }
    }
}

/// Makes the internal key of a user key.
pub fn internal_key(user_key: &[u8], sequence: u64, value_type: u8) -> (r: Vec<u8>)
    ensures
        r@ == internal(user_key@, sequence, value_type),
{
    let mut key: Vec<u8> = Vec::with_capacity(user_key.len().saturating_add(8));
    key.extend_from_slice(user_key);
    assert(key@ =~= user_key@);
    put_fixed64((sequence % 0x100_0000_0000_0000) * 0x100 + value_type as u64, &mut key);
    key
}

/// Splits an internal key.
pub fn split_internal_key(internal_key: &[u8]) -> (r: Option<(&[u8], bool)>)
    ensures
        match r {
            Some((user_key, is_value)) => split(internal_key@) == Some((user_key@, is_value)),
            None => split(internal_key@) is None,
        },
{
    if internal_key.len() < 8 {
        return None;
    }
    let user_len: usize = internal_key.len() - 8;
    let user_key = slice_subrange(internal_key, 0, user_len);
    let tag: u8 = internal_key[user_len];
    if tag == VALUE_TYPE_VALUE {
        Some((user_key, true))
    } else if tag == VALUE_TYPE_DELETION {
        Some((user_key, false))
    } else {
        None
    }
}

proof fn lemma_tag_byte(user_key: Seq<u8>, sequence: u64, value_type: u8)
    ensures
        internal(user_key, sequence, value_type).len() == user_key.len() + 8,
        internal(user_key, sequence, value_type)[user_key.len() as int] == value_type,
        internal(user_key, sequence, value_type).take(user_key.len() as int) == user_key,
{
    let kept: int = sequence as int % 0x100_0000_0000_0000;
    let number: u64 = trailer(sequence, value_type);
    assert(number == kept * 0x100 + value_type);
    let low: u32 = (number % 0x1_0000_0000) as u32;
    assert(low % 0x100 == value_type);
    assert(le_bytes_u64(number)[0] == value_type);
    assert(internal(user_key, sequence, value_type).take(user_key.len() as int) =~= user_key);
}

/// Splitting an internal key gives back the user key, and tells values from
/// deletions, whatever the sequence number is. One of any other type does not
/// split.
pub proof fn internal_key_round_trip(user_key: Seq<u8>, sequence: u64)
    ensures
        split(internal(user_key, sequence, VALUE_TYPE_VALUE)) == Some((user_key, true)),
        split(internal(user_key, sequence, VALUE_TYPE_DELETION)) == Some((user_key, false)),
        forall|value_type: u8|
            value_type != VALUE_TYPE_VALUE && value_type != VALUE_TYPE_DELETION ==> split(
                #[trigger] internal(user_key, sequence, value_type),
            ) is None,
{
    lemma_tag_byte(user_key, sequence, VALUE_TYPE_VALUE);
    lemma_tag_byte(user_key, sequence, VALUE_TYPE_DELETION);
    assert forall|value_type: u8|
        value_type != VALUE_TYPE_VALUE && value_type != VALUE_TYPE_DELETION implies split(
        #[trigger] internal(user_key, sequence, value_type),
    ) is None by {
        lemma_tag_byte(user_key, sequence, value_type);
    }
}

/// The number in the last eight bytes of an internal key, least significant byte
/// first.
#[verifier::opaque]
pub open spec fn trailing_number(internal_key: Seq<u8>) -> int {
    let n = internal_key.len();
    internal_key[n - 8] + internal_key[n - 7] * 0x100 + internal_key[n - 6] * 0x1_0000
        + internal_key[n - 5] * 0x100_0000 + internal_key[n - 4] * 0x1_0000_0000 + internal_key[n
        - 3] * 0x100_0000_0000 + internal_key[n - 2] * 0x1_0000_0000_0000 + internal_key[n - 1]
        * 0x100_0000_0000_0000
}

/// An internal key is the user key and one number: the type in its low eight
/// bits, the sequence number above them. Sequence numbers of up to 56 bits are
/// kept whole, so no two of them give the same key.
#[verifier::spinoff_prover]
pub proof fn internal_keys_keep_sequence_and_type(
    user_key: Seq<u8>,
    sequence: u64,
    value_type: u8,
    other: u64,
)
    ensures
        ({
            let key = internal(user_key, sequence, value_type);
            let number = trailing_number(key);
            &&& key.len() == user_key.len() + 8
            &&& key.take(user_key.len() as int) == user_key
            &&& number % 256 == value_type
            &&& number / 256 == sequence as int % 0x100_0000_0000_0000
            &&& sequence < 0x100_0000_0000_0000 ==> number / 256 == sequence
            &&& sequence < 0x100_0000_0000_0000 && other < 0x100_0000_0000_0000 && other
                != sequence ==> internal(user_key, other, value_type) != key
        }),
{
    lemma_tag_byte(user_key, sequence, value_type);
    lemma_trailing_number(user_key, sequence, value_type);
    lemma_trailing_number(user_key, other, value_type);
    lemma_number_parts(
        internal(user_key, sequence, value_type),
        internal(user_key, other, value_type),
        sequence as int,
        other as int,
        value_type as int,
    );
}

proof fn lemma_number_parts(key: Seq<u8>, different: Seq<u8>, sequence: int, other: int, tag: int)
    requires
        0 <= tag < 256,
        0 <= sequence,
        0 <= other,
        trailing_number(key) == (sequence % 0x100_0000_0000_0000) * 0x100 + tag,
        trailing_number(different) == (other % 0x100_0000_0000_0000) * 0x100 + tag,
    ensures
        trailing_number(key) % 256 == tag,
        trailing_number(key) / 256 == sequence % 0x100_0000_0000_0000,
        sequence < 0x100_0000_0000_0000 ==> trailing_number(key) / 256 == sequence,
        sequence < 0x100_0000_0000_0000 && other < 0x100_0000_0000_0000 && other != sequence
            ==> different != key,
{
}

proof fn lemma_trailing_number(user_key: Seq<u8>, sequence: u64, value_type: u8)
    ensures
        trailing_number(internal(user_key, sequence, value_type)) == (sequence as int
            % 0x100_0000_0000_0000) * 0x100 + value_type,
{
    reveal(trailing_number);
    let key = internal(user_key, sequence, value_type);
    let number = trailer(sequence, value_type);
    let bytes = le_bytes_u64(number);
    fixed_numbers_are_little_endian(seq![0, 0, 0, 0], bytes, 0, number);
    assert(forall|i: int| 0 <= i < 8 ==> key[user_key.len() + i] == #[trigger] bytes[i]);
    assert(key[key.len() - 8] == bytes[0]);
    assert(key[key.len() - 7] == bytes[1]);
    assert(key[key.len() - 6] == bytes[2]);
    assert(key[key.len() - 5] == bytes[3]);
    assert(key[key.len() - 4] == bytes[4]);
    assert(key[key.len() - 3] == bytes[5]);
    assert(key[key.len() - 2] == bytes[6]);
    assert(key[key.len() - 1] == bytes[7]);
}

/// A key splits exactly where it has eight bytes behind the user key, the first
/// of which is 1 for a value or 0 for a deletion; what the other seven are does
/// not matter.
pub proof fn keys_split_by_their_eighth_last_byte(key: Seq<u8>)
    ensures
        key.len() < 8 ==> split(key) is None,
        key.len() >= 8 ==> {
            let user_key = key.subrange(0, key.len() - 8);
            let tag = key[key.len() - 8];
            &&& tag == 1 <==> split(key) == Some((user_key, true))
            &&& tag == 0 <==> split(key) == Some((user_key, false))
            &&& tag > 1 <==> split(key) is None
        },
{
}

} // verus!
