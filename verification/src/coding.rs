//! Fixed and variable length integers, and length-prefixed slices.
use crate::error::{corrupt, invalid, ErrorView, LevelDbError};
use vstd::prelude::*;
use vstd::slice::slice_subrange;

verus! {

/// The tag of an internal key that marks a deletion.
pub const VALUE_TYPE_DELETION: u8 = 0;

/// The tag of an internal key that carries a value.
pub const VALUE_TYPE_VALUE: u8 = 1;

// ---------------------------------------------------------------------------
// Fixed length integers, least significant byte first.

/// The number that four bytes stand for.
pub open spec fn le_u32(s: Seq<u8>) -> int {
    s[0] + 0x100 * s[1] + 0x1_0000 * s[2] + 0x100_0000 * s[3]
}

/// The four bytes that stand for `v`.
pub open spec fn le_bytes_u32(v: u32) -> Seq<u8> {
    seq![
        (v % 0x100) as u8,
        (v / 0x100 % 0x100) as u8,
        (v / 0x1_0000 % 0x100) as u8,
        (v / 0x100_0000) as u8,
    ]
}

/// The number that eight bytes stand for.
pub open spec fn le_u64(s: Seq<u8>) -> int {
    le_u32(s.subrange(0, 4)) + 0x1_0000_0000 * le_u32(s.subrange(4, 8))
}

/// The eight bytes that stand for `v`.
pub open spec fn le_bytes_u64(v: u64) -> Seq<u8> {
    le_bytes_u32((v % 0x1_0000_0000) as u32) + le_bytes_u32((v / 0x1_0000_0000) as u32)
}

/// Reads four bytes as a number.
pub fn get_fixed32(s: &[u8]) -> (r: u32)
    requires
        s@.len() == 4,
    ensures
        r == le_u32(s@),
{
    s[0] as u32 + 0x100 * (s[1] as u32) + 0x1_0000 * (s[2] as u32) + 0x100_0000 * (s[3] as u32)
}

/// Appends `v` as four bytes.
pub fn put_fixed32(v: u32, out: &mut Vec<u8>)
    ensures
        final(out)@ == old(out)@ + le_bytes_u32(v),
{
    out.push((v % 0x100) as u8);
    out.push((v / 0x100 % 0x100) as u8);
    out.push((v / 0x1_0000 % 0x100) as u8);
    out.push((v / 0x100_0000) as u8);
    assert(out@ =~= old(out)@ + le_bytes_u32(v));
}

/// Reads eight bytes as a number.
pub fn get_fixed64(s: &[u8]) -> (r: u64)
    requires
        s@.len() == 8,
    ensures
        r == le_u64(s@),
{
    let low: u32 = get_fixed32(slice_subrange(s, 0, 4));
    let high: u32 = get_fixed32(slice_subrange(s, 4, 8));
    low as u64 + 0x1_0000_0000 * (high as u64)
}

/// Appends `v` as eight bytes.
pub fn put_fixed64(v: u64, out: &mut Vec<u8>)
    ensures
        final(out)@ == old(out)@ + le_bytes_u64(v),
{
    put_fixed32((v % 0x1_0000_0000) as u32, out);
    put_fixed32((v / 0x1_0000_0000) as u32, out);
    assert(out@ =~= old(out)@ + le_bytes_u64(v));
}

/// Four written bytes read back as the number that was written.
pub proof fn fixed32_round_trip(v: u32)
    ensures
        le_bytes_u32(v).len() == 4,
        le_u32(le_bytes_u32(v)) == v,
{
}

/// Eight written bytes read back as the number that was written.
pub proof fn fixed64_round_trip(v: u64)
    ensures
        le_bytes_u64(v).len() == 8,
        le_u64(le_bytes_u64(v)) == v,
{
    let low = (v % 0x1_0000_0000) as u32;
    let high = (v / 0x1_0000_0000) as u32;
    fixed32_round_trip(low);
    fixed32_round_trip(high);
    assert(le_bytes_u64(v).subrange(0, 4) =~= le_bytes_u32(low));
    assert(le_bytes_u64(v).subrange(4, 8) =~= le_bytes_u32(high));
}

/// Four bytes of which one differs stand for another number.
pub proof fn fixed32_tells_bytes_apart(s: Seq<u8>, i: int, byte: u8)
    requires
        s.len() == 4,
        0 <= i < 4,
        byte != s[i],
    ensures
        le_u32(s.update(i, byte)) != le_u32(s),
{
}

/// Eight bytes of which one differs stand for another number.
pub proof fn fixed64_tells_bytes_apart(s: Seq<u8>, i: int, byte: u8)
    requires
        s.len() == 8,
        0 <= i < 8,
        byte != s[i],
    ensures
        le_u64(s.update(i, byte)) != le_u64(s),
{
}

// ---------------------------------------------------------------------------
// Variable length integers: seven bits in each byte, least significant first;
// every byte but the last has its top bit set.

/// The bytes that stand for `v`.
pub open spec fn varint_bytes(v: nat) -> Seq<u8>
    decreases v,
{
    if v < 128 {
        seq![v as u8]
    } else {
        seq![(v % 128 + 128) as u8] + varint_bytes(v / 128)
    }
}

/// What the front of some bytes holds, read as a variable length integer.
pub enum Varint {
    /// A number, and the count of the bytes that it takes.
    Number { value: nat, size: nat },
    /// The bytes end inside the number.
    Truncated,
    /// The number takes more bytes than are allowed.
    TooLong,
}

/// Reads a number of at most `limit` bytes at the front of `input`.
pub open spec fn varint_at_front(input: Seq<u8>, limit: nat) -> Varint
    decreases limit,
{
    if limit == 0 {
        Varint::TooLong
    } else if input.len() == 0 {
        Varint::Truncated
    } else if input[0] < 128 {
        Varint::Number { value: input[0] as nat, size: 1 }
    } else {
        match varint_at_front(input.skip(1), (limit - 1) as nat) {
            Varint::Number { value, size } => Varint::Number {
                value: ((input[0] - 128) + 128 * value) as nat,
                size: size + 1,
            },
            other => other,
        }
    }
}

/// Reads a 32 bit number: the number and the count of its bytes.
pub open spec fn varint32(input: Seq<u8>) -> Result<(u32, nat), ErrorView> {
    match varint_at_front(input, 5) {
        Varint::Number { value, size } => if value <= u32::MAX {
            Ok((value as u32, size))
        } else {
            Err(corrupt("varint32 overflows 32 bits"@))
        },
        Varint::Truncated => Err(corrupt("varint is truncated"@)),
        Varint::TooLong => Err(corrupt("varint is too long"@)),
    }
}

/// Reads a 64 bit number: the number and the count of its bytes.
pub open spec fn varint64(input: Seq<u8>) -> Result<(u64, nat), ErrorView> {
    match varint_at_front(input, 10) {
        Varint::Number { value, size } => if value <= u64::MAX {
            Ok((value as u64, size))
        } else {
            Err(corrupt("varint64 overflows 64 bits"@))
        },
        Varint::Truncated => Err(corrupt("varint is truncated"@)),
        Varint::TooLong => Err(corrupt("varint is too long"@)),
    }
}

/// `128` to the power of `n`.
pub open spec fn pow128(n: nat) -> nat
    decreases n,
{
    if n == 0 {
        1
    } else {
        128 * pow128((n - 1) as nat)
    }
}

proof fn lemma_pow128_grows(a: nat, b: nat)
    requires
        a <= b,
    ensures
        0 < pow128(a) <= pow128(b),
    decreases b,
{
    if a < b {
        lemma_pow128_grows(a, (b - 1) as nat);
    } else if a > 0 {
        lemma_pow128_grows((a - 1) as nat, (b - 1) as nat);
    }
}

proof fn lemma_pow128_values()
    ensures
        pow128(5) == 0x8_0000_0000,
        pow128(10) == 0x40_0000_0000_0000_0000,
{
    reveal_with_fuel(pow128, 11);
}

/// A number takes at least one byte, all of them at the front of the input.
pub proof fn lemma_varint_size(input: Seq<u8>, limit: nat)
    ensures
        varint_at_front(input, limit) matches Varint::Number { value, size } ==> 1 <= size
            <= input.len() && size <= limit,
    decreases limit,
{
    if limit > 0 && input.len() > 0 && input[0] >= 128 {
        lemma_varint_size(input.skip(1), (limit - 1) as nat);
    }
}

/// The same for both widths.
pub proof fn lemma_varint_sizes(input: Seq<u8>)
    ensures
        varint32(input) matches Ok((value, size)) ==> 1 <= size <= input.len(),
        varint64(input) matches Ok((value, size)) ==> 1 <= size <= input.len(),
{
    lemma_varint_size(input, 5);
    lemma_varint_size(input, 10);
}

/// What [`get_varint`] found; a number comes with the count of its bytes.
enum RawVarint {
    Number(u128, usize),
    Truncated,
    TooLong,
}

fn get_varint(input: &[u8], limit: usize) -> (r: RawVarint)
    requires
        limit <= 10,
    ensures
        match r {
            RawVarint::Number(value, size) => varint_at_front(input@, limit as nat)
                == (Varint::Number { value: value as nat, size: size as nat }),
            RawVarint::Truncated => varint_at_front(input@, limit as nat) is Truncated,
            RawVarint::TooLong => varint_at_front(input@, limit as nat) is TooLong,
        },
{
    let mut value: u128 = 0;
    let mut unit: u128 = 1;
    let mut i: usize = 0;
    proof {
        assert(input@.skip(0) =~= input@);
    }
    while i < limit
        invariant
            i <= limit <= 10,
            i <= input@.len(),
            unit == pow128(i as nat),
            value < unit,
            match varint_at_front(input@.skip(i as int), (limit - i) as nat) {
                Varint::Number { value: rest, size } => varint_at_front(input@, limit as nat)
                    == (Varint::Number {
                    value: (value + unit * rest) as nat,
                    size: (size + i) as nat,
                }),
                other => varint_at_front(input@, limit as nat) == other,
            },
        decreases limit - i,
    {
        if i == input.len() {
            return RawVarint::Truncated;
        }
        let byte: u8 = input[i];
        let ghost here = input@.skip(i as int);
        proof {
            lemma_pow128_grows(i as nat, 9);
            lemma_pow128_grows(9, 10);
            lemma_pow128_values();
            assert(here.skip(1) =~= input@.skip(i + 1));
        }
        let low: u128 = (byte % 128) as u128;
        assert(low * unit <= 127 * unit) by (nonlinear_arith)
            requires
                low <= 127,
        ;
        if byte < 128 {
            proof {
                assert(varint_at_front(here, (limit - i) as nat) == (Varint::Number {
                    value: byte as nat,
                    size: 1,
                }));
                assert(unit * byte == low * unit) by (nonlinear_arith)
                    requires
                        low == byte,
                ;
            }
            return RawVarint::Number(value + low * unit, i + 1);
        }
        proof {
            if let Varint::Number { value: rest, size } = varint_at_front(
                here.skip(1),
                (limit - i - 1) as nat,
            ) {
                assert(value + unit * (low + 128 * rest) == (value + low * unit) + (unit * 128)
                    * rest) by (nonlinear_arith);
            }
        }
        value = value + low * unit;
        unit = unit * 128;
        i = i + 1;
    }
    RawVarint::TooLong
}

/// Takes a 32 bit number off the front of `input`.
pub fn get_varint32(input: &mut &[u8]) -> (r: Result<u32, LevelDbError>)
    ensures
        match r {
            Ok(value) => varint32(old(input)@) matches Ok((v, size)) && v == value && final(input)@
                == old(input)@.skip(size as int),
            Err(error) => varint32(old(input)@) == Err::<(u32, nat), ErrorView>(error@)
                && final(input)@ == old(input)@,
        },
{
    proof {
        lemma_varint_sizes(input@);
    }
    match get_varint(*input, 5) {
        RawVarint::Number(value, size) => {
            if value > u32::MAX as u128 {
                return Err(LevelDbError::corruption("varint32 overflows 32 bits"));
            }
            *input = slice_subrange(*input, size, input.len());
            Ok(value as u32)
        },
        RawVarint::Truncated => Err(LevelDbError::corruption("varint is truncated")),
        RawVarint::TooLong => Err(LevelDbError::corruption("varint is too long")),
    }
}

/// Takes a 64 bit number off the front of `input`.
pub fn get_varint64(input: &mut &[u8]) -> (r: Result<u64, LevelDbError>)
    ensures
        match r {
            Ok(value) => varint64(old(input)@) matches Ok((v, size)) && v == value && final(input)@
                == old(input)@.skip(size as int),
            Err(error) => varint64(old(input)@) == Err::<(u64, nat), ErrorView>(error@)
                && final(input)@ == old(input)@,
        },
{
    proof {
        lemma_varint_sizes(input@);
    }
    match get_varint(*input, 10) {
        RawVarint::Number(value, size) => {
            if value > u64::MAX as u128 {
                return Err(LevelDbError::corruption("varint64 overflows 64 bits"));
            }
            *input = slice_subrange(*input, size, input.len());
            Ok(value as u64)
        },
        RawVarint::Truncated => Err(LevelDbError::corruption("varint is truncated")),
        RawVarint::TooLong => Err(LevelDbError::corruption("varint is too long")),
    }
}

/// Appends a 64 bit number.
pub fn put_varint64(value: u64, out: &mut Vec<u8>)
    ensures
        final(out)@ == old(out)@ + varint_bytes(value as nat),
{
    let mut left: u64 = value;
    while left >= 128
        invariant
            out@ + varint_bytes(left as nat) == old(out)@ + varint_bytes(value as nat),
        decreases left,
    {
        let ghost before = out@;
        out.push((left % 128 + 128) as u8);
        proof {
            assert(out@ + varint_bytes((left / 128) as nat) =~= before + varint_bytes(left as nat));
        }
        left = left / 128;
    }
    let ghost before = out@;
    out.push(left as u8);
    assert(out@ =~= before + varint_bytes(left as nat));
}

/// Appends a 32 bit number.
pub fn put_varint32(value: u32, out: &mut Vec<u8>)
    ensures
        final(out)@ == old(out)@ + varint_bytes(value as nat),
{
    put_varint64(value as u64, out);
}

/// A number below `128` to the power of `limit` takes at most `limit` bytes.
pub proof fn lemma_varint_bytes_len(v: nat, limit: nat)
    requires
        0 < limit,
        v < pow128(limit),
    ensures
        1 <= varint_bytes(v).len() <= limit,
    decreases limit,
{
    if v >= 128 {
        assert(pow128(1) == 128) by {
            reveal_with_fuel(pow128, 2);
        }
        lemma_varint_bytes_len(v / 128, (limit - 1) as nat);
    }
}

/// Written numbers are short.
pub proof fn lemma_varint_lens(v: nat)
    ensures
        varint_bytes(v).len() >= 1,
        v <= u32::MAX ==> varint_bytes(v).len() <= 5,
        v <= u64::MAX ==> varint_bytes(v).len() <= 10,
    decreases v,
{
    lemma_pow128_values();
    if v <= u32::MAX {
        lemma_varint_bytes_len(v, 5);
    }
    if v <= u64::MAX {
        lemma_varint_bytes_len(v, 10);
    } else {
        lemma_varint_lens(v / 128);
    }
}

proof fn lemma_varint_reads_back(v: nat, tail: Seq<u8>, limit: nat)
    requires
        varint_bytes(v).len() <= limit,
    ensures
        varint_at_front(varint_bytes(v) + tail, limit) == (Varint::Number {
            value: v,
            size: varint_bytes(v).len(),
        }),
    decreases v,
{
    let all = varint_bytes(v) + tail;
    if v >= 128 {
        let rest = varint_bytes(v / 128);
        assert(all.skip(1) =~= rest + tail);
        lemma_varint_reads_back(v / 128, tail, (limit - 1) as nat);
    }
}

/// A written 32 bit number reads back, whatever follows it.
pub proof fn varint32_round_trip(v: u32, tail: Seq<u8>)
    ensures
        varint32(varint_bytes(v as nat) + tail) == Ok::<(u32, nat), ErrorView>(
            (v, varint_bytes(v as nat).len()),
        ),
        (varint_bytes(v as nat) + tail).skip(varint_bytes(v as nat).len() as int) == tail,
{
    lemma_varint_lens(v as nat);
    lemma_varint_reads_back(v as nat, tail, 5);
    assert((varint_bytes(v as nat) + tail).skip(varint_bytes(v as nat).len() as int) =~= tail);
}

/// A written 64 bit number reads back, whatever follows it.
pub proof fn varint64_round_trip(v: u64, tail: Seq<u8>)
    ensures
        varint64(varint_bytes(v as nat) + tail) == Ok::<(u64, nat), ErrorView>(
            (v, varint_bytes(v as nat).len()),
        ),
        (varint_bytes(v as nat) + tail).skip(varint_bytes(v as nat).len() as int) == tail,
{
    lemma_varint_lens(v as nat);
    lemma_varint_reads_back(v as nat, tail, 10);
    assert((varint_bytes(v as nat) + tail).skip(varint_bytes(v as nat).len() as int) =~= tail);
}

// ---------------------------------------------------------------------------
// Length-prefixed slices.

/// The bytes that stand for `slice`.
pub open spec fn prefixed_bytes(slice: Seq<u8>) -> Seq<u8> {
    varint_bytes(slice.len()) + slice
}

/// Reads a slice at the front of `input`: the slice, where it starts, and
/// where it ends.
pub open spec fn prefixed_slice(input: Seq<u8>) -> Result<(Seq<u8>, nat, nat), ErrorView> {
    match varint32(input) {
        Ok((len, start)) => if start + len <= input.len() {
            Ok((input.subrange(start as int, start + len), start, start + len as nat))
        } else {
            Err(corrupt("length-prefixed slice is truncated"@))
        },
        Err(error) => Err(error),
    }
}

/// Takes a slice off the front of `input`.
pub fn get_length_prefixed_slice<'a>(input: &mut &'a [u8]) -> (r: Result<&'a [u8], LevelDbError>)
    ensures
        match r {
            Ok(slice) => prefixed_slice(old(input)@) matches Ok((s, start, end)) && s == slice@
                && start <= end <= old(input)@.len() && final(input)@ == old(input)@.skip(
                end as int,
            ),
            Err(error) => prefixed_slice(old(input)@) == Err::<(Seq<u8>, nat, nat), ErrorView>(
                error@,
            ),
        },
{
    let ghost all = input@;
    proof {
        lemma_varint_sizes(all);
    }
    let len: u32 = match get_varint32(input) {
        Ok(len) => len,
        Err(error) => return Err(error),
    };
    let len: usize = len as usize;
    if input.len() < len {
        return Err(LevelDbError::corruption("length-prefixed slice is truncated"));
    }
    let rest = *input;
    let slice = slice_subrange(rest, 0, len);
    *input = slice_subrange(rest, len, rest.len());
    proof {
        let start = varint32(all)->Ok_0.1;
        assert(slice@ =~= all.subrange(start as int, start + len));
        assert(input@ =~= all.skip(start + len));
    }
    Ok(slice)
}

/// Appends a slice, where its length fits in 32 bits.
pub fn put_length_prefixed_slice(slice: &[u8], out: &mut Vec<u8>) -> (r: Result<(), LevelDbError>)
    ensures
        match r {
            Ok(()) => slice@.len() <= u32::MAX && final(out)@ == old(out)@ + prefixed_bytes(slice@),
            Err(error) => slice@.len() > u32::MAX && final(out)@ == old(out)@ && error@ == invalid(
                "slice is too large"@,
            ),
        },
{
    let len: u64 = slice.len() as u64;
    if len > u32::MAX as u64 {
        return Err(LevelDbError::invalid_argument("slice is too large"));
    }
    put_varint64(len, out);
    out.extend_from_slice(slice);
    assert(out@ =~= old(out)@ + prefixed_bytes(slice@));
    Ok(())
}

/// A written slice reads back, whatever follows it.
pub proof fn prefixed_slice_round_trip(slice: Seq<u8>, tail: Seq<u8>)
    requires
        slice.len() <= u32::MAX,
    ensures
        prefixed_slice(prefixed_bytes(slice) + tail) == Ok::<(Seq<u8>, nat, nat), ErrorView>(
            (slice, varint_bytes(slice.len()).len(), prefixed_bytes(slice).len()),
        ),
        (prefixed_bytes(slice) + tail).skip(prefixed_bytes(slice).len() as int) == tail,
{
    let all = prefixed_bytes(slice) + tail;
    varint32_round_trip(slice.len() as u32, slice + tail);
    assert(all =~= varint_bytes(slice.len()) + (slice + tail));
    let start = varint_bytes(slice.len()).len();
    assert(all.subrange(start as int, (start + slice.len()) as int) =~= slice);
    assert(all.skip(prefixed_bytes(slice).len() as int) =~= tail);
}

// ---------------------------------------------------------------------------
// What the bytes of numbers mean.

/// A byte of a fixed length number counts as much as its place says: the first
/// one units, each further one 256 times as much as the one before it.
pub proof fn fixed_numbers_are_little_endian(four: Seq<u8>, eight: Seq<u8>, small: u32, large: u64)
    requires
        four.len() == 4,
        eight.len() == 8,
    ensures
        le_u32(four) == four[0] + four[1] * 256 + four[2] * 65536 + four[3] * 16777216,
        le_u64(eight) == eight[0] + eight[1] * 256 + eight[2] * 65536 + eight[3] * 16777216
            + eight[4] * 4294967296 + eight[5] * 1099511627776 + eight[6] * 281474976710656
            + eight[7] * 72057594037927936,
        le_bytes_u32(small).len() == 4,
        small == le_bytes_u32(small)[0] + le_bytes_u32(small)[1] * 256 + le_bytes_u32(small)[2]
            * 65536 + le_bytes_u32(small)[3] * 16777216,
        le_bytes_u64(large).len() == 8,
        large == le_bytes_u64(large)[0] + le_bytes_u64(large)[1] * 256 + le_bytes_u64(large)[2]
            * 65536 + le_bytes_u64(large)[3] * 16777216 + le_bytes_u64(large)[4] * 4294967296
            + le_bytes_u64(large)[5] * 1099511627776 + le_bytes_u64(large)[6] * 281474976710656
            + le_bytes_u64(large)[7] * 72057594037927936,
{
    let low = (large % 0x1_0000_0000) as u32;
    let high = (large / 0x1_0000_0000) as u32;
    assert(le_u32(le_bytes_u32(low)) == low);
    assert(le_u32(le_bytes_u32(high)) == high);
    assert(large == low + 0x1_0000_0000 * high);
}

/// The number that the low seven bits of some bytes make, the first byte least
/// significant.
pub open spec fn base128(s: Seq<u8>) -> nat
    decreases s.len(),
{
    if s.len() == 0 {
        0
    } else {
        s[0] as nat % 128 + 128 * base128(s.skip(1))
    }
}

/// Whether the top bit is set in every byte but the last.
pub open spec fn is_one_varint(s: Seq<u8>) -> bool {
    &&& s.len() > 0
    &&& s[s.len() - 1] < 128
    &&& forall|i: int| 0 <= i < s.len() - 1 ==> #[trigger] s[i] >= 128
}

/// A number is written with seven bits in a byte, the lowest first, with the top
/// bit set in every byte but the last, and in as few bytes as that takes.
pub proof fn varints_are_written_in_base_128(v: nat)
    ensures
        is_one_varint(varint_bytes(v)),
        base128(varint_bytes(v)) == v,
        varint_bytes(v).len() > 1 ==> varint_bytes(v)[varint_bytes(v).len() - 1] != 0,
    decreases v,
{
    let s = varint_bytes(v);
    if v < 128 {
        assert(s.skip(1) =~= Seq::<u8>::empty());
        assert(base128(s.skip(1)) == 0);
    } else {
        let rest = varint_bytes(v / 128);
        varints_are_written_in_base_128(v / 128);
        assert(s.skip(1) =~= rest);
        assert(s[0] as nat % 128 == v % 128);
        assert forall|i: int| 0 <= i < s.len() - 1 implies #[trigger] s[i] >= 128 by {
            if i > 0 {
                assert(s[i] == rest[i - 1]);
            }
        }
        assert(s[s.len() - 1] == rest[rest.len() - 1]);
    }
}

proof fn lemma_varint_value(s: Seq<u8>, tail: Seq<u8>, limit: nat)
    requires
        is_one_varint(s),
    ensures
        varint_at_front(s + tail, limit) == if s.len() <= limit {
            Varint::Number { value: base128(s), size: s.len() }
        } else {
            Varint::TooLong
        },
    decreases s.len(),
{
    let all = s + tail;
    let rest = s.skip(1);
    if limit > 0 {
        if s.len() == 1 {
            assert(base128(rest) == 0);
        } else {
            assert(all.skip(1) =~= rest + tail);
            assert(s[0] >= 128);
            assert forall|i: int| 0 <= i < rest.len() - 1 implies #[trigger] rest[i] >= 128 by {
                assert(rest[i] == s[i + 1]);
            }
            lemma_varint_value(rest, tail, (limit - 1) as nat);
        }
    }
}

/// A number in base 128 is read as that number, whether or not it was written in
/// as few bytes as possible, and whatever follows it. It is refused exactly where
/// it takes more bytes than a number of its width can need, or does not fit.
pub proof fn varints_are_read_in_base_128(s: Seq<u8>, tail: Seq<u8>)
    requires
        is_one_varint(s),
    ensures
        s.len() <= 5 && base128(s) <= 0xffff_ffff <==> varint32(s + tail) is Ok,
        varint32(s + tail) matches Ok((value, size)) ==> value == base128(s) && size == s.len(),
        s.len() <= 10 && base128(s) <= 0xffff_ffff_ffff_ffff <==> varint64(s + tail) is Ok,
        varint64(s + tail) matches Ok((value, size)) ==> value == base128(s) && size == s.len(),
        varint32(s + tail) matches Err(error) ==> error == (ErrorView::Corruption {
            path: None,
            message: if s.len() > 5 {
                "varint is too long"@
            } else {
                "varint32 overflows 32 bits"@
            },
        }),
        varint64(s + tail) matches Err(error) ==> error == (ErrorView::Corruption {
            path: None,
            message: if s.len() > 10 {
                "varint is too long"@
            } else {
                "varint64 overflows 64 bits"@
            },
        }),
{
    lemma_varint_value(s, tail, 5);
    lemma_varint_value(s, tail, 10);
}

proof fn lemma_varint_unfinished(s: Seq<u8>, limit: nat)
    requires
        forall|i: int| 0 <= i < s.len() ==> #[trigger] s[i] >= 128,
    ensures
        s.len() < limit ==> varint_at_front(s, limit) is Truncated,
        s.len() >= limit ==> varint_at_front(s, limit) is TooLong,
    decreases limit,
{
    if limit > 0 && s.len() > 0 {
        let rest = s.skip(1);
        assert forall|i: int| 0 <= i < rest.len() implies #[trigger] rest[i] >= 128 by {
            assert(rest[i] == s[i + 1]);
        }
        assert(s[0] >= 128);
        lemma_varint_unfinished(rest, (limit - 1) as nat);
    }
}

/// Bytes that all have their top bit set hold no number.
pub proof fn unfinished_varints_are_refused(s: Seq<u8>)
    requires
        forall|i: int| 0 <= i < s.len() ==> #[trigger] s[i] >= 128,
    ensures
        varint32(s) == Err::<(u32, nat), ErrorView>(
            ErrorView::Corruption {
                path: None,
                message: if s.len() < 5 {
                    "varint is truncated"@
                } else {
                    "varint is too long"@
                },
            },
        ),
        varint64(s) == Err::<(u64, nat), ErrorView>(
            ErrorView::Corruption {
                path: None,
                message: if s.len() < 10 {
                    "varint is truncated"@
                } else {
                    "varint is too long"@
                },
            },
        ),
{
    lemma_varint_unfinished(s, 5);
    lemma_varint_unfinished(s, 10);
}

/// A slice is stored behind its length, and is read from there: all of it where
/// all of it is there, and not at all otherwise.
pub proof fn slices_stand_behind_their_lengths(slice: Seq<u8>, input: Seq<u8>, len: Seq<u8>)
    requires
        is_one_varint(len),
        len.len() <= 5,
        base128(len) <= 0xffff_ffff,
    ensures
        prefixed_bytes(slice) == varint_bytes(slice.len()) + slice,
        prefixed_slice(len + input) is Ok <==> base128(len) <= input.len(),
        prefixed_slice(len + input) matches Ok((found, start, end)) ==> {
            &&& found == input.take(base128(len) as int)
            &&& start == len.len()
            &&& end == len.len() + base128(len)
        },
        prefixed_slice(len + input) matches Err(error) ==> error == (ErrorView::Corruption {
            path: None,
            message: "length-prefixed slice is truncated"@,
        }),
{
    let all = len + input;
    varints_are_read_in_base_128(len, input);
    if base128(len) <= input.len() {
        assert(all.subrange(len.len() as int, (len.len() + base128(len)) as int) =~= input.take(
            base128(len) as int,
        ));
    }
}

} // verus!
