//! CRC-32C checksums, plain and masked.
use vstd::prelude::*;

verus! {

/// The Castagnoli polynomial, least significant bit first.
pub const CASTAGNOLI: u32 = 0x82f6_3b78;

/// What masking adds to a rotated checksum.
pub const MASK_DELTA: u32 = 0xa282_ead8;

/// One step of the shift register.
pub open spec fn crc_bit(register: u32) -> u32 {
    if register & 1 == 1 {
        (register >> 1) ^ CASTAGNOLI
    } else {
        register >> 1
    }
}

/// `n` steps of the shift register.
pub open spec fn crc_bits(register: u32, n: nat) -> u32
    decreases n,
{
    if n == 0 {
        register
    } else {
        crc_bit(crc_bits(register, (n - 1) as nat))
    }
}

/// The shift register after one byte.
pub open spec fn crc_byte(register: u32, byte: u8) -> u32 {
    crc_bits(register ^ (byte as u32), 8)
}

/// The shift register after all of `data`, from all ones.
pub open spec fn crc_register(data: Seq<u8>) -> u32
    decreases data.len(),
{
    if data.len() == 0 {
        0xffff_ffff
    } else {
        crc_byte(crc_register(data.drop_last()), data.last())
    }
}

/// The CRC-32C checksum of `data`.
pub open spec fn crc32c_of(data: Seq<u8>) -> u32 {
    crc_register(data) ^ 0xffff_ffff
}

/// A checksum in the form in which it is stored beside the data it covers.
pub open spec fn masked(crc: u32) -> u32 {
    ((((crc >> 15) | (crc << 17)) + MASK_DELTA) % 0x1_0000_0000) as u32
}

/// The stored checksum of a block: it covers the payload and the tag of its
/// compression.
pub open spec fn block_checksum(payload: Seq<u8>, compression: u8) -> u32 {
    masked(crc32c_of(payload.push(compression)))
}

fn feed_byte(register: u32, byte: u8) -> (r: u32)
    ensures
        r == crc_byte(register, byte),
{
    let start: u32 = register ^ (byte as u32);
    let mut state: u32 = start;
    let mut i: usize = 0;
    while i < 8
        invariant
            i <= 8,
            state == crc_bits(start, i as nat),
        decreases 8 - i,
    {
        if state & 1 == 1 {
            state = (state >> 1) ^ CASTAGNOLI;
        } else {
            state = state >> 1;
        }
        i = i + 1;
    }
    state
}

fn feed(data: &[u8]) -> (r: u32)
    ensures
        r == crc_register(data@),
{
    let mut state: u32 = 0xffff_ffff;
    let mut i: usize = 0;
    while i < data.len()
        invariant
            i <= data@.len(),
            state == crc_register(data@.take(i as int)),
        decreases data@.len() - i,
    {
        proof {
            assert(data@.take(i + 1).drop_last() =~= data@.take(i as int));
        }
        state = feed_byte(state, data[i]);
        i = i + 1;
    }
    proof {
        assert(data@.take(i as int) =~= data@);
    }
    state
}

/// Computes the CRC-32C checksum of `data`.
pub fn crc32c(data: &[u8]) -> (r: u32)
    ensures
        r == crc32c_of(data@),
{
    feed(data) ^ 0xffff_ffff
}

/// Computes the stored checksum of a block.
pub fn masked_crc32c(payload: &[u8], compression: u8) -> (r: u32)
    ensures
        r == block_checksum(payload@, compression),
{
    let register: u32 = feed_byte(feed(payload), compression);
    proof {
        assert(payload@.push(compression).drop_last() =~= payload@);
    }
    let crc: u32 = register ^ 0xffff_ffff;
    ((crc >> 15) | (crc << 17)).wrapping_add(MASK_DELTA)
}

proof fn lemma_crc_bits_injective(a: u32, b: u32, n: nat)
    requires
        crc_bits(a, n) == crc_bits(b, n),
    ensures
        a == b,
    decreases n,
{
    if n > 0 {
        let x = crc_bits(a, (n - 1) as nat);
        let y = crc_bits(b, (n - 1) as nat);
        assert((if x & 1 == 1 {
            (x >> 1) ^ 0x82f6_3b78u32
        } else {
            x >> 1
        }) == (if y & 1 == 1 {
            (y >> 1) ^ 0x82f6_3b78u32
        } else {
            y >> 1
        }) ==> x == y) by (bit_vector);
        lemma_crc_bits_injective(a, b, (n - 1) as nat);
    }
}

proof fn lemma_crc_byte_injective(a: u32, b: u32, x: u8, y: u8)
    requires
        crc_byte(a, x) == crc_byte(b, y),
        a == b || x == y,
    ensures
        a == b,
        x == y,
{
    lemma_crc_bits_injective(a ^ (x as u32), b ^ (y as u32), 8);
    assert(a ^ (x as u32) == b ^ (y as u32) && (a == b || x == y) ==> a == b && x == y)
        by (bit_vector);
}

proof fn lemma_register_detects(data: Seq<u8>, i: int, byte: u8)
    requires
        0 <= i < data.len(),
        byte != data[i],
    ensures
        crc_register(data.update(i, byte)) != crc_register(data),
    decreases data.len(),
{
    let changed = data.update(i, byte);
    let before = crc_register(data.drop_last());
    let after = crc_register(changed.drop_last());
    if i == data.len() - 1 {
        assert(changed.drop_last() =~= data.drop_last());
    } else {
        assert(changed.drop_last() =~= data.drop_last().update(i, byte));
        lemma_register_detects(data.drop_last(), i, byte);
    }
    if crc_register(changed) == crc_register(data) {
        lemma_crc_byte_injective(after, before, changed.last(), data.last());
    }
}

/// A checksum tells apart any two byte sequences that differ in exactly one
/// byte.
pub proof fn checksum_detects_one_changed_byte(data: Seq<u8>, i: int, byte: u8)
    requires
        0 <= i < data.len(),
        byte != data[i],
    ensures
        crc32c_of(data.update(i, byte)) != crc32c_of(data),
{
    lemma_register_detects(data, i, byte);
    let a = crc_register(data.update(i, byte));
    let b = crc_register(data);
    assert(a ^ 0xffff_ffffu32 == b ^ 0xffff_ffffu32 ==> a == b) by (bit_vector);
}

/// Masking keeps different checksums different.
pub proof fn masking_is_injective(a: u32, b: u32)
    requires
        masked(a) == masked(b),
    ensures
        a == b,
{
    let x = (a >> 15) | (a << 17);
    let y = (b >> 15) | (b << 17);
    assert(x == y);
    assert((a >> 15) | (a << 17) == (b >> 15) | (b << 17) ==> a == b) by (bit_vector);
}

/// The stored checksum of a block tells apart any two blocks of which one
/// payload byte, or only the compression tag, differs.
pub proof fn block_checksum_detects_one_changed_byte(
    payload: Seq<u8>,
    compression: u8,
    i: int,
    byte: u8,
)
    ensures
        0 <= i < payload.len() && byte != payload[i] ==> block_checksum(
            payload.update(i, byte),
            compression,
        ) != block_checksum(payload, compression),
        byte != compression ==> block_checksum(payload, byte) != block_checksum(
            payload,
            compression,
        ),
{
    let all = payload.push(compression);
    if 0 <= i < payload.len() && byte != payload[i] {
        checksum_detects_one_changed_byte(all, i, byte);
        assert(all.update(i, byte) =~= payload.update(i, byte).push(compression));
        if block_checksum(payload.update(i, byte), compression) == block_checksum(
            payload,
            compression,
        ) {
            masking_is_injective(crc32c_of(all.update(i, byte)), crc32c_of(all));
        }
    }
    if byte != compression {
        let last = all.len() - 1;
        checksum_detects_one_changed_byte(all, last, byte);
        assert(all.update(last, byte) =~= payload.push(byte));
        if block_checksum(payload, byte) == block_checksum(payload, compression) {
            masking_is_injective(crc32c_of(all.update(last, byte)), crc32c_of(all));
        }
    }
}

// ---------------------------------------------------------------------------
// What a checksum is.

/// The remainder of a polynomial times `x`, modulo the Castagnoli polynomial;
/// the bit of the highest power is the lowest.
pub open spec fn times_x(remainder: u32) -> u32 {
    if remainder % 2 == 1 {
        ((remainder / 2) as u32) ^ 0x82f6_3b78u32
    } else {
        (remainder / 2) as u32
    }
}

/// The remainder after one more byte of the message.
pub open spec fn fed_byte(remainder: u32, byte: u8) -> u32 {
    times_x(
        times_x(
            times_x(
                times_x(times_x(times_x(times_x(times_x(remainder ^ (byte as u32)))))),
            ),
        ),
    )
}

proof fn lemma_times_x(register: u32)
    ensures
        crc_bit(register) == times_x(register),
{
    assert(register & 1 == register % 2) by (bit_vector);
    assert(register >> 1 == register / 2) by (bit_vector);
}

proof fn lemma_fed_byte(register: u32, byte: u8)
    ensures
        crc_byte(register, byte) == fed_byte(register, byte),
{
    let start = register ^ (byte as u32);
    reveal_with_fuel(crc_bits, 9);
    lemma_times_x(crc_bits(start, 0));
    lemma_times_x(crc_bits(start, 1));
    lemma_times_x(crc_bits(start, 2));
    lemma_times_x(crc_bits(start, 3));
    lemma_times_x(crc_bits(start, 4));
    lemma_times_x(crc_bits(start, 5));
    lemma_times_x(crc_bits(start, 6));
    lemma_times_x(crc_bits(start, 7));
}

/// The checksum is CRC-32C, for data of every length: nothing has the checksum
/// 0, and one more byte advances the complement of the checksum, which is the
/// remainder from all ones on, by that byte.
pub proof fn checksum_is_crc32c(data: Seq<u8>, byte: u8)
    ensures
        crc32c_of(Seq::empty()) == 0,
        crc32c_of(data.push(byte)) ^ 0xffff_ffffu32 == fed_byte(
            crc32c_of(data) ^ 0xffff_ffffu32,
            byte,
        ),
{
    let a = crc_register(data);
    let b = crc_register(data.push(byte));
    assert(data.push(byte).drop_last() =~= data);
    assert((a ^ 0xffff_ffffu32) ^ 0xffff_ffffu32 == a) by (bit_vector);
    assert((b ^ 0xffff_ffffu32) ^ 0xffff_ffffu32 == b) by (bit_vector);
    assert(0xffff_ffffu32 ^ 0xffff_ffffu32 == 0) by (bit_vector);
    lemma_fed_byte(a, byte);
}

/// Checksums are stored rotated by 15 bits to the right, with a constant added,
/// modulo two to the power of 32.
pub proof fn stored_checksums_are_rotated(crc: u32)
    ensures
        masked(crc) == (crc / 32768 + (crc % 32768) * 131072 + 0xa282_ead8) % 0x1_0000_0000,
{
    assert((crc >> 15) | (crc << 17) == crc / 32768 + (crc % 32768) * 131072) by (bit_vector);
}

/// The stored checksum of a block is that of its payload and the tag behind it.
pub proof fn block_checksums_cover_payload_and_tag(payload: Seq<u8>, tag: u8)
    ensures
        ({
            let crc = crc32c_of(payload + seq![tag]);
            block_checksum(payload, tag) == (crc / 32768 + (crc % 32768) * 131072 + 0xa282_ead8)
                % 0x1_0000_0000
        }),
{
    assert(payload + seq![tag] =~= payload.push(tag));
    stored_checksums_are_rotated(crc32c_of(payload + seq![tag]));
}

} // verus!
