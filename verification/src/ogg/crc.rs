//! The checksum of an Ogg page: CRC-32 with the polynomial 0x04c11db7, starting from zero, nothing
//! reflected and nothing inverted at the end.

use vstd::prelude::*;

verus! {

/// The generator polynomial, without its leading term.
pub const POLYNOMIAL: u32 = 0x04c1_1db7;

/// The bit that leaves the register on the next shift.
pub const HIGH_BIT: u32 = 0x8000_0000;

/// The register after one bit of the message has gone through it.
pub open spec fn shifted(remainder: u32) -> u32 {
    if remainder & HIGH_BIT == 0 {
        remainder << 1
    } else {
        (remainder << 1) ^ POLYNOMIAL
    }
}

/// The register after `steps` bits have gone through it.
pub open spec fn folded(remainder: u32, steps: nat) -> u32
    decreases steps,
{
    if steps == 0 {
        remainder
    } else {
        folded(shifted(remainder), (steps - 1) as nat)
    }
}

/// The checksum of `data` behind bytes whose checksum is `crc`: every byte goes into the top of the
/// register and eight bits are folded out of it.
pub open spec fn crc_of(crc: u32, data: Seq<u8>) -> u32
    decreases data.len(),
{
    if data.len() == 0 {
        crc
    } else {
        folded(crc_of(crc, data.drop_last()) ^ ((data.last() as u32) << 24), 8)
    }
}

proof fn lemma_folded_xor(a: u32, b: u32, steps: nat)
    ensures
        folded(a ^ b, steps) == folded(a, steps) ^ folded(b, steps),
    decreases steps,
{
    if steps > 0 {
        assert(shifted(a ^ b) == shifted(a) ^ shifted(b)) by (bit_vector);
        lemma_folded_xor(shifted(a), shifted(b), (steps - 1) as nat);
    }
}

proof fn lemma_folded_low(low: u32)
    requires
        low & 0xff00_0000 == 0,
    ensures
        folded(low, 8) == low << 8,
{
    reveal_with_fuel(folded, 9);
    assert(shifted(shifted(shifted(shifted(shifted(shifted(shifted(shifted(low)))))))) == low << 8)
        by (bit_vector)
        requires
            low & 0xff00_0000 == 0,
    ;
}

/// One byte through the register is one table entry: what leaves at the top decides the entry, and
/// what stays moves up.
proof fn lemma_table_step(crc: u32, byte: u8)
    ensures
        folded(crc ^ ((byte as u32) << 24), 8) == (crc << 8) ^ folded(
            (((crc >> 24) as u8 ^ byte) as u32) << 24,
            8,
        ),
{
    let high = (((crc >> 24) as u8 ^ byte) as u32) << 24;
    let low = crc & 0x00ff_ffff;
    assert(crc ^ ((byte as u32) << 24) == high ^ low) by (bit_vector)
        requires
            high == (((crc >> 24) as u8 ^ byte) as u32) << 24,
            low == crc & 0x00ff_ffff,
    ;
    assert(low & 0xff00_0000 == 0 && low << 8 == crc << 8) by (bit_vector)
        requires
            low == crc & 0x00ff_ffff,
    ;
    lemma_folded_xor(high, low, 8);
    lemma_folded_low(low);
    let entry = folded(high, 8);
    assert(entry ^ (crc << 8) == (crc << 8) ^ entry) by (bit_vector);
}

/// A checksum taken piece by piece is the checksum of the whole.
pub proof fn lemma_crc_in_pieces(crc: u32, first: Seq<u8>, second: Seq<u8>)
    ensures
        crc_of(crc_of(crc, first), second) == crc_of(crc, first + second),
    decreases second.len(),
{
    let whole = first + second;
    if second.len() == 0 {
        assert(whole =~= first);
    } else {
        lemma_crc_in_pieces(crc, first, second.drop_last());
        assert(whole.drop_last() =~= first + second.drop_last());
        assert(whole.last() == second.last());
    }
}

/// The eight bits of a byte at the top of the register, folded out of it.
fn fold(remainder: u32) -> (result: u32)
    ensures
        result == folded(remainder, 8),
{
    let mut remainder: u32 = remainder;
    let ghost start = remainder;
    let mut step: u32 = 0;
    while step < 8
        invariant
            step <= 8,
            folded(start, 8) == folded(remainder, (8 - step) as nat),
        decreases 8 - step,
    {
        remainder = if remainder & HIGH_BIT == 0 {
            remainder << 1
        } else {
            (remainder << 1) ^ POLYNOMIAL
        };
        step += 1;
    }
    remainder
}

/// What every byte leaving the register folds to.
pub fn build_table() -> (table: [u32; 256])
    ensures
        forall|i: int| 0 <= i < 256 ==> #[trigger] table@[i] == folded((i as u32) << 24, 8),
{
    let mut table: [u32; 256] = [0; 256];
    let mut byte: u32 = 0;
    while byte < 256
        invariant
            byte <= 256,
            forall|i: int| 0 <= i < byte ==> #[trigger] table@[i] == folded((i as u32) << 24, 8),
        decreases 256 - byte,
    {
        table[byte as usize] = fold(byte << 24);
        byte += 1;
    }
    table
}

/// The checksum of `data`.
pub fn crc32(data: &[u8]) -> (sum: u32)
    ensures
        sum == crc_of(0, data@),
{
    crc32_from(0, data)
}

/// The checksum of `data` behind bytes whose checksum is `crc`.
pub fn crc32_from(crc: u32, data: &[u8]) -> (sum: u32)
    ensures
        sum == crc_of(crc, data@),
{
    let table: [u32; 256] = build_table();
    let mut sum: u32 = crc;
    let mut at: usize = 0;
    while at < data.len()
        invariant
            at <= data@.len(),
            forall|i: int| 0 <= i < 256 ==> #[trigger] table@[i] == folded((i as u32) << 24, 8),
            sum == crc_of(crc, data@.take(at as int)),
        decreases data@.len() - at,
    {
        let byte: u8 = data[at];
        let leaving: u8 = (sum >> 24) as u8;
        let index: u8 = leaving ^ byte;
        proof {
            lemma_table_step(sum, byte);
            assert(data@.take(at + 1).drop_last() =~= data@.take(at as int));
        }
        sum = (sum << 8) ^ table[index as usize];
        at += 1;
    }
    assert(data@.take(at as int) =~= data@);
    sum
}

} // verus!
