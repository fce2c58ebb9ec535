//! Numbers as a protobuf message holds them: seven bits to a byte, the low ones first, and every
//! byte but the last one marked as going on.

use super::HeaderError;
use vstd::prelude::*;
use vstd::slice::slice_subrange;

verus! {

/// The bit of a byte behind which another one follows.
pub const CONTINUATION: u8 = 0x80;

/// The bytes a 64-bit number takes up at the most.
pub const MAX_LEN: usize = 10;

/// The bytes a 32-bit number takes up at the most.
pub const MAX_U32_LEN: usize = 5;

/// What the byte at `at` counts in: 128 to the power of `at`.
pub open spec fn weight(at: nat) -> nat
    decreases at,
{
    if at == 0 {
        1
    } else {
        128 * weight((at - 1) as nat)
    }
}

/// The number `buf` goes on with at the byte `at`, the bytes in front of which come to `value`, and
/// where it ends.
pub open spec fn varint_from(buf: Seq<u8>, at: nat, value: nat) -> Result<(nat, nat), HeaderError>
    decreases 10 - at,
{
    if at >= 10 {
        Err(HeaderError::VarintOverflow)
    } else if at >= buf.len() {
        Err(HeaderError::TruncatedField)
    } else if at == 9 && buf[at as int] % 128 > 1 {
        Err(HeaderError::VarintOverflow)
    } else {
        let grown = value + (buf[at as int] % 128) as nat * weight(at);
        if buf[at as int] < 128 {
            Ok((grown, at + 1))
        } else {
            varint_from(buf, at + 1, grown)
        }
    }
}

/// The number at the front of `buf` and the bytes it takes up. One of more than 64 bits overflows,
/// and one no byte ends is cut short.
pub open spec fn read_varint(buf: Seq<u8>) -> Result<(nat, nat), HeaderError> {
    varint_from(buf, 0, 0)
}

/// The same, for a field that is 32 bits wide.
pub open spec fn read_varint32(buf: Seq<u8>) -> Result<(nat, nat), HeaderError> {
    match read_varint(buf) {
        Ok((value, _len)) if value > 0xffff_ffff => Err(HeaderError::VarintOverflow),
        read => read,
    }
}

/// A number in the bytes it takes up.
pub open spec fn varint(value: nat) -> Seq<u8>
    decreases value,
{
    if value < 128 {
        seq![value as u8]
    } else {
        seq![(value % 128 + 128) as u8] + varint(value / 128)
    }
}

proof fn lemma_weights()
    ensures
        weight(0) == 1,
        weight(1) == 0x80,
        weight(2) == 0x4000,
        weight(3) == 0x20_0000,
        weight(4) == 0x1000_0000,
        weight(5) == 0x8_0000_0000,
        weight(6) == 0x400_0000_0000,
        weight(7) == 0x2_0000_0000_0000,
        weight(8) == 0x100_0000_0000_0000,
        weight(9) == 0x8000_0000_0000_0000,
{
    reveal_with_fuel(weight, 11);
}

/// Where a number ends: behind its first byte at least, and within the bytes it was read from.
pub proof fn lemma_varint_end(buf: Seq<u8>, at: nat, value: nat)
    ensures
        varint_from(buf, at, value) matches Ok((_v, end)) ==> at < end <= buf.len() && end <= 10,
    decreases 10 - at,
{
    if at < 10 && at < buf.len() && buf[at as int] >= 128 {
        lemma_varint_end(
            buf,
            at + 1,
            value + (buf[at as int] % 128) as nat * weight(at),
        );
    }
}

proof fn lemma_varint_from_back(front: Seq<u8>, value: nat, rest: Seq<u8>, before: nat)
    requires
        front.len() < 5,
        value < weight((5 - front.len()) as nat),
    ensures
        varint_from(front + varint(value) + rest, front.len(), before) == Ok::<
            (nat, nat),
            HeaderError,
        >((before + value * weight(front.len()), front.len() + varint(value).len())),
        varint(value).len() <= 5 - front.len(),
    decreases value,
{
    let at = front.len();
    let buf = front + varint(value) + rest;
    lemma_weights();
    if value < 128 {
        assert(buf[at as int] == value as u8);
    } else {
        let byte = (value % 128 + 128) as u8;
        assert(at < 4);
        assert(buf[at as int] == byte);
        let longer = front.push(byte);
        assert(buf =~= longer + varint(value / 128) + rest);
        assert(weight((5 - at) as nat) == 128 * weight((5 - longer.len()) as nat));
        let grown = before + (value % 128) * weight(at);
        lemma_varint_from_back(longer, value / 128, rest, grown);
        assert(byte % 128 == value % 128);
        assert(grown + (value / 128) * (128 * weight(at)) == before + value * weight(at))
            by (nonlinear_arith)
            requires
                grown == before + (value % 128) * weight(at),
        ;
    }
}

/// A 32-bit number written out reads back, whatever lies behind it, and takes up five bytes at the
/// most.
pub proof fn lemma_varint_reads_back(value: u32, rest: Seq<u8>)
    ensures
        read_varint(varint(value as nat) + rest) == Ok::<(nat, nat), HeaderError>(
            (value as nat, varint(value as nat).len()),
        ),
        read_varint32(varint(value as nat) + rest) == Ok::<(nat, nat), HeaderError>(
            (value as nat, varint(value as nat).len()),
        ),
        1 <= varint(value as nat).len() <= 5,
{
    lemma_weights();
    lemma_varint_from_back(Seq::empty(), value as nat, rest, 0);
    assert(Seq::<u8>::empty() + varint(value as nat) + rest =~= varint(value as nat) + rest);
    assert(value as nat * weight(0) == value) by (nonlinear_arith)
        requires
            weight(0) == 1,
    ;
}

proof fn lemma_a_byte_in_front(buf: Seq<u8>, at: nat, low: nat, value: nat)
    requires
        at < buf.len(),
        at <= 9,
        low < 128,
        value < weight(at),
    ensures
        match varint_from(buf.skip(1), at, value) {
            Ok((number, len)) => if len <= 9 && low + 128 * number <= u64::MAX {
                varint_from(buf, at + 1, low + 128 * value) == Ok::<(nat, nat), HeaderError>(
                    (low + 128 * number, len + 1),
                )
            } else {
                varint_from(buf, at + 1, low + 128 * value) == Err::<(nat, nat), HeaderError>(
                    HeaderError::VarintOverflow,
                )
            },
            Err(error) => varint_from(buf, at + 1, low + 128 * value) is Err && (buf.len() <= 9
                ==> varint_from(buf, at + 1, low + 128 * value) == Err::<(nat, nat), HeaderError>(
                error,
            )),
        },
        varint_from(buf.skip(1), at, value) matches Ok((number, _len)) ==> number >= value,
    decreases 10 - at,
{
    lemma_weights();
    let rest = buf.skip(1);
    reveal_with_fuel(varint_from, 2);
    if at < rest.len() {
        let byte = rest[at as int];
        assert(byte == buf[at as int + 1]);
        let part = (byte % 128) as nat;
        let grown = value + part * weight(at);
        assert(weight(at + 1) == 128 * weight(at));
        assert(part * weight(at) <= 127 * weight(at)) by (nonlinear_arith)
            requires
                part <= 127,
        ;
        assert(128 * (part * weight(at)) == part * weight(at + 1)) by (nonlinear_arith)
            requires
                weight(at + 1) == 128 * weight(at),
        ;
        assert(low + 128 * grown == low + 128 * value + part * weight(at + 1));
        if at == 8 && part > 1 {
            assert(part * weight(9) >= 2 * weight(9)) by (nonlinear_arith)
                requires
                    part >= 2,
            ;
        }
        if at == 8 && part <= 1 {
            assert(part * weight(9) <= weight(9)) by (nonlinear_arith)
                requires
                    part <= 1,
            ;
        }
        if at < 8 {
            assert(at == 0 || at == 1 || at == 2 || at == 3 || at == 4 || at == 5 || at == 6 || at
                == 7);
            assert(weight(at + 1) <= 0x100_0000_0000_0000);
        }
        assert(grown < weight(at + 1));
        if byte >= 128 && at < 9 {
            lemma_a_byte_in_front(buf, at + 1, low, grown);
        }
    }
}

/// A number counts in 128s: a byte below 128 is the number, and any other adds itself, less 128, to 128
/// times the number behind it, as long as that is one of no more than 64 bits and ten bytes.
pub proof fn lemma_a_number_counts_in_128s(buf: Seq<u8>)
    requires
        buf.len() > 0,
    ensures
        buf[0] < 128 ==> read_varint(buf) == Ok::<(nat, nat), HeaderError>((buf[0] as nat, 1)),
        buf[0] >= 128 ==> match read_varint(buf.skip(1)) {
            Ok((number, len)) => if len <= 9 && buf[0] - 128 + 128 * number <= u64::MAX {
                read_varint(buf) == Ok::<(nat, nat), HeaderError>(
                    ((buf[0] - 128 + 128 * number) as nat, len + 1),
                )
            } else {
                read_varint(buf) == Err::<(nat, nat), HeaderError>(HeaderError::VarintOverflow)
            },
            Err(error) => read_varint(buf) is Err && (buf.len() <= 9 ==> read_varint(buf) == Err::<
                (nat, nat),
                HeaderError,
            >(error)),
        },
        read_varint(Seq::empty()) == Err::<(nat, nat), HeaderError>(HeaderError::TruncatedField),
{
    lemma_weights();
    if buf[0] >= 128 {
        let low = (buf[0] - 128) as nat;
        lemma_a_byte_in_front(buf, 0, low, 0);
        assert(low * weight(0) == low) by (nonlinear_arith)
            requires
                weight(0) == 1,
        ;
        assert(buf[0] % 128 == low);
    } else {
        assert(buf[0] as nat * weight(0) == buf[0]) by (nonlinear_arith)
            requires
                weight(0) == 1,
        ;
    }
}

/// Where a number ends: with its first byte below 128, and with its tenth at the latest.
pub proof fn lemma_where_a_number_ends(buf: Seq<u8>)
    ensures
        read_varint(buf) matches Ok((number, len)) ==> {
            &&& 0 < len <= 10
            &&& len <= buf.len()
            &&& number <= u64::MAX
            &&& buf[len - 1] < 128
            &&& forall|i: int| 0 <= i < len - 1 ==> #[trigger] buf[i] >= 128
        },
        (forall|i: int| 0 <= i < buf.len() ==> #[trigger] buf[i] >= 128) && buf.len() < 9
            ==> read_varint(buf) == Err::<(nat, nat), HeaderError>(HeaderError::TruncatedField),
        buf.len() >= 10 && (forall|i: int| 0 <= i < 10 ==> #[trigger] buf[i] >= 128) ==> read_varint(
            buf,
        ) == Err::<(nat, nat), HeaderError>(HeaderError::VarintOverflow),
        read_varint32(buf) == (match read_varint(buf) {
            Ok((number, len)) => if number < 0x1_0000_0000 {
                Ok((number, len))
            } else {
                Err(HeaderError::VarintOverflow)
            },
            Err(error) => Err(error),
        }),
    decreases buf.len(),
{
    if buf.len() > 0 {
        let rest = buf.skip(1);
        lemma_a_number_counts_in_128s(buf);
        lemma_where_a_number_ends(rest);
        assert(forall|i: int| 0 <= i < rest.len() ==> #[trigger] rest[i] == buf[i + 1]);
        if read_varint(buf) is Ok && buf[0] >= 128 {
            let len = (read_varint(buf)->Ok_0).1;
            assert(buf[len - 1] == rest[len - 2]);
            assert forall|i: int| 0 <= i < len - 1 implies #[trigger] buf[i] >= 128 by {
                if i > 0 {
                    assert(rest[i - 1] >= 128);
                }
            }
        }
        if (forall|i: int| 0 <= i < buf.len() ==> #[trigger] buf[i] >= 128) && buf.len() < 9 {
            assert(forall|i: int| 0 <= i < rest.len() ==> #[trigger] rest[i] >= 128);
        }
        if buf.len() >= 10 && (forall|i: int| 0 <= i < 10 ==> #[trigger] buf[i] >= 128) {
            lemma_varint_end(buf, 0, 0);
            lemma_all_continue(buf, 0, 0);
        }
    }
}

proof fn lemma_all_continue(buf: Seq<u8>, at: nat, value: nat)
    requires
        buf.len() >= 10,
        at <= 10,
        forall|i: int| 0 <= i < 10 ==> #[trigger] buf[i] >= 128,
    ensures
        varint_from(buf, at, value) == Err::<(nat, nat), HeaderError>(HeaderError::VarintOverflow),
    decreases 10 - at,
{
    if at < 10 {
        lemma_all_continue(buf, at + 1, value + (buf[at as int] % 128) as nat * weight(at));
    }
}

/// A number takes up a byte for every seven bits of it, and one where it is nothing.
pub proof fn lemma_the_bytes_of_a_number(value: u32)
    ensures
        varint(value as nat).len() == (if value < 0x80 {
            1nat
        } else if value < 0x4000 {
            2
        } else if value < 0x20_0000 {
            3
        } else if value < 0x1000_0000 {
            4
        } else {
            5
        }),
        forall|i: int|
            0 <= i < varint(value as nat).len() - 1 ==> #[trigger] varint(value as nat)[i] >= 128,
        varint(value as nat).last() < 128,
        varint(value as nat).len() > 1 ==> varint(value as nat).last() > 0,
{
    reveal_with_fuel(varint, 6);
    let a = value as nat;
    let b = a / 128;
    let c = b / 128;
    let d = c / 128;
    let e = d / 128;
    assert(e < 128);
    assert(a >= 0x4000 <==> b >= 0x80);
    assert(a >= 0x20_0000 <==> c >= 0x80);
    assert(a >= 0x1000_0000 <==> d >= 0x80);
}

/// The 64-bit number at the front of `buf`, and the bytes it takes up.
pub fn decode_u64(buf: &[u8]) -> (result: Result<(u64, usize), HeaderError>)
    ensures
        match result {
            Ok((value, len)) => {
                &&& read_varint(buf@) == Ok::<(nat, nat), HeaderError>((value as nat, len as nat))
                &&& 0 < len <= buf@.len()
            },
            Err(error) => read_varint(buf@) == Err::<(nat, nat), HeaderError>(error),
        },
{
    let mut value: u64 = 0;
    let mut counts: u64 = 1;
    let mut at: usize = 0;
    proof {
        lemma_weights();
    }
    while at < MAX_LEN && at < buf.len()
        invariant
            at <= 10,
            at <= buf@.len(),
            read_varint(buf@) == varint_from(buf@, at as nat, value as nat),
            at <= 9 ==> counts == weight(at as nat),
            at <= 9 ==> value < weight(at as nat),
        decreases 10 - at,
    {
        let byte: u8 = buf[at];
        let payload: u64 = (byte % 128) as u64;
        if at == 9 && payload > 1 {
            return Err(HeaderError::VarintOverflow);
        }
        proof {
            lemma_weights();
            if at < 9 {
                assert(payload * counts <= 127 * counts) by (nonlinear_arith)
                    requires
                        payload <= 127,
                ;
            } else {
                assert(payload * counts <= counts) by (nonlinear_arith)
                    requires
                        payload <= 1,
                ;
            }
        }
        value += payload * counts;
        at += 1;
        if byte < CONTINUATION {
            return Ok((value, at));
        }
        if at <= 9 {
            counts *= 128;
        }
    }
    if at >= MAX_LEN {
        Err(HeaderError::VarintOverflow)
    } else {
        Err(HeaderError::TruncatedField)
    }
}

/// The 32-bit number at the front of `buf`, and the bytes it takes up.
pub fn decode_u32(buf: &[u8]) -> (result: Result<(u32, usize), HeaderError>)
    ensures
        match result {
            Ok((value, len)) => {
                &&& read_varint32(buf@) == Ok::<(nat, nat), HeaderError>((value as nat, len as nat))
                &&& 0 < len <= buf@.len()
            },
            Err(error) => read_varint32(buf@) == Err::<(nat, nat), HeaderError>(error),
        },
{
    match decode_u64(buf) {
        Err(error) => Err(error),
        Ok((value, len)) => {
            if value > 0xffff_ffff {
                Err(HeaderError::VarintOverflow)
            } else {
                Ok((value as u32, len))
            }
        },
    }
}

/// Writes `value` into the front of `buf` and hands back the bytes it took up; the bytes behind them
/// are left as they are.
pub fn encode_u32(value: u32, buf: &mut [u8; 5]) -> (bytes: &[u8])
    ensures
        bytes@ == varint(value as nat),
        final(buf)@ == varint(value as nat) + old(buf)@.skip(varint(value as nat).len() as int),
{
    let mut rest: u32 = value;
    let mut len: usize = 0;
    proof {
        lemma_weights();
    }
    assert(buf@.take(0) + varint(value as nat) =~= varint(value as nat));
    while rest >= 128
        invariant
            len <= 4,
            buf@.len() == 5,
            rest < weight((5 - len) as nat),
            buf@.take(len as int) + varint(rest as nat) == varint(value as nat),
            buf@.skip(len as int) == old(buf)@.skip(len as int),
            old(buf)@.len() == 5,
        decreases rest,
    {
        let ghost before = buf@;
        let ghost wrote = rest;
        proof {
            lemma_weights();
        }
        buf[len] = (rest % 128) as u8 + CONTINUATION;
        rest /= 128;
        len += 1;
        proof {
            assert(buf@.take(len as int) =~= before.take(len - 1).push(
                (wrote % 128 + 128) as u8,
            ));
            assert(buf@.take(len as int) + varint(rest as nat) =~= before.take(len - 1) + varint(
                wrote as nat,
            ));
            assert(buf@.skip(len as int) =~= before.skip(len - 1).skip(1));
            assert(old(buf)@.skip(len as int) =~= old(buf)@.skip(len - 1).skip(1));
        }
    }
    let ghost before = buf@;
    buf[len] = rest as u8;
    len += 1;
    proof {
        assert(buf@.take(len as int) =~= before.take(len - 1) + varint(rest as nat));
        assert(buf@.skip(len as int) =~= before.skip(len - 1).skip(1));
        assert(old(buf)@.skip(len as int) =~= old(buf)@.skip(len - 1).skip(1));
        assert(buf@ =~= buf@.take(len as int) + buf@.skip(len as int));
    }
    slice_subrange(vstd::array::array_as_slice(buf), 0, len)
}

} // verus!
