//! Integers as the bytes a file holds them in, and the two small things every writer of bytes
//! needs: bytes appended, and bytes of a fixed length.

use vstd::prelude::*;

verus! {

/// The two bytes of `value`, least significant first.
pub open spec fn le16(value: u16) -> Seq<u8> {
    seq![(value % 256) as u8, (value / 256) as u8]
}

/// The four bytes of `value`, least significant first.
pub open spec fn le32(value: u32) -> Seq<u8> {
    seq![
        (value % 256) as u8,
        (value / 0x100 % 256) as u8,
        (value / 0x1_0000 % 256) as u8,
        (value / 0x100_0000) as u8,
    ]
}

/// The eight bytes of `value`, least significant first.
pub open spec fn le64(value: u64) -> Seq<u8> {
    le32((value % 0x1_0000_0000) as u32) + le32((value / 0x1_0000_0000) as u32)
}

/// The number the four bytes at `at` are, least significant first.
pub open spec fn read_le32(bytes: Seq<u8>, at: int) -> u32 {
    (bytes[at] + bytes[at + 1] * 0x100 + bytes[at + 2] * 0x1_0000 + bytes[at + 3]
        * 0x100_0000) as u32
}

/// The number the eight bytes at `at` are, least significant first.
pub open spec fn read_le64(bytes: Seq<u8>, at: int) -> u64 {
    (read_le32(bytes, at) + read_le32(bytes, at + 4) * 0x1_0000_0000) as u64
}

/// The four bytes of `value`, most significant first.
pub open spec fn be32(value: u32) -> Seq<u8> {
    seq![
        (value / 0x100_0000) as u8,
        (value / 0x1_0000 % 256) as u8,
        (value / 0x100 % 256) as u8,
        (value % 256) as u8,
    ]
}

/// The number the first four bytes are, most significant first.
pub open spec fn read_be32(bytes: Seq<u8>) -> u32 {
    (bytes[0] * 0x100_0000 + bytes[1] * 0x1_0000 + bytes[2] * 0x100 + bytes[3]) as u32
}

/// Four bytes written out read back as the number that was written, wherever they lie.
pub proof fn lemma_le32_reads_back(value: u32, bytes: Seq<u8>, at: int)
    requires
        0 <= at,
        at + 4 <= bytes.len(),
        bytes.subrange(at, at + 4) == le32(value),
    ensures
        read_le32(bytes, at) == value,
{
    let s = bytes.subrange(at, at + 4);
    assert(bytes[at] == s[0] && bytes[at + 1] == s[1] && bytes[at + 2] == s[2] && bytes[at + 3]
        == s[3]);
}

/// Eight bytes written out read back as the number that was written, wherever they lie.
pub proof fn lemma_le64_reads_back(value: u64, bytes: Seq<u8>, at: int)
    requires
        0 <= at,
        at + 8 <= bytes.len(),
        bytes.subrange(at, at + 8) == le64(value),
    ensures
        read_le64(bytes, at) == value,
{
    let s = bytes.subrange(at, at + 8);
    assert(bytes.subrange(at, at + 4) =~= s.take(4));
    assert(s.take(4) =~= le32((value % 0x1_0000_0000) as u32));
    assert(bytes.subrange(at + 4, at + 8) =~= s.skip(4));
    assert(s.skip(4) =~= le32((value / 0x1_0000_0000) as u32));
    lemma_le32_reads_back((value % 0x1_0000_0000) as u32, bytes, at);
    lemma_le32_reads_back((value / 0x1_0000_0000) as u32, bytes, at + 4);
}

/// Numbers count in bytes: each byte is worth 256 times the one in front of it.
#[verifier::rlimit(30)]
pub proof fn lemma_le32_is_read(bytes: Seq<u8>, at: int)
    requires
        0 <= at,
        at + 4 <= bytes.len(),
    ensures
        read_le32(bytes, at) == bytes[at] + 256 * (bytes[at + 1] + 256 * (bytes[at + 2] + 256
            * bytes[at + 3])),
        bytes.subrange(at, at + 4) == le32(read_le32(bytes, at)),
{
    let value = read_le32(bytes, at);
    lemma_in_256s(
        bytes[at] as int,
        bytes[at + 1] as int,
        bytes[at + 2] as int,
        bytes[at + 3] as int,
    );
    let read = le32(value);
    assert(read[0] == bytes[at]);
    assert(read[1] == bytes[at + 1]);
    assert(read[2] == bytes[at + 2]);
    assert(read[3] == bytes[at + 3]);
    assert(bytes.subrange(at, at + 4) =~= read);
}

proof fn lemma_in_256s(a: int, b: int, c: int, d: int)
    requires
        0 <= a < 256,
        0 <= b < 256,
        0 <= c < 256,
        0 <= d < 256,
    ensures
        ({
            let value = a + b * 0x100 + c * 0x1_0000 + d * 0x100_0000;
            &&& 0 <= value < 0x1_0000_0000
            &&& value % 256 == a
            &&& value / 0x100 % 256 == b
            &&& value / 0x1_0000 % 256 == c
            &&& value / 0x100_0000 == d
            &&& value / 0x100_0000 % 256 == d
        }),
{
    let value = a + b * 0x100 + c * 0x1_0000 + d * 0x100_0000;
    assert(value == (b + c * 0x100 + d * 0x1_0000) * 0x100 + a);
    assert(value / 0x100 == b + c * 0x100 + d * 0x1_0000);
    assert(value / 0x1_0000 == c + d * 0x100);
    assert(value / 0x100_0000 == d);
}

/// And so do the longer ones.
#[verifier::rlimit(30)]
pub proof fn lemma_le64_is_read(bytes: Seq<u8>, at: int)
    requires
        0 <= at,
        at + 8 <= bytes.len(),
    ensures
        read_le64(bytes, at) == read_le32(bytes, at) + 0x1_0000_0000 * read_le32(bytes, at + 4),
        bytes.subrange(at, at + 8) == le64(read_le64(bytes, at)),
{
    let low = read_le32(bytes, at);
    let high = read_le32(bytes, at + 4);
    let value = read_le64(bytes, at);
    assert(bytes.subrange(at, at + 4) == le32(low)) by {
        lemma_le32_is_read(bytes, at);
    }
    assert(bytes.subrange(at + 4, at + 8) == le32(high)) by {
        lemma_le32_is_read(bytes, at + 4);
    }
    assert(low + 0x1_0000_0000 * high <= u64::MAX);
    assert((value % 0x1_0000_0000) as u32 == low);
    assert((value / 0x1_0000_0000) as u32 == high);
    assert(bytes.subrange(at, at + 8) =~= bytes.subrange(at, at + 4) + bytes.subrange(
        at + 4,
        at + 8,
    ));
}

/// Four bytes written out most significant first read back as the number that was written.
pub proof fn lemma_be32_reads_back(value: u32, bytes: Seq<u8>)
    requires
        bytes.len() >= 4,
        bytes.take(4) == be32(value),
    ensures
        read_be32(bytes) == value,
{
    let s = bytes.take(4);
    assert(bytes[0] == s[0] && bytes[1] == s[1] && bytes[2] == s[2] && bytes[3] == s[3]);
}

/// Appends the four bytes of `value` to `out`, least significant first.
pub fn put_le32(out: &mut Vec<u8>, value: u32)
    ensures
        final(out)@ == old(out)@ + le32(value),
{
    out.push((value % 256) as u8);
    out.push((value / 0x100 % 256) as u8);
    out.push((value / 0x1_0000 % 256) as u8);
    out.push((value / 0x100_0000) as u8);
}

/// Appends the eight bytes of `value` to `out`, least significant first.
pub fn put_le64(out: &mut Vec<u8>, value: u64)
    ensures
        final(out)@ == old(out)@ + le64(value),
{
    put_le32(out, (value % 0x1_0000_0000) as u32);
    put_le32(out, (value / 0x1_0000_0000) as u32);
}

/// The number the four bytes of `bytes` at `at` are, least significant first.
pub fn get_le32(bytes: &[u8], at: usize) -> (value: u32)
    requires
        at + 4 <= bytes@.len(),
    ensures
        value == read_le32(bytes@, at as int),
{
    bytes[at] as u32 + bytes[at + 1] as u32 * 0x100 + bytes[at + 2] as u32 * 0x1_0000 + bytes[at
        + 3] as u32 * 0x100_0000
}

/// The number the eight bytes of `bytes` at `at` are, least significant first.
pub fn get_le64(bytes: &[u8], at: usize) -> (value: u64)
    requires
        at + 8 <= bytes@.len(),
    ensures
        value == read_le64(bytes@, at as int),
{
    assert(bytes.len() >= at + 8);
    get_le32(bytes, at) as u64 + get_le32(bytes, at + 4) as u64 * 0x1_0000_0000
}

/// The number the first four bytes of `bytes` are, most significant first.
pub fn get_be32(bytes: &[u8]) -> (value: u32)
    requires
        bytes@.len() >= 4,
    ensures
        value == read_be32(bytes@),
{
    bytes[0] as u32 * 0x100_0000 + bytes[1] as u32 * 0x1_0000 + bytes[2] as u32 * 0x100
        + bytes[3] as u32
}

/// Appends `bytes` to `out`.
pub fn put(out: &mut Vec<u8>, bytes: &[u8])
    ensures
        final(out)@ == old(out)@ + bytes@,
{
    out.extend_from_slice(bytes);
    assert(out@ =~= old(out)@ + bytes@);
}

/// Appends `count` bytes of `byte` to `out`.
pub fn put_run(out: &mut Vec<u8>, byte: u8, count: usize)
    ensures
        final(out)@ == old(out)@ + Seq::new(count as nat, |i: int| byte),
{
    let mut at: usize = 0;
    while at < count
        invariant
            at <= count,
            out@ == old(out)@ + Seq::new(at as nat, |i: int| byte),
        decreases count - at,
    {
        out.push(byte);
        at += 1;
    }
}

/// The bytes of `bytes` as an array of their own length.
pub fn fixed<const N: usize>(bytes: &[u8]) -> (array: [u8; N])
    requires
        bytes@.len() == N,
    ensures
        array@ == bytes@,
{
    let mut array: [u8; N] = vstd::array::array_fill_for_copy_types::<u8, N>(0);
    let mut at: usize = 0;
    while at < N
        invariant
            at <= N,
            bytes@.len() == N,
            forall|i: int| 0 <= i < at ==> array@[i] == bytes@[i],
        decreases N - at,
    {
        array[at] = bytes[at];
        at += 1;
    }
    assert(array@ =~= bytes@);
    array
}

/// Whether `bytes` begins with `prefix`.
pub fn begins_with(bytes: &[u8], prefix: &[u8]) -> (begins: bool)
    ensures
        begins == (prefix@.len() <= bytes@.len() && bytes@.take(prefix@.len() as int) == prefix@),
{
    if bytes.len() < prefix.len() {
        return false;
    }
    let mut at: usize = 0;
    while at < prefix.len()
        invariant
            at <= prefix@.len() <= bytes@.len(),
            forall|i: int| 0 <= i < at ==> bytes@[i] == prefix@[i],
        decreases prefix@.len() - at,
    {
        if bytes[at] != prefix[at] {
            assert(bytes@.take(prefix@.len() as int)[at as int] != prefix@[at as int]);
            return false;
        }
        at += 1;
    }
    assert(bytes@.take(prefix@.len() as int) =~= prefix@);
    true
}

} // verus!
