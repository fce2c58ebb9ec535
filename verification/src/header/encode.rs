//! Writing a header block.

use super::varint::encode_u32;
use super::{Fields, Header, HeaderError, MAX_MESSAGE_LEN};
use crate::bytes::{fixed, put, put_run};
use crate::id::AudioId;
use vstd::prelude::*;
use vstd::string::StringExecFns;

verus! {

/// Why a header block could not be written.
#[derive(Debug, Clone, Copy, PartialEq, Eq, Structural)]
#[non_exhaustive]
pub enum EncodeHeaderError {
    /// The chapter starts leave no room for the rest of the message.
    TooManyChapters,
}

impl EncodeHeaderError {
    /// What the error says.
    pub open spec fn said(self) -> Seq<char> {
        "TAF header chapter list does not fit a 4092-byte header message"@
    }

    /// What went wrong, in words.
    pub fn message(&self) -> (text: String)
        ensures
            text@ == self.said(),
    {
        String::from_str("TAF header chapter list does not fit a 4092-byte header message")
    }
}

/// Numbers packed one behind the other.
pub open spec fn pack(values: Seq<u32>) -> Seq<u8>
    decreases values.len(),
{
    if values.len() == 0 {
        Seq::empty()
    } else {
        pack(values.drop_last()) + super::varint::varint(values.last() as nat)
    }
}

/// The field of the chapter starts, which is not there where there are none.
pub open spec fn chapter_field(chapters: Seq<u32>) -> Seq<u8> {
    if chapters.len() == 0 {
        Seq::empty()
    } else {
        seq![0x22u8] + super::varint::varint(pack(chapters).len()) + pack(chapters)
    }
}

/// The fields of `header` in front of the fill.
pub open spec fn stated(header: Header) -> Seq<u8> {
    seq![0x0au8] + super::varint::varint(20) + header.sha1 + seq![0x10u8] + super::varint::varint(
        header.data_length as nat,
    ) + seq![0x18u8] + super::varint::varint(header.audio_id.0 as nat) + chapter_field(
        header.chapters,
    )
}

/// The bytes of a fill that is to take up `room` bytes with its key and its length: as many as fit,
/// which is all of them but for the one room where a longer fill needs a longer length.
pub open spec fn fill_len(room: nat) -> nat {
    if room <= 129 {
        (room - 2) as nat
    } else if room == 130 {
        127
    } else {
        (room - 3) as nat
    }
}

/// A field of `len` zeros.
pub open spec fn fill_field(len: nat) -> Seq<u8> {
    seq![0x2au8] + super::varint::varint(len) + Seq::new(len, |i: int| 0u8)
}

/// The message that states `header`.
pub open spec fn header_message(header: Header) -> Seq<u8> {
    stated(header) + fill_field(fill_len((4092 - stated(header).len()) as nat))
}

/// The block that states `header`: the length of the message, the message, and zeros.
pub open spec fn header_block(header: Header) -> Seq<u8> {
    let message = header_message(header);
    crate::bytes::be32(message.len() as u32) + message + Seq::new(
        (4092 - message.len()) as nat,
        |i: int| 0u8,
    )
}

/// Whether the message of `header` has room for a fill.
pub open spec fn fits(header: Header) -> bool {
    stated(header).len() + 2 <= 4092
}

proof fn lemma_small_varint(value: nat)
    requires
        value < 0x4000,
    ensures
        super::varint::varint(value).len() == (if value < 128 {
            1nat
        } else {
            2nat
        }),
{
    reveal_with_fuel(super::varint::varint, 3);
}

proof fn lemma_varint_len(value: u32)
    ensures
        super::varint::varint(value as nat).len() <= 5,
{
    reveal_with_fuel(super::varint::varint, 6);
}

proof fn lemma_pack_len(values: Seq<u32>)
    ensures
        pack(values).len() <= 5 * values.len(),
    decreases values.len(),
{
    if values.len() > 0 {
        lemma_pack_len(values.drop_last());
        lemma_varint_len(values.last());
    }
}

/// A header of eight hundred chapters or fewer fits its block, wherever they start.
pub proof fn lemma_few_chapters_fit(header: Header)
    requires
        header.sha1.len() == 20,
        header.chapters.len() <= 800,
    ensures
        fits(header),
{
    lemma_varint_len(header.data_length);
    lemma_varint_len(header.audio_id.0);
    lemma_pack_len(header.chapters);
    lemma_small_varint(20);
    lemma_small_varint(pack(header.chapters).len());
}

proof fn lemma_message_len(header: Header)
    requires
        fits(header),
    ensures
        4091 <= header_message(header).len() <= 4092,
        header_block(header).len() == 4096,
{
    lemma_small_varint(fill_len((4092 - stated(header).len()) as nat));
}

/// A header block is as long as every other one.
pub proof fn lemma_block_len(header: Header)
    requires
        fits(header),
    ensures
        header_block(header).len() == 4096,
{
    lemma_message_len(header);
}

proof fn lemma_pack_grows(values: Seq<u32>, at: int)
    requires
        0 <= at <= values.len(),
    ensures
        pack(values.take(at)).len() <= pack(values).len(),
    decreases values.len() - at,
{
    if at < values.len() {
        lemma_pack_grows(values, at + 1);
        assert(values.take(at + 1).drop_last() =~= values.take(at));
    } else {
        assert(values.take(at) =~= values);
    }
}

proof fn lemma_pack_front(values: Seq<u32>)
    requires
        values.len() > 0,
    ensures
        pack(values) == super::varint::varint(values[0] as nat) + pack(values.skip(1)),
    decreases values.len(),
{
    if values.len() == 1 {
        assert(values.drop_last() =~= Seq::empty());
        assert(values.skip(1) =~= Seq::empty());
        assert(pack(values) =~= super::varint::varint(values[0] as nat) + pack(values.skip(1)));
    } else {
        lemma_pack_front(values.drop_last());
        assert(values.skip(1).drop_last() =~= values.drop_last().skip(1));
        assert(pack(values) =~= super::varint::varint(values[0] as nat) + pack(values.skip(1)));
    }
}

/// Numbers that were packed read back as the numbers, every one of them.
pub proof fn lemma_packed_reads_back(values: Seq<u32>)
    ensures
        super::packed(pack(values)) == values,
        super::packed_stop(pack(values)) is None,
    decreases values.len(),
{
    if values.len() == 0 {
        super::varint::lemma_varint_end(pack(values), 0, 0);
        assert(super::packed(pack(values)) =~= values);
    } else {
        lemma_pack_front(values);
        let rest = pack(values.skip(1));
        let front = super::varint::varint(values[0] as nat);
        super::varint::lemma_varint_reads_back(values[0], rest);
        assert(pack(values).skip(front.len() as int) =~= rest);
        lemma_packed_reads_back(values.skip(1));
        assert(seq![values[0]] + values.skip(1) =~= values);
    }
}

proof fn lemma_key(key: u8, rest: Seq<u8>)
    requires
        key < 128,
    ensures
        super::varint::read_varint32(seq![key] + rest) == Ok::<(nat, nat), HeaderError>(
            (key as nat, 1),
        ),
        (seq![key] + rest).skip(1) == rest,
{
    super::varint::lemma_varint_reads_back(key as u32, rest);
    assert(super::varint::varint(key as nat) =~= seq![key]);
    assert((seq![key] + rest).skip(1) =~= rest);
}

proof fn lemma_delimited(payload: Seq<u8>, rest: Seq<u8>)
    requires
        payload.len() <= 0xffff_ffff,
    ensures
        super::delimited(super::varint::varint(payload.len()) + payload + rest) == Ok::<
            (Seq<u8>, Seq<u8>),
            HeaderError,
        >((payload, rest)),
{
    let front = super::varint::varint(payload.len());
    let buf = front + payload + rest;
    super::varint::lemma_varint_reads_back(payload.len() as u32, payload + rest);
    assert(buf =~= front + (payload + rest));
    assert(buf.subrange(front.len() as int, (front.len() + payload.len()) as int) =~= payload);
    assert(buf.skip((front.len() + payload.len()) as int) =~= rest);
}

/// What a header takes up in front of the fill: 24 bytes, its two numbers, and its chapters, where there
/// are any, behind how many bytes they are.
pub proof fn lemma_what_a_header_takes_up(header: Header, start: u32)
    requires
        header.sha1.len() == 20,
    ensures
        stated(header).len() == 24 + super::varint::varint(header.data_length as nat).len()
            + super::varint::varint(header.audio_id.0 as nat).len() + (if header.chapters.len() == 0 {
            0nat
        } else {
            1 + super::varint::varint(pack(header.chapters).len()).len() + pack(header.chapters).len()
        }),
        fits(header) <==> stated(header).len() <= 4090,
        pack(Seq::empty()).len() == 0,
        pack(header.chapters.push(start)) == pack(header.chapters) + super::varint::varint(
            start as nat,
        ),
{
    assert(header.chapters.push(start).drop_last() =~= header.chapters);
    lemma_small_varint(20);
}

proof fn lemma_meets_sha1(sha1: Seq<u8>, rest: Seq<u8>, met: Fields)
    requires
        sha1.len() == 20,
        met.sha1 is None,
    ensures
        super::fields_read(seq![0x0au8] + super::varint::varint(20) + sha1 + rest, met)
            == super::fields_read(rest, Fields { sha1: Some(sha1), ..met }),
{
    let value = super::varint::varint(20) + sha1 + rest;
    lemma_key(0x0a, value);
    lemma_delimited(sha1, rest);
    assert(seq![0x0au8] + super::varint::varint(20) + sha1 + rest =~= seq![0x0au8] + value);
}

proof fn lemma_meets_num_bytes(len: u32, rest: Seq<u8>, met: Fields)
    requires
        met.num_bytes is None,
    ensures
        super::fields_read(seq![0x10u8] + super::varint::varint(len as nat) + rest, met)
            == super::fields_read(rest, Fields { num_bytes: Some(len), ..met }),
{
    let front = super::varint::varint(len as nat);
    lemma_key(0x10, front + rest);
    super::varint::lemma_varint_reads_back(len, rest);
    assert((front + rest).skip(front.len() as int) =~= rest);
    assert(seq![0x10u8] + front + rest =~= seq![0x10u8] + (front + rest));
}

proof fn lemma_meets_audio_id(id: u32, rest: Seq<u8>, met: Fields)
    requires
        met.audio_id is None,
    ensures
        super::fields_read(seq![0x18u8] + super::varint::varint(id as nat) + rest, met)
            == super::fields_read(rest, Fields { audio_id: Some(id), ..met }),
{
    let front = super::varint::varint(id as nat);
    lemma_key(0x18, front + rest);
    super::varint::lemma_varint_reads_back(id, rest);
    assert((front + rest).skip(front.len() as int) =~= rest);
    assert(seq![0x18u8] + front + rest =~= seq![0x18u8] + (front + rest));
}

proof fn lemma_meets_chapters(chapters: Seq<u32>, rest: Seq<u8>, met: Fields)
    requires
        met.chapters is None,
        pack(chapters).len() <= 0xffff_ffff,
    ensures
        super::fields_read(chapter_field(chapters) + rest, met) == super::fields_read(
            rest,
            Fields {
                chapters: if chapters.len() == 0 {
                    None
                } else {
                    Some(pack(chapters))
                },
                ..met
            },
        ),
{
    if chapters.len() == 0 {
        assert(chapter_field(chapters) + rest =~= rest);
    } else {
        let payload = pack(chapters);
        let value = super::varint::varint(payload.len()) + payload + rest;
        lemma_key(0x22, value);
        lemma_delimited(payload, rest);
        assert(chapter_field(chapters) + rest =~= seq![0x22u8] + value);
    }
}

proof fn lemma_meets_fill(len: nat, met: Fields)
    requires
        !met.fill,
        len <= 0xffff_ffff,
    ensures
        super::fields_read(fill_field(len), met) == Ok::<Fields, HeaderError>(
            Fields { fill: true, ..met },
        ),
{
    let zeros = Seq::new(len, |i: int| 0u8);
    let value = super::varint::varint(len) + zeros + Seq::<u8>::empty();
    lemma_key(0x2a, value);
    lemma_delimited(zeros, Seq::empty());
    assert(fill_field(len) =~= seq![0x2au8] + value);
    assert(super::fields_read(Seq::empty(), Fields { fill: true, ..met }) == Ok::<
        Fields,
        HeaderError,
    >(Fields { fill: true, ..met }));
}

/// A header block that was written reads back as what was put into it.
#[verifier::rlimit(30)]
pub proof fn lemma_header_reads_back(header: Header)
    requires
        header.sha1.len() == 20,
        fits(header),
    ensures
        super::read_header(header_block(header)) == Ok::<Header, HeaderError>(header),
{
    lemma_message_len(header);
    let message = header_message(header);
    let block = header_block(header);
    let len = message.len() as u32;
    assert(block.take(4) =~= crate::bytes::be32(len));
    crate::bytes::lemma_be32_reads_back(len, block);
    assert(block.subrange(4, 4 + len) =~= message);
    let fill = fill_field(fill_len((4092 - stated(header).len()) as nat));
    let r4 = chapter_field(header.chapters) + fill;
    let r3 = seq![0x18u8] + super::varint::varint(header.audio_id.0 as nat) + r4;
    let r2 = seq![0x10u8] + super::varint::varint(header.data_length as nat) + r3;
    let r1 = seq![0x0au8] + super::varint::varint(20) + header.sha1 + r2;
    assert(message =~= r1);
    let f0 = super::no_fields();
    let f1 = Fields { sha1: Some(header.sha1), ..f0 };
    let f2 = Fields { num_bytes: Some(header.data_length), ..f1 };
    let f3 = Fields { audio_id: Some(header.audio_id.0), ..f2 };
    let f4 = Fields {
        chapters: if header.chapters.len() == 0 {
            None
        } else {
            Some(pack(header.chapters))
        },
        ..f3
    };
    lemma_meets_sha1(header.sha1, r2, f0);
    lemma_meets_num_bytes(header.data_length, r3, f1);
    lemma_meets_audio_id(header.audio_id.0, r4, f2);
    lemma_meets_chapters(header.chapters, fill, f3);
    lemma_meets_fill(fill_len((4092 - stated(header).len()) as nat), f4);
    lemma_packed_reads_back(header.chapters);
    assert(super::packed(Seq::empty()) =~= Seq::empty()) by {
        super::varint::lemma_varint_end(Seq::empty(), 0, 0);
    }
    if header.chapters.len() == 0 {
        assert(header.chapters =~= Seq::empty());
    }
}

/// Appends `value` as a varint to `out`.
fn put_varint(out: &mut Vec<u8>, value: u32)
    ensures
        final(out)@ == old(out)@ + super::varint::varint(value as nat),
{
    let mut buf: [u8; 5] = [0; 5];
    put(out, encode_u32(value, &mut buf));
}

/// The header block of an audio region of `data_length` bytes that hashes to `sha1`, with the audio
/// id `audio_id` and the chapters that start at the blocks `chapters`.
#[verifier::rlimit(30)]
pub fn encode_header(
    sha1: &[u8; 20],
    data_length: u32,
    audio_id: AudioId,
    chapters: &[u32],
) -> (result: Result<[u8; 4096], EncodeHeaderError>)
    ensures
        ({
            let header = Header { sha1: sha1@, data_length, audio_id, chapters: chapters@ };
            match result {
                Ok(block) => fits(header) && block@ == header_block(header),
                Err(error) => !fits(header) && error == EncodeHeaderError::TooManyChapters,
            }
        }),
{
    let ghost header = Header { sha1: sha1@, data_length, audio_id, chapters: chapters@ };
    let mut packed: Vec<u8> = Vec::new();
    let mut at: usize = 0;
    assert(chapters@.take(0) =~= Seq::empty());
    while at < chapters.len()
        invariant
            at <= chapters@.len(),
            packed@ == pack(chapters@.take(at as int)),
            packed@.len() <= 4092,
            header.chapters == chapters@,
        decreases chapters@.len() - at,
    {
        put_varint(&mut packed, chapters[at]);
        at += 1;
        assert(chapters@.take(at as int).drop_last() =~= chapters@.take(at - 1));
        if packed.len() > MAX_MESSAGE_LEN {
            proof {
                lemma_pack_grows(chapters@, at as int);
            }
            return Err(EncodeHeaderError::TooManyChapters);
        }
    }
    assert(chapters@.take(at as int) =~= chapters@);
    let mut message: Vec<u8> = Vec::new();
    message.push(0x0a);
    put_varint(&mut message, 20);
    put(&mut message, sha1.as_slice());
    message.push(0x10);
    put_varint(&mut message, data_length);
    message.push(0x18);
    put_varint(&mut message, audio_id.get());
    if chapters.len() > 0 {
        message.push(0x22);
        put_varint(&mut message, packed.len() as u32);
        put(&mut message, packed.as_slice());
    }
    assert(message@ =~= stated(header));
    if message.len() > MAX_MESSAGE_LEN - 2 {
        return Err(EncodeHeaderError::TooManyChapters);
    }
    let room: usize = MAX_MESSAGE_LEN - message.len();
    let fill: usize = if room <= 129 {
        room - 2
    } else if room == 130 {
        127
    } else {
        room - 3
    };
    proof {
        lemma_message_len(header);
        lemma_small_varint(fill as nat);
    }
    message.push(0x2a);
    put_varint(&mut message, fill as u32);
    put_run(&mut message, 0, fill);
    assert(message@ =~= header_message(header));
    let mut block: Vec<u8> = Vec::new();
    let len: u32 = message.len() as u32;
    block.push((len / 0x100_0000) as u8);
    block.push((len / 0x1_0000 % 256) as u8);
    block.push((len / 0x100 % 256) as u8);
    block.push((len % 256) as u8);
    put(&mut block, message.as_slice());
    put_run(&mut block, 0, MAX_MESSAGE_LEN - message.len());
    assert(block@ =~= header_block(header));
    Ok(fixed::<4096>(block.as_slice()))
}

} // verus!
