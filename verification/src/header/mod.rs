//! The 4096-byte header block that starts every TAF, read in place and written out.
//!
//! A header block is a four-byte big-endian length, a protobuf message of that length, and whatever
//! fills the block up behind it. The message states the SHA-1 of the audio region, its length, the
//! audio id, the blocks the chapters start at, and a fill that makes the message as long as it is.

pub mod encode;
pub mod varint;

pub use encode::{encode_header, EncodeHeaderError};

use crate::bytes::{fixed, get_be32};
use crate::id::{AudioId, BlockIndex};
use crate::text::around;
use varint::{decode_u32, decode_u64};
use vstd::prelude::*;
use vstd::slice::slice_subrange;
use vstd::string::StringExecFns;

verus! {

/// The length of a header block, and of every block of the audio region behind it.
pub const BLOCK_LEN: usize = 4096;

/// The bytes of the length in front of the message.
pub const PREFIX_LEN: usize = 4;

/// The longest message a block holds.
pub const MAX_MESSAGE_LEN: usize = 4092;

/// The bytes of a SHA-1.
pub const SHA1_LEN: usize = 20;

/// The field of the SHA-1 of the audio region.
pub const FIELD_SHA1: u32 = 1;

/// The field of the length of the audio region.
pub const FIELD_NUM_BYTES: u32 = 2;

/// The field of the audio id.
pub const FIELD_AUDIO_ID: u32 = 3;

/// The field of the blocks the chapters start at.
pub const FIELD_TRACK_PAGE_NUMS: u32 = 4;

/// The field of the bytes that fill the message up.
pub const FIELD_FILL: u32 = 5;

/// The wire type of a varint.
pub const WIRE_VARINT: u32 = 0;

/// The wire type of eight bytes.
pub const WIRE_FIXED64: u32 = 1;

/// The wire type of a length and that many bytes.
pub const WIRE_LEN_DELIMITED: u32 = 2;

/// The wire type of four bytes.
pub const WIRE_FIXED32: u32 = 5;

/// Why a header block could not be read.
#[derive(Debug, Clone, Copy, PartialEq, Eq, Structural)]
#[non_exhaustive]
pub enum HeaderError {
    /// The block is not 4096 bytes long.
    WrongBlockLen,
    /// The length in front of the message does not fit the block.
    PrefixOutOfRange,
    /// A field reaches past the end of the message, or the hash is not 20 bytes long.
    TruncatedField,
    /// A field that has to be there is not.
    MissingField(u32),
    /// A field is there more than once.
    DuplicateField(u32),
    /// A field has a wire type that is not its own, or one nothing can be read by.
    UnexpectedWireType(u32),
    /// A varint holds more bits than its field has.
    VarintOverflow,
    /// A field holds a number it cannot state.
    FieldOutOfRange(u32),
}

impl HeaderError {
    /// What the error says.
    pub open spec fn said(self) -> Seq<char> {
        match self {
            HeaderError::WrongBlockLen => "TAF header block is not 4096 bytes long"@,
            HeaderError::PrefixOutOfRange => "TAF header message is longer than 4092 bytes"@,
            HeaderError::TruncatedField => {
                "a TAF header field reaches past the end of the header message"@
            },
            HeaderError::MissingField(field) => "TAF header field "@ + crate::text::decimal(
                field as nat,
            ) + " is missing"@,
            HeaderError::DuplicateField(field) => "TAF header field "@ + crate::text::decimal(
                field as nat,
            ) + " appears more than once"@,
            HeaderError::UnexpectedWireType(field) => "TAF header field "@ + crate::text::decimal(
                field as nat,
            ) + " has an unreadable wire type"@,
            HeaderError::VarintOverflow => "a TAF header varint is wider than its field"@,
            HeaderError::FieldOutOfRange(field) => "TAF header field "@ + crate::text::decimal(
                field as nat,
            ) + " holds an out-of-range value"@,
        }
    }

    /// What went wrong, in words.
    pub fn message(&self) -> (text: String)
        ensures
            text@ == self.said(),
    {
        match *self {
            HeaderError::WrongBlockLen => String::from_str(
                "TAF header block is not 4096 bytes long",
            ),
            HeaderError::PrefixOutOfRange => String::from_str(
                "TAF header message is longer than 4092 bytes",
            ),
            HeaderError::TruncatedField => String::from_str(
                "a TAF header field reaches past the end of the header message",
            ),
            HeaderError::MissingField(field) => around(
                "TAF header field ",
                field as u64,
                " is missing",
            ),
            HeaderError::DuplicateField(field) => around(
                "TAF header field ",
                field as u64,
                " appears more than once",
            ),
            HeaderError::UnexpectedWireType(field) => around(
                "TAF header field ",
                field as u64,
                " has an unreadable wire type",
            ),
            HeaderError::VarintOverflow => String::from_str(
                "a TAF header varint is wider than its field",
            ),
            HeaderError::FieldOutOfRange(field) => around(
                "TAF header field ",
                field as u64,
                " holds an out-of-range value",
            ),
        }
    }
}

/// What a header block states.
#[verifier::ext_equal]
pub struct Header {
    /// The SHA-1 of the audio region.
    pub sha1: Seq<u8>,
    /// The bytes of the audio region.
    pub data_length: u32,
    /// The audio id.
    pub audio_id: AudioId,
    /// The blocks the chapters start at, in order.
    pub chapters: Seq<u32>,
}

/// The fields of a message that have been met.
#[verifier::ext_equal]
pub struct Fields {
    /// The SHA-1 of the audio region.
    pub sha1: Option<Seq<u8>>,
    /// The bytes of the audio region.
    pub num_bytes: Option<u32>,
    /// The audio id.
    pub audio_id: Option<u32>,
    /// The chapter starts as they are packed.
    pub chapters: Option<Seq<u8>>,
    /// Whether the fill has been met.
    pub fill: bool,
}

/// No field at all.
pub open spec fn no_fields() -> Fields {
    Fields { sha1: None, num_bytes: None, audio_id: None, chapters: None, fill: false }
}

/// A length and that many bytes at the front of `buf`: the bytes, and what lies behind them.
pub open spec fn delimited(buf: Seq<u8>) -> Result<(Seq<u8>, Seq<u8>), HeaderError> {
    match varint::read_varint32(buf) {
        Err(error) => Err(error),
        Ok((len, at)) => if buf.len() < at + len {
            Err(HeaderError::TruncatedField)
        } else {
            Ok((buf.subrange(at as int, (at + len) as int), buf.skip((at + len) as int)))
        },
    }
}

/// What lies behind the first `width` bytes of `buf`.
pub open spec fn behind(buf: Seq<u8>, width: nat) -> Result<Seq<u8>, HeaderError> {
    if buf.len() < width {
        Err(HeaderError::TruncatedField)
    } else {
        Ok(buf.skip(width as int))
    }
}

/// What lies behind a field nobody reads, whose value `buf` begins with.
pub open spec fn skipped(field: u32, wire: u32, buf: Seq<u8>) -> Result<Seq<u8>, HeaderError> {
    if wire == WIRE_VARINT {
        match varint::read_varint(buf) {
            Err(error) => Err(error),
            Ok((_value, len)) => Ok(buf.skip(len as int)),
        }
    } else if wire == WIRE_FIXED64 {
        behind(buf, 8)
    } else if wire == WIRE_LEN_DELIMITED {
        match delimited(buf) {
            Err(error) => Err(error),
            Ok((_payload, rest)) => Ok(rest),
        }
    } else if wire == WIRE_FIXED32 {
        behind(buf, 4)
    } else {
        Err(HeaderError::UnexpectedWireType(field))
    }
}

/// One field with the key `key`, whose value `buf` begins with: what has been met with it, and what
/// lies behind it. A field that is stated in a wire type other than its own is refused, then one
/// that cannot be read, then one whose value it cannot have, and then one that was met before.
pub open spec fn field_read(key: u32, buf: Seq<u8>, met: Fields) -> Result<
    (Fields, Seq<u8>),
    HeaderError,
> {
    let field = key / 8;
    let wire = key % 8;
    if field == FIELD_SHA1 {
        if wire != WIRE_LEN_DELIMITED {
            Err(HeaderError::UnexpectedWireType(field))
        } else {
            match delimited(buf) {
                Err(error) => Err(error),
                Ok((payload, rest)) => if payload.len() != 20 {
                    Err(HeaderError::TruncatedField)
                } else if met.sha1 is Some {
                    Err(HeaderError::DuplicateField(field))
                } else {
                    Ok((Fields { sha1: Some(payload), ..met }, rest))
                },
            }
        }
    } else if field == FIELD_NUM_BYTES {
        if wire != WIRE_VARINT {
            Err(HeaderError::UnexpectedWireType(field))
        } else {
            match varint::read_varint(buf) {
                Err(error) => Err(error),
                Ok((value, len)) => if value > 0xffff_ffff {
                    Err(HeaderError::FieldOutOfRange(field))
                } else if met.num_bytes is Some {
                    Err(HeaderError::DuplicateField(field))
                } else {
                    Ok((Fields { num_bytes: Some(value as u32), ..met }, buf.skip(len as int)))
                },
            }
        }
    } else if field == FIELD_AUDIO_ID {
        if wire != WIRE_VARINT {
            Err(HeaderError::UnexpectedWireType(field))
        } else {
            match varint::read_varint32(buf) {
                Err(error) => Err(error),
                Ok((value, len)) => if met.audio_id is Some {
                    Err(HeaderError::DuplicateField(field))
                } else {
                    Ok((Fields { audio_id: Some(value as u32), ..met }, buf.skip(len as int)))
                },
            }
        }
    } else if field == FIELD_TRACK_PAGE_NUMS {
        if wire != WIRE_LEN_DELIMITED {
            Err(HeaderError::UnexpectedWireType(field))
        } else {
            match delimited(buf) {
                Err(error) => Err(error),
                Ok((payload, rest)) => if met.chapters is Some {
                    Err(HeaderError::DuplicateField(field))
                } else {
                    Ok((Fields { chapters: Some(payload), ..met }, rest))
                },
            }
        }
    } else if field == FIELD_FILL {
        if wire != WIRE_LEN_DELIMITED {
            Err(HeaderError::UnexpectedWireType(field))
        } else {
            match delimited(buf) {
                Err(error) => Err(error),
                Ok((_payload, rest)) => if met.fill {
                    Err(HeaderError::DuplicateField(field))
                } else {
                    Ok((Fields { fill: true, ..met }, rest))
                },
            }
        }
    } else {
        match skipped(field, wire, buf) {
            Err(error) => Err(error),
            Ok(rest) => Ok((met, rest)),
        }
    }
}

/// Every field of `message` behind those that have been met.
pub open spec fn fields_read(message: Seq<u8>, met: Fields) -> Result<Fields, HeaderError>
    decreases message.len(),
{
    if message.len() == 0 {
        Ok(met)
    } else {
        match varint::read_varint32(message) {
            Err(error) => Err(error),
            Ok((key, len)) => match field_read(key as u32, message.skip(len as int), met) {
                Err(error) => Err(error),
                Ok((met, rest)) => if rest.len() < message.len() {
                    fields_read(rest, met)
                } else {
                    Err(HeaderError::TruncatedField)
                },
            },
        }
    }
}

/// The numbers `bytes` packs, as far as they can be read.
pub open spec fn packed(bytes: Seq<u8>) -> Seq<u32>
    decreases bytes.len(),
{
    match varint::read_varint32(bytes) {
        Ok((value, len)) if 0 < len <= bytes.len() => {
            seq![value as u32] + packed(bytes.skip(len as int))
        },
        _ => Seq::empty(),
    }
}

/// What keeps the rest of `bytes` from being read, where anything does.
pub open spec fn packed_stop(bytes: Seq<u8>) -> Option<HeaderError>
    decreases bytes.len(),
{
    if bytes.len() == 0 {
        None
    } else {
        match varint::read_varint32(bytes) {
            Err(error) => Some(error),
            Ok((_value, len)) => if 0 < len <= bytes.len() {
                packed_stop(bytes.skip(len as int))
            } else {
                None
            },
        }
    }
}

/// What a message states once every field of it has been met.
pub open spec fn header_of(met: Fields) -> Result<Header, HeaderError> {
    let chapters = match met.chapters {
        Some(chapters) => chapters,
        None => Seq::empty(),
    };
    if met.sha1 is None {
        Err(HeaderError::MissingField(FIELD_SHA1))
    } else if met.num_bytes is None {
        Err(HeaderError::MissingField(FIELD_NUM_BYTES))
    } else if met.audio_id is None {
        Err(HeaderError::MissingField(FIELD_AUDIO_ID))
    } else if !met.fill {
        Err(HeaderError::MissingField(FIELD_FILL))
    } else if packed_stop(chapters) is Some {
        Err(packed_stop(chapters)->0)
    } else {
        Ok(
            Header {
                sha1: met.sha1->0,
                data_length: met.num_bytes->0,
                audio_id: AudioId(met.audio_id->0),
                chapters: packed(chapters),
            },
        )
    }
}

/// What the header block `block` states, or the first thing that says it is none.
pub open spec fn read_header(block: Seq<u8>) -> Result<Header, HeaderError> {
    if block.len() != 4096 {
        Err(HeaderError::WrongBlockLen)
    } else {
        let len = crate::bytes::read_be32(block);
        if len > 4092 {
            Err(HeaderError::PrefixOutOfRange)
        } else {
            match fields_read(block.subrange(4, 4 + len), no_fields()) {
                Err(error) => Err(error),
                Ok(met) => header_of(met),
            }
        }
    }
}

proof fn lemma_rest_is_behind(key: u32, buf: Seq<u8>, met: Fields)
    ensures
        field_read(key, buf, met) matches Ok((_met, rest)) ==> rest.len() <= buf.len(),
{
    varint::lemma_varint_end(buf, 0, 0);
}

/// A header block read in place.
#[derive(Debug, Clone, Copy)]
pub struct HeaderView<'a> {
    sha1: [u8; 20],
    data_length: u32,
    audio_id: AudioId,
    chapters: &'a [u8],
    chapter_count: usize,
}

impl<'a> View for HeaderView<'a> {
    type V = Header;

    closed spec fn view(&self) -> Header {
        Header {
            sha1: self.sha1@,
            data_length: self.data_length,
            audio_id: self.audio_id,
            chapters: packed(self.chapters@),
        }
    }
}

/// The fields of a message that have been met, in place.
struct Met<'a> {
    sha1: Option<[u8; 20]>,
    num_bytes: Option<u32>,
    audio_id: Option<u32>,
    chapters: Option<&'a [u8]>,
    fill: bool,
}

impl<'a> View for Met<'a> {
    type V = Fields;

    closed spec fn view(&self) -> Fields {
        Fields {
            sha1: match self.sha1 {
                Some(sha1) => Some(sha1@),
                None => None,
            },
            num_bytes: self.num_bytes,
            audio_id: self.audio_id,
            chapters: match self.chapters {
                Some(chapters) => Some(chapters@),
                None => None,
            },
            fill: self.fill,
        }
    }
}

impl<'a> HeaderView<'a> {
    /// The chapters are numbers that can all be read, and as many as are counted.
    #[verifier::type_invariant]
    spec fn well_formed(self) -> bool {
        &&& packed_stop(self.chapters@) is None
        &&& self.chapter_count == packed(self.chapters@).len()
    }

    /// Reads the header block `block`.
    pub fn parse(block: &'a [u8]) -> (result: Result<Self, HeaderError>)
        ensures
            match result {
                Ok(view) => read_header(block@) == Ok::<Header, HeaderError>(view@),
                Err(error) => read_header(block@) == Err::<Header, HeaderError>(error),
            },
    {
        if block.len() != BLOCK_LEN {
            return Err(HeaderError::WrongBlockLen);
        }
        let message_len: u32 = get_be32(block);
        if message_len > 4092 {
            return Err(HeaderError::PrefixOutOfRange);
        }
        Self::read_fields(slice_subrange(block, PREFIX_LEN, PREFIX_LEN + message_len as usize))
    }

    /// Reads every field of the message `message`.
    fn read_fields(message: &'a [u8]) -> (result: Result<Self, HeaderError>)
        ensures
            result matches Ok(view) ==> (fields_read(message@, no_fields()) matches Ok(met)
                && header_of(met) == Ok::<Header, HeaderError>(view@)),
            result matches Err(error) ==> (match fields_read(message@, no_fields()) {
                Err(stopped) => stopped == error,
                Ok(met) => header_of(met) == Err::<Header, HeaderError>(error),
            }),
    {
        let mut met: Met<'a> = Met {
            sha1: None,
            num_bytes: None,
            audio_id: None,
            chapters: None,
            fill: false,
        };
        let mut rest: &'a [u8] = message;
        while rest.len() > 0
            invariant
                fields_read(message@, no_fields()) == fields_read(rest@, met@),
            decreases rest@.len(),
        {
            let (key, len) = match decode_u32(rest) {
                Err(error) => {
                    return Err(error);
                },
                Ok(read) => read,
            };
            let value = slice_subrange(rest, len, rest.len());
            assert(value@ =~= rest@.skip(len as int));
            proof {
                lemma_rest_is_behind(key, value@, met@);
            }
            rest = match met.take(key, value) {
                Err(error) => {
                    return Err(error);
                },
                Ok(tail) => tail,
            };
        }
        let sha1: [u8; 20] = match met.sha1 {
            None => {
                return Err(HeaderError::MissingField(FIELD_SHA1));
            },
            Some(sha1) => sha1,
        };
        let data_length: u32 = match met.num_bytes {
            None => {
                return Err(HeaderError::MissingField(FIELD_NUM_BYTES));
            },
            Some(data_length) => data_length,
        };
        let audio_id: u32 = match met.audio_id {
            None => {
                return Err(HeaderError::MissingField(FIELD_AUDIO_ID));
            },
            Some(audio_id) => audio_id,
        };
        if !met.fill {
            return Err(HeaderError::MissingField(FIELD_FILL));
        }
        let none = slice_subrange(message, 0, 0);
        assert(none@ =~= Seq::empty());
        let chapters: &'a [u8] = match met.chapters {
            None => none,
            Some(chapters) => chapters,
        };
        match count_chapters(chapters) {
            Err(error) => Err(error),
            Ok(chapter_count) => Ok(
                HeaderView {
                    sha1,
                    data_length,
                    audio_id: AudioId::new(audio_id),
                    chapters,
                    chapter_count,
                },
            ),
        }
    }

    /// The SHA-1 of the audio region.
    pub fn sha1(&self) -> (sha1: &[u8; 20])
        ensures
            sha1@ == self@.sha1,
    {
        &self.sha1
    }

    /// The bytes of the audio region.
    pub fn data_length(&self) -> (len: u32)
        ensures
            len == self@.data_length,
    {
        self.data_length
    }

    /// The audio id, which is also the serial number of every Ogg page.
    pub fn audio_id(&self) -> (id: AudioId)
        ensures
            id == self@.audio_id,
    {
        self.audio_id
    }

    /// The blocks the chapters start at, in order.
    pub fn chapter_pages(&self) -> (pages: ChapterPages<'a>)
        ensures
            pages@ == self@.chapters,
    {
        ChapterPages { rest: self.chapters }
    }

    /// How many chapters there are.
    pub fn chapter_count(&self) -> (count: usize)
        ensures
            count == self@.chapters.len(),
    {
        proof {
            use_type_invariant(self);
        }
        self.chapter_count
    }
}

impl<'a> Met<'a> {
    /// Meets the field with the key `key`, whose value `buf` begins with, and hands back what lies
    /// behind it.
    fn take(&mut self, key: u32, buf: &'a [u8]) -> (result: Result<&'a [u8], HeaderError>)
        ensures
            match result {
                Ok(rest) => field_read(key, buf@, old(self)@) == Ok::<
                    (Fields, Seq<u8>),
                    HeaderError,
                >((final(self)@, rest@)),
                Err(error) => field_read(key, buf@, old(self)@) == Err::<
                    (Fields, Seq<u8>),
                    HeaderError,
                >(error),
            },
    {
        let field: u32 = key / 8;
        let wire: u32 = key % 8;
        if field == FIELD_SHA1 {
            if wire != WIRE_LEN_DELIMITED {
                return Err(HeaderError::UnexpectedWireType(field));
            }
            let (payload, rest) = match read_len_delimited(buf) {
                Err(error) => {
                    return Err(error);
                },
                Ok(read) => read,
            };
            if payload.len() != SHA1_LEN {
                return Err(HeaderError::TruncatedField);
            }
            if self.sha1.is_some() {
                return Err(HeaderError::DuplicateField(field));
            }
            self.sha1 = Some(fixed::<20>(payload));
            Ok(rest)
        } else if field == FIELD_NUM_BYTES {
            if wire != WIRE_VARINT {
                return Err(HeaderError::UnexpectedWireType(field));
            }
            let (value, len) = match decode_u64(buf) {
                Err(error) => {
                    return Err(error);
                },
                Ok(read) => read,
            };
            if value > 0xffff_ffff {
                return Err(HeaderError::FieldOutOfRange(field));
            }
            if self.num_bytes.is_some() {
                return Err(HeaderError::DuplicateField(field));
            }
            self.num_bytes = Some(value as u32);
            Ok(advance(buf, len))
        } else if field == FIELD_AUDIO_ID {
            if wire != WIRE_VARINT {
                return Err(HeaderError::UnexpectedWireType(field));
            }
            let (value, len) = match decode_u32(buf) {
                Err(error) => {
                    return Err(error);
                },
                Ok(read) => read,
            };
            if self.audio_id.is_some() {
                return Err(HeaderError::DuplicateField(field));
            }
            self.audio_id = Some(value);
            Ok(advance(buf, len))
        } else if field == FIELD_TRACK_PAGE_NUMS {
            if wire != WIRE_LEN_DELIMITED {
                return Err(HeaderError::UnexpectedWireType(field));
            }
            let (payload, rest) = match read_len_delimited(buf) {
                Err(error) => {
                    return Err(error);
                },
                Ok(read) => read,
            };
            if self.chapters.is_some() {
                return Err(HeaderError::DuplicateField(field));
            }
            self.chapters = Some(payload);
            Ok(rest)
        } else if field == FIELD_FILL {
            if wire != WIRE_LEN_DELIMITED {
                return Err(HeaderError::UnexpectedWireType(field));
            }
            let (_payload, rest) = match read_len_delimited(buf) {
                Err(error) => {
                    return Err(error);
                },
                Ok(read) => read,
            };
            if self.fill {
                return Err(HeaderError::DuplicateField(field));
            }
            self.fill = true;
            Ok(rest)
        } else {
            skip_field(field, wire, buf)
        }
    }
}

/// The blocks the chapters start at that have not been taken yet.
#[derive(Debug, Clone, Copy)]
pub struct ChapterPages<'a> {
    /// The bytes that pack them.
    pub rest: &'a [u8],
}

impl<'a> View for ChapterPages<'a> {
    type V = Seq<u32>;

    open spec fn view(&self) -> Seq<u32> {
        packed(self.rest@)
    }
}

impl<'a> ChapterPages<'a> {
    /// Takes the next chapter start, where there is one left.
    pub fn next(&mut self) -> (start: Option<BlockIndex>)
        ensures
            old(self)@.len() == 0 ==> start is None && *final(self) == *old(self),
            old(self)@.len() > 0 ==> start == Some(BlockIndex(old(self)@[0])) && final(self)@
                == old(self)@.skip(1),
    {
        match decode_u32(self.rest) {
            Err(_error) => None,
            Ok((value, len)) => {
                self.rest = advance(self.rest, len);
                assert(old(self)@.skip(1) =~= self@);
                Some(BlockIndex::new(value))
            },
        }
    }
}

/// How many numbers `chapters` packs.
fn count_chapters(chapters: &[u8]) -> (result: Result<usize, HeaderError>)
    ensures
        match result {
            Ok(count) => packed_stop(chapters@) is None && count == packed(chapters@).len(),
            Err(error) => packed_stop(chapters@) == Some(error),
        },
{
    let mut rest = chapters;
    let mut count: usize = 0;
    let all: usize = chapters.len();
    while rest.len() > 0
        invariant
            packed_stop(chapters@) == packed_stop(rest@),
            packed(chapters@).len() == count + packed(rest@).len(),
            count + rest@.len() <= all,
        decreases rest@.len(),
    {
        match decode_u32(rest) {
            Err(error) => {
                return Err(error);
            },
            Ok((_value, len)) => {
                rest = advance(rest, len);
                count += 1;
            },
        }
    }
    proof {
        varint::lemma_varint_end(rest@, 0, 0);
    }
    Ok(count)
}

/// What lies behind the first `consumed` bytes of `buf`.
fn advance(buf: &[u8], consumed: usize) -> (rest: &[u8])
    requires
        consumed <= buf@.len(),
    ensures
        rest@ == buf@.skip(consumed as int),
{
    let rest = slice_subrange(buf, consumed, buf.len());
    assert(rest@ =~= buf@.skip(consumed as int));
    rest
}

/// A length and that many bytes at the front of `buf`: the bytes, and what lies behind them.
fn read_len_delimited(buf: &[u8]) -> (result: Result<(&[u8], &[u8]), HeaderError>)
    ensures
        match result {
            Ok((payload, rest)) => delimited(buf@) == Ok::<(Seq<u8>, Seq<u8>), HeaderError>(
                (payload@, rest@),
            ),
            Err(error) => delimited(buf@) == Err::<(Seq<u8>, Seq<u8>), HeaderError>(error),
        },
{
    match decode_u32(buf) {
        Err(error) => Err(error),
        Ok((len, at)) => {
            if buf.len() - at < len as usize {
                return Err(HeaderError::TruncatedField);
            }
            let end: usize = at + len as usize;
            Ok((slice_subrange(buf, at, end), advance(buf, end)))
        },
    }
}

/// What lies behind a field nobody reads, whose value `buf` begins with.
fn skip_field(field: u32, wire: u32, buf: &[u8]) -> (result: Result<&[u8], HeaderError>)
    ensures
        match result {
            Ok(rest) => skipped(field, wire, buf@) == Ok::<Seq<u8>, HeaderError>(rest@),
            Err(error) => skipped(field, wire, buf@) == Err::<Seq<u8>, HeaderError>(error),
        },
{
    if wire == WIRE_VARINT {
        match decode_u64(buf) {
            Err(error) => Err(error),
            Ok((_value, len)) => Ok(advance(buf, len)),
        }
    } else if wire == WIRE_FIXED64 {
        split_fixed(buf, 8)
    } else if wire == WIRE_LEN_DELIMITED {
        match read_len_delimited(buf) {
            Err(error) => Err(error),
            Ok((_payload, rest)) => Ok(rest),
        }
    } else if wire == WIRE_FIXED32 {
        split_fixed(buf, 4)
    } else {
        Err(HeaderError::UnexpectedWireType(field))
    }
}

/// What lies behind the first `width` bytes of `buf`, where there are that many.
fn split_fixed(buf: &[u8], width: usize) -> (result: Result<&[u8], HeaderError>)
    ensures
        match result {
            Ok(rest) => behind(buf@, width as nat) == Ok::<Seq<u8>, HeaderError>(rest@),
            Err(error) => behind(buf@, width as nat) == Err::<Seq<u8>, HeaderError>(error),
        },
{
    if buf.len() < width {
        Err(HeaderError::TruncatedField)
    } else {
        Ok(advance(buf, width))
    }
}

/// What a message has to state: the hash, the length, the audio id and the fill, the first of which that
/// is missing is named, and chapters that can all be read. It states what its fields do.
pub proof fn lemma_what_a_header_has_to_state(met: Fields)
    ensures
        met.sha1 is None <==> header_of(met) == Err::<Header, HeaderError>(
            HeaderError::MissingField(1),
        ),
        met.sha1 is Some && met.num_bytes is None <==> header_of(met) == Err::<Header, HeaderError>(
            HeaderError::MissingField(2),
        ),
        met.sha1 is Some && met.num_bytes is Some && met.audio_id is None <==> header_of(met) == Err::<
            Header,
            HeaderError,
        >(HeaderError::MissingField(3)),
        met.sha1 is Some && met.num_bytes is Some && met.audio_id is Some && !met.fill <==> header_of(
            met,
        ) == Err::<Header, HeaderError>(HeaderError::MissingField(5)),
        met.sha1 is Some && met.num_bytes is Some && met.audio_id is Some && met.fill && (met.chapters
            is None || packed_stop(met.chapters->0) is None) <==> header_of(met) is Ok,
        header_of(met) matches Ok(header) ==> {
            &&& header.sha1 == met.sha1->0
            &&& header.data_length == met.num_bytes->0
            &&& header.audio_id.0 == met.audio_id->0
            &&& met.chapters is Some ==> header.chapters == packed(met.chapters->0)
            &&& met.chapters is None ==> header.chapters == Seq::<u32>::empty()
        },
{
    lemma_nothing_packed();
    if met.chapters is Some && packed_stop(met.chapters->0) is Some {
        lemma_a_stop_is_no_missing_field(met.chapters->0);
    }
}

proof fn lemma_nothing_packed()
    ensures
        packed(Seq::empty()) == Seq::<u32>::empty(),
        packed_stop(Seq::empty()) is None,
{
    assert(varint::read_varint32(Seq::<u8>::empty()) is Err);
}

proof fn lemma_a_number_is_no_missing_field(bytes: Seq<u8>, at: nat, value: nat)
    ensures
        varint::varint_from(bytes, at, value) matches Err(error) ==> error
            == HeaderError::VarintOverflow || error == HeaderError::TruncatedField,
    decreases 10 - at,
{
    if at < 10 && at < bytes.len() {
        lemma_a_number_is_no_missing_field(
            bytes,
            at + 1,
            value + (bytes[at as int] % 128) as nat * varint::weight(at),
        );
    }
}

proof fn lemma_a_stop_is_no_missing_field(bytes: Seq<u8>)
    ensures
        packed_stop(bytes) matches Some(error) ==> error == HeaderError::VarintOverflow || error
            == HeaderError::TruncatedField,
    decreases bytes.len(),
{
    lemma_a_number_is_no_missing_field(bytes, 0, 0);
    if bytes.len() > 0 {
        if let Ok((_, len)) = varint::read_varint32(bytes) {
            if 0 < len <= bytes.len() {
                lemma_a_stop_is_no_missing_field(bytes.skip(len as int));
            }
        }
    }
}

/// Fields are read one by one: what a field states is added to what was met, and the rest is read behind
/// it. One that was met before is refused, and so is one stated in another wire type than its own.
pub proof fn lemma_a_field_is_read_for_itself(key: u32, buf: Seq<u8>, met: Fields)
    ensures
        key / 8 == 1 && key % 8 == 2 && met.sha1 is Some && delimited(buf) is Ok && (delimited(
            buf,
        )->Ok_0).0.len() == 20 ==> field_read(key, buf, met) == Err::<(Fields, Seq<u8>), HeaderError>(
            HeaderError::DuplicateField(1),
        ),
        key / 8 == 2 && key % 8 == 0 && met.num_bytes is Some && varint::read_varint32(buf) is Ok
            ==> field_read(key, buf, met) == Err::<(Fields, Seq<u8>), HeaderError>(
            HeaderError::DuplicateField(2),
        ),
        key / 8 == 3 && key % 8 == 0 && met.audio_id is Some && varint::read_varint32(buf) is Ok
            ==> field_read(key, buf, met) == Err::<(Fields, Seq<u8>), HeaderError>(
            HeaderError::DuplicateField(3),
        ),
        key / 8 == 4 && key % 8 == 2 && met.chapters is Some && delimited(buf) is Ok ==> field_read(
            key,
            buf,
            met,
        ) == Err::<(Fields, Seq<u8>), HeaderError>(HeaderError::DuplicateField(4)),
        key / 8 == 5 && key % 8 == 2 && met.fill && delimited(buf) is Ok ==> field_read(
            key,
            buf,
            met,
        ) == Err::<(Fields, Seq<u8>), HeaderError>(HeaderError::DuplicateField(5)),
        (key / 8 == 1 || key / 8 == 4 || key / 8 == 5) && key % 8 != 2 ==> field_read(key, buf, met)
            == Err::<(Fields, Seq<u8>), HeaderError>(HeaderError::UnexpectedWireType(key / 8)),
        (key / 8 == 2 || key / 8 == 3) && key % 8 != 0 ==> field_read(key, buf, met) == Err::<
            (Fields, Seq<u8>),
            HeaderError,
        >(HeaderError::UnexpectedWireType(key / 8)),
        key / 8 == 2 && key % 8 == 0 && varint::read_varint(buf) is Ok && (varint::read_varint(
            buf,
        )->Ok_0).0 >= 0x1_0000_0000 ==> field_read(key, buf, met) == Err::<
            (Fields, Seq<u8>),
            HeaderError,
        >(HeaderError::FieldOutOfRange(2)),
        key / 8 == 1 && key % 8 == 2 && delimited(buf) is Ok && (delimited(buf)->Ok_0).0.len() != 20
            ==> field_read(key, buf, met) == Err::<(Fields, Seq<u8>), HeaderError>(
            HeaderError::TruncatedField,
        ),
        field_read(key, buf, met) matches Ok((next, _rest)) ==> {
            &&& key / 8 != 1 ==> next.sha1 == met.sha1
            &&& key / 8 != 2 ==> next.num_bytes == met.num_bytes
            &&& key / 8 != 3 ==> next.audio_id == met.audio_id
            &&& key / 8 != 4 ==> next.chapters == met.chapters
            &&& key / 8 != 5 ==> next.fill == met.fill
            &&& key / 8 == 1 ==> met.sha1 is None && next.sha1 is Some && next.sha1->0.len() == 20
            &&& key / 8 == 2 ==> met.num_bytes is None && next.num_bytes is Some
            &&& key / 8 == 3 ==> met.audio_id is None && next.audio_id is Some
            &&& key / 8 == 4 ==> met.chapters is None && next.chapters is Some
            &&& key / 8 == 5 ==> !met.fill && next.fill
        },
{
}

/// A field nobody reads is passed over, whatever it states: a number, eight bytes, a length and that many
/// bytes, or four bytes. One in any other wire type is refused.
pub proof fn lemma_a_field_nobody_reads_is_passed_over(
    key: u32,
    number: u32,
    bytes: Seq<u8>,
    rest: Seq<u8>,
    met: Fields,
)
    requires
        key / 8 == 0 || key / 8 > 5,
    ensures
        key % 8 == 0 ==> field_read(key, varint::varint(number as nat) + rest, met) == Ok::<
            (Fields, Seq<u8>),
            HeaderError,
        >((met, rest)),
        key % 8 == 1 && bytes.len() == 8 ==> field_read(key, bytes + rest, met) == Ok::<
            (Fields, Seq<u8>),
            HeaderError,
        >((met, rest)),
        key % 8 == 2 && bytes.len() <= 0xffff_ffff ==> field_read(
            key,
            varint::varint(bytes.len()) + bytes + rest,
            met,
        ) == Ok::<(Fields, Seq<u8>), HeaderError>((met, rest)),
        key % 8 == 5 && bytes.len() == 4 ==> field_read(key, bytes + rest, met) == Ok::<
            (Fields, Seq<u8>),
            HeaderError,
        >((met, rest)),
        key % 8 == 1 && rest.len() < 8 || key % 8 == 5 && rest.len() < 4 ==> field_read(key, rest, met)
            == Err::<(Fields, Seq<u8>), HeaderError>(HeaderError::TruncatedField),
        key % 8 == 3 || key % 8 == 4 || key % 8 > 5 ==> field_read(key, rest, met) == Err::<
            (Fields, Seq<u8>),
            HeaderError,
        >(HeaderError::UnexpectedWireType(key / 8)),
{
    let front = varint::varint(number as nat);
    varint::lemma_varint_reads_back(number, rest);
    assert((front + rest).skip(front.len() as int) =~= rest);
    assert((bytes + rest).skip(bytes.len() as int) =~= rest);
    if key % 8 == 2 && bytes.len() <= 0xffff_ffff {
        let len = varint::varint(bytes.len());
        let buf = len + bytes + rest;
        varint::lemma_varint_reads_back(bytes.len() as u32, bytes + rest);
        assert(buf =~= len + (bytes + rest));
        assert(buf.skip((len.len() + bytes.len()) as int) =~= rest);
    }
}

/// A message is read field by field: behind a key and the field it names, the rest is read with that
/// field met.
pub proof fn lemma_a_message_is_read_field_by_field(key: u32, buf: Seq<u8>, met: Fields)
    ensures
        fields_read(Seq::empty(), met) == Ok::<Fields, HeaderError>(met),
        field_read(key, buf, met) matches Ok((next, rest)) ==> fields_read(
            varint::varint(key as nat) + buf,
            met,
        ) == fields_read(rest, next),
        field_read(key, buf, met) matches Err(error) ==> fields_read(
            varint::varint(key as nat) + buf,
            met,
        ) == Err::<Fields, HeaderError>(error),
{
    let front = varint::varint(key as nat);
    varint::lemma_varint_reads_back(key, buf);
    assert((front + buf).skip(front.len() as int) =~= buf);
    lemma_rest_is_behind(key, buf, met);
}

/// What a header block is: 4096 bytes, of which the first four state the length of the message behind
/// them, most significant byte first, which is 4092 at the most. What lies behind the message says
/// nothing.
pub proof fn lemma_what_a_header_block_is(block: Seq<u8>, other: Seq<u8>)
    ensures
        block.len() != 4096 <==> read_header(block) == Err::<Header, HeaderError>(
            HeaderError::WrongBlockLen,
        ),
        block.len() == 4096 ==> {
            let len = block[0] * 0x100_0000 + block[1] * 0x1_0000 + block[2] * 0x100 + block[3];
            &&& len > 4092 ==> read_header(block) == Err::<Header, HeaderError>(
                HeaderError::PrefixOutOfRange,
            )
            &&& len <= 4092 ==> read_header(block) == (match fields_read(
                block.skip(4).take(len as int),
                no_fields(),
            ) {
                Err(error) => Err(error),
                Ok(met) => header_of(met),
            })
            &&& len <= 4092 && other.len() == 4096 && other.take(4 + len) == block.take(4 + len)
                ==> read_header(other) == read_header(block)
        },
{
    if block.len() == 4096 {
        let len = crate::bytes::read_be32(block);
        assert(len == block[0] * 0x100_0000 + block[1] * 0x1_0000 + block[2] * 0x100 + block[3]);
        if len <= 4092 {
            assert(block.skip(4).take(len as int) =~= block.subrange(4, 4 + len));
            if other.len() == 4096 && other.take(4 + len) == block.take(4 + len) {
                let same = block.take(4 + len);
                assert forall|i: int| 0 <= i < 4 + len implies block[i] == other[i] by {
                    assert(same[i] == block[i]);
                    assert(other.take(4 + len)[i] == other[i]);
                }
                assert(block.subrange(4, 4 + len) =~= other.subrange(4, 4 + len));
            }
            lemma_fields_fault(block.subrange(4, 4 + len), no_fields());
            if let Ok(met) = fields_read(block.subrange(4, 4 + len), no_fields()) {
                lemma_header_fault(met);
            }
        }
    }
}

proof fn lemma_header_fault(met: Fields)
    ensures
        header_of(met) != Err::<Header, HeaderError>(HeaderError::WrongBlockLen),
{
    if met.chapters is Some {
        lemma_a_stop_is_no_missing_field(met.chapters->0);
    }
    lemma_a_stop_is_no_missing_field(Seq::empty());
}

proof fn lemma_fields_fault(message: Seq<u8>, met: Fields)
    ensures
        fields_read(message, met) != Err::<Fields, HeaderError>(HeaderError::WrongBlockLen),
    decreases message.len(),
{
    lemma_a_number_is_no_missing_field(message, 0, 0);
    if message.len() > 0 {
        if let Ok((key, len)) = varint::read_varint32(message) {
            lemma_a_number_is_no_missing_field(message.skip(len as int), 0, 0);
            if let Ok((next, rest)) = field_read(key as u32, message.skip(len as int), met) {
                if rest.len() < message.len() {
                    lemma_fields_fault(rest, next);
                }
            }
        }
    }
}

/// An error about a field names it.
pub proof fn lemma_an_error_names_its_field(field: u32)
    ensures
        HeaderError::MissingField(field).said() == "TAF header field "@ + crate::text::decimal(
            field as nat,
        ) + " is missing"@,
        HeaderError::DuplicateField(field).said() == "TAF header field "@ + crate::text::decimal(
            field as nat,
        ) + " appears more than once"@,
        HeaderError::UnexpectedWireType(field).said() == "TAF header field "@ + crate::text::decimal(
            field as nat,
        ) + " has an unreadable wire type"@,
        HeaderError::FieldOutOfRange(field).said() == "TAF header field "@ + crate::text::decimal(
            field as nat,
        ) + " holds an out-of-range value"@,
{
}

} // verus!
