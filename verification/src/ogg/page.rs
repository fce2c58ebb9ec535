//! Reading an Ogg page.

use super::crc::{crc32, crc32_from};
use super::{CHECKSUM_AT, CHECKSUM_LEN, CONTINUES, FLAG_CONTINUED, FLAG_FIRST, FLAG_LAST};
use super::{HEADER_LEN, MAGIC, VERSION};
use crate::bytes::{begins_with, get_le32, get_le64};
use vstd::prelude::*;
use vstd::slice::slice_subrange;
use vstd::string::StringExecFns;

verus! {

/// Why bytes are no Ogg page.
#[derive(Debug, Clone, Copy, PartialEq, Eq, Structural)]
#[non_exhaustive]
pub enum PageError {
    /// There are fewer bytes than a page header has.
    TooShort,
    /// The bytes do not begin with the capture pattern.
    BadMagic,
    /// The page states a version there is none of.
    BadVersion,
    /// The page does not sum to the checksum it states.
    BadCrc,
    /// The lacing table, or the body it describes, reaches past the bytes.
    TruncatedBody,
}

impl PageError {
    /// What the error says.
    pub open spec fn said(self) -> Seq<char> {
        match self {
            PageError::TooShort => "an Ogg page header needs 27 bytes"@,
            PageError::BadMagic => "these bytes do not start an Ogg page"@,
            PageError::BadVersion => "an Ogg page states a version other than 0"@,
            PageError::BadCrc => "an Ogg page's checksum does not match its bytes"@,
            PageError::TruncatedBody => {
                "an Ogg page reaches past the end of the bytes handed in"@
            },
        }
    }

    /// What went wrong, in words.
    pub fn message(&self) -> (text: String)
        ensures
            text@ == self.said(),
    {
        String::from_str(
            match *self {
                PageError::TooShort => "an Ogg page header needs 27 bytes",
                PageError::BadMagic => "these bytes do not start an Ogg page",
                PageError::BadVersion => "an Ogg page states a version other than 0",
                PageError::BadCrc => "an Ogg page's checksum does not match its bytes",
                PageError::TruncatedBody => {
                    "an Ogg page reaches past the end of the bytes handed in"
                },
            },
        )
    }
}

/// What a page holds.
#[verifier::ext_equal]
pub struct Page {
    /// The granule position: the samples there are up to the end of the page.
    pub granule: u64,
    /// The serial number of the stream.
    pub serial: u32,
    /// The page's place in the stream.
    pub sequence: u32,
    /// The header's flags.
    pub flags: u8,
    /// The lacing table.
    pub lacing: Seq<u8>,
    /// The bytes the lacing table describes.
    pub body: Seq<u8>,
}

/// The bytes a lacing table describes: every value of it, added up.
pub open spec fn laced_len(lacing: Seq<u8>) -> nat
    decreases lacing.len(),
{
    if lacing.len() == 0 {
        0
    } else {
        laced_len(lacing.drop_last()) + lacing.last() as nat
    }
}

/// The checksum of a whole page, which counts the checksum's own bytes as zero.
pub open spec fn page_sum(page: Seq<u8>) -> u32 {
    super::crc::crc_of(0, page.take(22) + seq![0u8, 0, 0, 0] + page.skip(26))
}

/// The page that lies at the front of `bytes`, or the first thing that says there is none.
pub open spec fn read_page(bytes: Seq<u8>) -> Result<Page, PageError> {
    if bytes.len() < 27 {
        Err(PageError::TooShort)
    } else if bytes.take(4) != MAGIC@ {
        Err(PageError::BadMagic)
    } else if bytes[4] != VERSION {
        Err(PageError::BadVersion)
    } else if bytes.len() < 27 + bytes[26] {
        Err(PageError::TruncatedBody)
    } else {
        let body_at = 27 + bytes[26];
        let lacing = bytes.subrange(27, body_at);
        let end = body_at + laced_len(lacing);
        if bytes.len() < end {
            Err(PageError::TruncatedBody)
        } else if page_sum(bytes.take(end)) != crate::bytes::read_le32(bytes, 22) {
            Err(PageError::BadCrc)
        } else {
            Ok(
                Page {
                    granule: crate::bytes::read_le64(bytes, 6),
                    serial: crate::bytes::read_le32(bytes, 14),
                    sequence: crate::bytes::read_le32(bytes, 18),
                    flags: bytes[5],
                    lacing,
                    body: bytes.subrange(body_at, end),
                },
            )
        }
    }
}

/// How far the first packet a lacing table describes goes, as the values it takes and the bytes
/// they come to, or nothing where no value ends it.
pub open spec fn first_packet(lacing: Seq<u8>) -> Option<(nat, nat)>
    decreases lacing.len(),
{
    if lacing.len() == 0 {
        None
    } else if lacing[0] < 255 {
        Some((1, lacing[0] as nat))
    } else {
        match first_packet(lacing.skip(1)) {
            None => None,
            Some((values, len)) => Some((values + 1, len + 255)),
        }
    }
}

/// The packets that end on a page with this lacing table and this body, in order.
pub open spec fn packets_in(lacing: Seq<u8>, body: Seq<u8>) -> Seq<Seq<u8>>
    decreases lacing.len(),
{
    match first_packet(lacing) {
        Some((values, len)) if 0 < values <= lacing.len() && len <= body.len() => {
            seq![body.take(len as int)] + packets_in(
                lacing.skip(values as int),
                body.skip(len as int),
            )
        },
        _ => Seq::empty(),
    }
}

pub proof fn lemma_laced_len_concat(a: Seq<u8>, b: Seq<u8>)
    ensures
        laced_len(a + b) == laced_len(a) + laced_len(b),
    decreases b.len(),
{
    if b.len() == 0 {
        assert(a + b =~= a);
    } else {
        assert((a + b).drop_last() =~= a + b.drop_last());
        lemma_laced_len_concat(a, b.drop_last());
    }
}

pub proof fn lemma_laced_len_bound(lacing: Seq<u8>)
    ensures
        laced_len(lacing) <= lacing.len() * 255,
    decreases lacing.len(),
{
    if lacing.len() > 0 {
        lemma_laced_len_bound(lacing.drop_last());
    }
}

/// Where everything lies on a page that is read: the four bytes it begins with, its version, its flags,
/// its numbers least significant byte first, the checksum of all of it, the lacing table, and a body as
/// long as the table adds up to.
pub proof fn lemma_where_everything_lies(bytes: Seq<u8>)
    requires
        read_page(bytes) is Ok,
    ensures
        ({
            let page = read_page(bytes)->Ok_0;
            let len = (27 + page.lacing.len() + page.body.len()) as int;
            &&& len <= bytes.len()
            &&& bytes.take(4) == seq![0x4fu8, 0x67, 0x67, 0x53]
            &&& bytes[4] == 0
            &&& page.flags == bytes[5]
            &&& bytes.subrange(6, 14) == crate::bytes::le64(page.granule)
            &&& bytes.subrange(14, 18) == crate::bytes::le32(page.serial)
            &&& bytes.subrange(18, 22) == crate::bytes::le32(page.sequence)
            &&& bytes.subrange(22, 26) == crate::bytes::le32(
                super::crc::crc_of(
                    0,
                    bytes.take(22) + seq![0u8, 0, 0, 0] + bytes.subrange(26, len),
                ),
            )
            &&& bytes[26] == page.lacing.len()
            &&& bytes.subrange(27, len) == page.lacing + page.body
            &&& page.body.len() == laced_len(page.lacing)
        }),
{
    let page = read_page(bytes)->Ok_0;
    let len = (27 + page.lacing.len() + page.body.len()) as int;
    assert(MAGIC@ =~= seq![0x4fu8, 0x67, 0x67, 0x53]);
    crate::bytes::lemma_le32_is_read(bytes, 14);
    crate::bytes::lemma_le32_is_read(bytes, 18);
    crate::bytes::lemma_le32_is_read(bytes, 22);
    crate::bytes::lemma_le64_is_read(bytes, 6);
    assert(bytes.take(len).take(22) =~= bytes.take(22));
    assert(bytes.take(len).skip(26) =~= bytes.subrange(26, len));
    assert(bytes.subrange(27, len) =~= page.lacing + page.body);
}

/// What lies behind a page says nothing about it.
pub proof fn lemma_a_page_stands_for_itself(bytes: Seq<u8>, rest: Seq<u8>)
    requires
        read_page(bytes) is Ok,
    ensures
        read_page(bytes + rest) == read_page(bytes),
{
    let all = bytes + rest;
    let body_at = 27 + bytes[26];
    let lacing = bytes.subrange(27, body_at);
    let end = body_at + laced_len(lacing);
    assert(all.take(4) =~= bytes.take(4));
    assert(all.subrange(27, body_at) =~= lacing);
    assert(all.take(end) =~= bytes.take(end));
    assert(all.subrange(body_at, end) =~= bytes.subrange(body_at, end));
    assert(forall|i: int| 0 <= i < 27 ==> all[i] == bytes[i]);
}

/// A page read in place: its header's numbers, and where its lacing table and its body lie.
#[derive(Debug, Clone, Copy)]
pub struct PageView<'a> {
    granule_position: u64,
    serial: u32,
    sequence: u32,
    flags: u8,
    lacing: &'a [u8],
    body: &'a [u8],
}

impl<'a> View for PageView<'a> {
    type V = Page;

    closed spec fn view(&self) -> Page {
        Page {
            granule: self.granule_position,
            serial: self.serial,
            sequence: self.sequence,
            flags: self.flags,
            lacing: self.lacing@,
            body: self.body@,
        }
    }
}

impl<'a> PageView<'a> {
    /// A table of at most 255 values, and the bytes they describe.
    #[verifier::type_invariant]
    spec fn well_formed(self) -> bool {
        &&& self.lacing@.len() <= 255
        &&& self.body@.len() == laced_len(self.lacing@)
    }

    /// Reads the page at the front of `page`, which may hold more behind it.
    pub fn parse(page: &'a [u8]) -> (result: Result<Self, PageError>)
        ensures
            match result {
                Ok(view) => read_page(page@) == Ok::<Page, PageError>(view@),
                Err(error) => read_page(page@) == Err::<Page, PageError>(error),
            },
    {
        if page.len() < HEADER_LEN {
            return Err(PageError::TooShort);
        }
        if !begins_with(page, MAGIC.as_slice()) {
            return Err(PageError::BadMagic);
        }
        if page[4] != VERSION {
            return Err(PageError::BadVersion);
        }
        let segment_count: usize = page[26] as usize;
        let lacing_end: usize = HEADER_LEN + segment_count;
        if page.len() < lacing_end {
            return Err(PageError::TruncatedBody);
        }
        let lacing = slice_subrange(page, HEADER_LEN, lacing_end);
        let body_len: usize = described(lacing);
        if page.len() - lacing_end < body_len {
            return Err(PageError::TruncatedBody);
        }
        let body = slice_subrange(page, lacing_end, lacing_end + body_len);
        let header = slice_subrange(page, 0, HEADER_LEN);
        let sum: u32 = checksum(header, lacing, body);
        proof {
            let end = lacing_end + body_len;
            assert(header@.skip(26) + lacing@ + body@ =~= page@.take(end).skip(26));
            assert(page@.take(end).take(22) =~= header@.take(22));
            assert(header@.take(22) + seq![0u8, 0, 0, 0] + header@.skip(26) + lacing@ + body@
                =~= page@.take(end).take(22) + seq![0u8, 0, 0, 0] + page@.take(end).skip(26));
        }
        if sum != get_le32(page, CHECKSUM_AT) {
            return Err(PageError::BadCrc);
        }
        Ok(
            PageView {
                granule_position: get_le64(page, 6),
                serial: get_le32(page, 14),
                sequence: get_le32(page, 18),
                flags: page[5],
                lacing,
                body,
            },
        )
    }

    /// The granule position: the samples there are up to the end of the page.
    pub fn granule_position(&self) -> (granule: u64)
        ensures
            granule == self@.granule,
    {
        self.granule_position
    }

    /// The serial number of the stream the page belongs to.
    pub fn serial(&self) -> (serial: u32)
        ensures
            serial == self@.serial,
    {
        self.serial
    }

    /// The page's place in its stream.
    pub fn sequence(&self) -> (sequence: u32)
        ensures
            sequence == self@.sequence,
    {
        self.sequence
    }

    /// Whether the page carries on a packet from the page in front of it.
    pub fn is_continued(&self) -> (is: bool)
        ensures
            is == (self@.flags & FLAG_CONTINUED != 0),
            is <==> self@.flags & 1u8 != 0,
    {
        self.flags & FLAG_CONTINUED != 0
    }

    /// Whether the stream begins with this page.
    pub fn is_first(&self) -> (is: bool)
        ensures
            is == (self@.flags & FLAG_FIRST != 0),
            is <==> self@.flags & 2u8 != 0,
    {
        self.flags & FLAG_FIRST != 0
    }

    /// Whether the stream ends with this page.
    pub fn is_last(&self) -> (is: bool)
        ensures
            is == (self@.flags & FLAG_LAST != 0),
            is <==> self@.flags & 4u8 != 0,
    {
        self.flags & FLAG_LAST != 0
    }

    /// The bytes the page occupies.
    pub fn total_len(&self) -> (len: usize)
        ensures
            len == 27 + self@.lacing.len() + self@.body.len(),
    {
        proof {
            use_type_invariant(self);
            lemma_laced_len_bound(self.lacing@);
        }
        HEADER_LEN + self.lacing.len() + self.body.len()
    }

    /// The packets that end on the page, in order.
    pub fn packets(&self) -> (packets: Packets<'a>)
        ensures
            packets@ == packets_in(self@.lacing, self@.body),
    {
        Packets { lacing: self.lacing, body: self.body }
    }
}

/// The packets of a page that have not been taken yet.
#[derive(Debug, Clone, Copy)]
pub struct Packets<'a> {
    /// The lacing values that describe them.
    pub lacing: &'a [u8],
    /// The bytes those values count.
    pub body: &'a [u8],
}

impl<'a> View for Packets<'a> {
    type V = Seq<Seq<u8>>;

    open spec fn view(&self) -> Seq<Seq<u8>> {
        packets_in(self.lacing@, self.body@)
    }
}

impl<'a> Packets<'a> {
    /// Takes the next packet, where there is one left. Bytes no lacing value ends are no packet.
    pub fn next(&mut self) -> (packet: Option<&'a [u8]>)
        ensures
            old(self)@.len() == 0 ==> packet is None && final(self)@.len() == 0,
            old(self)@.len() > 0 ==> packet is Some && packet->0@ == old(self)@[0] && final(self)@
                == old(self)@.skip(1),
    {
        match packet_end(self.lacing, self.body.len()) {
            None => {
                self.lacing = slice_subrange(self.lacing, 0, 0);
                None
            },
            Some((values, len)) => {
                let packet = slice_subrange(self.body, 0, len);
                self.lacing = slice_subrange(self.lacing, values, self.lacing.len());
                self.body = slice_subrange(self.body, len, self.body.len());
                proof {
                    assert(packet@ =~= old(self).body@.take(len as int));
                    assert(self.lacing@ =~= old(self).lacing@.skip(values as int));
                    assert(self.body@ =~= old(self).body@.skip(len as int));
                    assert(old(self)@.skip(1) =~= self@);
                }
                Some(packet)
            },
        }
    }
}

/// How far the first packet `lacing` describes goes, where it ends within `room` bytes.
fn packet_end(lacing: &[u8], room: usize) -> (end: Option<(usize, usize)>)
    ensures
        match end {
            Some((values, len)) => {
                &&& first_packet(lacing@) == Some((values as nat, len as nat))
                &&& 0 < values <= lacing@.len()
                &&& len <= room
            },
            None => first_packet(lacing@) is None || (first_packet(lacing@)->0).1 > room,
        },
{
    let mut len: usize = 0;
    let mut values: usize = 0;
    assert(lacing@.skip(0) =~= lacing@);
    while values < lacing.len()
        invariant
            values <= lacing@.len(),
            len <= room,
            first_packet(lacing@) == (match first_packet(lacing@.skip(values as int)) {
                None => None::<(nat, nat)>,
                Some((v, l)) => Some((v + values as nat, l + len as nat)),
            }),
        decreases lacing@.len() - values,
    {
        let value: u8 = lacing[values];
        proof {
            assert(lacing@.skip(values as int)[0] == value);
            assert(lacing@.skip(values as int).skip(1) =~= lacing@.skip(values + 1));
        }
        if room - len < value as usize {
            return None;
        }
        len += value as usize;
        values += 1;
        if value < CONTINUES {
            return Some((values, len));
        }
    }
    None
}

/// The bytes the lacing table `lacing` describes.
fn described(lacing: &[u8]) -> (len: usize)
    requires
        lacing@.len() <= 255,
    ensures
        len == laced_len(lacing@),
        len <= 65025,
{
    let mut len: usize = 0;
    let mut at: usize = 0;
    while at < lacing.len()
        invariant
            at <= lacing@.len() <= 255,
            len == laced_len(lacing@.take(at as int)),
            len <= at * 255,
        decreases lacing@.len() - at,
    {
        assert(lacing@.take(at + 1).drop_last() =~= lacing@.take(at as int));
        len += lacing[at] as usize;
        at += 1;
    }
    assert(lacing@.take(at as int) =~= lacing@);
    len
}

/// The checksum of a page out of its three parts, its own bytes in the header counted as zero.
fn checksum(header: &[u8], lacing: &[u8], body: &[u8]) -> (sum: u32)
    requires
        header@.len() == 27,
    ensures
        sum == super::crc::crc_of(
            0,
            header@.take(22) + seq![0u8, 0, 0, 0] + header@.skip(26) + lacing@ + body@,
        ),
{
    let before = slice_subrange(header, 0, CHECKSUM_AT);
    let after = slice_subrange(header, CHECKSUM_AT + CHECKSUM_LEN, HEADER_LEN);
    let zeros: [u8; 4] = [0; 4];
    let mut sum: u32 = crc32(before);
    sum = crc32_from(sum, zeros.as_slice());
    sum = crc32_from(sum, after);
    sum = crc32_from(sum, lacing);
    sum = crc32_from(sum, body);
    proof {
        let z = seq![0u8, 0, 0, 0];
        assert(zeros@ =~= z);
        assert(before@ =~= header@.take(22));
        assert(after@ =~= header@.skip(26));
        super::crc::lemma_crc_in_pieces(0, before@, z);
        super::crc::lemma_crc_in_pieces(0, before@ + z, after@);
        super::crc::lemma_crc_in_pieces(0, before@ + z + after@, lacing@);
        super::crc::lemma_crc_in_pieces(0, before@ + z + after@ + lacing@, body@);
    }
    sum
}

/// What is no page, in the order it is looked at: fewer bytes than a header, other bytes than a page begins
/// with, another version, a lacing table or a body that reaches past the end, and a checksum that is not
/// that of the bytes.
pub proof fn lemma_what_is_no_page(bytes: Seq<u8>)
    ensures
        bytes.len() < 27 <==> read_page(bytes) == Err::<Page, PageError>(PageError::TooShort),
        bytes.len() >= 27 && bytes.take(4) != seq![0x4fu8, 0x67, 0x67, 0x53] <==> read_page(bytes)
            == Err::<Page, PageError>(PageError::BadMagic),
        bytes.len() >= 27 && bytes.take(4) == seq![0x4fu8, 0x67, 0x67, 0x53] && bytes[4] != 0
            <==> read_page(bytes) == Err::<Page, PageError>(PageError::BadVersion),
        bytes.len() >= 27 && bytes.take(4) == seq![0x4fu8, 0x67, 0x67, 0x53] && bytes[4] == 0 ==> {
            let body_at = 27 + bytes[26];
            let end = body_at + laced_len(bytes.subrange(27, body_at));
            let sum = super::crc::crc_of(
                0,
                bytes.take(22) + seq![0u8, 0, 0, 0] + bytes.subrange(26, end),
            );
            &&& bytes.len() < body_at || bytes.len() < end <==> read_page(bytes) == Err::<
                Page,
                PageError,
            >(PageError::TruncatedBody)
            &&& bytes.len() >= body_at && bytes.len() >= end ==> (read_page(bytes) is Ok
                <==> bytes.subrange(22, 26) == crate::bytes::le32(sum))
            &&& bytes.len() >= body_at && bytes.len() >= end ==> (read_page(bytes) is Err
                ==> read_page(bytes) == Err::<Page, PageError>(PageError::BadCrc))
        },
{
    assert(MAGIC@ =~= seq![0x4fu8, 0x67, 0x67, 0x53]);
    if bytes.len() >= 27 {
        let body_at = 27 + bytes[26];
        let end = body_at + laced_len(bytes.subrange(27, body_at));
        if bytes.len() >= body_at && bytes.len() >= end {
            let sum = page_sum(bytes.take(end));
            assert(bytes.take(end).take(22) =~= bytes.take(22));
            assert(bytes.take(end).skip(26) =~= bytes.subrange(26, end));
            crate::bytes::lemma_le32_is_read(bytes, 22);
            if bytes.subrange(22, 26) == crate::bytes::le32(sum) {
                crate::bytes::lemma_le32_reads_back(sum, bytes, 22);
            }
        }
    }
}

/// Values of a lacing table add up.
pub proof fn lemma_a_lacing_table_adds_up(lacing: Seq<u8>, value: u8)
    ensures
        laced_len(Seq::empty()) == 0,
        laced_len(lacing.push(value)) == laced_len(lacing) + value,
{
    assert(lacing.push(value).drop_last() =~= lacing);
}

} // verus!
