//! Building an Ogg page, and the two packets an Opus stream opens with.

use super::crc::crc32;
use super::{CONTINUES, FLAG_FIRST, FLAG_LAST, HEADER_LEN, MAGIC, MAX_SEGMENTS};
use super::{PAGE_LEN, SEGMENT_LEN, VERSION};
use crate::bytes::{fixed, put, put_le32, put_le64, put_run};
use vstd::prelude::*;
use vstd::string::{StringExecFns, StringSliceAdditionalSpecFns};

verus! {

/// The longest packet a lacing table describes: 255 values, the last of them ending the packet.
pub const MAX_PACKET_LEN: usize = 65_024;

/// The bytes of the packet an Opus stream begins with.
pub const OPUS_HEAD_LEN: usize = 19;

/// The bytes of the packet a TAF names its encoder in, whatever that name is.
pub const OPUS_TAGS_LEN: usize = 436;

/// The samples a decoder drops in front of a TAF's audio.
pub const OPUS_PRE_SKIP: u16 = 312;

/// What the first packet of an Opus stream begins with: `OpusHead`.
pub const OPUS_HEAD_MAGIC: [u8; 8] = [0x4f, 0x70, 0x75, 0x73, 0x48, 0x65, 0x61, 0x64];

/// What the second packet of an Opus stream begins with: `OpusTags`.
pub const OPUS_TAGS_MAGIC: [u8; 8] = [0x4f, 0x70, 0x75, 0x73, 0x54, 0x61, 0x67, 0x73];

/// What the comment that fills the tags packet up begins with: `pad=`.
pub const PAD_COMMENT: [u8; 4] = [0x70, 0x61, 0x64, 0x3d];

/// What that comment is filled up with: the digit zero.
pub const PAD_FILL: u8 = 0x30;

/// Why a page or a packet could not be built.
#[derive(Debug, Clone, Copy, PartialEq, Eq, Structural)]
#[non_exhaustive]
pub enum BuildError {
    /// The page has no room left for the packet.
    PageFull,
    /// The packet is longer than any lacing table describes.
    PacketTooLarge,
    /// The vendor and the comments do not fit the tags packet.
    TagsTooLong,
}

impl BuildError {
    /// What the error says.
    pub open spec fn said(self) -> Seq<char> {
        match self {
            BuildError::PageFull => "an Ogg page has no room left for another packet"@,
            BuildError::PacketTooLarge => {
                "a packet is longer than the 65024 bytes an Ogg page's lacing table describes"@
            },
            BuildError::TagsTooLong => "OpusTags content does not fit a 436-byte packet"@,
        }
    }

    /// What went wrong, in words.
    pub fn message(&self) -> (text: String)
        ensures
            text@ == self.said(),
    {
        String::from_str(
            match *self {
                BuildError::PageFull => "an Ogg page has no room left for another packet",
                BuildError::PacketTooLarge => {
                    "a packet is longer than the 65024 bytes an Ogg page's lacing table describes"
                },
                BuildError::TagsTooLong => "OpusTags content does not fit a 436-byte packet",
            },
        )
    }
}

/// The bytes a packet of `len` bytes takes up on a page: its own, and its lacing values.
pub open spec fn cost(len: nat) -> nat {
    len + len / 255 + 1
}

/// The lacing values of a packet of `len` bytes.
pub open spec fn laced(len: nat) -> Seq<u8> {
    Seq::new(len / 255, |i: int| CONTINUES).push((len % 255) as u8)
}

/// The lacing table of a page carrying `packets`.
pub open spec fn lacing_of(packets: Seq<Seq<u8>>) -> Seq<u8>
    decreases packets.len(),
{
    if packets.len() == 0 {
        Seq::empty()
    } else {
        lacing_of(packets.drop_last()) + laced(packets.last().len())
    }
}

/// The body of a page carrying `packets`.
pub open spec fn body_of(packets: Seq<Seq<u8>>) -> Seq<u8>
    decreases packets.len(),
{
    if packets.len() == 0 {
        Seq::empty()
    } else {
        body_of(packets.drop_last()) + packets.last()
    }
}

/// A page as it was put together: its header's numbers, and the packets it carries.
#[verifier::ext_equal]
pub struct Draft {
    /// The granule position.
    pub granule: u64,
    /// The serial number of the stream.
    pub serial: u32,
    /// The page's place in the stream.
    pub sequence: u32,
    /// The header's flags.
    pub flags: u8,
    /// The packets, in order.
    pub packets: Seq<Seq<u8>>,
}

impl Draft {
    /// The bytes of the page with the checksum `sum` in it.
    pub open spec fn summed(self, sum: u32) -> Seq<u8> {
        MAGIC@ + seq![VERSION, self.flags] + crate::bytes::le64(self.granule) + crate::bytes::le32(
            self.serial,
        ) + crate::bytes::le32(self.sequence) + crate::bytes::le32(sum) + seq![
            lacing_of(self.packets).len() as u8,
        ] + lacing_of(self.packets) + body_of(self.packets)
    }

    /// The bytes of the page, which sum to the checksum in them when that is counted as zero.
    pub open spec fn bytes(self) -> Seq<u8> {
        self.summed(super::crc::crc_of(0, self.summed(0)))
    }

    /// The bytes the page occupies.
    pub open spec fn len(self) -> nat {
        27 + lacing_of(self.packets).len() + body_of(self.packets).len()
    }

    /// What the page holds, as it reads.
    pub open spec fn page(self) -> super::page::Page {
        super::page::Page {
            granule: self.granule,
            serial: self.serial,
            sequence: self.sequence,
            flags: self.flags,
            lacing: lacing_of(self.packets),
            body: body_of(self.packets),
        }
    }

    /// The longest packet cost the page still takes.
    pub open spec fn room(self) -> int {
        let page_room = 4096 - self.len();
        let lacing_room = if lacing_of(self.packets).len() >= 255 {
            0
        } else {
            (255 - lacing_of(self.packets).len()) * 256 - 1
        };
        if page_room <= lacing_room {
            page_room
        } else {
            lacing_room
        }
    }
}

proof fn lemma_laced_sum(len: nat)
    ensures
        super::page::laced_len(laced(len)) == len,
        laced(len).len() == len / 255 + 1,
    decreases len,
{
    let run = Seq::new(len / 255, |i: int| CONTINUES);
    assert(laced(len).drop_last() =~= run);
    lemma_run_sum(len / 255);
}

proof fn lemma_run_sum(count: nat)
    ensures
        super::page::laced_len(Seq::new(count, |i: int| CONTINUES)) == count * 255,
    decreases count,
{
    let run = Seq::new(count, |i: int| CONTINUES);
    if count > 0 {
        lemma_run_sum((count - 1) as nat);
        assert(run.drop_last() =~= Seq::new((count - 1) as nat, |i: int| CONTINUES));
    }
}

proof fn lemma_lacing_describes_body(packets: Seq<Seq<u8>>)
    ensures
        super::page::laced_len(lacing_of(packets)) == body_of(packets).len(),
    decreases packets.len(),
{
    if packets.len() > 0 {
        lemma_lacing_describes_body(packets.drop_last());
        lemma_laced_sum(packets.last().len());
        super::page::lemma_laced_len_concat(
            lacing_of(packets.drop_last()),
            laced(packets.last().len()),
        );
    }
}

proof fn lemma_first_packet(len: nat, rest: Seq<u8>)
    ensures
        super::page::first_packet(laced(len) + rest) == Some((len / 255 + 1, len)),
    decreases len,
{
    let lacing = laced(len) + rest;
    if len >= 255 {
        let less = (len - 255) as nat;
        assert(less / 255 + 1 == len / 255 && less % 255 == len % 255);
        lemma_first_packet(less, rest);
        assert(lacing.skip(1) =~= laced(less) + rest);
        assert(lacing[0] == 255);
    } else {
        assert(lacing[0] == len);
    }
}

proof fn lemma_front(packets: Seq<Seq<u8>>)
    requires
        packets.len() > 0,
    ensures
        lacing_of(packets) == laced(packets[0].len()) + lacing_of(packets.skip(1)),
        body_of(packets) == packets[0] + body_of(packets.skip(1)),
    decreases packets.len(),
{
    if packets.len() == 1 {
        assert(packets.drop_last() =~= Seq::empty());
        assert(packets.skip(1) =~= Seq::empty());
        assert(lacing_of(packets) =~= laced(packets[0].len()) + lacing_of(packets.skip(1)));
        assert(body_of(packets) =~= packets[0] + body_of(packets.skip(1)));
    } else {
        lemma_front(packets.drop_last());
        assert(packets.skip(1).drop_last() =~= packets.drop_last().skip(1));
        assert(packets.skip(1).last() == packets.last());
        assert(lacing_of(packets) =~= laced(packets[0].len()) + lacing_of(packets.skip(1)));
        assert(body_of(packets) =~= packets[0] + body_of(packets.skip(1)));
    }
}

/// The packets a page carries are the packets that were put on it.
pub proof fn lemma_packets_read_back(packets: Seq<Seq<u8>>)
    ensures
        super::page::packets_in(lacing_of(packets), body_of(packets)) == packets,
    decreases packets.len(),
{
    if packets.len() == 0 {
        assert(super::page::packets_in(lacing_of(packets), body_of(packets)) =~= packets);
    } else {
        lemma_front(packets);
        let len = packets[0].len();
        lemma_first_packet(len, lacing_of(packets.skip(1)));
        lemma_laced_sum(len);
        let lacing = lacing_of(packets);
        let body = body_of(packets);
        assert(lacing.skip((len / 255 + 1) as int) =~= lacing_of(packets.skip(1)));
        assert(body.take(len as int) =~= packets[0]);
        assert(body.skip(len as int) =~= body_of(packets.skip(1)));
        lemma_packets_read_back(packets.skip(1));
        assert(seq![packets[0]] + packets.skip(1) =~= packets);
    }
}

proof fn lemma_summed_shape(draft: Draft, sum: u32)
    ensures
        draft.summed(sum).len() == draft.len(),
        draft.summed(sum).take(4) == MAGIC@,
        draft.summed(sum)[4] == VERSION,
        draft.summed(sum)[5] == draft.flags,
        draft.summed(sum).subrange(6, 14) == crate::bytes::le64(draft.granule),
        draft.summed(sum).subrange(14, 18) == crate::bytes::le32(draft.serial),
        draft.summed(sum).subrange(18, 22) == crate::bytes::le32(draft.sequence),
        draft.summed(sum).subrange(22, 26) == crate::bytes::le32(sum),
        draft.summed(sum)[26] == lacing_of(draft.packets).len() as u8,
        draft.summed(sum).subrange(27, (27 + lacing_of(draft.packets).len()) as int) == lacing_of(
            draft.packets,
        ),
        draft.summed(sum).skip((27 + lacing_of(draft.packets).len()) as int) == body_of(
            draft.packets,
        ),
{
    let s = draft.summed(sum);
    assert(s.take(4) =~= MAGIC@);
    assert(s.subrange(6, 14) =~= crate::bytes::le64(draft.granule));
    assert(s.subrange(14, 18) =~= crate::bytes::le32(draft.serial));
    assert(s.subrange(18, 22) =~= crate::bytes::le32(draft.sequence));
    assert(s.subrange(22, 26) =~= crate::bytes::le32(sum));
    assert(s.subrange(27, (27 + lacing_of(draft.packets).len()) as int) =~= lacing_of(
        draft.packets,
    ));
    assert(s.skip((27 + lacing_of(draft.packets).len()) as int) =~= body_of(draft.packets));
}

/// A page occupies the bytes its packets take up.
pub proof fn lemma_bytes_len(draft: Draft)
    ensures
        draft.bytes().len() == draft.len(),
{
    lemma_summed_shape(draft, super::crc::crc_of(0, draft.summed(0)));
}

/// The lacing table of more packets is no shorter.
pub proof fn lemma_lacing_grows(packets: Seq<Seq<u8>>, at: int)
    requires
        0 <= at <= packets.len(),
    ensures
        lacing_of(packets.take(at)).len() <= lacing_of(packets).len(),
    decreases packets.len() - at,
{
    if at < packets.len() {
        lemma_lacing_grows(packets, at + 1);
        assert(packets.take(at + 1).drop_last() =~= packets.take(at));
    } else {
        assert(packets.take(at) =~= packets);
    }
}

/// One packet more takes up what it costs.
pub proof fn lemma_push_len(packets: Seq<Seq<u8>>, packet: Seq<u8>)
    ensures
        lacing_of(packets.push(packet)).len() + body_of(packets.push(packet)).len() == lacing_of(
            packets,
        ).len() + body_of(packets).len() + cost(packet.len()),
        lacing_of(packets.push(packet)).len() == lacing_of(packets).len() + packet.len() / 255 + 1,
{
    assert(packets.push(packet).drop_last() =~= packets);
    lemma_laced_sum(packet.len());
}

/// On a page with room for the bytes of a packet, it is the lacing table alone that decides whether
/// the packet is taken.
pub proof fn lemma_room_is_lacing(draft: Draft, packet: Seq<u8>)
    requires
        lacing_of(draft.packets).len() <= 255,
        draft.len() + cost(packet.len()) <= 4096,
    ensures
        cost(packet.len()) <= draft.room() <==> lacing_of(draft.packets.push(packet)).len() <= 255,
{
    lemma_push_len(draft.packets, packet);
    let values = packet.len() / 255 + 1;
    let left = 255 - lacing_of(draft.packets).len();
    assert(packet.len() <= 255 * values - 1);
    assert(packet.len() >= 255 * (values - 1));
    if values <= left {
        assert(cost(packet.len()) <= 256 * left - 1);
    } else {
        assert(cost(packet.len()) > 256 * left - 1);
    }
}

proof fn lemma_sum_of_bytes(draft: Draft)
    ensures
        super::page::page_sum(draft.bytes()) == super::crc::crc_of(0, draft.summed(0)),
{
    let s = draft.bytes();
    let sum = super::crc::crc_of(0, draft.summed(0));
    assert(s.take(22) + seq![0u8, 0, 0, 0] + s.skip(26) =~= draft.summed(0));
}

/// A page that was built reads back as what was put into it, whatever lies behind it.
pub proof fn lemma_page_reads_back(draft: Draft, rest: Seq<u8>)
    requires
        lacing_of(draft.packets).len() <= 255,
    ensures
        super::page::read_page(draft.bytes() + rest) == Ok::<
            super::page::Page,
            super::page::PageError,
        >(draft.page()),
{
    let sum = super::crc::crc_of(0, draft.summed(0));
    let page = draft.bytes();
    let all = page + rest;
    let lacing = lacing_of(draft.packets);
    let body = body_of(draft.packets);
    lemma_summed_shape(draft, sum);
    lemma_sum_of_bytes(draft);
    lemma_lacing_describes_body(draft.packets);
    assert(all.take(4) =~= page.take(4));
    assert(all[4] == page[4] && all[5] == page[5] && all[26] == page[26]);
    assert(all.subrange(6, 14) =~= page.subrange(6, 14));
    assert(all.subrange(14, 18) =~= page.subrange(14, 18));
    assert(all.subrange(18, 22) =~= page.subrange(18, 22));
    assert(all.subrange(22, 26) =~= page.subrange(22, 26));
    crate::bytes::lemma_le64_reads_back(draft.granule, all, 6);
    crate::bytes::lemma_le32_reads_back(draft.serial, all, 14);
    crate::bytes::lemma_le32_reads_back(draft.sequence, all, 18);
    crate::bytes::lemma_le32_reads_back(sum, all, 22);
    let body_at = 27 + lacing.len();
    let end = (body_at + body.len()) as int;
    assert(all.subrange(27, body_at as int) =~= page.subrange(27, body_at as int));
    assert(all.take(end) =~= page);
    assert(all.subrange(body_at as int, end) =~= page.skip(body_at as int));
}

/// A page being put together.
#[derive(Debug, Clone)]
pub struct PageBuilder {
    granule_position: u64,
    serial: u32,
    sequence: u32,
    flags: u8,
    lacing: Vec<u8>,
    body: Vec<u8>,
}

impl View for PageBuilder {
    type V = Draft;

    closed spec fn view(&self) -> Draft {
        Draft {
            granule: self.granule_position,
            serial: self.serial,
            sequence: self.sequence,
            flags: self.flags,
            packets: super::page::packets_in(self.lacing@, self.body@),
        }
    }
}

impl PageBuilder {
    /// The table and the body are those of the packets, and they fit a page.
    pub closed spec fn well_formed(self) -> bool {
        &&& self.lacing@ == lacing_of(self@.packets)
        &&& self.body@ == body_of(self@.packets)
        &&& self@.len() <= 4096
        &&& self.lacing@.len() <= 255
    }

    /// What being well-formed says of the draft: it fits a page.
    pub proof fn lemma_fits(self)
        requires
            self.well_formed(),
        ensures
            self@.len() <= 4096,
            lacing_of(self@.packets).len() <= 255,
    {
    }

    /// A page of the stream `serial` at `sequence`, with nothing on it.
    pub fn new(serial: u32, sequence: u32) -> (page: Self)
        ensures
            page.well_formed(),
            page@ == (Draft { granule: 0, serial, sequence, flags: 0, packets: Seq::empty() }),
    {
        proof {
            lemma_packets_read_back(Seq::empty());
        }
        PageBuilder {
            granule_position: 0,
            serial,
            sequence,
            flags: 0,
            lacing: Vec::new(),
            body: Vec::new(),
        }
    }

    /// States the samples there are up to the end of the page.
    pub fn granule_position(&mut self, granule: u64)
        requires
            old(self).well_formed(),
        ensures
            final(self).well_formed(),
            final(self)@ == (Draft { granule, ..old(self)@ }),
    {
        self.granule_position = granule;
    }

    /// States whether the stream begins with this page, and whether it ends with it.
    pub fn flags(&mut self, first: bool, last: bool)
        requires
            old(self).well_formed(),
        ensures
            final(self).well_formed(),
            final(self)@ == (Draft {
                flags: (if first {
                    FLAG_FIRST
                } else {
                    0u8
                }) | (if last {
                    FLAG_LAST
                } else {
                    0u8
                }),
                ..old(self)@
            }),
            final(self)@.flags & 2u8 != 0 <==> first,
            final(self)@.flags & 4u8 != 0 <==> last,
            final(self)@.flags & 1u8 == 0,
    {
        assert((0u8 | 0u8) & 7u8 == 0 && (2u8 | 0u8) & 2u8 != 0 && (2u8 | 0u8) & 4u8 == 0 && (2u8
            | 0u8) & 1u8 == 0 && (0u8 | 4u8) & 2u8 == 0 && (0u8 | 4u8) & 4u8 != 0 && (0u8 | 4u8) & 1u8
            == 0 && (2u8 | 4u8) & 2u8 != 0 && (2u8 | 4u8) & 4u8 != 0 && (2u8 | 4u8) & 1u8 == 0 && (0u8
            | 0u8) & 1u8 == 0 && (0u8 | 0u8) & 2u8 == 0 && (0u8 | 0u8) & 4u8 == 0) by (bit_vector);
        let begins: u8 = if first {
            FLAG_FIRST
        } else {
            0
        };
        let ends: u8 = if last {
            FLAG_LAST
        } else {
            0
        };
        self.flags = begins | ends;
    }

    /// Puts `packet` on the page, or leaves the page as it is where the packet does not fit it.
    pub fn push_packet(&mut self, packet: &[u8]) -> (result: Result<(), BuildError>)
        requires
            old(self).well_formed(),
        ensures
            final(self).well_formed(),
            packet@.len() > 65_024 ==> result == Err::<(), BuildError>(BuildError::PacketTooLarge),
            packet@.len() <= 65_024 && cost(packet@.len()) > old(self)@.room() ==> result == Err::<
                (),
                BuildError,
            >(BuildError::PageFull),
            packet@.len() <= 65_024 && cost(packet@.len()) <= old(self)@.room() ==> result is Ok,
            result is Ok ==> final(self)@ == (Draft {
                packets: old(self)@.packets.push(packet@),
                ..old(self)@
            }),
            result is Err ==> *final(self) == *old(self),
            result is Ok <==> old(self)@.len() + packet@.len() + packet@.len() / 255 + 1 <= 4096
                && lacing_of(old(self)@.packets).len() + packet@.len() / 255 + 1 <= 255,
    {
        proof {
            lemma_what_a_page_has_room_for(self@, packet@.len());
        }
        if packet.len() > MAX_PACKET_LEN {
            return Err(BuildError::PacketTooLarge);
        }
        if packet_cost(packet.len()) > self.body_capacity_left() {
            return Err(BuildError::PageFull);
        }
        let ghost before = self@.packets;
        lace(&mut self.lacing, packet.len());
        put(&mut self.body, packet);
        proof {
            assert(before.push(packet@).drop_last() =~= before);
            lemma_packets_read_back(before.push(packet@));
            lemma_laced_sum(packet@.len());
        }
        Ok(())
    }

    /// The longest packet cost the page still takes.
    pub fn body_capacity_left(&self) -> (room: usize)
        requires
            self.well_formed(),
        ensures
            room == self@.room(),
    {
        let page_room: usize = PAGE_LEN - HEADER_LEN - self.lacing.len() - self.body.len();
        let values_left: usize = MAX_SEGMENTS - self.lacing.len();
        let lacing_room: usize = if values_left == 0 {
            0
        } else {
            values_left * 256 - 1
        };
        if page_room <= lacing_room {
            page_room
        } else {
            lacing_room
        }
    }

    /// The page, summed.
    pub fn finish(self) -> (page: Vec<u8>)
        requires
            self.well_formed(),
        ensures
            page@ == self@.bytes(),
            page@.len() == self@.len(),
    {
        let mut page: Vec<u8> = Vec::new();
        put(&mut page, MAGIC.as_slice());
        page.push(VERSION);
        page.push(self.flags);
        put_le64(&mut page, self.granule_position);
        put_le32(&mut page, self.serial);
        put_le32(&mut page, self.sequence);
        put_le32(&mut page, 0);
        page.push(self.lacing.len() as u8);
        put(&mut page, self.lacing.as_slice());
        put(&mut page, self.body.as_slice());
        assert(page@ =~= self@.summed(0));
        let sum: u32 = crc32(page.as_slice());
        let ghost unsummed = page@;
        page.set(22, (sum % 256) as u8);
        page.set(23, (sum / 0x100 % 256) as u8);
        page.set(24, (sum / 0x1_0000 % 256) as u8);
        page.set(25, (sum / 0x100_0000) as u8);
        assert(page@ =~= self@.summed(sum));
        page
    }
}

/// The bytes a packet of `len` bytes takes up on a page, as far as a count of them goes.
pub fn packet_cost(len: usize) -> (bytes: usize)
    ensures
        bytes == (if cost(len as nat) <= usize::MAX {
            cost(len as nat)
        } else {
            usize::MAX as nat
        }),
{
    len.saturating_add(len / SEGMENT_LEN).saturating_add(1)
}

/// Appends the lacing values of a packet of `len` bytes to `lacing`.
fn lace(lacing: &mut Vec<u8>, len: usize)
    ensures
        final(lacing)@ == old(lacing)@ + laced(len as nat),
{
    put_run(lacing, CONTINUES, len / SEGMENT_LEN);
    lacing.push((len % SEGMENT_LEN) as u8);
    assert(lacing@ =~= old(lacing)@ + laced(len as nat));
}

/// What a page has room for: a packet that keeps it within 4096 bytes and its lacing table within 255
/// values, and no other.
pub proof fn lemma_what_a_page_has_room_for(draft: Draft, len: nat)
    requires
        lacing_of(draft.packets).len() <= 255,
    ensures
        cost(len) <= draft.room() <==> draft.len() + len + len / 255 + 1 <= 4096 && lacing_of(
            draft.packets,
        ).len() + len / 255 + 1 <= 255,
{
    let values = len / 255 + 1;
    let left = 255 - lacing_of(draft.packets).len();
    assert(len <= 255 * values - 1);
    assert(len >= 255 * (values - 1));
    if values <= left {
        assert(cost(len) <= 256 * left - 1);
    } else {
        assert(cost(len) > 256 * left - 1);
    }
}

/// A page's lacing table and its body are those of its packets, one behind the other: a value of 255 for
/// every 255 bytes of a packet and one for the rest of it.
pub proof fn lemma_packets_are_laced_one_by_one(packets: Seq<Seq<u8>>, packet: Seq<u8>)
    ensures
        lacing_of(Seq::empty()) == Seq::<u8>::empty(),
        body_of(Seq::empty()) == Seq::<u8>::empty(),
        body_of(packets.push(packet)) == body_of(packets) + packet,
        ({
            let before = lacing_of(packets);
            let lacing = lacing_of(packets.push(packet));
            &&& lacing.len() == before.len() + packet.len() / 255 + 1
            &&& lacing.take(before.len() as int) == before
            &&& forall|i: int| before.len() <= i < lacing.len() - 1 ==> #[trigger] lacing[i] == 255
            &&& lacing.last() == packet.len() % 255
        }),
{
    assert(packets.push(packet).drop_last() =~= packets);
    assert(lacing_of(packets.push(packet)).take(lacing_of(packets).len() as int) =~= lacing_of(
        packets,
    ));
}

/// Bytes no lacing value ends are no packet: the packets on a page are those in front of them.
pub proof fn lemma_what_does_not_end_is_no_packet(packets: Seq<Seq<u8>>, values: nat, rest: Seq<u8>)
    ensures
        super::page::packets_in(
            lacing_of(packets) + Seq::new(values, |i: int| 255u8),
            body_of(packets) + rest,
        ) == packets,
    decreases packets.len(),
{
    let tail = Seq::new(values, |i: int| 255u8);
    let lacing = lacing_of(packets) + tail;
    let body = body_of(packets) + rest;
    if packets.len() == 0 {
        lemma_nothing_ends(values);
        assert(lacing =~= tail);
        assert(super::page::packets_in(lacing, body) =~= packets);
    } else {
        lemma_front(packets);
        let len = packets[0].len();
        let more = packets.skip(1);
        lemma_first_packet(len, lacing_of(more) + tail);
        lemma_laced_sum(len);
        assert(lacing =~= laced(len) + (lacing_of(more) + tail));
        assert(body =~= packets[0] + (body_of(more) + rest));
        assert(lacing.skip((len / 255 + 1) as int) =~= lacing_of(more) + tail);
        assert(body.skip(len as int) =~= body_of(more) + rest);
        assert(body.take(len as int) =~= packets[0]);
        lemma_what_does_not_end_is_no_packet(more, values, rest);
        assert(packets =~= seq![packets[0]] + more);
    }
}

proof fn lemma_nothing_ends(values: nat)
    ensures
        super::page::first_packet(Seq::new(values, |i: int| 255u8)) is None,
    decreases values,
{
    if values > 0 {
        let run = Seq::new(values, |i: int| 255u8);
        lemma_nothing_ends((values - 1) as nat);
        assert(run.skip(1) =~= Seq::new((values - 1) as nat, |i: int| 255u8));
    }
}

/// The packet an Opus stream begins with: version 1, two channels, the pre-skip, 48 kHz, no gain
/// and the one channel mapping two channels need no table for.
pub open spec fn head_packet(pre_skip: u16) -> Seq<u8> {
    OPUS_HEAD_MAGIC@ + seq![1u8, 2] + crate::bytes::le16(pre_skip) + crate::bytes::le32(48_000)
        + seq![0u8, 0, 0]
}

/// The packet an Opus stream begins with.
pub fn opus_head(pre_skip: u16) -> (packet: [u8; 19])
    ensures
        packet@ == head_packet(pre_skip),
        packet@.take(8) == seq![0x4fu8, 0x70, 0x75, 0x73, 0x48, 0x65, 0x61, 0x64],
        packet@[8] == 1 && packet@[9] == 2,
        packet@[10] + 256 * packet@[11] == pre_skip,
        packet@.subrange(12, 19) == seq![0x80u8, 0xbb, 0, 0, 0, 0, 0],
{
    let mut bytes: Vec<u8> = Vec::new();
    put(&mut bytes, OPUS_HEAD_MAGIC.as_slice());
    bytes.push(1);
    bytes.push(2);
    bytes.push((pre_skip % 256) as u8);
    bytes.push((pre_skip / 256) as u8);
    put_le32(&mut bytes, 48_000);
    put_run(&mut bytes, 0, 3);
    assert(bytes@ =~= head_packet(pre_skip));
    assert(OPUS_HEAD_MAGIC@ =~= seq![0x4fu8, 0x70, 0x75, 0x73, 0x48, 0x65, 0x61, 0x64]);
    assert(bytes@.take(8) =~= OPUS_HEAD_MAGIC@);
    assert(bytes@.subrange(12, 19) =~= seq![0x80u8, 0xbb, 0, 0, 0, 0, 0]);
    fixed::<19>(bytes.as_slice())
}

/// Text as a tags packet holds it: its length in bytes, and the bytes.
pub open spec fn counted(text: Seq<u8>) -> Seq<u8> {
    crate::bytes::le32(text.len() as u32) + text
}

/// Comments as a tags packet holds them, one behind the other.
pub open spec fn comment_list(comments: Seq<&str>) -> Seq<u8>
    decreases comments.len(),
{
    if comments.len() == 0 {
        Seq::empty()
    } else {
        comment_list(comments.drop_last()) + counted(comments.last().spec_bytes())
    }
}

/// The bytes the comments take up, their lengths counted in.
pub open spec fn comment_list_len(comments: Seq<&str>) -> nat
    decreases comments.len(),
{
    if comments.len() == 0 {
        0
    } else {
        comment_list_len(comments.drop_last()) + 4 + comments.last().spec_bytes().len()
    }
}

/// The bytes left for the comment that fills the packet up, its own length not counted in.
pub open spec fn tags_padding(vendor: Seq<u8>, comments: Seq<&str>) -> int {
    436 - 8 - 4 - vendor.len() - 4 - comment_list_len(comments) - 4
}

/// The tags packet of `vendor` and `comments`, which is 436 bytes whatever they are: a last comment
/// of zeros is as long as it takes.
pub open spec fn tags_packet(vendor: Seq<u8>, comments: Seq<&str>) -> Seq<u8> {
    OPUS_TAGS_MAGIC@ + counted(vendor) + crate::bytes::le32((comments.len() + 1) as u32)
        + comment_list(comments) + crate::bytes::le32(tags_padding(vendor, comments) as u32)
        + PAD_COMMENT@ + Seq::new(
        (tags_padding(vendor, comments) - 4) as nat,
        |i: int| PAD_FILL,
    )
}

/// Where everything lies in a tags packet: what it begins with, the vendor behind its length, how many
/// comments there are, each of them behind its length, and one more that fills the packet up.
pub proof fn lemma_where_the_tags_lie(vendor: Seq<u8>, comments: Seq<&str>, at: int)
    requires
        tags_padding(vendor, comments) >= 4,
    ensures
        ({
            let packet = tags_packet(vendor, comments);
            let named = 12 + vendor.len() as int;
            let end = named + 4 + comment_list_len(comments);
            &&& packet.len() == 436
            &&& packet.take(8) == seq![0x4fu8, 0x70, 0x75, 0x73, 0x54, 0x61, 0x67, 0x73]
            &&& packet.subrange(8, 12) == crate::bytes::le32(vendor.len() as u32)
            &&& packet.subrange(12, named) == vendor
            &&& packet.subrange(named, named + 4) == crate::bytes::le32(
                (comments.len() + 1) as u32,
            )
            &&& 0 <= at < comments.len() ==> {
                let text = comments[at].spec_bytes();
                let from = named + 4 + comment_list_len(comments.take(at));
                &&& packet.subrange(from, from + 4) == crate::bytes::le32(text.len() as u32)
                &&& packet.subrange(from + 4, from + 4 + text.len()) == text
                &&& comment_list_len(comments.take(at + 1)) == comment_list_len(comments.take(at)) + 4
                    + text.len()
            }
            &&& end + 8 <= 436
            &&& packet.subrange(end, end + 4) == crate::bytes::le32((432 - end) as u32)
            &&& packet.subrange(end + 4, end + 8) == seq![0x70u8, 0x61, 0x64, 0x3d]
            &&& forall|i: int| end + 8 <= i < 436 ==> #[trigger] packet[i] == 0x30
        }),
{
    let packet = tags_packet(vendor, comments);
    let named = 12 + vendor.len() as int;
    let list = comment_list(comments);
    lemma_tags_packet_len(vendor, comments);
    lemma_comment_list_len(comments);
    assert(OPUS_TAGS_MAGIC@ =~= seq![0x4fu8, 0x70, 0x75, 0x73, 0x54, 0x61, 0x67, 0x73]);
    assert(PAD_COMMENT@ =~= seq![0x70u8, 0x61, 0x64, 0x3d]);
    assert(packet.take(8) =~= OPUS_TAGS_MAGIC@);
    assert(packet.subrange(8, 12) =~= crate::bytes::le32(vendor.len() as u32));
    assert(packet.subrange(12, named) =~= vendor);
    assert(packet.subrange(named, named + 4) =~= crate::bytes::le32((comments.len() + 1) as u32));
    let end = named + 4 + comment_list_len(comments);
    assert(packet.subrange(named + 4, end) =~= list);
    assert(packet.subrange(end, end + 4) =~= crate::bytes::le32((432 - end) as u32));
    assert(packet.subrange(end + 4, end + 8) =~= PAD_COMMENT@);
    if 0 <= at < comments.len() {
        lemma_where_a_comment_lies(comments, at);
        let text = comments[at].spec_bytes();
        let from = comment_list_len(comments.take(at)) as int;
        assert(packet.subrange(named + 4 + from, named + 8 + from) =~= list.subrange(from, from + 4));
        assert(packet.subrange(named + 8 + from, named + 8 + from + text.len()) =~= list.subrange(
            from + 4,
            from + 4 + text.len(),
        ));
    }
}

proof fn lemma_where_a_comment_lies(comments: Seq<&str>, at: int)
    requires
        0 <= at < comments.len(),
    ensures
        ({
            let list = comment_list(comments);
            let text = comments[at].spec_bytes();
            let from = comment_list_len(comments.take(at)) as int;
            &&& comment_list_len(comments.take(at + 1)) == from + 4 + text.len()
            &&& from + 4 + text.len() <= list.len()
            &&& list.subrange(from, from + 4) == crate::bytes::le32(text.len() as u32)
            &&& list.subrange(from + 4, from + 4 + text.len()) == text
        }),
    decreases comments.len(),
{
    let list = comment_list(comments);
    let less = comments.drop_last();
    let text = comments[at].spec_bytes();
    let from = comment_list_len(comments.take(at)) as int;
    lemma_comment_list_len(comments);
    lemma_comment_list_len(less);
    assert(comments.take(at + 1).drop_last() =~= comments.take(at));
    if at == comments.len() - 1 {
        assert(comments.take(at) =~= less);
        assert(list.subrange(from, from + 4) =~= crate::bytes::le32(text.len() as u32));
        assert(list.subrange(from + 4, from + 4 + text.len()) =~= text);
    } else {
        lemma_where_a_comment_lies(less, at);
        assert(less.take(at) =~= comments.take(at));
        let before = comment_list(less);
        assert(list.subrange(from, from + 4) =~= before.subrange(from, from + 4));
        assert(list.subrange(from + 4, from + 4 + text.len()) =~= before.subrange(
            from + 4,
            from + 4 + text.len(),
        ));
    }
}

/// A tags packet is as long as every other one.
pub proof fn lemma_tags_packet_len(vendor: Seq<u8>, comments: Seq<&str>)
    requires
        tags_padding(vendor, comments) >= 4,
    ensures
        tags_packet(vendor, comments).len() == 436,
{
    lemma_comment_list_len(comments);
}

proof fn lemma_comment_list_len(comments: Seq<&str>)
    ensures
        comment_list(comments).len() == comment_list_len(comments),
    decreases comments.len(),
{
    if comments.len() > 0 {
        lemma_comment_list_len(comments.drop_last());
    }
}

/// The packet a TAF names its encoder in: `vendor`, `comments`, and a comment that fills it up to
/// the one length it has. Refused where no room is left for that comment.
#[verifier::rlimit(30)]
pub fn opus_tags(vendor: &str, comments: &[&str]) -> (result: Result<[u8; 436], BuildError>)
    ensures
        match result {
            Ok(packet) => {
                &&& tags_padding(vendor.spec_bytes(), comments@) >= 4
                &&& packet@ == tags_packet(vendor.spec_bytes(), comments@)
            },
            Err(error) => {
                &&& tags_padding(vendor.spec_bytes(), comments@) < 4
                &&& error == BuildError::TagsTooLong
            },
        },
{
    let name = vendor.as_bytes();
    let mut listed: Vec<u8> = Vec::new();
    let mut at: usize = 0;
    assert(comments@.take(0) =~= Seq::empty());
    while at < comments.len()
        invariant
            at <= comments@.len(),
            at <= listed@.len() <= 436,
            listed@ == comment_list(comments@.take(at as int)),
            listed@.len() == comment_list_len(comments@.take(at as int)),
        decreases comments@.len() - at,
    {
        let comment = comments[at].as_bytes();
        proof {
            assert(comments@.take(at + 1).drop_last() =~= comments@.take(at as int));
            lemma_comment_list_len_grows(comments@, at + 1);
        }
        if listed.len() + 4 > OPUS_TAGS_LEN || comment.len() > OPUS_TAGS_LEN - 4 - listed.len() {
            return Err(BuildError::TagsTooLong);
        }
        put_le32(&mut listed, comment.len() as u32);
        put(&mut listed, comment);
        at += 1;
        assert(listed@ =~= comment_list(comments@.take(at as int)));
    }
    assert(comments@.take(at as int) =~= comments@);
    if name.len() > OPUS_TAGS_LEN || 24 + name.len() + listed.len() > OPUS_TAGS_LEN {
        return Err(BuildError::TagsTooLong);
    }
    let padding: usize = OPUS_TAGS_LEN - 20 - name.len() - listed.len();
    let mut packet: Vec<u8> = Vec::new();
    put(&mut packet, OPUS_TAGS_MAGIC.as_slice());
    put_le32(&mut packet, name.len() as u32);
    put(&mut packet, name);
    put_le32(&mut packet, (comments.len() + 1) as u32);
    put(&mut packet, listed.as_slice());
    put_le32(&mut packet, padding as u32);
    put(&mut packet, PAD_COMMENT.as_slice());
    put_run(&mut packet, PAD_FILL, padding - 4);
    assert(packet@ =~= tags_packet(vendor.spec_bytes(), comments@));
    Ok(fixed::<436>(packet.as_slice()))
}

proof fn lemma_comment_list_len_grows(comments: Seq<&str>, at: int)
    requires
        0 <= at <= comments.len(),
    ensures
        comment_list_len(comments.take(at)) <= comment_list_len(comments),
    decreases comments.len() - at,
{
    if at < comments.len() {
        lemma_comment_list_len_grows(comments, at + 1);
        assert(comments.take(at + 1).drop_last() =~= comments.take(at));
    } else {
        assert(comments.take(at) =~= comments);
    }
}

} // verus!
