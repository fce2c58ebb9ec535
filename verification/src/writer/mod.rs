//! Writing a TAF: packets in, Ogg pages out, and the header block once everything is known.
//!
//! Packets are held back until a page of them is full, because a page has to end exactly where its
//! block does: the last packet on it is padded to fill it. A page is filled only by a packet whose
//! room is not a multiple of 256 bytes, since no packet takes up such a room exactly — so a page may
//! be closed with fewer packets than are held, and the rest of them go onto the next one.

pub mod carried;
pub mod file;

pub use file::{write_taf, Buffer, Output, StdTafWriter, WriterIoError};

use crate::digest::Sha1;
use crate::header::{encode_header, EncodeHeaderError};
use crate::id::AudioId;
use crate::ogg::{opus_head, opus_tags, packet_cost, BuildError, Draft, PageBuilder};
use crate::ogg::OPUS_PRE_SKIP;
use crate::opus_packet::{pad_to, PadError};
use vstd::prelude::*;
use vstd::string::{StringExecFns, StringSliceAdditionalSpecFns};

verus! {

/// The longest audio region a TAF has.
pub const MAX_AUDIO_LEN: u32 = 2_147_479_551;

/// The bytes of a block of the audio region.
pub const BLOCK_BYTES: u32 = 4096;

/// The bytes of the page that begins the stream.
pub const HEAD_PAGE_LEN: usize = 47;

/// The bytes of the page that names the encoder.
pub const TAGS_PAGE_LEN: usize = 465;

/// The bytes of the first page of audio, which fills up the block those two begin.
pub const FIRST_AUDIO_PAGE_LEN: usize = 3584;

/// The bytes of every page behind it.
pub const AUDIO_PAGE_LEN: usize = 4096;

/// The steps in which a room grows that no packet takes up exactly.
pub const SEGMENT_STEP: usize = 256;

/// The block the chapter every TAF begins with starts at.
pub const FIRST_CHAPTER: u32 = 0;

/// Why a TAF could not be written.
#[derive(Debug, Clone, Copy, PartialEq, Eq, Structural)]
#[non_exhaustive]
pub enum WriterError {
    /// A packet is longer than any page carries.
    PacketTooLarge,
    /// The audio region would grow past the longest there is.
    AudioTooLarge,
    /// A packet that was to fill a page could not be padded.
    Pad(PadError),
    /// A page could not be built.
    Build(BuildError),
    /// The header block could not be written.
    Header(EncodeHeaderError),
}

impl WriterError {
    /// What the error says.
    pub open spec fn said(self) -> Seq<char> {
        match self {
            WriterError::PacketTooLarge => "an Opus packet is longer than a TAF page carries"@,
            WriterError::AudioTooLarge => {
                "a TAF's audio region cannot grow past 2147479551 bytes"@
            },
            WriterError::Pad(error) => error.said(),
            WriterError::Build(error) => error.said(),
            WriterError::Header(error) => error.said(),
        }
    }

    /// What went wrong, in words.
    pub fn message(&self) -> (text: String)
        ensures
            text@ == self.said(),
    {
        match *self {
            WriterError::PacketTooLarge => String::from_str(
                "an Opus packet is longer than a TAF page carries",
            ),
            WriterError::AudioTooLarge => String::from_str(
                "a TAF's audio region cannot grow past 2147479551 bytes",
            ),
            WriterError::Pad(error) => error.message(),
            WriterError::Build(error) => error.message(),
            WriterError::Header(error) => error.message(),
        }
    }
}

/// Who encoded the audio, and what else there is to say about it.
#[derive(Debug, Clone, Copy)]
pub struct Tags<'a> {
    /// The encoder.
    pub vendor: &'a str,
    /// The comments.
    pub comments: &'a [&'a str],
}

impl<'a> Tags<'a> {
    /// The tags of audio encoded by `vendor`, with `comments`.
    pub fn new(vendor: &'a str, comments: &'a [&'a str]) -> (tags: Self)
        ensures
            tags.vendor == vendor,
            tags.comments == comments,
    {
        Tags { vendor, comments }
    }

    /// The packet the tags are written as.
    pub open spec fn packet(self) -> Seq<u8> {
        crate::ogg::builder::tags_packet(self.vendor.spec_bytes(), self.comments@)
    }

    /// Whether the tags fit that packet.
    pub open spec fn fit(self) -> bool {
        crate::ogg::builder::tags_padding(self.vendor.spec_bytes(), self.comments@) >= 4
    }
}

/// Where the pages of an audio region go as they are closed. Which those are is the implementation's to
/// say.
pub trait PageSink {
    /// Every page that has been handed over so far.
    closed spec fn pages(&self) -> Seq<Seq<u8>> {
        vstd::pervasive::arbitrary()
    }

    /// Hands `page` over.
    fn emit(&mut self, page: &[u8])
        ensures
            final(self).pages() == old(self).pages().push(page@),
    ;
}

/// Pages kept as they come.
pub struct PageList {
    /// The pages.
    pub list: Vec<Vec<u8>>,
}

impl PageList {
    /// No page yet.
    pub fn new() -> (pages: Self)
        ensures
            pages.pages() == Seq::<Seq<u8>>::empty(),
    {
        let pages = PageList { list: Vec::new() };
        assert(pages.pages() =~= Seq::<Seq<u8>>::empty());
        pages
    }
}

impl PageSink for PageList {
    open spec fn pages(&self) -> Seq<Seq<u8>> {
        self.list@.map_values(|page: Vec<u8>| page@)
    }

    fn emit(&mut self, page: &[u8]) {
        let mut kept: Vec<u8> = Vec::new();
        crate::bytes::put(&mut kept, page);
        assert(kept@ =~= page@);
        self.list.push(kept);
        assert(self.pages() =~= old(self).pages().push(page@));
    }
}

/// Why something was refused, with what it was to be done with handed back.
#[derive(Debug)]
pub struct Refused<E, T> {
    /// Why.
    pub error: E,
    /// What is handed back.
    pub back: T,
}

/// A packet that is held back, with the samples it carries.
#[verifier::ext_equal]
pub struct Held {
    /// The packet.
    pub bytes: Seq<u8>,
    /// The samples it carries.
    pub samples: u32,
}

/// What has been written, and what is held back.
#[verifier::ext_equal]
pub struct Written {
    /// The audio id.
    pub audio_id: AudioId,
    /// Every page there is.
    pub pages: Seq<Draft>,
    /// The samples in them.
    pub granule: u64,
    /// The length the next page is to have.
    pub target: nat,
    /// The packets that are on no page yet.
    pub packets: Seq<Held>,
    /// The blocks the chapters start at.
    pub chapters: Seq<u32>,
}

/// The bytes of `pages`, one behind the other.
pub open spec fn region(pages: Seq<Draft>) -> Seq<u8>
    decreases pages.len(),
{
    if pages.len() == 0 {
        Seq::empty()
    } else {
        region(pages.drop_last()) + pages.last().bytes()
    }
}

/// The bytes of each of `pages`.
pub open spec fn page_list(pages: Seq<Draft>) -> Seq<Seq<u8>> {
    pages.map_values(|page: Draft| page.bytes())
}

/// The bytes `packets` take up on a page.
pub open spec fn costs(packets: Seq<Held>) -> nat
    decreases packets.len(),
{
    if packets.len() == 0 {
        0
    } else {
        costs(packets.drop_last()) + crate::ogg::builder::cost(packets.last().bytes.len())
    }
}

/// A granule position with the samples of `packets` behind it, as far as it counts.
pub open spec fn granule_behind(granule: u64, packets: Seq<Held>) -> u64
    decreases packets.len(),
{
    if packets.len() == 0 {
        granule
    } else {
        let before = granule_behind(granule, packets.drop_last());
        if before + packets.last().samples > u64::MAX {
            u64::MAX
        } else {
            (before + packets.last().samples) as u64
        }
    }
}

/// The packets themselves.
pub open spec fn bytes_of(packets: Seq<Held>) -> Seq<Seq<u8>> {
    packets.map_values(|packet: Held| packet.bytes)
}

/// The longest packet that takes up no more than `room` bytes of a page.
pub open spec fn filling(room: nat) -> nat {
    if room == 0 {
        0
    } else {
        (room / 256 * 255 + room % 256 - 1) as nat
    }
}

/// Whether a packet can take up `room` bytes of a page exactly.
pub open spec fn fillable(room: nat) -> bool {
    crate::ogg::builder::cost(filling(room)) == room
}

/// The page that begins the stream.
pub open spec fn head_page(audio_id: AudioId) -> Draft {
    Draft {
        granule: 0,
        serial: audio_id.0,
        sequence: 0,
        flags: crate::ogg::FLAG_FIRST,
        packets: seq![crate::ogg::builder::head_packet(OPUS_PRE_SKIP)],
    }
}

/// The page that names the encoder.
pub open spec fn tags_page(audio_id: AudioId, tags: Seq<u8>) -> Draft {
    Draft { granule: 0, serial: audio_id.0, sequence: 1, flags: 0, packets: seq![tags] }
}

/// A TAF with nothing in it but the two pages that open the stream, and the chapter that starts with
/// it.
pub open spec fn started(audio_id: AudioId, tags: Seq<u8>) -> Written {
    Written {
        audio_id,
        pages: seq![head_page(audio_id), tags_page(audio_id, tags)],
        granule: 0,
        target: 3584,
        packets: Seq::empty(),
        chapters: seq![0u32],
    }
}

impl Written {
    /// The bytes that have been written.
    pub open spec fn len(self) -> nat {
        region(self.pages).len()
    }

    /// The bytes the held packets leave on the next page.
    pub open spec fn room(self) -> int {
        self.target - 27 - costs(self.packets)
    }

    /// The bytes the held packets in front of the packet `at` leave on the next page.
    pub open spec fn room_for(self, at: int) -> nat {
        (self.target - 27 - costs(self.packets.take(at))) as nat
    }

    /// How many of the first `count` held packets go onto the next page: the most of them of which
    /// the last one can fill it.
    pub open spec fn taken_of(self, count: nat) -> nat
        decreases count,
    {
        if count == 0 {
            0
        } else if fillable(self.room_for(count - 1)) {
            count
        } else {
            self.taken_of((count - 1) as nat)
        }
    }

    /// How many of the held packets go onto the next page.
    pub open spec fn taken(self) -> nat {
        self.taken_of(self.packets.len())
    }

    /// The last packet of the next page, padded to fill it.
    pub open spec fn closing_packet(self) -> Result<Seq<u8>, PadError> {
        let at = self.taken() - 1;
        let packet = self.packets[at].bytes;
        let len = filling(self.room_for(at));
        if packet.len() < len {
            crate::opus_packet::pad_result(packet, len)
        } else {
            Ok(packet)
        }
    }

    /// The next page.
    pub open spec fn closing_page(self) -> Draft {
        let held = self.packets.take(self.taken() as int);
        Draft {
            granule: granule_behind(self.granule, held),
            serial: self.audio_id.0,
            sequence: self.pages.len() as u32,
            flags: 0,
            packets: bytes_of(held.drop_last()).push(self.closing_packet()->Ok_0),
        }
    }

    /// What closing a page comes to. Nothing held is nothing to close. A packet that cannot be
    /// padded, more packets than a lacing table describes and a region past the longest there is are
    /// refused, in that order, and change nothing.
    pub open spec fn closed(self) -> Result<Written, WriterError> {
        if self.taken() == 0 {
            Ok(self)
        } else if self.closing_packet() is Err {
            Err(WriterError::Pad(self.closing_packet()->Err_0))
        } else if crate::ogg::builder::lacing_of(self.closing_page().packets).len() > 255 {
            Err(WriterError::Build(BuildError::PageFull))
        } else if self.len() + self.target > MAX_AUDIO_LEN {
            Err(WriterError::AudioTooLarge)
        } else {
            Ok(
                Written {
                    pages: self.pages.push(self.closing_page()),
                    granule: self.closing_page().granule,
                    target: 4096,
                    packets: self.packets.skip(self.taken() as int),
                    ..self
                },
            )
        }
    }

    /// A page closed where `due`, and whatever kept it from being closed.
    pub open spec fn closed_if(self, due: bool) -> (Written, Option<WriterError>) {
        if !due {
            (self, None)
        } else {
            match self.closed() {
                Ok(next) => (next, None),
                Err(error) => (self, Some(error)),
            }
        }
    }

    /// What adding a packet comes to: pages are closed until it fits, two at the most, then it is
    /// held, and a page that is now full is closed. What was closed stays closed where a later step
    /// is refused.
    pub open spec fn added(self, packet: Held) -> (Written, Option<WriterError>) {
        let cost = crate::ogg::builder::cost(packet.bytes.len());
        let (first, refused) = self.closed_if(cost > self.room());
        if refused is Some {
            (first, refused)
        } else {
            let (second, refused) = first.closed_if(cost > first.room());
            if refused is Some {
                (second, refused)
            } else if cost > second.room() {
                (second, Some(WriterError::PacketTooLarge))
            } else {
                let held = Written { packets: second.packets.push(packet), ..second };
                held.closed_if(held.room() == 0)
            }
        }
    }

    /// What closing everything that is held comes to, which takes two pages at the most.
    pub open spec fn flushed(self) -> (Written, Option<WriterError>) {
        let (first, refused) = self.closed_if(true);
        if refused is Some {
            (first, refused)
        } else {
            first.closed_if(true)
        }
    }

    /// A chapter started where the next block does, unless one has been.
    pub open spec fn with_chapter(self) -> Written {
        let block = (self.len() / 4096) as u32;
        if self.chapters.last() == block {
            self
        } else {
            Written { chapters: self.chapters.push(block), ..self }
        }
    }

    /// What starting a chapter comes to.
    pub open spec fn begun(self) -> (Written, Option<WriterError>) {
        let (next, refused) = self.flushed();
        if refused is Some {
            (next, refused)
        } else {
            (next.with_chapter(), None)
        }
    }

    /// What the header of a finished file states, with the region hashing to `sha1`.
    pub open spec fn header(self, sha1: Seq<u8>) -> crate::header::Header {
        crate::header::Header {
            sha1,
            data_length: self.len() as u32,
            audio_id: self.audio_id,
            chapters: self.chapters,
        }
    }

    /// The bytes the page `at` has to have.
    pub open spec fn page_target(at: int) -> nat {
        if at == 0 {
            47
        } else if at == 1 {
            465
        } else if at == 2 {
            3584
        } else {
            4096
        }
    }

    /// Whether the page `at` can be that page of the file, behind the one in front of it.
    pub open spec fn page_fits(self, at: int) -> bool {
        let page = self.pages[at];
        &&& page.len() == Self::page_target(at)
        &&& crate::ogg::builder::lacing_of(page.packets).len() <= 255
        &&& page.serial == self.audio_id.0
        &&& page.sequence == at
        &&& page.flags == (if at == 0 {
            crate::ogg::FLAG_FIRST
        } else {
            0u8
        })
        &&& page.granule >= (if at == 0 {
            0
        } else {
            self.pages[at - 1].granule
        })
    }

    /// What holds of everything that is ever written: the pages end where their blocks do and count
    /// on from each other, what is held fits the next page, and the chapters start at blocks there
    /// are or the one that comes next, in order and no two at one.
    pub open spec fn well_formed(self) -> bool {
        &&& self.pages.len() >= 2
        &&& self.target == Self::page_target(self.pages.len() as int)
        &&& costs(self.packets) + 27 <= self.target
        &&& self.len() <= MAX_AUDIO_LEN
        &&& self.pages.len() == 2 ==> self.granule == 0
        &&& self.granule == self.pages.last().granule
        &&& forall|i: int| 0 <= i < self.pages.len() ==> #[trigger] self.page_fits(i)
        &&& crate::reader::opens_with(self.pages[0].page(), crate::ogg::OPUS_HEAD_MAGIC@)
        &&& crate::reader::opens_with(self.pages[1].page(), crate::ogg::OPUS_TAGS_MAGIC@)
        &&& self.chapters.len() > 0
        &&& self.chapters[0] == 0
        &&& self.chapters.last() <= self.len() / 4096
        &&& forall|i: int, j: int|
            0 <= i < j < self.chapters.len() ==> self.chapters[i] < self.chapters[j]
    }
}

proof fn lemma_fillable(room: nat)
    ensures
        fillable(room) <==> room % 256 != 0,
{
    let q = room / 256;
    let r = room % 256;
    if r > 0 {
        assert(filling(room) == 255 * q + (r - 1));
        assert((255 * q + (r - 1)) / 255 == q);
    } else if room > 0 {
        assert(filling(room) == 255 * (q - 1) + 254);
        assert((255 * (q - 1) + 254) / 255 == q - 1);
    }
}

/// The packet that fills a room is the longest that fits it: it costs no more than the room, and one a
/// byte longer costs more. It takes up all of the room unless that is a multiple of 256 bytes, which no
/// packet costs.
pub proof fn lemma_the_longest_packet_that_fits(room: nat)
    requires
        room > 0,
    ensures
        crate::ogg::builder::cost(filling(room)) <= room,
        crate::ogg::builder::cost(filling(room) + 1) > room,
        crate::ogg::builder::cost(filling(room)) == room <==> room % 256 != 0,
{
    let q = room / 256;
    let r = room % 256;
    if r > 0 {
        assert(filling(room) == 255 * q + (r - 1));
        assert((255 * q + (r - 1)) / 255 == q);
        assert((255 * q + r) / 255 >= q);
    } else {
        assert(filling(room) == 255 * (q - 1) + 254);
        assert((255 * (q - 1) + 254) / 255 == q - 1);
        assert((255 * (q - 1) + 255) / 255 == q);
    }
}

/// A packet fills a room exactly where it is as long as the longest that fits it, and a packet that
/// costs no more than the room is no longer than that.
proof fn lemma_filling(room: nat, len: nat)
    requires
        fillable(room),
        crate::ogg::builder::cost(len) <= room,
    ensures
        len <= filling(room),
        len == filling(room) ==> crate::ogg::builder::cost(len) == room,
{
    if len > filling(room) {
        assert(len / 255 >= filling(room) / 255);
    }
}

proof fn lemma_costs_take(packets: Seq<Held>, at: int)
    requires
        0 <= at <= packets.len(),
    ensures
        costs(packets.take(at)) <= costs(packets),
        costs(packets) == costs(packets.take(at)) + costs(packets.skip(at)),
    decreases packets.len() - at,
{
    if at < packets.len() {
        lemma_costs_take(packets.drop_last(), at);
        assert(packets.drop_last().take(at) =~= packets.take(at));
        assert(packets.skip(at).drop_last() =~= packets.drop_last().skip(at));
        assert(packets.skip(at).last() == packets.last());
    } else {
        assert(packets.take(at) =~= packets);
        assert(packets.skip(at) =~= Seq::empty());
    }
}

proof fn lemma_costs_next(packets: Seq<Held>, at: int)
    requires
        0 <= at < packets.len(),
    ensures
        costs(packets.take(at + 1)) == costs(packets.take(at)) + crate::ogg::builder::cost(
            packets[at].bytes.len(),
        ),
{
    assert(packets.take(at + 1).drop_last() =~= packets.take(at));
}

proof fn lemma_bytes_of_costs(packets: Seq<Held>)
    ensures
        crate::ogg::builder::lacing_of(bytes_of(packets)).len() + crate::ogg::builder::body_of(
            bytes_of(packets),
        ).len() == costs(packets),
    decreases packets.len(),
{
    if packets.len() > 0 {
        lemma_bytes_of_costs(packets.drop_last());
        assert(bytes_of(packets) =~= bytes_of(packets.drop_last()).push(packets.last().bytes));
        crate::ogg::builder::lemma_push_len(bytes_of(packets.drop_last()), packets.last().bytes);
    }
}

proof fn lemma_granule_grows(granule: u64, packets: Seq<Held>)
    ensures
        granule_behind(granule, packets) >= granule,
    decreases packets.len(),
{
    if packets.len() > 0 {
        lemma_granule_grows(granule, packets.drop_last());
    }
}

/// Where the pages of a file have the lengths they have to have, the file is as long as that.
pub proof fn lemma_region_len(pages: Seq<Draft>)
    requires
        forall|i: int| 0 <= i < pages.len() ==> #[trigger] pages[i].len() == Written::page_target(i),
    ensures
        region(pages).len() == (if pages.len() == 0 {
            0nat
        } else if pages.len() == 1 {
            47
        } else if pages.len() == 2 {
            512
        } else {
            ((pages.len() - 2) * 4096) as nat
        }),
    decreases pages.len(),
{
    if pages.len() > 0 {
        let less = pages.drop_last();
        assert forall|i: int| 0 <= i < less.len() implies #[trigger] less[i].len()
            == Written::page_target(i) by {
            assert(less[i] == pages[i]);
        }
        lemma_region_len(less);
        crate::ogg::builder::lemma_bytes_len(pages.last());
        assert(pages[pages.len() - 1].len() == Written::page_target(pages.len() - 1));
    }
}

impl Written {
    proof fn lemma_taken_of(self, count: nat)
        requires
            self.well_formed(),
            count <= self.packets.len(),
        ensures
            self.taken_of(count) <= count,
            count > 0 ==> self.taken_of(count) > 0,
            self.taken_of(count) > 0 ==> fillable(self.room_for(self.taken_of(count) - 1)),
            forall|i: int|
                self.taken_of(count) <= i < count ==> !fillable(#[trigger] self.room_for(i)),
        decreases count,
    {
        if count > 0 {
            self.lemma_taken_of((count - 1) as nat);
            if count == 1 {
                assert(self.packets.take(0) =~= Seq::empty());
                lemma_fillable(self.room_for(0));
            }
        }
    }

    proof fn lemma_len(self)
        requires
            self.well_formed(),
        ensures
            self.pages.len() == 2 ==> self.len() == 512,
            self.pages.len() > 2 ==> self.len() == (self.pages.len() - 2) * 4096,
            self.pages.len() < 0x10_0000,
    {
        assert forall|i: int| 0 <= i < self.pages.len() implies #[trigger] self.pages[i].len()
            == Written::page_target(i) by {
            assert(self.page_fits(i));
        }
        lemma_region_len(self.pages);
    }

    /// A page is closed exactly as long as it has to be.
    proof fn lemma_closing_page(self)
        requires
            self.well_formed(),
            self.packets.len() > 0,
            self.closing_packet() is Ok,
        ensures
            self.closing_page().len() == self.target,
            self.closing_page().granule >= self.granule,
            crate::ogg::builder::cost(self.closing_packet()->Ok_0.len()) == self.room_for(
                self.taken() - 1,
            ),
            self.closing_packet()->Ok_0.len() <= 65_024,
            0 < self.taken() <= self.packets.len(),
    {
        self.lemma_taken_of(self.packets.len());
        let at = self.taken() - 1;
        let held = self.packets.take(self.taken() as int);
        let room = self.room_for(at);
        lemma_costs_take(self.packets, at);
        lemma_costs_take(self.packets, at + 1);
        lemma_costs_next(self.packets, at);
        let packet = self.packets[at].bytes;
        lemma_filling(room, packet.len());
        if packet.len() < filling(room) {
            crate::opus_packet::lemma_padding_keeps_the_frames(packet, filling(room));
        }
        let closing = self.closing_packet()->Ok_0;
        assert(crate::ogg::builder::cost(closing.len()) == room);
        assert(held.drop_last() =~= self.packets.take(at));
        lemma_bytes_of_costs(held.drop_last());
        crate::ogg::builder::lemma_push_len(bytes_of(held.drop_last()), closing);
        lemma_granule_grows(self.granule, held);
    }

    /// Closing a page keeps what holds of everything that is written.
    pub proof fn lemma_closed_keeps(self)
        requires
            self.well_formed(),
            self.closed() is Ok,
        ensures
            self.closed()->Ok_0.well_formed(),
    {
        if self.taken() > 0 {
            let next = self.closed()->Ok_0;
            self.lemma_taken_of(self.packets.len());
            self.lemma_closing_page();
            self.lemma_len();
            lemma_costs_take(self.packets, self.taken() as int);
            crate::ogg::builder::lemma_bytes_len(self.closing_page());
            assert(next.pages.drop_last() =~= self.pages);
            assert(next.len() == self.len() + self.target);
            let n = self.pages.len() as int;
            assert forall|i: int| 0 <= i < next.pages.len() implies #[trigger] next.page_fits(i) by {
                if i < n {
                    assert(self.page_fits(i));
                    assert(next.pages[i] == self.pages[i]);
                    if i > 0 {
                        assert(next.pages[i - 1] == self.pages[i - 1]);
                    }
                } else {
                    assert(next.pages[n - 1] == self.pages.last());
                }
            }
        }
    }

    /// Closing a page that is due keeps it too, whatever it comes to.
    pub proof fn lemma_closed_if_keeps(self, due: bool)
        requires
            self.well_formed(),
        ensures
            self.closed_if(due).0.well_formed(),
    {
        if self.closed() is Ok {
            self.lemma_closed_keeps();
        }
    }

    /// And so does holding a packet there is room for.
    proof fn lemma_held_keeps(self, packet: Held)
        requires
            self.well_formed(),
            crate::ogg::builder::cost(packet.bytes.len()) <= self.room(),
        ensures
            (Written { packets: self.packets.push(packet), ..self }).well_formed(),
    {
        let held = Written { packets: self.packets.push(packet), ..self };
        assert(held.packets.drop_last() =~= self.packets);
        assert forall|i: int| 0 <= i < held.pages.len() implies #[trigger] held.page_fits(i) by {
            assert(self.page_fits(i));
        }
    }

    /// Adding a packet keeps what holds of everything that is written, whatever it comes to.
    pub proof fn lemma_added_keeps(self, packet: Held)
        requires
            self.well_formed(),
        ensures
            self.added(packet).0.well_formed(),
    {
        let cost = crate::ogg::builder::cost(packet.bytes.len());
        self.lemma_closed_if_keeps(cost > self.room());
        let first = self.closed_if(cost > self.room()).0;
        first.lemma_closed_if_keeps(cost > first.room());
        let second = first.closed_if(cost > first.room()).0;
        if cost <= second.room() {
            second.lemma_held_keeps(packet);
            let held = Written { packets: second.packets.push(packet), ..second };
            held.lemma_closed_if_keeps(held.room() == 0);
        }
    }

    /// Closing everything keeps what holds of everything that is written, whatever it comes to.
    pub proof fn lemma_flushed_keeps(self)
        requires
            self.well_formed(),
        ensures
            self.flushed().0.well_formed(),
    {
        self.lemma_closed_if_keeps(true);
        self.closed_if(true).0.lemma_closed_if_keeps(true);
    }

    proof fn lemma_with_chapter_keeps(self)
        requires
            self.well_formed(),
        ensures
            self.with_chapter().well_formed(),
    {
        let with = self.with_chapter();
        self.lemma_len();
        assert forall|i: int| 0 <= i < with.pages.len() implies #[trigger] with.page_fits(i) by {
            assert(self.page_fits(i));
        }
    }

    /// Starting a chapter keeps what holds of everything that is written, whatever it comes to.
    pub proof fn lemma_begun_keeps(self)
        requires
            self.well_formed(),
        ensures
            self.begun().0.well_formed(),
    {
        self.lemma_flushed_keeps();
        self.flushed().0.lemma_with_chapter_keeps();
    }

    /// What a page leaves held is packets in front of which there is room a multiple of 256 bytes
    /// long, so on the next page there is not in front of the last of them.
    proof fn lemma_rest_fills(self)
        requires
            self.well_formed(),
            0 < self.taken() < self.packets.len(),
        ensures
            ({
                let rest = self.packets.skip(self.taken() as int);
                let front = costs(rest.take(rest.len() - 1));
                front <= 4069 && fillable((4069 - front) as nat)
            }),
    {
        let n = self.packets.len() as int;
        let t = self.taken() as int;
        let rest = self.packets.skip(t);
        self.lemma_taken_of(self.packets.len());
        lemma_costs_take(self.packets, t);
        lemma_costs_take(self.packets, n - 1);
        lemma_costs_take(self.packets.take(n - 1), t);
        assert(self.packets.take(n - 1).take(t) =~= self.packets.take(t));
        assert(self.packets.take(n - 1).skip(t) =~= rest.take(rest.len() - 1));
        assert(!fillable(self.room_for(t)));
        assert(!fillable(self.room_for(n - 1)));
        lemma_fillable(self.room_for(t));
        lemma_fillable(self.room_for(n - 1));
        let front = costs(rest.take(rest.len() - 1));
        assert(front == self.room_for(t) - self.room_for(n - 1));
        lemma_fillable((4069 - front) as nat);
    }

    /// Two pages take everything that is held: once both have been closed, nothing is.
    #[verifier::rlimit(30)]
    pub proof fn lemma_flushed_holds_nothing(self)
        requires
            self.well_formed(),
            self.flushed().1 is None,
        ensures
            self.flushed().0.packets.len() == 0,
    {
        self.lemma_taken_of(self.packets.len());
        if self.packets.len() > 0 {
            let first = self.closed()->Ok_0;
            let rest = self.packets.skip(self.taken() as int);
            assert(first.packets == rest);
            if rest.len() > 0 {
                self.lemma_rest_fills();
                assert(first.room_for(rest.len() - 1) == 4069 - costs(rest.take(rest.len() - 1)));
                assert(first.taken() == rest.len());
                assert(rest.skip(rest.len() as int).len() == 0);
            } else {
                assert(first.taken() == 0);
            }
        } else {
            assert(self.closed() == Ok::<Written, WriterError>(self));
        }
    }
}

/// A TAF that has just been started holds to what every one of them does.
pub proof fn lemma_started(audio_id: AudioId, tags: Tags<'_>)
    requires
        tags.fit(),
    ensures
        started(audio_id, tags.packet()).well_formed(),
        tags.packet().len() == 436,
{
    let begun = started(audio_id, tags.packet());
    let head = crate::ogg::builder::head_packet(OPUS_PRE_SKIP);
    let named = tags.packet();
    crate::ogg::builder::lemma_tags_packet_len(tags.vendor.spec_bytes(), tags.comments@);
    lemma_lone_page(head_page(audio_id), head);
    lemma_lone_page(tags_page(audio_id, named), named);
    assert(head.take(8) =~= crate::ogg::OPUS_HEAD_MAGIC@);
    assert(named.take(8) =~= crate::ogg::OPUS_TAGS_MAGIC@);
    assert(begun.pages.drop_last() =~= seq![head_page(audio_id)]);
    assert(begun.pages.drop_last().drop_last() =~= Seq::empty());
    assert forall|i: int| 0 <= i < begun.pages.len() implies #[trigger] begun.page_fits(i) by {
        if i == 0 {
        }
    }
    assert forall|i: int| 0 <= i < begun.pages.len() implies #[trigger] begun.pages[i].len()
        == Written::page_target(i) by {
        assert(begun.page_fits(i));
    }
    lemma_region_len(begun.pages);
}

proof fn lemma_lone_page(page: Draft, packet: Seq<u8>)
    requires
        page.packets == seq![packet],
    ensures
        page.len() == 27 + crate::ogg::builder::cost(packet.len()),
        crate::ogg::builder::lacing_of(page.packets).len() == packet.len() / 255 + 1,
        crate::ogg::page::packets_in(page.page().lacing, page.page().body) == seq![packet],
{
    let none = Seq::<Seq<u8>>::empty();
    assert(page.packets =~= none.push(packet));
    crate::ogg::builder::lemma_push_len(none, packet);
    crate::ogg::builder::lemma_packets_read_back(page.packets);
}

/// The longest packet that takes up no more than `room` bytes of a page.
pub fn packet_filling(room: usize) -> (len: usize)
    ensures
        len == filling(room as nat),
{
    if room == 0 {
        0
    } else {
        room / SEGMENT_STEP * 255 + room % SEGMENT_STEP - 1
    }
}

/// A packet that is held back, with the samples it carries.
struct Packet {
    bytes: Vec<u8>,
    samples: u32,
}

impl View for Packet {
    type V = Held;

    closed spec fn view(&self) -> Held {
        Held { bytes: self.bytes@, samples: self.samples }
    }
}

/// The audio region being written, without the place it is written to.
struct Stream<D: Sha1> {
    digest: D,
    audio_id: AudioId,
    sequence: u32,
    granule: u64,
    written: u32,
    target: usize,
    used: usize,
    packets: Vec<Packet>,
    chapters: Vec<u32>,
    pages: Ghost<Seq<Draft>>,
    fed_before: Ghost<Seq<u8>>,
    sunk_before: Ghost<(Seq<Seq<u8>>, nat)>,
}

/// What a sink holds that held `before.0` when `before.1` pages had been written.
spec fn handed_over(before: (Seq<Seq<u8>>, nat), pages: Seq<Draft>) -> Seq<Seq<u8>> {
    before.0 + page_list(pages).skip(before.1 as int)
}

spec fn held_of(packets: Seq<Packet>) -> Seq<Held> {
    packets.map_values(|packet: Packet| packet@)
}

impl<D: Sha1> View for Stream<D> {
    type V = Written;

    closed spec fn view(&self) -> Written {
        Written {
            audio_id: self.audio_id,
            pages: self.pages@,
            granule: self.granule,
            target: self.target as nat,
            packets: held_of(self.packets@),
            chapters: self.chapters@,
        }
    }
}

impl<D: Sha1> Stream<D> {
    /// The counts are those of what has been written and of what is held.
    spec fn well_formed(&self) -> bool {
        &&& self@.well_formed()
        &&& self.sequence == self@.pages.len()
        &&& self.written == self@.len()
        &&& self.used == 27 + costs(self@.packets)
    }

    /// Every page has been fed to the digest and handed over, and nothing else has.
    spec fn in_step<F: PageSink>(&self, emit: &F) -> bool {
        &&& self.digest.fed() == self.fed_before@ + region(self.pages@)
        &&& self.sunk_before@.1 <= self.pages@.len()
        &&& emit.pages() == handed_over(self.sunk_before@, self.pages@)
    }

    /// Starts the region: the page that begins the stream, and the page that names the encoder.
    fn start<F: PageSink>(digest: D, audio_id: AudioId, tags: Tags<'_>, emit: &mut F) -> (result:
        Result<Self, WriterError>)
        ensures
            match result {
                Ok(stream) => {
                    &&& tags.fit()
                    &&& stream.well_formed()
                    &&& stream@ == started(audio_id, tags.packet())
                    &&& stream.in_step(final(emit))
                    &&& stream.fed_before@ == digest.fed()
                    &&& stream.sunk_before@ == (old(emit).pages(), 0nat)
                },
                Err(error) => {
                    &&& !tags.fit()
                    &&& error == WriterError::Build(BuildError::TagsTooLong)
                    &&& *final(emit) == *old(emit)
                },
            },
    {
        let ghost fed_before = digest.fed();
        let ghost sunk_before = emit.pages();
        let head: [u8; 19] = opus_head(OPUS_PRE_SKIP);
        let comments: [u8; 436] = match opus_tags(tags.vendor, tags.comments) {
            Err(error) => {
                return Err(WriterError::Build(error));
            },
            Ok(comments) => comments,
        };
        proof {
            lemma_started(audio_id, tags);
            lemma_lone_page(head_page(audio_id), head@);
            lemma_lone_page(tags_page(audio_id, comments@), comments@);
        }
        let mut opening: PageBuilder = PageBuilder::new(audio_id.get(), 0);
        opening.flags(true, false);
        assert(crate::ogg::FLAG_FIRST | 0u8 == crate::ogg::FLAG_FIRST) by (bit_vector);
        let pushed = opening.push_packet(head.as_slice());
        assert(pushed is Ok);
        assert(opening@.packets =~= head_page(audio_id).packets);
        assert(opening@ =~= head_page(audio_id));
        let opening: Vec<u8> = opening.finish();
        let mut naming: PageBuilder = PageBuilder::new(audio_id.get(), 1);
        let pushed = naming.push_packet(comments.as_slice());
        assert(pushed is Ok);
        assert(naming@.packets =~= tags_page(audio_id, comments@).packets);
        assert(naming@ =~= tags_page(audio_id, comments@));
        let naming: Vec<u8> = naming.finish();
        let mut digest: D = digest;
        emit.emit(opening.as_slice());
        digest.update(opening.as_slice());
        emit.emit(naming.as_slice());
        digest.update(naming.as_slice());
        let mut chapters: Vec<u32> = Vec::new();
        chapters.push(FIRST_CHAPTER);
        let stream = Stream {
            digest,
            audio_id,
            sequence: 2,
            granule: 0,
            written: 512,
            target: FIRST_AUDIO_PAGE_LEN,
            used: 27,
            packets: Vec::new(),
            chapters,
            pages: Ghost(started(audio_id, tags.packet()).pages),
            fed_before: Ghost(fed_before),
            sunk_before: Ghost((sunk_before, 0)),
        };
        proof {
            let pages = started(audio_id, tags.packet()).pages;
            assert(stream@.packets =~= Seq::empty());
            assert(stream@.chapters =~= seq![0u32]);
            assert(stream@ =~= started(audio_id, tags.packet()));
            assert(pages.drop_last() =~= seq![head_page(audio_id)]);
            assert(pages.drop_last().drop_last() =~= Seq::empty());
            reveal_with_fuel(region, 3);
            assert(region(pages) =~= opening@ + naming@);
            stream@.lemma_len();
            assert(stream.digest.fed() =~= fed_before + region(pages));
            assert(emit.pages() =~= handed_over((sunk_before, 0), pages));
        }
        Ok(stream)
    }

    /// Adds `packet`, which carries `samples` samples.
    fn add_packet<F: PageSink>(&mut self, packet: &[u8], samples: u32, emit: &mut F) -> (result:
        Result<(), WriterError>)
        requires
            old(self).well_formed(),
            old(self).in_step(old(emit)),
        ensures
            final(self).well_formed(),
            final(self).in_step(final(emit)),
            final(self).fed_before == old(self).fed_before,
            final(self).sunk_before == old(self).sunk_before,
            ({
                let (next, refused) = old(self)@.added(Held { bytes: packet@, samples });
                &&& final(self)@ == next
                &&& refused is None ==> result is Ok
                &&& refused is Some ==> result == Err::<(), WriterError>(refused->0)
            }),
    {
        let cost: usize = packet_cost(packet.len());
        let due: bool = cost > self.room();
        if let Err(error) = self.close_if(due, emit) {
            return Err(error);
        }
        let due: bool = cost > self.room();
        if let Err(error) = self.close_if(due, emit) {
            return Err(error);
        }
        if cost > self.room() {
            return Err(WriterError::PacketTooLarge);
        }
        self.hold(packet, samples, cost);
        let due: bool = self.room() == 0;
        self.close_if(due, emit)
    }

    /// Closes a page where `due`.
    fn close_if<F: PageSink>(&mut self, due: bool, emit: &mut F) -> (result: Result<
        (),
        WriterError,
    >)
        requires
            old(self).well_formed(),
            old(self).in_step(old(emit)),
        ensures
            final(self).well_formed(),
            final(self).in_step(final(emit)),
            final(self).fed_before == old(self).fed_before,
            final(self).sunk_before == old(self).sunk_before,
            final(self)@ == old(self)@.closed_if(due).0,
            result == (match old(self)@.closed_if(due).1 {
                None => Ok::<(), WriterError>(()),
                Some(error) => Err(error),
            }),
    {
        if !due {
            return Ok(());
        }
        let ghost closed = self@.closed();
        let result = self.close_page(emit);
        match result {
            Ok(()) => {
                assert(closed is Ok);
                Ok(())
            },
            Err(error) => {
                assert(closed == Err::<Written, WriterError>(error));
                Err(error)
            },
        }
    }

    /// Holds `packet` back, which costs `cost` bytes of the room there is.
    fn hold(&mut self, packet: &[u8], samples: u32, cost: usize)
        requires
            old(self).well_formed(),
            cost == crate::ogg::builder::cost(packet@.len()),
            cost <= old(self)@.room(),
        ensures
            final(self).well_formed(),
            final(self)@ == (Written {
                packets: old(self)@.packets.push(Held { bytes: packet@, samples }),
                ..old(self)@
            }),
            final(self).fed_before == old(self).fed_before,
            final(self).sunk_before == old(self).sunk_before,
            final(self).digest == old(self).digest,
    {
        let ghost before = self@;
        let ghost held = Held { bytes: packet@, samples };
        let mut bytes: Vec<u8> = Vec::new();
        crate::bytes::put(&mut bytes, packet);
        assert(bytes@ =~= packet@);
        self.packets.push(Packet { bytes, samples });
        self.used += cost;
        proof {
            assert(self@.packets =~= before.packets.push(held));
            assert(self@ =~= (Written { packets: before.packets.push(held), ..before }));
            assert(self@.packets.drop_last() =~= before.packets);
            assert forall|i: int| 0 <= i < self@.pages.len() implies #[trigger] self@.page_fits(
                i,
            ) by {
                assert(before.page_fits(i));
            }
        }
    }

    /// Starts a chapter with the next packet.
    fn begin_chapter<F: PageSink>(&mut self, emit: &mut F) -> (result: Result<(), WriterError>)
        requires
            old(self).well_formed(),
            old(self).in_step(old(emit)),
        ensures
            final(self).well_formed(),
            final(self).in_step(final(emit)),
            final(self).fed_before == old(self).fed_before,
            final(self).sunk_before == old(self).sunk_before,
            ({
                let (next, refused) = old(self)@.begun();
                &&& final(self)@ == next
                &&& refused is None ==> result is Ok
                &&& refused is Some ==> result == Err::<(), WriterError>(refused->0)
            }),
    {
        proof {
            self@.lemma_begun_keeps();
        }
        if let Err(error) = self.flush(emit) {
            return Err(error);
        }
        let ghost before = self@;
        let block: u32 = self.written / BLOCK_BYTES;
        let last: u32 = self.chapters[self.chapters.len() - 1];
        if last != block {
            self.chapters.push(block);
        }
        assert(self@ =~= before.with_chapter());
        Ok(())
    }

    /// Closes everything that is held and hands back the header block.
    fn finish<F: PageSink>(self, emit: &mut F) -> (result: Result<[u8; 4096], WriterError>)
        requires
            self.well_formed(),
            self.in_step(old(emit)),
        ensures
            ({
                let (next, refused) = self@.flushed();
                let header = next.header(D::hash(self.fed_before@ + region(next.pages)));
                &&& refused is None ==> header.sha1.len() == 20
                &&& final(emit).pages() == handed_over(self.sunk_before@, next.pages)
                &&& match result {
                    Ok(block) => {
                        &&& refused is None
                        &&& crate::header::encode::fits(header)
                        &&& block@ == crate::header::encode::header_block(header)
                    },
                    Err(error) => {
                        ||| refused == Some(error)
                        ||| refused is None && !crate::header::encode::fits(header) && error
                            == WriterError::Header(EncodeHeaderError::TooManyChapters)
                    },
                }
            }),
    {
        let mut stream: Stream<D> = self;
        if let Err(error) = stream.flush(emit) {
            return Err(error);
        }
        let ghost next = stream@;
        let Stream { digest, audio_id, written, chapters, .. } = stream;
        let hash: [u8; 20] = digest.finalize();
        match encode_header(&hash, written, audio_id, chapters.as_slice()) {
            Ok(block) => Ok(block),
            Err(error) => Err(WriterError::Header(error)),
        }
    }

    /// Closes everything that is held.
    fn flush<F: PageSink>(&mut self, emit: &mut F) -> (result: Result<(), WriterError>)
        requires
            old(self).well_formed(),
            old(self).in_step(old(emit)),
        ensures
            final(self).well_formed(),
            final(self).in_step(final(emit)),
            final(self).fed_before == old(self).fed_before,
            final(self).sunk_before == old(self).sunk_before,
            ({
                let (next, refused) = old(self)@.flushed();
                &&& final(self)@ == next
                &&& refused is None ==> result is Ok
                &&& refused is Some ==> result == Err::<(), WriterError>(refused->0)
            }),
    {
        if let Err(error) = self.close_page(emit) {
            return Err(error);
        }
        self.close_page(emit)
    }

    /// Closes a page of what is held.
    fn close_page<F: PageSink>(&mut self, emit: &mut F) -> (result: Result<(), WriterError>)
        requires
            old(self).well_formed(),
            old(self).in_step(old(emit)),
        ensures
            final(self).well_formed(),
            final(self).in_step(final(emit)),
            final(self).fed_before == old(self).fed_before,
            final(self).sunk_before == old(self).sunk_before,
            match old(self)@.closed() {
                Ok(next) => result is Ok && final(self)@ == next,
                Err(error) => result == Err::<(), WriterError>(error) && final(self)@ == old(
                    self,
                )@,
            },
    {
        let (taken, room) = self.page_split();
        if taken == 0 {
            return Ok(());
        }
        let ghost start = self@;
        let bytes: Vec<u8> = match self.closing_bytes(taken, room) {
            Err(error) => {
                return Err(error);
            },
            Ok(bytes) => bytes,
        };
        proof {
            start.lemma_len();
        }
        let written: u32 = self.written + bytes.len() as u32;
        if written > MAX_AUDIO_LEN {
            return Err(WriterError::AudioTooLarge);
        }
        let granule: u64 = self.granule_of(taken);
        emit.emit(bytes.as_slice());
        self.digest.update(bytes.as_slice());
        self.written = written;
        self.sequence = self.sequence.saturating_add(1);
        self.granule = granule;
        self.target = AUDIO_PAGE_LEN;
        let rest: Vec<Packet> = self.packets.split_off(taken);
        self.packets = rest;
        self.pages = Ghost(self.pages@.push(start.closing_page()));
        proof {
            assert(self@.packets =~= start.packets.skip(taken as int));
            start.lemma_taken_of(start.packets.len());
            lemma_costs_take(start.packets, taken as int);
        }
        self.used = self.used_by_held();
        proof {
            assert(self@ =~= start.closed()->Ok_0);
            start.lemma_closed_keeps();
            assert(self.pages@.drop_last() =~= start.pages);
            assert(self.digest.fed() =~= self.fed_before@ + region(self.pages@));
            assert(page_list(self.pages@) =~= page_list(start.pages).push(bytes@));
            assert(emit.pages() =~= handed_over(self.sunk_before@, self.pages@));
        }
        Ok(())
    }

    /// The last packet of the next page, padded to fill the room `room`.
    fn closing_packet(&self, taken: usize, room: usize) -> (result: Result<Vec<u8>, PadError>)
        requires
            self@.taken() == taken,
            0 < taken <= self.packets@.len(),
            room == self@.room_for(taken - 1),
            room <= 4096,
        ensures
            match result {
                Ok(padded) => self@.closing_packet() == Ok::<Seq<u8>, PadError>(padded@),
                Err(error) => self@.closing_packet() == Err::<Seq<u8>, PadError>(error),
            },
    {
        let filled: usize = packet_filling(room);
        let last = &self.packets[taken - 1];
        assert(self@.packets[taken - 1].bytes == last.bytes@);
        if last.bytes.len() < filled {
            pad_to(last.bytes.as_slice(), filled)
        } else {
            let mut same: Vec<u8> = Vec::new();
            crate::bytes::put(&mut same, last.bytes.as_slice());
            assert(same@ =~= last.bytes@);
            Ok(same)
        }
    }

    /// The next page, which `taken` of the held packets go onto.
    fn closing_bytes(&self, taken: usize, room: usize) -> (result: Result<Vec<u8>, WriterError>)
        requires
            self.well_formed(),
            self@.taken() == taken,
            0 < taken,
            room == self@.room_for(taken - 1),
            room <= 4096,
        ensures
            match result {
                Ok(bytes) => {
                    &&& self@.closing_packet() is Ok
                    &&& crate::ogg::builder::lacing_of(self@.closing_page().packets).len() <= 255
                    &&& bytes@ == self@.closing_page().bytes()
                    &&& bytes@.len() == self@.target
                    &&& taken <= self.packets@.len()
                },
                Err(error) => self@.closed() == Err::<Written, WriterError>(error),
            },
    {
        let ghost model = self@;
        proof {
            model.lemma_taken_of(model.packets.len());
            model.lemma_len();
            lemma_costs_take(model.packets, taken - 1);
        }
        let padded: Vec<u8> = match self.closing_packet(taken, room) {
            Err(error) => {
                return Err(WriterError::Pad(error));
            },
            Ok(padded) => padded,
        };
        proof {
            model.lemma_closing_page();
            assert(model.packets.take(taken as int).drop_last() =~= model.packets.take(taken - 1));
        }
        let mut page: PageBuilder = PageBuilder::new(self.audio_id.get(), self.sequence);
        page.granule_position(self.granule_of(taken));
        if let Err(error) = self.put_front(&mut page, taken) {
            return Err(error);
        }
        proof {
            page.lemma_fits();
            lemma_bytes_of_costs(model.packets.take(taken - 1));
            crate::ogg::builder::lemma_room_is_lacing(page@, padded@);
        }
        if let Err(error) = page.push_packet(padded.as_slice()) {
            return Err(WriterError::Build(error));
        }
        assert(page@ =~= model.closing_page());
        Ok(page.finish())
    }

    /// Puts every held packet in front of the last one of the next page onto `page`.
    fn put_front(&self, page: &mut PageBuilder, taken: usize) -> (result: Result<(), WriterError>)
        requires
            self.well_formed(),
            self@.taken() == taken,
            0 < taken <= self.packets@.len(),
            self@.closing_packet() is Ok,
            old(page).well_formed(),
            old(page)@ == (Draft { packets: Seq::empty(), ..self@.closing_page() }),
        ensures
            final(page).well_formed(),
            match result {
                Ok(()) => final(page)@ == (Draft {
                    packets: bytes_of(self@.packets.take(taken - 1)),
                    ..self@.closing_page()
                }),
                Err(error) => self@.closed() == Err::<Written, WriterError>(error),
            },
    {
        let ghost model = self@;
        let mut index: usize = 0;
        assert(bytes_of(model.packets.take(0)) =~= Seq::empty());
        while index + 1 < taken
            invariant
                model == self@,
                self.well_formed(),
                model.taken() == taken,
                0 < taken <= self.packets@.len(),
                model.packets.len() == self.packets@.len(),
                model.closing_packet() is Ok,
                index < taken,
                page.well_formed(),
                page@ == (Draft {
                    packets: bytes_of(model.packets.take(index as int)),
                    ..model.closing_page()
                }),
            decreases taken - index,
        {
            proof {
                page.lemma_fits();
                self.lemma_next_fits(page@, index as int);
            }
            if let Err(error) = page.push_packet(self.packets[index].bytes.as_slice()) {
                return Err(WriterError::Build(error));
            }
            index += 1;
            assert(bytes_of(model.packets.take(index as int)) =~= bytes_of(
                model.packets.take(index - 1),
            ).push(model.packets[index - 1].bytes));
        }
        Ok(())
    }

    /// How many of the held packets go onto the next page, and the room the last of them fills.
    fn page_split(&self) -> (split: (usize, usize))
        requires
            self.well_formed(),
        ensures
            split.0 == self@.taken(),
            split.0 > 0 ==> split.1 == self@.room_for(split.0 - 1),
            split.1 <= 4096,
    {
        let mut room: usize = self.target - 27;
        let mut taken: usize = 0;
        let mut filled: usize = 0;
        let mut at: usize = 0;
        assert(self@.packets.take(0) =~= Seq::empty());
        while at < self.packets.len()
            invariant
                self.well_formed(),
                at <= self.packets@.len(),
                self@.packets.len() == self.packets@.len(),
                room == self.target - 27 - costs(self@.packets.take(at as int)),
                room <= 4096,
                filled <= 4096,
                taken == self@.taken_of(at as nat),
                taken > 0 ==> filled == self@.room_for(taken - 1),
            decreases self.packets@.len() - at,
        {
            if packet_cost(packet_filling(room)) == room {
                taken = at + 1;
                filled = room;
            }
            proof {
                lemma_costs_next(self@.packets, at as int);
                lemma_costs_take(self@.packets, at + 1);
                assert(self@.packets[at as int].bytes == self.packets@[at as int].bytes@);
            }
            room -= packet_cost(self.packets[at].bytes.len());
            at += 1;
        }
        (taken, filled)
    }

    /// The granule position behind the first `taken` held packets.
    fn granule_of(&self, taken: usize) -> (granule: u64)
        requires
            taken <= self.packets@.len(),
        ensures
            granule == granule_behind(self.granule, self@.packets.take(taken as int)),
    {
        let mut granule: u64 = self.granule;
        let mut at: usize = 0;
        while at < taken
            invariant
                at <= taken <= self.packets@.len(),
                granule == granule_behind(self.granule, self@.packets.take(at as int)),
            decreases taken - at,
        {
            assert(self@.packets.take(at + 1).drop_last() =~= self@.packets.take(at as int));
            granule = granule.saturating_add(self.packets[at].samples as u64);
            at += 1;
        }
        granule
    }

    /// The bytes the held packets take up on a page, its header counted in.
    fn used_by_held(&self) -> (used: usize)
        requires
            costs(self@.packets) <= 4096,
        ensures
            used == 27 + costs(self@.packets),
    {
        let mut used: usize = 27;
        let mut at: usize = 0;
        assert(self@.packets.take(0) =~= Seq::empty());
        while at < self.packets.len()
            invariant
                at <= self.packets@.len(),
                self@.packets.len() == self.packets@.len(),
                costs(self@.packets) <= 4096,
                used == 27 + costs(self@.packets.take(at as int)),
            decreases self.packets@.len() - at,
        {
            proof {
                lemma_costs_next(self@.packets, at as int);
                lemma_costs_take(self@.packets, at + 1);
                assert(self@.packets[at as int].bytes == self.packets@[at as int].bytes@);
            }
            used += packet_cost(self.packets[at].bytes.len());
            at += 1;
        }
        assert(self@.packets.take(at as int) =~= self@.packets);
        used
    }

    /// The bytes the held packets leave on the next page.
    fn room(&self) -> (room: usize)
        requires
            self.well_formed(),
        ensures
            room == self@.room(),
            room <= 4096,
    {
        self.target - self.used
    }

    /// A held packet in front of the last one of a page is refused by the page exactly where the
    /// page's packets need more lacing values than there are.
    proof fn lemma_next_fits(&self, page: Draft, at: int)
        requires
            self@.well_formed(),
            0 <= at < self@.taken() - 1,
            self@.closing_packet() is Ok,
            self@.packets.len() > 0,
            page == (Draft {
                packets: bytes_of(self@.packets.take(at)),
                ..self@.closing_page()
            }),
            crate::ogg::builder::lacing_of(page.packets).len() <= 255,
        ensures
            ({
                let packet = self@.packets[at].bytes;
                &&& packet.len() <= 65_024
                &&& self.packets@[at].bytes@ == packet
                &&& crate::ogg::builder::cost(packet.len()) > page.room() ==> self@.closed()
                    == Err::<Written, WriterError>(WriterError::Build(BuildError::PageFull))
            }),
    {
        let model = self@;
        let packet = model.packets[at].bytes;
        model.lemma_taken_of(model.packets.len());
        lemma_bytes_of_costs(model.packets.take(at));
        lemma_costs_next(model.packets, at);
        lemma_costs_take(model.packets, at + 1);
        crate::ogg::builder::lemma_room_is_lacing(page, packet);
        let closing = model.closing_page().packets;
        let held = model.packets.take(model.taken() as int);
        assert(held.drop_last() =~= model.packets.take(model.taken() - 1));
        assert(closing.take(at + 1) =~= page.packets.push(packet));
        crate::ogg::builder::lemma_lacing_grows(closing, at + 1);
    }
}

/// A TAF being written.
pub struct TafWriter<D: Sha1, F: PageSink> {
    stream: Stream<D>,
    emit: F,
}

impl<D: Sha1, F: PageSink> View for TafWriter<D, F> {
    type V = Written;

    closed spec fn view(&self) -> Written {
        self.stream@
    }
}

impl<D: Sha1, F: PageSink> TafWriter<D, F> {
    /// What holds of every writer.
    pub closed spec fn well_formed(&self) -> bool {
        &&& self.stream.well_formed()
        &&& self.stream.in_step(&self.emit)
        &&& self.stream.sunk_before@.1 == 0
    }

    /// What had been fed to the digest before the writer was made.
    pub closed spec fn fed_before(&self) -> Seq<u8> {
        self.stream.fed_before@
    }

    /// What had been handed to the sink before the writer was made.
    pub closed spec fn sunk_before(&self) -> Seq<Seq<u8>> {
        self.stream.sunk_before@.0
    }

    /// What has been fed to the digest.
    pub closed spec fn fed(&self) -> Seq<u8> {
        self.stream.digest.fed()
    }

    /// What has been handed to the sink.
    pub closed spec fn sunk(&self) -> Seq<Seq<u8>> {
        self.emit.pages()
    }

    /// Every page that is written has been fed to the digest and handed to the sink, in order, and
    /// what is written holds to what every TAF does.
    pub proof fn lemma_in_step(&self)
        requires
            self.well_formed(),
        ensures
            self.fed() == self.fed_before() + region(self@.pages),
            self.sunk() == self.sunk_before() + page_list(self@.pages),
            self@.well_formed(),
    {
    }

    /// Starts a TAF with the audio id `audio_id`: its pages go to `emit` and are hashed by `digest`.
    /// Refused where `tags` do not fit the packet they are written as, and then nothing has been
    /// emitted.
    pub fn new(digest: D, audio_id: AudioId, tags: Tags<'_>, emit: F) -> (result: Result<
        Self,
        Refused<WriterError, F>,
    >)
        ensures
            match result {
                Ok(writer) => {
                    &&& tags.fit()
                    &&& writer.well_formed()
                    &&& writer@ == started(audio_id, tags.packet())
                    &&& writer.fed_before() == digest.fed()
                    &&& writer.sunk_before() == emit.pages()
                },
                Err(refused) => {
                    &&& !tags.fit()
                    &&& refused.error == WriterError::Build(BuildError::TagsTooLong)
                    &&& refused.back == emit
                },
            },
    {
        let mut emit: F = emit;
        match Stream::start(digest, audio_id, tags, &mut emit) {
            Ok(stream) => Ok(TafWriter { stream, emit }),
            Err(error) => Err(Refused { error, back: emit }),
        }
    }

    /// Adds `packet`, which carries `samples` samples.
    pub fn add_packet(&mut self, packet: &[u8], samples: u32) -> (result: Result<(), WriterError>)
        requires
            old(self).well_formed(),
        ensures
            final(self).well_formed(),
            final(self).fed_before() == old(self).fed_before(),
            final(self).sunk_before() == old(self).sunk_before(),
            ({
                let (next, refused) = old(self)@.added(Held { bytes: packet@, samples });
                &&& final(self)@ == next
                &&& refused is None ==> result is Ok
                &&& refused is Some ==> result == Err::<(), WriterError>(refused->0)
            }),
    {
        self.stream.add_packet(packet, samples, &mut self.emit)
    }

    /// Starts a chapter with the next packet.
    pub fn begin_chapter(&mut self) -> (result: Result<(), WriterError>)
        requires
            old(self).well_formed(),
        ensures
            final(self).well_formed(),
            final(self).fed_before() == old(self).fed_before(),
            final(self).sunk_before() == old(self).sunk_before(),
            ({
                let (next, refused) = old(self)@.begun();
                &&& final(self)@ == next
                &&& refused is None ==> result is Ok
                &&& refused is Some ==> result == Err::<(), WriterError>(refused->0)
            }),
            result is Ok ==> {
                let block = region(final(self)@.pages).len() / 4096;
                &&& final(self)@.chapters.last() == block
                &&& old(self)@.chapters.last() == block ==> final(self)@.chapters == old(
                    self,
                )@.chapters
                &&& old(self)@.chapters.last() != block ==> final(self)@.chapters.len() == old(
                    self,
                )@.chapters.len() + 1 && final(self)@.chapters.drop_last() == old(self)@.chapters
            },
            result is Err ==> final(self)@.chapters == old(self)@.chapters,
    {
        proof {
            if old(self)@.begun().1 is None {
                old(self)@.lemma_where_a_chapter_is_begun();
            }
        }
        self.stream.begin_chapter(&mut self.emit)
    }

    /// Closes everything that is held, and hands back the header block and the sink. The sink comes
    /// back where that is refused too, with every page that was closed in front of it.
    pub fn finalize(self) -> (result: Result<([u8; 4096], F), Refused<WriterError, F>>)
        requires
            self.well_formed(),
        ensures
            ({
                let (next, refused) = self@.flushed();
                let header = next.header(D::hash(self.fed_before() + region(next.pages)));
                &&& refused is None ==> header.sha1.len() == 20
                &&& match result {
                    Ok((block, emit)) => {
                        &&& refused is None
                        &&& crate::header::encode::fits(header)
                        &&& block@ == crate::header::encode::header_block(header)
                        &&& emit.pages() == self.sunk_before() + page_list(next.pages)
                    },
                    Err(failed) => {
                        &&& failed.back.pages() == self.sunk_before() + page_list(next.pages)
                        &&& {
                            ||| refused == Some(failed.error)
                            ||| refused is None && !crate::header::encode::fits(header)
                                && failed.error == WriterError::Header(
                                EncodeHeaderError::TooManyChapters,
                            )
                        }
                    },
                }
            }),
    {
        let TafWriter { stream, emit } = self;
        let mut emit: F = emit;
        let ghost pages = self@.flushed().0.pages;
        let finished = stream.finish(&mut emit);
        assert(handed_over((self.sunk_before(), 0), pages) =~= self.sunk_before() + page_list(pages));
        match finished {
            Ok(block) => Ok((block, emit)),
            Err(error) => Err(Refused { error, back: emit }),
        }
    }
}

/// What a file begins with: a page of 47 bytes that begins the stream and says how it is coded, and one of
/// 465 bytes with the tags, both of the stream of the audio id, and a chapter at the front.
pub proof fn lemma_what_a_file_begins_with(audio_id: AudioId, tags: Tags<'_>)
    requires
        tags.fit(),
    ensures
        ({
            let start = started(audio_id, tags.packet());
            let pages = page_list(start.pages);
            let head = crate::ogg::page::read_page(pages[0]);
            let named = crate::ogg::page::read_page(pages[1]);
            &&& pages.len() == 2
            &&& pages[0].len() == 47 && pages[1].len() == 465
            &&& head is Ok && head->Ok_0.serial == audio_id.0 && head->Ok_0.sequence == 0
                && head->Ok_0.flags == 2 && head->Ok_0.granule == 0
            &&& crate::ogg::page::packets_in(head->Ok_0.lacing, head->Ok_0.body) == seq![
                crate::ogg::builder::head_packet(312),
            ]
            &&& named is Ok && named->Ok_0.serial == audio_id.0 && named->Ok_0.sequence == 1
                && named->Ok_0.flags == 0 && named->Ok_0.granule == 0
            &&& crate::ogg::page::packets_in(named->Ok_0.lacing, named->Ok_0.body) == seq![
                crate::ogg::builder::tags_packet(tags.vendor.spec_bytes(), tags.comments@),
            ]
            &&& start.audio_id == audio_id
            &&& start.granule == 0
            &&& start.packets.len() == 0
            &&& start.chapters == seq![0u32]
        }),
{
    let start = started(audio_id, tags.packet());
    lemma_started(audio_id, tags);
    assert(start.page_fits(0));
    assert(start.page_fits(1));
    let none = Seq::<u8>::empty();
    assert(start.pages[0].bytes() + none =~= start.pages[0].bytes());
    assert(start.pages[1].bytes() + none =~= start.pages[1].bytes());
    crate::ogg::builder::lemma_bytes_len(start.pages[0]);
    crate::ogg::builder::lemma_bytes_len(start.pages[1]);
    crate::ogg::builder::lemma_page_reads_back(start.pages[0], none);
    crate::ogg::builder::lemma_page_reads_back(start.pages[1], none);
    crate::ogg::builder::lemma_packets_read_back(start.pages[0].packets);
    crate::ogg::builder::lemma_packets_read_back(start.pages[1].packets);
}

impl Written {
    /// What the header states of a file: its audio id, as many bytes as its pages are, the hash of them and
    /// its chapters.
    pub proof fn lemma_what_the_header_states(self, sha1: Seq<u8>)
        requires
            self.well_formed(),
        ensures
            self.header(sha1).sha1 == sha1,
            self.header(sha1).audio_id == self.audio_id,
            self.header(sha1).chapters == self.chapters,
            self.header(sha1).data_length == region(self.pages).len(),
    {
    }

    /// What every page there is reads as: a page of the file's stream, at its place, as long as it has to
    /// be, that begins the stream where it is the first and neither ends it nor carries a packet on.
    pub proof fn lemma_what_every_page_is(self, at: int)
        requires
            self.well_formed(),
            0 <= at < self.pages.len(),
        ensures
            ({
                let bytes = page_list(self.pages)[at];
                let read = crate::ogg::page::read_page(bytes);
                let page = read->Ok_0;
                &&& bytes.len() == (if at == 0 {
                    47int
                } else if at == 1 {
                    465
                } else if at == 2 {
                    3584
                } else {
                    4096
                })
                &&& read is Ok
                &&& page.serial == self.audio_id.0
                &&& page.sequence == at
                &&& page.flags == (if at == 0 {
                    2u8
                } else {
                    0u8
                })
                &&& page.granule == self.pages[at].granule
                &&& at > 0 ==> page.granule >= self.pages[at - 1].granule
                &&& crate::ogg::page::packets_in(page.lacing, page.body) == self.pages[at].packets
            }),
    {
        assert(self.page_fits(at));
        let draft = self.pages[at];
        assert(draft.bytes() + Seq::<u8>::empty() =~= draft.bytes());
        crate::ogg::builder::lemma_bytes_len(draft);
        crate::ogg::builder::lemma_page_reads_back(draft, Seq::empty());
        crate::ogg::builder::lemma_packets_read_back(draft.packets);
    }
}

/// The bytes packets take up are their own, one for every 255 of them, and one more, packet by packet.
pub proof fn lemma_what_packets_take_up(packets: Seq<Held>, packet: Held)
    ensures
        costs(Seq::empty()) == 0,
        costs(packets.push(packet)) == costs(packets) + packet.bytes.len() + packet.bytes.len() / 255
            + 1,
{
    assert(packets.push(packet).drop_last() =~= packets);
}

} // verus!
