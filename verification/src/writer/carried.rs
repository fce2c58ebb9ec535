//! What a file carries of what was put into it: every packet, in order, and every sample.
//!
//! Every packet is carried byte for byte as it came, except for the last one of a page, which is padded
//! to close it. That changes its bytes and nothing that is heard: the bits of its first byte that say
//! what it is coded as, and its frames.

use super::{Held, Written};
use crate::ogg::Draft;
use crate::opus_packet::Framing;
use vstd::prelude::*;

verus! {

/// Whether `closing` is the packet `packet` as it closes a page: padded to the length it has there, or
/// as it came where it has that length.
pub open spec fn closes_as(packet: Seq<u8>, closing: Seq<u8>) -> bool {
    if packet.len() < closing.len() {
        crate::opus_packet::pad_result(packet, closing.len()) == Ok::<
            Seq<u8>,
            crate::opus_packet::PadError,
        >(closing)
    } else {
        closing == packet
    }
}

/// Whether a page of the packets `page` carries `packets`: every one of them as it came but for the
/// last, which closes it.
pub open spec fn page_carries(page: Seq<Seq<u8>>, packets: Seq<Seq<u8>>) -> bool {
    &&& page.len() == packets.len()
    &&& page.len() > 0
    &&& page.drop_last() == packets.drop_last()
    &&& closes_as(packets.last(), page.last())
}

/// Whether the pages of audio among `pages`, which are all but the first two, carry `packets`, in
/// order, and each of them counts the samples up to the end of its last one.
pub open spec fn pages_carry(pages: Seq<Draft>, packets: Seq<Held>) -> bool
    decreases pages.len(),
{
    if pages.len() <= 2 {
        packets.len() == 0
    } else {
        let page = pages.last();
        let front = packets.len() - page.packets.len();
        &&& front >= 0
        &&& page_carries(page.packets, super::bytes_of(packets.skip(front)))
        &&& page.granule == super::granule_behind(0, packets)
        &&& pages_carry(pages.drop_last(), packets.take(front))
    }
}

/// How many packets there are on the pages of audio among `pages`.
pub open spec fn packets_on(pages: Seq<Draft>) -> nat
    decreases pages.len(),
{
    if pages.len() <= 2 {
        0
    } else {
        packets_on(pages.drop_last()) + pages.last().packets.len()
    }
}

/// The samples of `packets`, all of them counted.
pub open spec fn samples_of(packets: Seq<Held>) -> nat
    decreases packets.len(),
{
    if packets.len() == 0 {
        0
    } else {
        samples_of(packets.drop_last()) + packets.last().samples as nat
    }
}

/// A granule position counts every sample there is, as long as there are no more packets than a file
/// holds.
pub proof fn lemma_samples_add_up(packets: Seq<Held>)
    requires
        packets.len() <= 0x1_0000_0000,
    ensures
        super::granule_behind(0, packets) == samples_of(packets),
        samples_of(packets) <= packets.len() * 0xffff_ffff,
    decreases packets.len(),
{
    if packets.len() > 0 {
        lemma_samples_add_up(packets.drop_last());
        assert(packets.len() * 0xffff_ffff == (packets.len() - 1) * 0xffff_ffff + 0xffff_ffff);
    }
}

/// What the page `at` carries and counts of `packets`: those behind the ones on the pages in front of
/// it, and every sample up to the end of its last one.
pub proof fn lemma_a_page_carries_its_packets(pages: Seq<Draft>, packets: Seq<Held>, at: int)
    requires
        pages_carry(pages, packets),
        2 <= at < pages.len(),
    ensures
        packets_on(pages.take(at)) < packets_on(pages.take(at + 1)) <= packets.len(),
        page_carries(
            pages[at].packets,
            super::bytes_of(
                packets.subrange(
                    packets_on(pages.take(at)) as int,
                    packets_on(pages.take(at + 1)) as int,
                ),
            ),
        ),
        pages[at].granule == super::granule_behind(
            0,
            packets.take(packets_on(pages.take(at + 1)) as int),
        ),
    decreases pages.len(),
{
    let less = pages.drop_last();
    let front = packets.len() - pages.last().packets.len();
    lemma_all_packets_are_on_pages(pages, packets);
    lemma_all_packets_are_on_pages(less, packets.take(front));
    if at == pages.len() - 1 {
        assert(pages.take(at) =~= less);
        assert(pages.take(at + 1) =~= pages);
        assert(packets.subrange(front, packets.len() as int) =~= packets.skip(front));
        assert(packets.take(packets.len() as int) =~= packets);
    } else {
        lemma_a_page_carries_its_packets(less, packets.take(front), at);
        assert(less.take(at) =~= pages.take(at));
        assert(less.take(at + 1) =~= pages.take(at + 1));
        let first = packets_on(pages.take(at)) as int;
        let end = packets_on(pages.take(at + 1)) as int;
        assert(packets.take(front).subrange(first, end) =~= packets.subrange(first, end));
        assert(packets.take(front).take(end) =~= packets.take(end));
    }
}

/// Pages that carry packets carry them all.
pub proof fn lemma_all_packets_are_on_pages(pages: Seq<Draft>, packets: Seq<Held>)
    requires
        pages_carry(pages, packets),
    ensures
        packets_on(pages) == packets.len(),
    decreases pages.len(),
{
    if pages.len() > 2 {
        let front = packets.len() - pages.last().packets.len();
        lemma_all_packets_are_on_pages(pages.drop_last(), packets.take(front));
    }
}

/// What is heard of a packet: what it is coded as, and the frames of it.
pub open spec fn heard(packet: Seq<u8>) -> (u8, Option<Framing>) {
    (packet[0] & 0xfcu8, crate::opus_packet::framing(packet))
}

/// What is heard of `packets`, in order.
pub open spec fn all_heard(packets: Seq<Seq<u8>>) -> Seq<(u8, Option<Framing>)> {
    packets.map_values(|packet: Seq<u8>| heard(packet))
}

/// What is heard of the pages of audio among `pages`, which are all but the first two.
pub open spec fn on_pages(pages: Seq<Draft>) -> Seq<(u8, Option<Framing>)>
    decreases pages.len(),
{
    if pages.len() <= 2 {
        Seq::empty()
    } else {
        on_pages(pages.drop_last()) + all_heard(pages.last().packets)
    }
}

impl Written {
    /// Whether `packets` are what has been put into the file: its pages carry the first of them, and
    /// the rest are held as they came.
    pub open spec fn carries(self, packets: Seq<Held>) -> bool {
        let front = packets.len() - self.packets.len();
        &&& front >= 0
        &&& packets.skip(front) == self.packets
        &&& self.granule == super::granule_behind(0, packets.take(front))
        &&& pages_carry(self.pages, packets.take(front))
    }

    /// Closing a page carries on every packet there is.
    pub proof fn lemma_closing_carries_every_packet(self, packets: Seq<Held>)
        requires
            self.well_formed(),
            self.carries(packets),
            self.closed() is Ok,
        ensures
            self.closed()->Ok_0.carries(packets),
    {
        if self.taken() > 0 {
            self.lemma_taken_of(self.packets.len());
            self.lemma_closing_page_carries();
            let count = self.taken() as int;
            let front = packets.len() - self.packets.len();
            let put = packets.take(front + count);
            let held = self.packets.take(count);
            lemma_held_in_two(self.packets, packets, count);
            assert(put.take(front) =~= packets.take(front));
            assert(put.skip(front) =~= held);
            lemma_granule_in_two(0, put, front);
            lemma_pages_carry_on(self.pages, self.closing_page(), packets.take(front), held);
        }
    }

    /// A page carries what it takes off what is held.
    proof fn lemma_closing_page_carries(self)
        requires
            self.well_formed(),
            0 < self.taken() <= self.packets.len(),
            self.closing_packet() is Ok,
        ensures
            page_carries(
                self.closing_page().packets,
                super::bytes_of(self.packets.take(self.taken() as int)),
            ),
    {
        let held = self.packets.take(self.taken() as int);
        let page = self.closing_page().packets;
        let last = self.packets[self.taken() - 1].bytes;
        let len = super::filling(self.room_for(self.taken() - 1));
        if last.len() < len {
            crate::opus_packet::lemma_padding_keeps_the_frames(last, len);
        }
        assert(page.drop_last() =~= super::bytes_of(held).drop_last());
    }

    proof fn lemma_closing_if_carries_every_packet(self, due: bool, packets: Seq<Held>)
        requires
            self.well_formed(),
            self.carries(packets),
        ensures
            self.closed_if(due).0.carries(packets),
    {
        if self.closed() is Ok {
            self.lemma_closing_carries_every_packet(packets);
        }
    }

    proof fn lemma_holding_carries_every_packet(self, packet: Held, packets: Seq<Held>)
        requires
            self.carries(packets),
        ensures
            (Written { packets: self.packets.push(packet), ..self }).carries(
                packets.push(packet),
            ),
    {
        let front = packets.len() - self.packets.len();
        let more = packets.push(packet);
        assert(more.skip(front) =~= packets.skip(front).push(packet));
        assert(more.take(front) =~= packets.take(front));
    }

    /// A packet that is taken is carried behind every packet there is.
    pub proof fn lemma_adding_carries_every_packet(self, packet: Held, packets: Seq<Held>)
        requires
            self.well_formed(),
            self.carries(packets),
            self.added(packet).1 is None,
        ensures
            self.added(packet).0.carries(packets.push(packet)),
    {
        let cost = crate::ogg::builder::cost(packet.bytes.len());
        self.lemma_closed_if_keeps(cost > self.room());
        self.lemma_closing_if_carries_every_packet(cost > self.room(), packets);
        let first = self.closed_if(cost > self.room()).0;
        first.lemma_closed_if_keeps(cost > first.room());
        first.lemma_closing_if_carries_every_packet(cost > first.room(), packets);
        let second = first.closed_if(cost > first.room()).0;
        second.lemma_held_keeps(packet);
        second.lemma_holding_carries_every_packet(packet, packets);
        let held = Written { packets: second.packets.push(packet), ..second };
        held.lemma_closing_if_carries_every_packet(
            held.room() == 0,
            packets.push(packet),
        );
    }

    /// Closing everything carries every packet there is, and holds none: they are all on pages then.
    pub proof fn lemma_flushing_carries_every_packet(self, packets: Seq<Held>)
        requires
            self.well_formed(),
            self.carries(packets),
            self.flushed().1 is None,
        ensures
            self.flushed().0.carries(packets),
            pages_carry(self.flushed().0.pages, packets),
    {
        self.lemma_closed_if_keeps(true);
        self.lemma_closing_if_carries_every_packet(true, packets);
        let first = self.closed_if(true).0;
        first.lemma_closing_if_carries_every_packet(true, packets);
        self.lemma_flushed_holds_nothing();
        assert(packets.take(packets.len() as int) =~= packets);
    }

    /// A packet that is taken is on a page of its own or of others that was not there before, once
    /// everything is closed, and the chapters are the ones there were.
    #[verifier::rlimit(30)]
    pub proof fn lemma_a_packet_gets_a_page(self, packet: Held)
        requires
            self.well_formed(),
            self.added(packet).1 is None,
            self.added(packet).0.flushed().1 is None,
        ensures
            self.added(packet).0.flushed().0.pages.len() > self.pages.len(),
            self.added(packet).0.flushed().0.chapters == self.chapters,
    {
        let cost = crate::ogg::builder::cost(packet.bytes.len());
        let first = self.closed_if(cost > self.room()).0;
        let second = first.closed_if(cost > first.room()).0;
        let held = Written { packets: second.packets.push(packet), ..second };
        let added = self.added(packet).0;
        self.lemma_closed_if_keeps(cost > self.room());
        first.lemma_closed_if_keeps(cost > first.room());
        second.lemma_held_keeps(packet);
        held.lemma_taken_of(held.packets.len());
        added.lemma_flushed_grows();
    }

    /// There are no more packets on pages than a file has room for.
    pub proof fn lemma_few_packets(self)
        requires
            self.well_formed(),
        ensures
            packets_on(self.pages) <= 0x1000_0000,
    {
        self.lemma_len();
        assert forall|i: int| 0 <= i < self.pages.len() implies #[trigger] self.pages[i].packets.len()
            <= 255 by {
            assert(self.page_fits(i));
            lemma_packets_are_laced(self.pages[i].packets);
        }
        lemma_few_on_pages(self.pages);
    }

    /// What is heard of everything that has been put into the file, written or held.
    pub open spec fn carried(self) -> Seq<(u8, Option<Framing>)> {
        on_pages(self.pages) + all_heard(super::bytes_of(self.packets))
    }

    /// The samples of everything that has been put into the file, written or held, as far as they
    /// count.
    pub open spec fn samples(self) -> u64 {
        super::granule_behind(self.granule, self.packets)
    }

    /// What closes a page is heard as it was held.
    proof fn lemma_closing_packet_is_heard(self)
        requires
            self.well_formed(),
            0 < self.taken() <= self.packets.len(),
            self.closing_packet() is Ok,
        ensures
            heard(self.closing_packet()->Ok_0) == heard(self.packets[self.taken() - 1].bytes),
    {
        let last = self.packets[self.taken() - 1].bytes;
        let len = super::filling(self.room_for(self.taken() - 1));
        if last.len() < len {
            crate::opus_packet::lemma_padding_keeps_the_frames(last, len);
        }
    }

    /// A page is heard as what it takes off what is held.
    proof fn lemma_closing_page_is_heard(self)
        requires
            self.well_formed(),
            0 < self.taken() <= self.packets.len(),
            self.closing_packet() is Ok,
        ensures
            all_heard(self.closing_page().packets) == all_heard(
                super::bytes_of(self.packets.take(self.taken() as int)),
            ),
    {
        self.lemma_closing_packet_is_heard();
        let held = self.packets.take(self.taken() as int);
        assert(all_heard(self.closing_page().packets) =~= all_heard(super::bytes_of(held)));
    }

    /// Closing a page loses nothing and puts nothing out of order.
    pub proof fn lemma_closing_carries_everything(self)
        requires
            self.well_formed(),
            self.closed() is Ok,
        ensures
            self.closed()->Ok_0.carried() == self.carried(),
            self.closed()->Ok_0.samples() == self.samples(),
    {
        if self.taken() > 0 {
            let next = self.closed()->Ok_0;
            self.lemma_taken_of(self.packets.len());
            let count = self.taken() as int;
            self.lemma_closing_page_is_heard();
            assert(next.pages.drop_last() =~= self.pages);
            lemma_heard_in_two(self.packets, count);
            assert(next.carried() =~= self.carried());
            lemma_granule_in_two(self.granule, self.packets, count);
        }
    }

    /// Closing a page that is due loses nothing either.
    proof fn lemma_closing_if_carries_everything(self, due: bool)
        requires
            self.well_formed(),
        ensures
            self.closed_if(due).0.carried() == self.carried(),
            self.closed_if(due).0.samples() == self.samples(),
    {
        if self.closed() is Ok {
            self.lemma_closing_carries_everything();
        }
    }

    proof fn lemma_holding_carries_everything(self, packet: Held)
        ensures
            ({
                let held = (Written { packets: self.packets.push(packet), ..self });
                &&& held.carried() == self.carried().push(heard(packet.bytes))
                &&& held.samples() == super::granule_behind(self.samples(), seq![packet])
            }),
    {
        let held = Written { packets: self.packets.push(packet), ..self };
        assert(held.packets.drop_last() =~= self.packets);
        assert(super::bytes_of(held.packets) =~= super::bytes_of(self.packets).push(packet.bytes));
        assert(all_heard(super::bytes_of(held.packets)) =~= all_heard(
            super::bytes_of(self.packets),
        ).push(heard(packet.bytes)));
        assert(held.carried() =~= self.carried().push(heard(packet.bytes)));
        assert(seq![packet].drop_last() =~= Seq::empty());
        reveal_with_fuel(super::granule_behind, 2);
    }

    /// A packet that is taken is carried behind everything that was put in before it, and so are its
    /// samples.
    pub proof fn lemma_adding_carries_everything(self, packet: Held)
        requires
            self.well_formed(),
            self.added(packet).1 is None,
        ensures
            self.added(packet).0.carried() == self.carried().push(heard(packet.bytes)),
            self.added(packet).0.samples() == super::granule_behind(
                self.samples(),
                seq![packet],
            ),
    {
        let cost = crate::ogg::builder::cost(packet.bytes.len());
        self.lemma_closed_if_keeps(cost > self.room());
        self.lemma_closing_if_carries_everything(cost > self.room());
        let first = self.closed_if(cost > self.room()).0;
        first.lemma_closed_if_keeps(cost > first.room());
        first.lemma_closing_if_carries_everything(cost > first.room());
        let second = first.closed_if(cost > first.room()).0;
        second.lemma_held_keeps(packet);
        second.lemma_holding_carries_everything(packet);
        let held = Written { packets: second.packets.push(packet), ..second };
        held.lemma_closing_if_carries_everything(held.room() == 0);
    }

    /// Closing everything that is held loses nothing: it is all on pages then.
    pub proof fn lemma_flushing_carries_everything(self)
        requires
            self.well_formed(),
            self.flushed().1 is None,
        ensures
            on_pages(self.flushed().0.pages) == self.carried(),
            self.flushed().0.granule == self.samples(),
    {
        self.lemma_closed_if_keeps(true);
        self.lemma_closing_if_carries_everything(true);
        let first = self.closed_if(true).0;
        first.lemma_closing_if_carries_everything(true);
        self.lemma_flushed_holds_nothing();
        let end = self.flushed().0;
        assert(end.carried() =~= on_pages(end.pages));
    }

    /// Starting a chapter loses nothing either.
    pub proof fn lemma_starting_a_chapter_carries_everything(self)
        requires
            self.well_formed(),
            self.begun().1 is None,
        ensures
            on_pages(self.begun().0.pages) == self.carried(),
            self.begun().0.granule == self.samples(),
    {
        self.lemma_flushing_carries_everything();
    }

    /// A chapter is recorded once where one already starts: starting another at the same place changes
    /// nothing.
    pub proof fn lemma_a_chapter_is_recorded_once(self)
        requires
            self.well_formed(),
            self.begun().1 is None,
        ensures
            self.begun().0.begun() == (self.begun().0, None::<super::WriterError>),
    {
        self.lemma_flushed_holds_nothing();
        let next = self.begun().0;
        assert(next.taken() == 0);
        assert(next.flushed() == (next, None::<super::WriterError>));
    }
}

impl Written {
    /// What is written stays written: adding a packet only puts pages behind those there are.
    pub proof fn lemma_added_grows(self, packet: super::Held)
        ensures
            self.added(packet).0.pages.len() >= self.pages.len(),
            self.added(packet).0.pages.take(self.pages.len() as int) == self.pages,
    {
        let cost = crate::ogg::builder::cost(packet.bytes.len());
        let (first, refused) = self.closed_if(cost > self.room());
        let (second, refused) = first.closed_if(cost > first.room());
        let held = Written { packets: second.packets.push(packet), ..second };
        let end = held.closed_if(held.room() == 0).0;
        let count = self.pages.len() as int;
        assert(self.pages.take(count) =~= self.pages);
        assert(first.pages.take(count) =~= self.pages);
        assert(second.pages.take(count) =~= self.pages);
        assert(end.pages.take(count) =~= self.pages);
    }

    /// What is written stays written: closing everything only puts pages behind those there are, and
    /// so does starting a chapter.
    pub proof fn lemma_flushed_grows(self)
        ensures
            self.flushed().0.pages.len() >= self.pages.len(),
            self.flushed().0.pages.take(self.pages.len() as int) == self.pages,
            self.begun().0.pages == self.flushed().0.pages,
    {
        let first = self.closed_if(true).0;
        let second = first.closed_if(true).0;
        let count = self.pages.len() as int;
        assert(self.pages.take(count) =~= self.pages);
        assert(first.pages.take(count) =~= self.pages);
        assert(second.pages.take(count) =~= self.pages);
    }
}

/// One thing that is put into a file: a packet, or the start of a chapter.
pub enum Put {
    /// A packet, with its samples.
    Packet(Held),
    /// A chapter that starts with the packet behind it.
    Chapter,
}

/// The packets among `puts`, in order.
pub open spec fn packets_of(puts: Seq<Put>) -> Seq<Held>
    decreases puts.len(),
{
    if puts.len() == 0 {
        Seq::empty()
    } else {
        let before = packets_of(puts.drop_last());
        match puts.last() {
            Put::Packet(packet) => before.push(packet),
            Put::Chapter => before,
        }
    }
}

impl Written {
    /// What putting one thing in comes to.
    pub open spec fn put(self, put: Put) -> (Written, Option<super::WriterError>) {
        match put {
            Put::Packet(packet) => self.added(packet),
            Put::Chapter => self.begun(),
        }
    }

    /// What putting `puts` in, one behind the other, comes to; nothing where one of them is refused.
    pub open spec fn put_all(self, puts: Seq<Put>) -> Option<Written>
        decreases puts.len(),
    {
        if puts.len() == 0 {
            Some(self)
        } else {
            match self.put_all(puts.drop_last()) {
                None => None,
                Some(before) => {
                    let (next, refused) = before.put(puts.last());
                    if refused is None {
                        Some(next)
                    } else {
                        None
                    }
                },
            }
        }
    }

    /// Whatever is put into a file that is taken whole, the file carries every packet of it, in the
    /// order they were put in, and every sample.
    pub proof fn lemma_everything_put_in_is_carried(self, puts: Seq<Put>)
        requires
            self.well_formed(),
            self.put_all(puts) is Some,
        ensures
            self.put_all(puts)->0.well_formed(),
            self.put_all(puts)->0.audio_id == self.audio_id,
            self.put_all(puts)->0.carried() == self.carried() + all_heard(
                super::bytes_of(packets_of(puts)),
            ),
            self.put_all(puts)->0.samples() == super::granule_behind(
                self.samples(),
                packets_of(puts),
            ),
        decreases puts.len(),
    {
        if puts.len() == 0 {
            assert(self.carried() + all_heard(super::bytes_of(packets_of(puts))) =~= self.carried());
        } else {
            let less = puts.drop_last();
            self.lemma_everything_put_in_is_carried(less);
            let before = self.put_all(less)->0;
            before.lemma_put_is_carried(puts.last());
            let packets = packets_of(less);
            if let Put::Packet(packet) = puts.last() {
                assert(packets.push(packet).drop_last() =~= packets);
                assert(seq![packet].drop_last() =~= Seq::empty());
                assert(self.carried() + all_heard(super::bytes_of(packets.push(packet)))
                    =~= before.carried().push(heard(packet.bytes)));
                reveal_with_fuel(super::granule_behind, 2);
            }
        }
    }

    /// And every packet byte for byte as it came, except for the last one of a page, which is padded to
    /// close it.
    pub proof fn lemma_every_packet_put_in_is_carried(self, puts: Seq<Put>, packets: Seq<Held>)
        requires
            self.well_formed(),
            self.carries(packets),
            self.put_all(puts) is Some,
        ensures
            self.put_all(puts)->0.carries(packets + packets_of(puts)),
        decreases puts.len(),
    {
        let all = packets + packets_of(puts);
        if puts.len() == 0 {
            assert(all =~= packets);
        } else {
            let less = puts.drop_last();
            self.lemma_every_packet_put_in_is_carried(less, packets);
            self.lemma_everything_put_in_is_carried(less);
            let before = self.put_all(less)->0;
            let there = packets + packets_of(less);
            match puts.last() {
                Put::Packet(packet) => {
                    before.lemma_adding_carries_every_packet(packet, there);
                    assert(all =~= there.push(packet));
                },
                Put::Chapter => {
                    before.lemma_flushing_carries_every_packet(there);
                    assert(before.begun().0.pages == before.flushed().0.pages);
                    assert(before.begun().0.packets == before.flushed().0.packets);
                },
            }
        }
    }

    proof fn lemma_put_is_carried(self, put: Put)
        requires
            self.well_formed(),
            self.put(put).1 is None,
        ensures
            self.put(put).0.well_formed(),
            self.put(put).0.audio_id == self.audio_id,
            put matches Put::Packet(packet) ==> {
                &&& self.put(put).0.carried() == self.carried().push(heard(packet.bytes))
                &&& self.put(put).0.samples() == super::granule_behind(
                    self.samples(),
                    seq![packet],
                )
            },
            put is Chapter ==> {
                &&& self.put(put).0.carried() == self.carried()
                &&& self.put(put).0.samples() == self.samples()
            },
    {
        match put {
            Put::Packet(packet) => {
                self.lemma_added_keeps(packet);
                self.lemma_adding_carries_everything(packet);
            },
            Put::Chapter => {
                self.lemma_begun_keeps();
                self.lemma_starting_a_chapter_carries_everything();
                self.lemma_flushed_holds_nothing();
                let next = self.begun().0;
                assert(next.carried() =~= on_pages(next.pages));
            },
        }
    }
}

impl Written {
    /// Where a chapter is begun: at the block behind everything that has been put in so far, which is on
    /// pages then. It is recorded behind the chapters there were, unless the last of them is there
    /// already.
    pub proof fn lemma_where_a_chapter_is_begun(self)
        requires
            self.well_formed(),
            self.begun().1 is None,
        ensures
            ({
                let next = self.begun().0;
                let block = super::region(next.pages).len() / 4096;
                &&& next.packets.len() == 0
                &&& next.chapters.last() == block
                &&& self.chapters.last() == block ==> next.chapters == self.chapters
                &&& self.chapters.last() != block ==> next.chapters.len() == self.chapters.len() + 1
                    && next.chapters.drop_last() == self.chapters
            }),
    {
        self.lemma_flushed_keeps();
        let next = self.flushed().0;
        next.lemma_len();
        self.lemma_flushed_holds_nothing();
        assert(next.chapters == self.chapters);
        let block = (next.len() / 4096) as u32;
        assert(self.chapters.push(block).drop_last() =~= self.chapters);
    }

    /// Nothing but starting a chapter starts one, and a chapter that is refused is not recorded.
    pub proof fn lemma_nothing_else_starts_a_chapter(self, packet: Held)
        ensures
            self.added(packet).0.chapters == self.chapters,
            self.flushed().0.chapters == self.chapters,
            self.begun().1 is Some ==> self.begun().0.chapters == self.chapters,
    {
    }

    /// The block at which the put `at` of `puts` starts a chapter: as many as there are bytes written by
    /// then, in blocks.
    pub open spec fn starts_at(self, puts: Seq<Put>, at: int) -> int {
        super::region(self.put_all(puts.take(at + 1))->0.pages).len() as int / 4096
    }

    proof fn lemma_one_put_grows(self, put: Put)
        ensures
            self.put(put).0.pages.len() >= self.pages.len(),
            self.put(put).0.pages.take(self.pages.len() as int) == self.pages,
    {
        match put {
            Put::Packet(packet) => self.lemma_added_grows(packet),
            Put::Chapter => self.lemma_flushed_grows(),
        }
    }

    /// Where everything is taken, so was everything in front of any of it, and what was written by then
    /// is still there.
    #[verifier::rlimit(30)]
    pub proof fn lemma_what_is_put_in_stays(self, puts: Seq<Put>, at: int)
        requires
            self.put_all(puts) is Some,
            0 <= at <= puts.len(),
        ensures
            self.put_all(puts.take(at)) is Some,
            ({
                let earlier = self.put_all(puts.take(at))->0;
                let end = self.put_all(puts)->0;
                &&& earlier.pages.len() <= end.pages.len()
                &&& end.pages.take(earlier.pages.len() as int) == earlier.pages
            }),
        decreases puts.len() - at,
    {
        let end = self.put_all(puts)->0;
        if at == puts.len() {
            assert(puts.take(at) =~= puts);
            assert(end.pages.take(end.pages.len() as int) =~= end.pages);
        } else {
            let less = puts.drop_last();
            self.lemma_what_is_put_in_stays(less, at);
            assert(less.take(at) =~= puts.take(at));
            let earlier = self.put_all(puts.take(at))->0;
            let before = self.put_all(less)->0;
            before.lemma_one_put_grows(puts.last());
            assert(before.put(puts.last()) == (end, None::<super::WriterError>));
            assert(end.pages.take(earlier.pages.len() as int) =~= before.pages.take(
                earlier.pages.len() as int,
            ));
        }
    }

    /// Where every one of `puts` starts a chapter; nowhere where it is a packet.
    spec fn marks(self, puts: Seq<Put>) -> Seq<int> {
        Seq::new(
            puts.len(),
            |at: int|
                if puts[at] is Chapter {
                    self.starts_at(puts, at)
                } else {
                    -1
                },
        )
    }

    proof fn lemma_marks(self, puts: Seq<Put>)
        requires
            puts.len() > 0,
        ensures
            self.marks(puts) == self.marks(puts.drop_last()).push(
                if puts.last() is Chapter {
                    super::region(self.put_all(puts)->0.pages).len() as int / 4096
                } else {
                    -1
                },
            ),
    {
        let less = puts.drop_last();
        assert(puts.take(puts.len() as int) =~= puts);
        assert forall|at: int| 0 <= at < less.len() implies #[trigger] self.marks(less)[at]
            == self.marks(puts)[at] by {
            assert(less.take(at + 1) =~= puts.take(at + 1));
        }
        assert(self.marks(puts) =~= self.marks(less).push(self.marks(puts).last()));
    }

    /// What one thing that is put in does to the chapters.
    #[verifier::rlimit(30)]
    proof fn lemma_chapters_of_one_put(self, put: Put)
        requires
            self.well_formed(),
            self.put(put).1 is None,
        ensures
            ({
                let old = self.chapters;
                let next = self.put(put).0;
                let new = next.chapters;
                &&& old.len() > 0
                &&& new == old || new == old.push(new.last())
                &&& put is Packet ==> new == old
                &&& put is Chapter ==> new.len() > 0 && new.last() == super::region(
                    next.pages,
                ).len() as int / 4096
            }),
    {
        match put {
            Put::Packet(packet) => self.lemma_nothing_else_starts_a_chapter(packet),
            Put::Chapter => self.lemma_where_a_chapter_is_begun(),
        }
        let new = self.put(put).0.chapters;
        if new != self.chapters {
            assert(new =~= self.chapters.push(new.last()));
        }
    }

    #[verifier::rlimit(30)]
    proof fn lemma_chapters_are_the_marks(self, puts: Seq<Put>)
        requires
            self.well_formed(),
            self.put_all(puts) is Some,
        ensures
            ({
                let end = self.put_all(puts)->0;
                &&& are_marked(end.chapters, self.chapters, self.marks(puts))
                &&& end.chapters.len() >= self.chapters.len()
                &&& end.chapters.take(self.chapters.len() as int) == self.chapters
            }),
        decreases puts.len(),
    {
        let end = self.put_all(puts)->0;
        if puts.len() == 0 {
            assert(end.chapters.take(self.chapters.len() as int) =~= self.chapters);
        } else {
            let less = puts.drop_last();
            self.lemma_chapters_are_the_marks(less);
            self.lemma_everything_put_in_is_carried(less);
            self.lemma_marks(puts);
            let before = self.put_all(less)->0;
            before.lemma_chapters_of_one_put(puts.last());
            assert(before.put(puts.last()) == (end, None::<super::WriterError>));
            let old = before.chapters;
            assert(self.marks(puts).drop_last() =~= self.marks(less));
            assert(end.chapters.take(self.chapters.len() as int) =~= old.take(
                self.chapters.len() as int,
            ));
            lemma_one_more_mark(self.chapters, self.marks(puts), old, end.chapters);
        }
    }

    /// The chapters of a file are the ones it had and the blocks at which one was started, each once, in
    /// order, and no others.
    pub proof fn lemma_chapters_are_where_they_were_started(self, puts: Seq<Put>)
        requires
            self.well_formed(),
            self.put_all(puts) is Some,
        ensures
            ({
                let end = self.put_all(puts)->0;
                &&& forall|block: u32| #[trigger]
                    end.chapters.contains(block) <==> self.chapters.contains(block) || exists|at: int|
                        0 <= at < puts.len() && puts[at] is Chapter && #[trigger] self.starts_at(
                            puts,
                            at,
                        ) == block
                &&& forall|i: int, j: int|
                    0 <= i < j < end.chapters.len() ==> end.chapters[i] < end.chapters[j]
                &&& end.chapters.len() >= self.chapters.len()
                &&& end.chapters.take(self.chapters.len() as int) == self.chapters
            }),
    {
        self.lemma_everything_put_in_is_carried(puts);
        self.lemma_chapters_are_the_marks(puts);
        let end = self.put_all(puts)->0;
        let marks = self.marks(puts);
        assert forall|block: u32| #[trigger]
            end.chapters.contains(block) <==> self.chapters.contains(block) || exists|at: int|
                0 <= at < puts.len() && puts[at] is Chapter && #[trigger] self.starts_at(puts, at)
                    == block by {
            if marks.contains(block as int) {
                let at = marks.index_of(block as int);
                assert(marks[at] == block);
                assert(self.starts_at(puts, at) == block);
            } else {
                assert forall|at: int| 0 <= at < puts.len() && puts[at] is Chapter implies
                    #[trigger] self.starts_at(puts, at) != block by {
                    assert(marks[at] == self.starts_at(puts, at));
                }
            }
        }
    }

    /// A chapter starts with the packet behind it: the pages in front of the block it starts at carry the
    /// packets that were put in before it, all of them and no others.
    #[verifier::rlimit(30)]
    pub proof fn lemma_a_chapter_starts_with_the_packet_behind_it(self, puts: Seq<Put>, at: int)
        requires
            self.well_formed(),
            self.pages.len() == 2,
            self.packets.len() == 0,
            self.granule == 0,
            self.put_all(puts) is Some,
            0 <= at < puts.len(),
            puts[at] is Chapter,
        ensures
            ({
                let end = self.put_all(puts)->0;
                let block = self.starts_at(puts, at);
                let before = packets_of(puts.take(at));
                &&& 0 <= block <= end.pages.len() - 2
                &&& end.chapters.contains(block as u32)
                &&& pages_carry(end.pages.take(block + 2), before)
                &&& packets_on(end.pages.take(block + 2)) == before.len()
            }),
    {
        let end = self.put_all(puts)->0;
        self.lemma_what_is_put_in_stays(puts, at + 1);
        self.lemma_what_a_chapter_finds(puts.take(at + 1));
        let front = puts.take(at + 1);
        let next = self.put_all(front)->0;
        assert(front.drop_last() =~= puts.take(at));
        assert(front.last() == puts[at]);
        assert(self.starts_at(puts, at) == next.pages.len() - 2);
        assert(end.pages.take(next.pages.len() as int) == next.pages);
        self.lemma_chapters_are_where_they_were_started(puts);
        self.lemma_everything_put_in_is_carried(front);
        next.lemma_len();
        let block = self.starts_at(puts, at) as u32;
        assert(self.starts_at(puts, at) == block);
    }

    /// What is written when the last of `puts` starts a chapter is everything in front of it.
    #[verifier::rlimit(30)]
    proof fn lemma_what_a_chapter_finds(self, puts: Seq<Put>)
        requires
            self.well_formed(),
            self.pages.len() == 2,
            self.packets.len() == 0,
            self.granule == 0,
            self.put_all(puts) is Some,
            puts.len() > 0,
            puts.last() is Chapter,
        ensures
            ({
                let next = self.put_all(puts)->0;
                let packets = packets_of(puts.drop_last());
                &&& super::region(next.pages).len() as int / 4096 == next.pages.len() - 2
                &&& next.pages.len() >= 2
                &&& pages_carry(next.pages, packets)
                &&& packets_on(next.pages) == packets.len()
            }),
    {
        let less = puts.drop_last();
        let before = self.put_all(less)->0;
        let next = self.put_all(puts)->0;
        let none = Seq::<Held>::empty();
        let packets = packets_of(less);
        self.lemma_everything_put_in_is_carried(less);
        self.lemma_everything_put_in_is_carried(puts);
        assert(none.skip(0) =~= self.packets);
        assert(none.take(0) =~= none);
        self.lemma_every_packet_put_in_is_carried(less, none);
        assert(none + packets =~= packets);
        before.lemma_flushing_carries_every_packet(packets);
        before.lemma_flushed_grows();
        assert(before.put(puts.last()) == (next, None::<super::WriterError>));
        assert(next.pages == before.flushed().0.pages);
        lemma_all_packets_are_on_pages(next.pages, packets);
        next.lemma_len();
    }

    /// A packet that leaves room on the page is held, and nothing is written for it; one that fills it
    /// up is held and closes it.
    pub proof fn lemma_a_packet_that_fits_is_held(self, packet: Held)
        requires
            self.well_formed(),
        ensures
            ({
                let used = 27 + super::costs(self.packets) + packet.bytes.len() + packet.bytes.len() / 255
                    + 1;
                let (next, refused) = self.added(packet);
                &&& used < self.target ==> refused is None && next.pages == self.pages
                    && next.packets == self.packets.push(packet) && next.granule == self.granule
                    && next.chapters == self.chapters && next.target == self.target
                &&& used == self.target ==> (refused is None <==> (Written {
                    packets: self.packets.push(packet),
                    ..self
                }).closed() is Ok)
                &&& used == self.target && refused is None ==> next.pages.len() == self.pages.len() + 1
                &&& used > self.target && self.packets.len() > 0 && refused is None
                    ==> next.pages.len() > self.pages.len()
            }),
    {
        let held = Written { packets: self.packets.push(packet), ..self };
        assert(held.packets.drop_last() =~= self.packets);
        let cost = crate::ogg::builder::cost(packet.bytes.len());
        if cost <= self.room() {
            self.lemma_held_keeps(packet);
            held.lemma_taken_of(held.packets.len());
        } else {
            self.lemma_taken_of(self.packets.len());
        }
    }

    /// Which packets are too large: those a whole page has no room for, and no others. A page that holds
    /// nothing is not closed for one, so the first page of audio takes none the page behind it would
    /// have to.
    #[verifier::rlimit(40)]
    pub proof fn lemma_which_packets_are_too_large(self, packet: Held)
        requires
            self.well_formed(),
        ensures
            ({
                let cost = packet.bytes.len() + packet.bytes.len() / 255 + 1;
                let most = if self.pages.len() == 2 && self.packets.len() == 0 {
                    3557int
                } else {
                    4069int
                };
                &&& self.added(packet).1 == Some(super::WriterError::PacketTooLarge) ==> cost > most
                &&& cost > most ==> self.added(packet).1 is Some
                &&& cost > most && self.flushed().1 is None ==> self.added(packet).1 == Some(
                    super::WriterError::PacketTooLarge,
                )
            }),
    {
        let cost = crate::ogg::builder::cost(packet.bytes.len());
        self.lemma_closed_if_keeps(true);
        self.lemma_taken_of(self.packets.len());
        let first = self.closed_if(cost > self.room()).0;
        self.lemma_closed_if_keeps(cost > self.room());
        first.lemma_closed_if_keeps(cost > first.room());
        first.lemma_taken_of(first.packets.len());
        if self.packets.len() == 0 {
            assert(super::costs(self.packets) == 0);
        }
        if self.flushed().1 is None {
            self.lemma_flushed_holds_nothing();
            assert(super::costs(self.flushed().0.packets) == 0);
        }
    }

    /// Closing a page takes packets off the front of what is held, at least one, and as many as it can:
    /// a page is closed by the last packet in front of which the room that is left is no multiple of 256
    /// bytes.
    pub proof fn lemma_what_a_page_takes(self)
        requires
            self.well_formed(),
            self.packets.len() > 0,
        ensures
            0 < self.taken() <= self.packets.len(),
            (self.target - 27 - super::costs(self.packets.take(self.taken() - 1))) % 256 != 0,
            forall|i: int|
                self.taken() <= i < self.packets.len() ==> (self.target - 27 - super::costs(
                    #[trigger] self.packets.take(i),
                )) % 256 == 0,
            self.closed() matches Ok(next) ==> {
                &&& next.packets == self.packets.skip(self.taken() as int)
                &&& next.pages.drop_last() == self.pages
                &&& next.pages.last().packets.len() == self.taken()
                &&& super::region(next.pages).len() == super::region(self.pages).len() + self.target
                &&& next.target == 4096
                &&& next.audio_id == self.audio_id
                &&& next.chapters == self.chapters
            },
            self.closed() == Err::<Written, super::WriterError>(super::WriterError::AudioTooLarge)
                ==> super::region(self.pages).len() + self.target > 2_147_479_551,
            super::region(self.pages).len() + self.target > 2_147_479_551 ==> self.closed() is Err,
            self.closed() != Err::<Written, super::WriterError>(super::WriterError::PacketTooLarge),
            self.closed() is Err ==> self.closed()->Err_0 !is Header,
    {
        self.lemma_taken_of(self.packets.len());
        let taken = self.taken() as int;
        super::lemma_costs_take(self.packets, taken - 1);
        super::lemma_fillable(self.room_for(taken - 1));
        assert forall|i: int| taken <= i < self.packets.len() implies (self.target - 27
            - super::costs(#[trigger] self.packets.take(i))) % 256 == 0 by {
            assert(!super::fillable(self.room_for(i)));
            super::lemma_costs_take(self.packets, i);
            super::lemma_fillable(self.room_for(i));
        }
        if self.closed() is Ok {
            let next = self.closed()->Ok_0;
            self.lemma_closing_page();
            crate::ogg::builder::lemma_bytes_len(self.closing_page());
            assert(next.pages.drop_last() =~= self.pages);
        }
    }

    /// When a page is closed: where its last packet is as long as it takes to fill the page or can be padded
    /// to that, its lacing table has no more than 255 values, and the region stays within the longest there
    /// is; and whatever keeps it from being closed is the first of these that does not hold.
    #[verifier::rlimit(30)]
    pub proof fn lemma_when_a_page_is_closed(self, len: nat)
        requires
            self.well_formed(),
            self.packets.len() > 0,
            len + len / 255 + 1 == self.target - 27 - super::costs(self.packets.take(self.taken() - 1)),
        ensures
            ({
                let front = self.packets.take(self.taken() - 1);
                let last = self.packets[self.taken() - 1].bytes;
                let padded = last.len() == len || last.len() > 0 && crate::opus_packet::framing(last)
                    is Some;
                let values = crate::ogg::builder::lacing_of(super::bytes_of(front)).len() + len / 255
                    + 1;
                let whole = super::region(self.pages).len() + self.target <= 2_147_479_551;
                &&& last.len() <= len
                &&& self.closed() is Ok <==> padded && values <= 255 && whole
                &&& self.closed() is Err && self.closed()->Err_0 is Pad <==> !padded
                &&& self.closed() == Err::<Written, super::WriterError>(
                    super::WriterError::Build(crate::ogg::BuildError::PageFull),
                ) <==> padded && values > 255
                &&& self.closed() == Err::<Written, super::WriterError>(
                    super::WriterError::AudioTooLarge,
                ) <==> padded && values <= 255 && !whole
            }),
    {
        self.lemma_taken_of(self.packets.len());
        let at = self.taken() - 1;
        let held = self.packets.take(self.taken() as int);
        let front = self.packets.take(at);
        let last = self.packets[at].bytes;
        let room = self.room_for(at);
        super::lemma_costs_take(self.packets, at);
        super::lemma_costs_take(self.packets, at + 1);
        super::lemma_costs_next(self.packets, at);
        super::lemma_filling(room, last.len());
        super::lemma_filling(room, len);
        lemma_one_length_fills(len, super::filling(room));
        crate::opus_packet::lemma_when_padding_is_refused(last, len);
        assert(held.drop_last() =~= front);
        if self.closing_packet() is Ok {
            self.lemma_closing_page();
            let closing = self.closing_packet()->Ok_0;
            lemma_one_length_fills(closing.len(), len);
            crate::ogg::builder::lemma_packets_are_laced_one_by_one(super::bytes_of(front), closing);
        }
    }
}

proof fn lemma_one_length_fills(one: nat, other: nat)
    requires
        one + one / 255 == other + other / 255,
    ensures
        one == other,
{
    if one < other {
        assert(one / 255 <= other / 255);
    } else {
        assert(other / 255 <= one / 255);
    }
}

/// Whether `chapters` are those of `base` and those among `marks`.
spec fn are_marked(chapters: Seq<u32>, base: Seq<u32>, marks: Seq<int>) -> bool {
    forall|block: u32| #[trigger]
        chapters.contains(block) <==> base.contains(block) || marks.contains(block as int)
}

proof fn lemma_one_more_mark(base: Seq<u32>, marks: Seq<int>, old: Seq<u32>, new: Seq<u32>)
    requires
        marks.len() > 0,
        old.len() > 0,
        are_marked(old, base, marks.drop_last()),
        marks.last() == -1 ==> new == old,
        marks.last() != -1 ==> new.len() > 0 && new.last() == marks.last(),
        new == old || new == old.push(new.last()),
        marks.last() == -1 ==> new == old,
    ensures
        are_marked(new, base, marks),
{
    let less = marks.drop_last();
    assert(marks =~= less.push(marks.last()));
    assert forall|block: u32| #[trigger]
        new.contains(block) <==> base.contains(block) || marks.contains(block as int) by {
        assert(old.contains(block) <==> base.contains(block) || less.contains(block as int));
        if marks.contains(block as int) {
            let at = marks.index_of(block as int);
            if at < less.len() {
                assert(less[at] == block);
            } else {
                assert(new[new.len() - 1] == block);
            }
        }
        if less.contains(block as int) {
            assert(marks[less.index_of(block as int)] == block);
        }
        if old.contains(block) {
            assert(new[old.index_of(block)] == block);
        }
        if new.contains(block) {
            let i = new.index_of(block);
            if i < old.len() {
                assert(old[i] == block);
            } else {
                assert(marks[marks.len() - 1] == block);
            }
        }
    }
}

/// The packets of one put behind others are behind theirs.
pub proof fn lemma_packets_follow_each_other(first: Seq<Put>, second: Seq<Put>, packet: Held)
    ensures
        packets_of(first + second) == packets_of(first) + packets_of(second),
        packets_of(seq![Put::Packet(packet)]) == seq![packet],
        packets_of(seq![Put::Chapter]) == Seq::<Held>::empty(),
    decreases second.len(),
{
    reveal_with_fuel(packets_of, 2);
    assert(seq![Put::Packet(packet)].drop_last() =~= Seq::empty());
    assert(seq![Put::Chapter].drop_last() =~= Seq::empty());
    assert(packets_of(Seq::<Put>::empty()).push(packet) =~= seq![packet]);
    let all = first + second;
    if second.len() == 0 {
        assert(all =~= first);
        assert(packets_of(first) + packets_of(second) =~= packets_of(first));
    } else {
        lemma_packets_follow_each_other(first, second.drop_last(), packet);
        assert(all.drop_last() =~= first + second.drop_last());
        assert(all.last() == second.last());
        assert(packets_of(all) =~= packets_of(first) + packets_of(second));
    }
}

/// Samples add up, packet by packet.
pub proof fn lemma_samples_of_more(packets: Seq<Held>, more: Seq<Held>, packet: Held)
    ensures
        samples_of(packets + more) == samples_of(packets) + samples_of(more),
        samples_of(seq![packet]) == packet.samples,
        samples_of(Seq::empty()) == 0,
    decreases more.len(),
{
    reveal_with_fuel(samples_of, 2);
    assert(seq![packet].drop_last() =~= Seq::empty());
    if more.len() == 0 {
        assert(packets + more =~= packets);
    } else {
        lemma_samples_of_more(packets, more.drop_last(), packet);
        assert((packets + more).drop_last() =~= packets + more.drop_last());
    }
}

proof fn lemma_packets_are_laced(packets: Seq<Seq<u8>>)
    ensures
        packets.len() <= crate::ogg::builder::lacing_of(packets).len(),
    decreases packets.len(),
{
    if packets.len() > 0 {
        lemma_packets_are_laced(packets.drop_last());
    }
}

/// There are no more packets on the first of some pages than on all of them.
pub proof fn lemma_fewer_on_fewer_pages(pages: Seq<Draft>, at: int)
    requires
        0 <= at <= pages.len(),
    ensures
        packets_on(pages.take(at)) <= packets_on(pages),
    decreases pages.len() - at,
{
    if at == pages.len() {
        assert(pages.take(at) =~= pages);
    } else if pages.len() > 2 {
        lemma_fewer_on_fewer_pages(pages.drop_last(), at);
        assert(pages.drop_last().take(at) =~= pages.take(at));
    }
}

proof fn lemma_few_on_pages(pages: Seq<Draft>)
    requires
        forall|i: int| 0 <= i < pages.len() ==> #[trigger] pages[i].packets.len() <= 255,
    ensures
        packets_on(pages) <= 255 * pages.len(),
    decreases pages.len(),
{
    if pages.len() > 2 {
        let less = pages.drop_last();
        assert forall|i: int| 0 <= i < less.len() implies #[trigger] less[i].packets.len() <= 255 by {
            assert(less[i] == pages[i]);
        }
        lemma_few_on_pages(less);
        assert(pages[pages.len() - 1].packets.len() <= 255);
    }
}

proof fn lemma_held_in_two(held: Seq<Held>, packets: Seq<Held>, count: int)
    requires
        held.len() <= packets.len(),
        packets.skip(packets.len() - held.len()) == held,
        0 <= count <= held.len(),
    ensures
        ({
            let front = packets.len() - held.len();
            &&& packets.take(front + count) == packets.take(front) + held.take(count)
            &&& packets.skip(front + count) == held.skip(count)
        }),
{
    let front = packets.len() - held.len();
    assert forall|i: int| 0 <= i < held.len() implies #[trigger] held[i] == packets[front + i] by {
        assert(packets.skip(front)[i] == held[i]);
    }
    assert(packets.take(front + count) =~= packets.take(front) + held.take(count));
    assert(packets.skip(front + count) =~= held.skip(count));
}

proof fn lemma_pages_carry_on(pages: Seq<Draft>, page: Draft, front: Seq<Held>, more: Seq<Held>)
    requires
        pages.len() >= 2,
        pages_carry(pages, front),
        page_carries(page.packets, super::bytes_of(more)),
        page.granule == super::granule_behind(0, front + more),
    ensures
        pages_carry(pages.push(page), front + more),
{
    assert(pages.push(page).drop_last() =~= pages);
    assert((front + more).skip(front.len() as int) =~= more);
    assert((front + more).take(front.len() as int) =~= front);
}

proof fn lemma_heard_in_two(packets: Seq<Held>, at: int)
    requires
        0 <= at <= packets.len(),
    ensures
        all_heard(super::bytes_of(packets)) == all_heard(super::bytes_of(packets.take(at)))
            + all_heard(super::bytes_of(packets.skip(at))),
{
    assert(all_heard(super::bytes_of(packets)) =~= all_heard(super::bytes_of(packets.take(at)))
        + all_heard(super::bytes_of(packets.skip(at))));
}

proof fn lemma_granule_in_two(granule: u64, packets: Seq<Held>, at: int)
    requires
        0 <= at <= packets.len(),
    ensures
        super::granule_behind(super::granule_behind(granule, packets.take(at)), packets.skip(at))
            == super::granule_behind(granule, packets),
    decreases packets.len() - at,
{
    if at < packets.len() {
        let less = packets.drop_last();
        lemma_granule_in_two(granule, less, at);
        assert(less.take(at) =~= packets.take(at));
        assert(packets.skip(at).drop_last() =~= less.skip(at));
    } else {
        assert(packets.take(at) =~= packets);
        assert(packets.skip(at) =~= Seq::empty());
    }
}

} // verus!
