use taffle::digest::Sha1;
use taffle::header::{HeaderView, BLOCK_LEN};
use taffle::id::AudioId;
use taffle::inspect::{read_through, Bytes};
use taffle::ogg::{BuildError, PageView, Packets};
use taffle::opus_packet::PadError;
use taffle::writer::{
    write_taf, Buffer, Output, Tags, WriterError, WriterIoError, HEAD_PAGE_LEN, TAGS_PAGE_LEN,
};

/// Every packet there is left, and one more than a page can possibly hold.
fn all<'a>(packets: Packets<'a>) -> Vec<&'a [u8]> {
    let mut packets = packets;
    let mut list = Vec::new();
    while let Some(packet) = packets.next() {
        list.push(packet);
        if list.len() == 256 {
            break;
        }
    }
    list
}

/// Every chapter start a header states.
fn starts(view: &HeaderView<'_>) -> Vec<u32> {
    let mut pages = view.chapter_pages();
    let mut list = Vec::new();
    while let Some(start) = pages.next() {
        list.push(start.get());
    }
    list
}

/// One Ogg page of the golden file, byte by byte.
fn golden_page(sequence: u32, granule: u64, flags: u8, packets: &[Vec<u8>]) -> Vec<u8> {
    let mut lacing = Vec::new();
    for packet in packets {
        lacing.extend(vec![255; packet.len() / 255]);
        lacing.push(u8::try_from(packet.len() % 255).unwrap());
    }

    let mut page = b"OggS\0".to_vec();
    page.push(flags);
    page.extend_from_slice(&granule.to_le_bytes());
    page.extend_from_slice(&444_913_029_u32.to_le_bytes());
    page.extend_from_slice(&sequence.to_le_bytes());
    page.extend_from_slice(&[0; 4]);
    page.push(u8::try_from(lacing.len()).unwrap());
    page.extend_from_slice(&lacing);
    page.extend_from_slice(&packets.concat());

    let checksum = taffle::ogg::crc::crc32(&page);
    page[22..26].copy_from_slice(&checksum.to_le_bytes());

    page
}

/// A packet of three frames of the lengths given, which states the first two of them.
fn golden_packet(lens: [usize; 3]) -> Vec<u8> {
    let mut packet = vec![0b0000_1111, 0b1000_0011];
    for len in &lens[..2] {
        if *len < 252 {
            packet.push(u8::try_from(*len).unwrap());
        } else {
            packet.push(252 + u8::try_from(*len % 4).unwrap());
            packet.push(u8::try_from((*len - 252 - *len % 4) / 4).unwrap());
        }
    }
    for (at, len) in lens.iter().enumerate() {
        packet.extend(vec![0x51 + u8::try_from(at).unwrap(); *len]);
    }

    packet
}

/// A whole file of 29 pages: a header block, the two pages that open the stream, and 161 packets of
/// 2880 samples each, five of them on the first page of audio and six on every other.
fn golden() -> Vec<u8> {
    let tags = taffle::ogg::opus_tags(
        "teddyCloud",
        &["version=TeddyCloud v0.6.2 (203f12d) - 2024-10-26 18:14:34 +0000 ubuntu linux-x86_64(64)"],
    )
    .unwrap();
    let mut head = b"OpusHead".to_vec();
    head.extend_from_slice(&[1, 2, 0x38, 0x01, 0x80, 0xbb, 0, 0, 0, 0, 0]);

    // Three frames of 148 bytes, framed alike, with one byte stating three bytes of padding.
    let mut closing = vec![0b0000_1111, 0b0100_0011, 3];
    closing.extend(vec![0x61; 444]);
    closing.extend([0; 3]);

    let mut audio = golden_page(0, 0, 2, &[head]);
    audio.extend(golden_page(1, 0, 0, &[tags.to_vec()]));
    audio.extend(golden_page(
        2,
        14_400,
        0,
        &[
            golden_packet([384, 260, 245]),
            golden_packet([200, 210, 302]),
            golden_packet([200, 211, 328]),
            golden_packet([200, 212, 322]),
            closing,
        ],
    ));
    for block in 1..27_u32 {
        let mut packets = vec![golden_packet([150, 160, 361]); 5];
        packets.push(golden_packet([150, 160, 362]));
        audio.extend(golden_page(
            block + 2,
            14_400 + 17_280 * u64::from(block),
            0,
            &packets,
        ));
    }

    let mut digest = taffle::digest::Digest::new();
    taffle::digest::Sha1::update(&mut digest, &audio);
    let mut file = taffle::header::encode_header(
        &taffle::digest::Sha1::finalize(digest),
        110_592,
        taffle::id::AudioId::new(444_913_029),
        &[0],
    )
    .unwrap()
    .to_vec();
    file.extend(audio);

    file
}

/// Where a TAF's audio region starts: behind the header block.
const AUDIO_AT: usize = BLOCK_LEN;

/// The audio id of the files written here.
const AUDIO_ID: AudioId = AudioId(444_913_029);

/// The samples of one channel an Opus packet of a TAF carries: 60 ms at 48 kHz.
const SAMPLES: u32 = 2880;

/// A TOC byte stating configuration 1, stereo, and one frame.
const TOC: u8 = 0b0000_1100;

struct RustCrypto(sha1::Sha1);

impl Sha1 for RustCrypto {
    fn update(&mut self, data: &[u8]) {
        sha1::Digest::update(&mut self.0, data);
    }

    fn finalize(self) -> [u8; 20] {
        sha1::Digest::finalize(self.0).into()
    }
}

fn digest() -> RustCrypto {
    RustCrypto(<sha1::Sha1 as sha1::Digest>::new())
}

fn tags() -> Tags<'static> {
    Tags::new(
        "teddyCloud",
        &["version=TeddyCloud v0.6.2 (203f12d) - 2024-10-26 18:14:34 +0000 ubuntu linux-x86_64(64)"],
    )
}

fn packet(len: usize) -> Vec<u8> {
    let mut packet = vec![0xa5; len];
    packet[0] = TOC;

    packet
}

/// The audio packets of the golden file: everything its pages from sequence 2 on carry.
fn golden_packets(golden: &[u8]) -> Vec<Vec<u8>> {
    let mut packets = Vec::new();
    let mut at = AUDIO_AT;

    while at < golden.len() {
        let view = PageView::parse(&golden[at..]).unwrap();
        if view.sequence() >= 2 {
            packets.extend(all(view.packets()).iter().map(|packet| packet.to_vec()));
        }
        at += view.total_len();
    }

    assert_eq!(packets.len(), 161);

    packets
}

/// A file in memory, which fails on whichever write, seek or flush a test asks it to.
struct Scratch {
    bytes: Vec<u8>,
    at: usize,
    writes: usize,
    fail_write: Option<usize>,
    fail_seek: bool,
    fail_flush: bool,
}

impl Scratch {
    fn new() -> Self {
        Self {
            bytes: Vec::new(),
            at: 0,
            writes: 0,
            fail_write: None,
            fail_seek: false,
            fail_flush: false,
        }
    }

    fn on_write(at: usize) -> Self {
        Self {
            fail_write: Some(at),
            ..Self::new()
        }
    }
}

impl Output for Scratch {
    fn write_all(&mut self, buf: &[u8]) -> Result<(), String> {
        let this = self.writes;
        self.writes += 1;

        if self.fail_write == Some(this) {
            return Err(broken());
        }

        if self.bytes.len() < self.at + buf.len() {
            self.bytes.resize(self.at + buf.len(), 0);
        }
        self.bytes[self.at..self.at + buf.len()].copy_from_slice(buf);
        self.at += buf.len();

        Ok(())
    }

    fn rewind(&mut self) -> Result<(), String> {
        if self.fail_seek {
            return Err(broken());
        }
        self.at = 0;

        Ok(())
    }

    fn flush(&mut self) -> Result<(), String> {
        if self.fail_flush {
            return Err(broken());
        }

        Ok(())
    }
}

/// A file whose bytes outlive the writer that wrote them.
struct Kept<'a>(&'a mut Vec<u8>);

impl Output for Kept<'_> {
    fn write_all(&mut self, buf: &[u8]) -> Result<(), String> {
        self.0.extend_from_slice(buf);

        Ok(())
    }

    fn rewind(&mut self) -> Result<(), String> {
        Err(broken())
    }

    fn flush(&mut self) -> Result<(), String> {
        Ok(())
    }
}

fn broken() -> String {
    "the file went away".to_owned()
}

/// What the writer itself made of a call, or nothing when the error came from the file.
fn refused(error: &WriterIoError) -> Option<WriterError> {
    match error {
        WriterIoError::Writer(error) => Some(*error),
        _ => None,
    }
}

#[test]
fn writes_a_whole_file_that_reads_back_as_the_golden_file_does() {
    let golden = golden();
    let mut writer = write_taf(digest(), AUDIO_ID, tags(), Buffer::new()).ok().unwrap();

    for packet in golden_packets(&golden) {
        writer.add_packet(&packet, SAMPLES).unwrap();
    }

    let file = writer.finalize().unwrap().into_bytes();
    let view = HeaderView::parse(&file[..AUDIO_AT]).unwrap();
    let golden_header = HeaderView::parse(&golden[..AUDIO_AT]).unwrap();

    // Everything but the header block is the golden file byte for byte; the block itself
    // states the same things, in the bytes this crate writes them in.
    assert_eq!(file.len(), golden.len());
    assert_eq!(file[AUDIO_AT..], golden[AUDIO_AT..]);
    assert_eq!(view.sha1(), golden_header.sha1());
    assert_eq!(view.data_length(), golden_header.data_length());
    assert_eq!(view.audio_id(), AUDIO_ID);
}

#[test]
fn reserves_the_header_block_before_it_knows_what_goes_in_it() {
    let mut file = Vec::new();

    {
        let mut writer = write_taf(digest(), AUDIO_ID, tags(), Kept(&mut file)).ok().unwrap();
        writer.add_packet(&packet(700), SAMPLES).unwrap();
    }

    // The block goes in as zeros up front and is filled in by `finalize`; a writer dropped
    // before that leaves it zeroed rather than leaving the audio at the front of the file.
    assert_eq!(file.len(), AUDIO_AT + HEAD_PAGE_LEN + TAGS_PAGE_LEN);
    assert!(file[..AUDIO_AT].iter().all(|&byte| byte == 0));
}

#[test]
fn writes_the_chapters_a_file_was_given() {
    // Written to a plain file rather than a cursor: the header block goes where the writer
    // seeked back to, over the zeros it reserved there.
    let mut writer = write_taf(digest(), AUDIO_ID, tags(), Scratch::new()).ok().unwrap();

    for _ in 0..6 {
        writer.add_packet(&packet(700), SAMPLES).unwrap();
    }
    writer.begin_chapter().unwrap();
    writer.add_packet(&packet(700), SAMPLES).unwrap();

    let file = writer.finalize().ok().unwrap().bytes;
    let view = HeaderView::parse(&file[..AUDIO_AT]).unwrap();

    assert_eq!(starts(&view), [0, 2]);
    assert_eq!(
        usize::try_from(view.data_length()),
        Ok(file.len() - AUDIO_AT)
    );
}

#[test]
fn reports_the_file_it_could_not_write_to() {
    // Reserving the header block is the first thing written.
    let reserving = write_taf(digest(), AUDIO_ID, tags(), Scratch::on_write(0));
    assert_eq!(refused(&reserving.err().unwrap().error), None);

    // Then the two pages the stream opens with.
    let opening = write_taf(digest(), AUDIO_ID, tags(), Scratch::on_write(1));
    assert_eq!(refused(&opening.err().unwrap().error), None);

    // And then whatever page a packet fills up.
    let mut writer = write_taf(digest(), AUDIO_ID, tags(), Scratch::on_write(3)).ok().unwrap();
    let mut hit = None;

    for _ in 0..12 {
        if let Err(error) = writer.add_packet(&packet(700), SAMPLES) {
            hit = Some(error);
            break;
        }
    }

    assert_eq!(refused(&hit.unwrap()), None);
}

#[test]
fn reports_the_file_it_could_not_finish() {
    let mut seeking = write_taf(
        digest(),
        AUDIO_ID,
        tags(),
        Scratch {
            fail_seek: true,
            ..Scratch::new()
        },
    )
    .ok()
    .unwrap();
    seeking.add_packet(&packet(700), SAMPLES).unwrap();
    assert_eq!(refused(&seeking.finalize().err().unwrap().error), None);

    let mut flushing = write_taf(
        digest(),
        AUDIO_ID,
        tags(),
        Scratch {
            fail_flush: true,
            ..Scratch::new()
        },
    )
    .ok()
    .unwrap();
    flushing.add_packet(&packet(700), SAMPLES).unwrap();
    assert_eq!(refused(&flushing.finalize().err().unwrap().error), None);

    // The header block is written where the file was seeked back to, and that write can
    // fail as well: five pages go in before it — the reserved block, two Opus header pages,
    // one full page and the last one.
    let mut writing = write_taf(digest(), AUDIO_ID, tags(), Scratch::on_write(5)).ok().unwrap();
    for _ in 0..6 {
        writing.add_packet(&packet(700), SAMPLES).unwrap();
    }
    assert_eq!(refused(&writing.finalize().err().unwrap().error), None);
}

#[test]
fn reports_what_the_writer_itself_refused() {
    let vendor = String::from_utf8(vec![b'v'; 500]).unwrap();
    let tags_too_long = write_taf(digest(), AUDIO_ID, Tags::new(&vendor, &[]), Buffer::new());

    assert_eq!(
        refused(&tags_too_long.err().unwrap().error),
        Some(WriterError::Build(BuildError::TagsTooLong))
    );

    let mut writer = write_taf(digest(), AUDIO_ID, tags(), Buffer::new()).ok().unwrap();

    assert_eq!(
        writer
            .add_packet(&packet(3544), SAMPLES)
            .err()
            .as_ref()
            .and_then(refused),
        Some(WriterError::PacketTooLarge)
    );
    assert!(writer.begin_chapter().is_ok());

    // A packet that cannot be padded is refused where the page it ends is closed, which is
    // when the file is finished.
    writer.add_packet(&[TOC | 1, 1, 2, 3], SAMPLES).unwrap();

    assert_eq!(
        refused(&writer.finalize().err().unwrap().error),
        Some(WriterError::Pad(PadError::MalformedToc))
    );
}

#[test]
fn every_error_says_what_went_wrong_and_what_it_wraps() {
    let refused = WriterIoError::Writer(WriterError::PacketTooLarge);
    let broke = WriterIoError::Io(broken());

    assert_eq!(
        refused.message(),
        "an Opus packet is longer than a TAF page carries"
    );
    assert_eq!(broke.message(), "the file went away");
}

#[test]
fn a_file_that_was_written_is_read_back_as_what_was_put_into_it() {
    let mut writer = write_taf(digest(), AUDIO_ID, tags(), Buffer::new()).ok().unwrap();

    for at in 0..50 {
        if at == 20 || at == 35 {
            writer.begin_chapter().unwrap();
            // Where one already starts, nothing is recorded.
            writer.begin_chapter().unwrap();
        }
        writer.add_packet(&packet(600 + at), SAMPLES).unwrap();
    }

    let file = writer.finalize().unwrap().into_bytes();
    let found = read_through(&mut Bytes::new(&file)).unwrap();

    assert_eq!(found.audio_id, AUDIO_ID);
    assert_eq!(usize::try_from(found.audio_bytes), Ok(file.len() - AUDIO_AT));
    // 50 packets of 60 ms, less the 312 samples in front of the audio.
    assert_eq!(found.duration.as_secs(), 2);
    assert_eq!(found.duration.subsec_nanos(), 993_500_000);
    assert_eq!(found.chapters.len(), 3);
    assert_eq!(found.chapters[0].block.get(), 0);
    // 20 packets of 60 ms in front of the second chapter, and 35 in front of the third.
    assert_eq!(found.chapters[1].start.subsec_nanos(), 193_500_000);
    assert_eq!(found.chapters[2].start.as_secs(), 2);
}

#[test]
fn a_packet_that_closes_a_page_keeps_the_frame_it_came_with() {
    let mut writer = write_taf(digest(), AUDIO_ID, tags(), Buffer::new()).ok().unwrap();
    writer.add_packet(&packet(700), SAMPLES).unwrap();
    let file = writer.finalize().unwrap().into_bytes();
    let page = PageView::parse(&file[AUDIO_AT + HEAD_PAGE_LEN + TAGS_PAGE_LEN..]).unwrap();
    let carried = all(page.packets());

    assert_eq!(carried.len(), 1);
    assert_eq!(carried[0].len(), 3543);
    // Code 3 of the same configuration, one frame and padding behind it, stated in a run of bytes.
    assert_eq!(carried[0][0], TOC | 3);
    assert_eq!(carried[0][1], 0b0100_0001);
    assert_eq!(carried[0].iter().filter(|&&byte| byte == 0xa5).count(), 699);
}

#[test]
fn every_packet_is_carried_in_the_order_it_was_put_in() {
    let mut writer = write_taf(digest(), AUDIO_ID, tags(), Buffer::new()).ok().unwrap();
    for at in 0..30 {
        if at == 11 {
            writer.begin_chapter().unwrap();
        }
        writer.add_packet(&packet(600 + at), SAMPLES).unwrap();
    }
    let file = writer.finalize().unwrap().into_bytes();

    let mut carried = Vec::new();
    let mut at = AUDIO_AT + HEAD_PAGE_LEN + TAGS_PAGE_LEN;
    while at < file.len() {
        let page = PageView::parse(&file[at..]).unwrap();
        for packet in all(page.packets()) {
            carried.push(packet.iter().filter(|&&byte| byte == 0xa5).count());
        }
        at += if at < AUDIO_AT + BLOCK_LEN {
            BLOCK_LEN - HEAD_PAGE_LEN - TAGS_PAGE_LEN
        } else {
            BLOCK_LEN
        };
    }

    assert_eq!(carried, (599..629).collect::<Vec<usize>>());
}

#[test]
fn a_file_comes_back_with_what_was_written_into_it() {
    // Tags that do not fit leave the block that was kept free, and nothing behind it.
    let vendor = String::from_utf8(vec![b'v'; 500]).unwrap();
    let refused = write_taf(digest(), AUDIO_ID, Tags::new(&vendor, &[]), Buffer::new())
        .err()
        .unwrap();
    assert_eq!(refused.back.into_bytes(), [0; BLOCK_LEN]);

    // A write that fails is the last there is.
    let failed = write_taf(digest(), AUDIO_ID, tags(), Scratch::on_write(1)).err().unwrap();
    assert_eq!(failed.back.bytes, [0; BLOCK_LEN]);
    assert_eq!(failed.back.writes, 2);

    let failed = write_taf(digest(), AUDIO_ID, tags(), Scratch::on_write(2)).err().unwrap();
    assert_eq!(failed.back.bytes.len(), BLOCK_LEN + HEAD_PAGE_LEN);

    // A packet that cannot be padded leaves the block free and every page in front of its own.
    let mut writer = write_taf(digest(), AUDIO_ID, tags(), Buffer::new()).ok().unwrap();
    writer.add_packet(&packet(3543), SAMPLES).unwrap();
    writer.add_packet(&[TOC | 1, 1, 2, 3], SAMPLES).unwrap();
    let file = writer.finalize().err().unwrap().back.into_bytes();
    assert_eq!(file.len(), 2 * BLOCK_LEN);
    assert_eq!(file[..BLOCK_LEN], [0; BLOCK_LEN]);
}

#[test]
fn a_file_that_is_written_over_keeps_what_lies_behind() {
    let mut over = Scratch::new();
    over.bytes = vec![7; 3 * BLOCK_LEN];
    let mut writer = write_taf(digest(), AUDIO_ID, tags(), over).ok().unwrap();
    writer.add_packet(&packet(700), SAMPLES).unwrap();
    let file = writer.finalize().ok().unwrap().bytes;

    let mut fresh = write_taf(digest(), AUDIO_ID, tags(), Buffer::new()).ok().unwrap();
    fresh.add_packet(&packet(700), SAMPLES).unwrap();

    assert_eq!(file[..2 * BLOCK_LEN], fresh.finalize().unwrap().into_bytes());
    assert_eq!(file[2 * BLOCK_LEN..], [7; BLOCK_LEN]);
}
