use std::cell::RefCell;

use taffle::digest::Sha1;
use taffle::header::{encode_header, HeaderView, BLOCK_LEN};
use taffle::id::{AudioId, BlockIndex};
use taffle::ogg::crc::crc32;
use taffle::ogg::{opus_head, opus_tags, PageBuilder, PageError, PageView, Packets, OPUS_PRE_SKIP};
use taffle::reader::{
    ChapterInfo, Summary, ValidateError, Validator, BLOCK_PAGES, FIRST_BLOCK_PAGES, HEADER_PAGES,
    HEADER_PAGES_LEN,
};
use taffle::writer::{PageSink, TafWriter, Tags, BLOCK_BYTES};

/// Every packet there is left, and one more than a page can possibly hold.
fn all<'a>(packets: Packets<'a>) -> Vec<&'a [u8]> {
    let mut packets = packets;
    let mut list = Vec::new();
    while let Some(packet) = packets.next() {
        list.push(packet);
        if list.len() == 256 {
            break;
        }
    }
    list
}

/// Every chapter start a header states.
fn starts(view: &HeaderView<'_>) -> Vec<u32> {
    let mut pages = view.chapter_pages();
    let mut list = Vec::new();
    while let Some(start) = pages.next() {
        list.push(start.get());
    }
    list
}

/// One Ogg page of the golden file, byte by byte.
fn golden_page(sequence: u32, granule: u64, flags: u8, packets: &[Vec<u8>]) -> Vec<u8> {
    let mut lacing = Vec::new();
    for packet in packets {
        lacing.extend(vec![255; packet.len() / 255]);
        lacing.push(u8::try_from(packet.len() % 255).unwrap());
    }

    let mut page = b"OggS\0".to_vec();
    page.push(flags);
    page.extend_from_slice(&granule.to_le_bytes());
    page.extend_from_slice(&444_913_029_u32.to_le_bytes());
    page.extend_from_slice(&sequence.to_le_bytes());
    page.extend_from_slice(&[0; 4]);
    page.push(u8::try_from(lacing.len()).unwrap());
    page.extend_from_slice(&lacing);
    page.extend_from_slice(&packets.concat());

    let checksum = taffle::ogg::crc::crc32(&page);
    page[22..26].copy_from_slice(&checksum.to_le_bytes());

    page
}

/// A packet of three frames of the lengths given, which states the first two of them.
fn golden_packet(lens: [usize; 3]) -> Vec<u8> {
    let mut packet = vec![0b0000_1111, 0b1000_0011];
    for len in &lens[..2] {
        if *len < 252 {
            packet.push(u8::try_from(*len).unwrap());
        } else {
            packet.push(252 + u8::try_from(*len % 4).unwrap());
            packet.push(u8::try_from((*len - 252 - *len % 4) / 4).unwrap());
        }
    }
    for (at, len) in lens.iter().enumerate() {
        packet.extend(vec![0x51 + u8::try_from(at).unwrap(); *len]);
    }

    packet
}

/// A whole file of 29 pages: a header block, the two pages that open the stream, and 161 packets of
/// 2880 samples each, five of them on the first page of audio and six on every other.
fn golden() -> Vec<u8> {
    let tags = taffle::ogg::opus_tags(
        "teddyCloud",
        &["version=TeddyCloud v0.6.2 (203f12d) - 2024-10-26 18:14:34 +0000 ubuntu linux-x86_64(64)"],
    )
    .unwrap();
    let mut head = b"OpusHead".to_vec();
    head.extend_from_slice(&[1, 2, 0x38, 0x01, 0x80, 0xbb, 0, 0, 0, 0, 0]);

    // Three frames of 148 bytes, framed alike, with one byte stating three bytes of padding.
    let mut closing = vec![0b0000_1111, 0b0100_0011, 3];
    closing.extend(vec![0x61; 444]);
    closing.extend([0; 3]);

    let mut audio = golden_page(0, 0, 2, &[head]);
    audio.extend(golden_page(1, 0, 0, &[tags.to_vec()]));
    audio.extend(golden_page(
        2,
        14_400,
        0,
        &[
            golden_packet([384, 260, 245]),
            golden_packet([200, 210, 302]),
            golden_packet([200, 211, 328]),
            golden_packet([200, 212, 322]),
            closing,
        ],
    ));
    for block in 1..27_u32 {
        let mut packets = vec![golden_packet([150, 160, 361]); 5];
        packets.push(golden_packet([150, 160, 362]));
        audio.extend(golden_page(
            block + 2,
            14_400 + 17_280 * u64::from(block),
            0,
            &packets,
        ));
    }

    let mut digest = taffle::digest::Digest::new();
    taffle::digest::Sha1::update(&mut digest, &audio);
    let mut file = taffle::header::encode_header(
        &taffle::digest::Sha1::finalize(digest),
        110_592,
        taffle::id::AudioId::new(444_913_029),
        &[0],
    )
    .unwrap()
    .to_vec();
    file.extend(audio);

    file
}

/// Where a writer's pages land.
struct Sink<'a>(&'a Pages);

impl PageSink for Sink<'_> {
    fn emit(&mut self, page: &[u8]) {
        self.0.borrow_mut().push(page.to_vec());
    }
}


/// Where a TAF's audio region starts: behind the header block.
const AUDIO_AT: usize = BLOCK_LEN;

/// The golden file's audio id, which every one of its pages states as its serial number.
const AUDIO_ID: AudioId = AudioId(444_913_029);

/// The samples of one channel an Opus packet of a TAF carries: 60 ms at 48 kHz.
const SAMPLES: u32 = 2880;

/// Where RFC 3533 puts a page's type flags.
const FLAGS_AT: usize = 5;

/// Where it puts the count of the lacing values that follow the page header.
const SEGMENTS_AT: usize = 26;

/// Where it puts the checksum, and the bytes it occupies.
const CHECKSUM_AT: usize = 22;
const CHECKSUM_LEN: usize = 4;

/// The type flag that says the page's first packet carries on one the page before it began.
const CONTINUED: u8 = 0x01;

/// The type flag that marks the first page of a stream.
const BOS: u8 = 0x02;

/// The type flag that marks the last page of a stream.
const EOS: u8 = 0x04;

/// The packet that fills the first audio page: 3543 bytes occupy the 3557 it has for them.
const FIRST_AUDIO_PACKET: usize = 3543;

/// The packet that fills a block-aligned page: 4053 bytes occupy the 4069 one has.
const PAGE_PACKET: usize = 4053;

/// The pages a writer emitted, which a test reads once the writer is done with them.
type Pages = RefCell<Vec<Vec<u8>>>;

struct RustCrypto(sha1::Sha1);

impl Sha1 for RustCrypto {
    fn update(&mut self, data: &[u8]) {
        sha1::Digest::update(&mut self.0, data);
    }

    fn finalize(self) -> [u8; 20] {
        sha1::Digest::finalize(self.0).into()
    }
}

fn digest() -> RustCrypto {
    RustCrypto(<sha1::Sha1 as sha1::Digest>::new())
}

fn sha1_of(bytes: &[u8]) -> [u8; 20] {
    let mut digest = digest();
    Sha1::update(&mut digest, bytes);

    digest.finalize()
}

/// What validating an audio region came to.
#[derive(Debug)]
struct Run {
    /// The chapters the blocks that were taken reported, in the order they reported them.
    chapters: Vec<ChapterInfo>,
    /// The block the validator refused, if it refused one, and what it said about it.
    refused: Option<(usize, ValidateError)>,
    /// What `finish` made of the file.
    summary: Result<Summary, ValidateError>,
}

/// Validates an audio region the way a box reads one: block by block, hashing as it goes, and
/// stopping at the first block the validator refuses.
fn validate(header: &HeaderView<'_>, audio: &[u8]) -> Run {
    run(header, audio, true)
}

/// The same walk with no digest anywhere: neither the blocks nor `finish` are hashed.
fn validate_unhashed(header: &HeaderView<'_>, audio: &[u8]) -> Run {
    run(header, audio, false)
}

fn run(header: &HeaderView<'_>, audio: &[u8], hashed: bool) -> Run {
    let mut validator = Validator::new(header);
    let mut digest = digest();
    let mut chapters = Vec::new();
    let mut refused = None;

    for (at, block) in audio.chunks(BLOCK_LEN).enumerate() {
        let pushed = if hashed {
            validator.push_block(block, Some(&mut digest))
        } else {
            validator.push_block(block, None::<&mut RustCrypto>)
        };

        match pushed {
            Ok(chapter) => chapters.extend(chapter),
            Err(error) => {
                refused = Some((at, error));
                break;
            }
        }
    }

    let summary = validator.finish(hashed.then(|| digest.finalize()));

    Run {
        chapters,
        refused,
        summary,
    }
}

/// A packet of `len` bytes that is not audio at all: nothing in a reader looks inside a packet
/// beyond the magic the two the stream opens with state.
fn junk(len: usize) -> Vec<u8> {
    vec![0xa5; len]
}

/// A page of the file's stream, carrying `packets` and stating `flags`.
///
/// Built with the crate's own [`PageBuilder`] and then restated with the flags the test asked
/// for — the builder has a word for BOS and EOS and none for the continued-packet flag, which
/// no TAF states and a reader still has to answer for. The checksum is summed again over the
/// bytes that come out, so every page here is one a reader accepts unless a test made it
/// otherwise.
fn page(sequence: u32, granule: u64, flags: u8, packets: &[&[u8]]) -> Vec<u8> {
    let mut builder = PageBuilder::new(AUDIO_ID.get(), sequence);
    builder.granule_position(granule);
    for packet in packets {
        builder.push_packet(packet).unwrap();
    }

    let mut page = builder.finish();
    page[FLAGS_AT] = flags;
    reseal(&mut page);

    page
}

/// Sums a page again after a test changed it, so that only what the test meant to break is
/// broken.
fn reseal(page: &mut [u8]) {
    page[CHECKSUM_AT..CHECKSUM_AT + CHECKSUM_LEN].fill(0);
    let checksum = crc32(page).to_le_bytes();
    page[CHECKSUM_AT..CHECKSUM_AT + CHECKSUM_LEN].copy_from_slice(&checksum);
}

/// The page a TAF opens with: the `OpusHead` packet, stated with whatever flags a test needs.
fn head_page(flags: u8) -> Vec<u8> {
    page(0, 0, flags, &[&opus_head(OPUS_PRE_SKIP)])
}

/// The page behind it, carrying the `OpusTags` packet.
fn tags_page() -> Vec<u8> {
    page(1, 0, 0, &[&opus_tags("taffle", &[]).unwrap()])
}

/// The first block of a TAF: the two pages the Opus stream opens with, and the audio page that
/// closes the block.
fn first_block() -> Vec<u8> {
    let mut block = head_page(BOS);
    block.extend(tags_page());
    block.extend(page(2, u64::from(SAMPLES), 0, &[&junk(FIRST_AUDIO_PACKET)]));

    block
}

/// A block of the audio region behind it: one page, exactly a block long.
///
/// Block `n` is page `n + 2`, and every block carries one packet, so the granule position runs
/// with the block.
fn audio_block(block: u32, flags: u8) -> Vec<u8> {
    page(
        block + 2,
        u64::from(SAMPLES) * u64::from(block + 1),
        flags,
        &[&junk(PAGE_PACKET)],
    )
}

/// An audio region of `blocks` blocks behind the first one.
fn audio(blocks: u32) -> Vec<u8> {
    let mut audio = first_block();

    for block in 1..=blocks {
        audio.extend(audio_block(block, 0));
    }

    audio
}

/// The header block a file of this audio region and these chapters has.
///
/// The length and the hash it states are the ones the region really has, so a test that does
/// not break one of them is testing something else.
fn header_block(audio: &[u8], chapters: &[u32]) -> [u8; BLOCK_LEN] {
    encode_header(
        &sha1_of(audio),
        u32::try_from(audio.len()).unwrap(),
        AUDIO_ID,
        chapters,
    )
    .unwrap()
}

/// What a file of `audio` states about itself, with one chapter at block 0 as every TAF has.
fn header_of(audio: &[u8]) -> [u8; BLOCK_LEN] {
    header_block(audio, &[0])
}

/// The audio packets of the golden file: everything its pages from sequence 2 on carry.
fn golden_packets() -> Vec<Vec<u8>> {
    let golden = golden();
    let mut packets = Vec::new();
    let mut at = AUDIO_AT;

    while at < golden.len() {
        let view = PageView::parse(&golden[at..]).unwrap();

        if view.sequence() >= 2 {
            packets.extend(all(view.packets()).iter().map(|packet| packet.to_vec()));
        }
        at += view.total_len();
    }

    assert_eq!(packets.len(), 161);

    packets
}

/// The `OpusTags` content a file written here carries, which nothing about validating reads.
fn tags() -> Tags<'static> {
    Tags::new("taffle", &[])
}

/// The summary the golden file validates to.
fn golden_summary() -> Summary {
    Summary {
        pages: 29,
        // The last page's granule, not the 478 080 the header's own bookkeeping states:
        // teddycloud drops the packets it still has buffered when it closes a file.
        total_samples: 463_680,
        audio_bytes: 110_592,
        chapters_seen: 1,
    }
}

#[test]
fn validates_the_golden_files_audio_region_block_by_block() {
    let golden = golden();
    let header = HeaderView::parse(&golden[..AUDIO_AT]).unwrap();
    let run = validate(&header, &golden[AUDIO_AT..]);

    assert_eq!(run.refused, None);
    assert_eq!(run.summary, Ok(golden_summary()));
    // 9.66 seconds of audio at 48 kHz, and the one chapter every TAF starts at block 0.
    assert_eq!(golden_summary().total_samples / 48_000, 9);
    assert_eq!(
        run.chapters,
        [ChapterInfo {
            block: BlockIndex::new(0),
            granule: 0
        }]
    );
}

#[test]
fn validates_the_golden_file_without_a_digest_at_all() {
    let golden = golden();
    let header = HeaderView::parse(&golden[..AUDIO_AT]).unwrap();
    let run = validate_unhashed(&header, &golden[AUDIO_AT..]);

    assert_eq!(run.refused, None);
    assert_eq!(run.summary, Ok(golden_summary()));
}

#[test]
fn reports_an_audio_region_that_does_not_hash_to_what_the_header_states() {
    let golden = golden();
    let header = HeaderView::parse(&golden[..AUDIO_AT]).unwrap();
    let mut audio = golden[AUDIO_AT..].to_vec();

    // One page of the file, restated with a byte of its audio changed and summed again: the
    // framing is as sound as it was, and the region is as long as it was, so the hash is the
    // one thing left that says the file was tampered with.
    let at = 2 * BLOCK_LEN;
    let view = PageView::parse(&audio[at..]).unwrap();
    let mut packets: Vec<Vec<u8>> = all(view.packets()).iter().map(|packet| packet.to_vec()).collect();
    packets[0][10] ^= 0x01;
    let restated = page(
        view.sequence(),
        view.granule_position(),
        0,
        &packets.iter().map(Vec::as_slice).collect::<Vec<_>>(),
    );

    assert_eq!(restated.len(), BLOCK_LEN);
    audio[at..at + BLOCK_LEN].copy_from_slice(&restated);

    let hashed = validate(&header, &audio);
    let unhashed = validate_unhashed(&header, &audio);

    assert_eq!(hashed.refused, None);
    assert_eq!(hashed.summary, Err(ValidateError::Sha1Mismatch));
    // Everything but the hash still adds up, so a walk that does not hash accepts it.
    assert_eq!(unhashed.refused, None);
    assert_eq!(unhashed.summary, Ok(golden_summary()));
}

#[test]
fn reports_the_page_whose_bytes_do_not_add_up() {
    let golden = golden();
    let header = HeaderView::parse(&golden[..AUDIO_AT]).unwrap();
    let mut audio = golden[AUDIO_AT..].to_vec();
    audio[4 * BLOCK_LEN + 100] ^= 0x01;

    let run = validate(&header, &audio);

    assert_eq!(
        run.refused,
        Some((4, ValidateError::Page(PageError::BadCrc)))
    );
    // The block that was refused is not one of the file's, so the walk is four blocks long.
    assert_eq!(
        run.summary,
        Err(ValidateError::LengthMismatch {
            header: 110_592,
            actual: 4 * 4096
        })
    );
}

#[test]
fn reports_an_audio_region_that_stops_short() {
    let golden = golden();
    let header = HeaderView::parse(&golden[..AUDIO_AT]).unwrap();
    let short = &golden[AUDIO_AT..golden.len() - 2048];
    let dropped = &golden[AUDIO_AT..golden.len() - BLOCK_LEN];

    // The last page cut in half is not a block, so it is not pushed at all — and what was
    // pushed is a block short of what the header states.
    let cut = validate(&header, short);

    assert_eq!(
        cut.refused,
        Some((26, ValidateError::WrongBlockLen { len: 2048 }))
    );
    assert_eq!(
        cut.summary,
        Err(ValidateError::LengthMismatch {
            header: 110_592,
            actual: 106_496
        })
    );

    // With that page gone altogether every push is taken, and the file is simply short.
    let ended = validate(&header, dropped);

    assert_eq!(ended.refused, None);
    assert_eq!(
        ended.summary,
        Err(ValidateError::LengthMismatch {
            header: 110_592,
            actual: 106_496
        })
    );
}

#[test]
fn validates_a_file_the_writer_wrote_from_scratch() {
    let pages = Pages::default();
    let mut writer = TafWriter::new(digest(), AUDIO_ID, tags(), Sink(&pages)).ok().unwrap();

    for (at, packet) in golden_packets().iter().enumerate() {
        if at == 40 || at == 100 {
            writer.begin_chapter().unwrap();
        }
        writer.add_packet(packet, SAMPLES).unwrap();
    }

    let (block, _) = writer.finalize().ok().unwrap();
    let header = HeaderView::parse(&block).unwrap();
    let audio = pages.borrow().concat();
    let starts = starts(&header);
    let run = validate(&header, &audio);

    assert_eq!(run.refused, None);
    assert_eq!(
        run.summary,
        Ok(Summary {
            pages: u32::try_from(pages.borrow().len()).unwrap(),
            // Every packet handed in is in the file: this writer pads its last page rather
            // than dropping what it holds.
            total_samples: 161 * u64::from(SAMPLES),
            audio_bytes: header.data_length(),
            chapters_seen: 3,
        })
    );

    // A chapter starts where its block starts, so its granule is the audio before it: the
    // packets the writer took before the chapter was begun, 2880 samples apiece.
    assert_eq!(starts.len(), 3);
    assert_eq!(
        run.chapters,
        [
            ChapterInfo {
                block: BlockIndex::new(starts[0]),
                granule: 0
            },
            ChapterInfo {
                block: BlockIndex::new(starts[1]),
                granule: 40 * u64::from(SAMPLES)
            },
            ChapterInfo {
                block: BlockIndex::new(starts[2]),
                granule: 100 * u64::from(SAMPLES)
            },
        ]
    );
}

#[test]
fn validates_a_file_built_out_of_pages_of_its_own() {
    let audio = audio(2);
    let block = header_of(&audio);
    let header = HeaderView::parse(&block).unwrap();
    let run = validate(&header, &audio);

    assert_eq!(audio.len(), 3 * BLOCK_LEN);
    assert_eq!(run.refused, None);
    assert_eq!(
        run.summary,
        Ok(Summary {
            pages: 5,
            total_samples: 3 * u64::from(SAMPLES),
            audio_bytes: 3 * 4096,
            chapters_seen: 1,
        })
    );
}

#[test]
fn takes_the_audio_region_one_whole_block_at_a_time() {
    let audio = audio(1);
    let block = header_of(&audio);
    let header = HeaderView::parse(&block).unwrap();

    for len in [0, BLOCK_LEN - 1, BLOCK_LEN + 1, 2 * BLOCK_LEN] {
        let mut validator = Validator::new(&header);

        assert_eq!(
            validator.push_block(&junk(len), None::<&mut RustCrypto>),
            Err(ValidateError::WrongBlockLen { len }),
            "{len} bytes"
        );
    }
}

#[test]
fn takes_a_block_whole_or_leaves_the_walk_where_it_was() {
    let audio = audio(1);
    let block = header_of(&audio);
    let header = HeaderView::parse(&block).unwrap();
    let mut validator = Validator::new(&header);
    let mut digest = digest();

    // The file's second block, pushed where its first one belongs: a block the validator
    // refuses is not hashed and does not count, so the walk carries on from where it was.
    assert_eq!(
        validator.push_block(&audio[BLOCK_LEN..], Some(&mut digest)),
        Err(ValidateError::SequenceGap { expected: 0 })
    );

    for block in audio.chunks(BLOCK_LEN) {
        assert!(validator.push_block(block, Some(&mut digest)).is_ok());
    }

    assert_eq!(
        validator.finish(Some(digest.finalize())),
        Ok(Summary {
            pages: 4,
            total_samples: 2 * u64::from(SAMPLES),
            audio_bytes: 2 * 4096,
            chapters_seen: 1,
        })
    );
}

#[test]
fn reports_a_first_page_that_does_not_begin_the_stream() {
    let mut audio = head_page(0);
    audio.extend(tags_page());
    audio.extend(page(2, u64::from(SAMPLES), 0, &[&junk(FIRST_AUDIO_PACKET)]));

    let block = header_of(&audio);
    let header = HeaderView::parse(&block).unwrap();

    assert_eq!(
        validate(&header, &audio).refused,
        Some((0, ValidateError::MissingBos))
    );
}

#[test]
fn reports_a_later_page_that_begins_the_stream_again() {
    let mut audio = first_block();
    audio.extend(audio_block(1, BOS));

    let block = header_of(&audio);
    let header = HeaderView::parse(&block).unwrap();

    assert_eq!(
        validate(&header, &audio).refused,
        Some((1, ValidateError::UnexpectedBos { page: 3 }))
    );
}

#[test]
fn reports_a_page_that_ends_the_stream() {
    let mut audio = first_block();
    audio.extend(audio_block(1, EOS));

    let block = header_of(&audio);
    let header = HeaderView::parse(&block).unwrap();

    assert_eq!(
        validate(&header, &audio).refused,
        Some((1, ValidateError::UnexpectedEos { page: 3 }))
    );
}

#[test]
fn reports_a_page_that_carries_a_packet_on_from_the_page_before_it() {
    let mut audio = first_block();
    audio.extend(audio_block(1, CONTINUED));

    let block = header_of(&audio);
    let header = HeaderView::parse(&block).unwrap();

    assert_eq!(
        validate(&header, &audio).refused,
        Some((1, ValidateError::ContinuedPacket { page: 3 }))
    );
}

#[test]
fn reports_pages_that_do_not_carry_the_packets_an_opus_stream_opens_with() {
    // A first page carrying anything but `OpusHead`, and a second carrying anything but
    // `OpusTags`: this is what tells a TAF from any other Ogg stream that happens to be laid
    // out in blocks.
    let mut without_head = page(0, 0, BOS, &[&junk(19)]);
    without_head.extend(tags_page());
    without_head.extend(page(2, u64::from(SAMPLES), 0, &[&junk(FIRST_AUDIO_PACKET)]));

    let mut without_tags = head_page(BOS);
    without_tags.extend(page(1, 0, 0, &[&junk(436)]));
    without_tags.extend(page(2, u64::from(SAMPLES), 0, &[&junk(FIRST_AUDIO_PACKET)]));

    for (audio, page) in [(without_head, 0), (without_tags, 1)] {
        let block = header_of(&audio);
        let header = HeaderView::parse(&block).unwrap();

        assert_eq!(
            validate(&header, &audio).refused,
            Some((0, ValidateError::MissingOpusHeader { page })),
            "page {page}"
        );
    }
}

#[test]
fn reports_pages_of_another_stream() {
    let audio = audio(1);
    // The audio region of one file and the header block of another.
    let block = encode_header(
        &sha1_of(&audio),
        u32::try_from(audio.len()).unwrap(),
        AudioId::new(AUDIO_ID.get() + 1),
        &[0],
    )
    .unwrap();
    let header = HeaderView::parse(&block).unwrap();

    assert_eq!(
        validate(&header, &audio).refused,
        Some((0, ValidateError::SerialMismatch))
    );
}

#[test]
fn reports_a_sequence_number_that_does_not_follow_the_page_before_it() {
    let mut audio = first_block();
    audio.extend(page(4, 2 * u64::from(SAMPLES), 0, &[&junk(PAGE_PACKET)]));

    let block = header_of(&audio);
    let header = HeaderView::parse(&block).unwrap();

    assert_eq!(
        validate(&header, &audio).refused,
        Some((1, ValidateError::SequenceGap { expected: 3 }))
    );
}

#[test]
fn reports_a_granule_position_that_goes_backwards() {
    let mut audio = first_block();
    // The first audio page states 2880 samples, and this one states fewer than that.
    audio.extend(page(3, 0, 0, &[&junk(PAGE_PACKET)]));

    let block = header_of(&audio);
    let header = HeaderView::parse(&block).unwrap();

    assert_eq!(
        validate(&header, &audio).refused,
        Some((1, ValidateError::GranuleRegression { page: 3 }))
    );
}

#[test]
fn reports_a_block_that_does_not_end_where_a_page_does() {
    // A first block whose first page fills the whole of it: a TAF's first block holds three
    // pages, and no page but the last of a block ends where the block does.
    let one_page = page(0, 0, BOS, &[&opus_head(OPUS_PRE_SKIP), &junk(4033)]);

    // A first block whose three pages leave a byte of it over.
    let mut short_first = head_page(BOS);
    short_first.extend(tags_page());
    short_first.extend(page(2, u64::from(SAMPLES), 0, &[&junk(3542)]));
    short_first.push(0);

    // A first block of exactly the right size whose two Opus header pages span 647 bytes
    // rather than 512: a box seeks the first chapter to 4096 + 0x200 and would land 135 bytes
    // inside this file's second page, so the chapter it seeks to is not there. Everything else
    // about the block adds up — three pages, the last of them closing the block.
    let head = head_page(BOS);
    let wide_tags = page(1, 0, 0, &[&opus_tags("taffle", &[]).unwrap(), &junk(134)]);

    assert_eq!((head.len(), wide_tags.len()), (47, 600));

    let mut wide_header_pages = head;
    wide_header_pages.extend(wide_tags);
    wide_header_pages.extend(page(2, u64::from(SAMPLES), 0, &[&junk(3408)]));

    // And a block behind it that holds two pages rather than one.
    let mut two_pages = first_block();
    two_pages.extend(page(3, 2 * u64::from(SAMPLES), 0, &[&junk(2013)]));
    two_pages.extend(page(4, 3 * u64::from(SAMPLES), 0, &[&junk(2013)]));

    let cases = [
        (one_page, 0, ValidateError::Misaligned { page: 0 }),
        (wide_header_pages, 0, ValidateError::Misaligned { page: 1 }),
        (short_first, 0, ValidateError::Misaligned { page: 2 }),
        (two_pages, 1, ValidateError::Misaligned { page: 3 }),
    ];

    for (audio, at, expected) in cases {
        assert_eq!(audio.len() % BLOCK_LEN, 0, "{expected:?}");

        let block = header_of(&audio);
        let header = HeaderView::parse(&block).unwrap();

        assert_eq!(
            validate(&header, &audio).refused,
            Some((at, expected)),
            "{expected:?}"
        );
    }
}

#[test]
fn reports_a_page_that_reaches_past_the_block_it_lies_in() {
    // A block-aligned page stating one lacing value more than it has: the segments it
    // describes then reach past the end of the block, which is what a page crossing a block
    // boundary comes to — and a block is all a reader hands the page reader.
    let mut audio = first_block();
    let mut spanning = audio_block(1, 0);
    spanning[SEGMENTS_AT] += 1;
    reseal(&mut spanning);

    assert_eq!(spanning.len(), BLOCK_LEN);
    audio.extend(spanning);

    let block = header_of(&audio);
    let header = HeaderView::parse(&block).unwrap();

    assert_eq!(
        validate(&header, &audio).refused,
        Some((1, ValidateError::Page(PageError::TruncatedBody)))
    );
}

#[test]
fn hands_over_every_chapter_as_the_block_it_starts_goes_by() {
    let audio = audio(2);
    let block = header_block(&audio, &[0, 1, 2]);
    let header = HeaderView::parse(&block).unwrap();
    let run = validate(&header, &audio);

    assert_eq!(run.refused, None);
    assert_eq!(run.summary.map(|summary| summary.chapters_seen), Ok(3));
    // The audio before a chapter is what the pages before its block carried.
    assert_eq!(
        run.chapters,
        [
            ChapterInfo {
                block: BlockIndex::new(0),
                granule: 0
            },
            ChapterInfo {
                block: BlockIndex::new(1),
                granule: u64::from(SAMPLES)
            },
            ChapterInfo {
                block: BlockIndex::new(2),
                granule: 2 * u64::from(SAMPLES)
            },
        ]
    );
}

#[test]
fn reports_a_chapter_the_file_does_not_hold() {
    let audio = audio(2);

    // A chapter past the end of the file, and one the walk has already gone past — chapters
    // are matched against the blocks in the order the header lists them.
    for (chapters, missing) in [(&[0, 3][..], 3), (&[0, 2, 1][..], 1)] {
        let block = header_block(&audio, chapters);
        let header = HeaderView::parse(&block).unwrap();
        let run = validate(&header, &audio);

        assert_eq!(run.refused, None, "chapters {chapters:?}");
        assert_eq!(
            run.summary,
            Err(ValidateError::ChapterPageMissing(missing)),
            "chapters {chapters:?}"
        );
    }
}

#[test]
fn reports_a_stream_that_never_begins() {
    // A header stating an audio region of no bytes at all: there is nothing to be short of,
    // and no page that opens the stream either.
    let block = encode_header(&sha1_of(&[]), 0, AUDIO_ID, &[]).unwrap();
    let header = HeaderView::parse(&block).unwrap();
    let run = validate(&header, &[]);

    assert_eq!(run.refused, None);
    assert_eq!(run.summary, Err(ValidateError::MissingBos));
}

#[test]
fn refuses_a_file_whose_audio_region_is_not_whole_blocks() {
    // A file with no audio at all: the two pages the Opus stream opens with come to 512 bytes,
    // which is an eighth of a block, and that is the whole audio region. teddycloud's own
    // writer leaves the same file behind.
    let pages = Pages::default();
    let writer = TafWriter::new(digest(), AUDIO_ID, tags(), Sink(&pages)).ok().unwrap();
    let (block, _) = writer.finalize().ok().unwrap();
    let header = HeaderView::parse(&block).unwrap();
    let audio = pages.borrow().concat();

    assert_eq!(audio.len(), 512);
    assert_eq!(header.data_length(), 512);

    let run = validate(&header, &audio);

    assert_eq!(
        run.refused,
        Some((0, ValidateError::WrongBlockLen { len: 512 }))
    );
    assert_eq!(
        run.summary,
        Err(ValidateError::LengthMismatch {
            header: 512,
            actual: 0
        })
    );
}

#[test]
fn reader_every_error_says_what_went_wrong() {
    let rendered = [
        ValidateError::Page(PageError::BadCrc),
        ValidateError::WrongBlockLen { len: 512 },
        ValidateError::Misaligned { page: 7 },
        ValidateError::SerialMismatch,
        ValidateError::SequenceGap { expected: 3 },
        ValidateError::GranuleRegression { page: 7 },
        ValidateError::MissingBos,
        ValidateError::UnexpectedBos { page: 7 },
        ValidateError::UnexpectedEos { page: 7 },
        ValidateError::ContinuedPacket { page: 7 },
        ValidateError::MissingOpusHeader { page: 1 },
        ValidateError::LengthMismatch {
            header: 110_592,
            actual: 106_496,
        },
        ValidateError::Sha1Mismatch,
        ValidateError::ChapterPageMissing(27),
    ]
    .map(|error| error.message());

    assert_eq!(
        rendered,
        [
            "an Ogg page's checksum does not match its bytes",
            "a TAF's audio region is read one 4096-byte block at a time, and 512 bytes are not one",
            "Ogg page 7 does not end where the TAF block it lies in does",
            "an Ogg page states a serial number other than the file's audio id",
            "an Ogg page states a sequence number other than 3",
            "Ogg page 7 states a granule position behind the page before it",
            "a TAF's Opus stream never begins",
            "Ogg page 7 begins a stream that page 0 already began",
            "Ogg page 7 ends the stream, which no page of a TAF does",
            "Ogg page 7 carries on a packet from the page before it, which no page of a TAF does",
            "Ogg page 1 does not carry the Opus header packet it opens the stream with",
            "a TAF's audio region is 106496 bytes, and its header states 110592",
            "a TAF's audio region does not hash to what its header states",
            "a TAF's header starts a chapter at block 27, which the file does not hold",
        ]
    );
}

#[test]
fn validate_error_is_a_standard_error_that_names_what_it_wraps() {
    let wrapping = ValidateError::Page(PageError::BadCrc);
    let plain = ValidateError::Sha1Mismatch;

    assert_eq!(
        plain.message(),
        "a TAF's audio region does not hash to what its header states"
    );
    assert_eq!(
        wrapping.message(),
        "an Ogg page's checksum does not match its bytes"
    );
}

#[test]
fn reader_the_constants_are_the_ones_the_format_states() {
    let golden = golden();
    assert_eq!(usize::try_from(BLOCK_BYTES), Ok(BLOCK_LEN));
    assert_eq!(BLOCK_LEN, 4096);
    assert_eq!(FIRST_BLOCK_PAGES, 3);
    assert_eq!(BLOCK_PAGES, 1);
    assert_eq!(HEADER_PAGES, 2);
    // The 0x200 a box adds to the offset it seeks the first chapter to, which is what the two
    // pages the golden file opens with span: 47 + 465.
    assert_eq!(HEADER_PAGES_LEN, 512);
    assert_eq!(
        PageView::parse(&golden[AUDIO_AT..]).unwrap().total_len()
            + PageView::parse(&golden[AUDIO_AT + 47..])
                .unwrap()
                .total_len(),
        HEADER_PAGES_LEN
    );
}
