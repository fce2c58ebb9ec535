use taffle::header::{HeaderView, BLOCK_LEN};
use taffle::ogg::crc::crc32;
use taffle::ogg::{
    PageError, PageView, Packets, CHECKSUM_AT, CHECKSUM_LEN, CONTINUES, FLAG_CONTINUED, FLAG_FIRST,
    FLAG_LAST, HEADER_LEN, MAGIC, PAGE_LEN, VERSION,
};

/// Every packet there is left, and one more than a page can possibly hold.
fn all<'a>(packets: Packets<'a>) -> Vec<&'a [u8]> {
    let mut packets = packets;
    let mut list = Vec::new();
    while let Some(packet) = packets.next() {
        list.push(packet);
        if list.len() == 256 {
            break;
        }
    }
    list
}

/// One Ogg page of the golden file, byte by byte.
fn golden_page(sequence: u32, granule: u64, flags: u8, packets: &[Vec<u8>]) -> Vec<u8> {
    let mut lacing = Vec::new();
    for packet in packets {
        lacing.extend(vec![255; packet.len() / 255]);
        lacing.push(u8::try_from(packet.len() % 255).unwrap());
    }

    let mut page = b"OggS\0".to_vec();
    page.push(flags);
    page.extend_from_slice(&granule.to_le_bytes());
    page.extend_from_slice(&444_913_029_u32.to_le_bytes());
    page.extend_from_slice(&sequence.to_le_bytes());
    page.extend_from_slice(&[0; 4]);
    page.push(u8::try_from(lacing.len()).unwrap());
    page.extend_from_slice(&lacing);
    page.extend_from_slice(&packets.concat());

    let checksum = taffle::ogg::crc::crc32(&page);
    page[22..26].copy_from_slice(&checksum.to_le_bytes());

    page
}

/// A packet of three frames of the lengths given, which states the first two of them.
fn golden_packet(lens: [usize; 3]) -> Vec<u8> {
    let mut packet = vec![0b0000_1111, 0b1000_0011];
    for len in &lens[..2] {
        if *len < 252 {
            packet.push(u8::try_from(*len).unwrap());
        } else {
            packet.push(252 + u8::try_from(*len % 4).unwrap());
            packet.push(u8::try_from((*len - 252 - *len % 4) / 4).unwrap());
        }
    }
    for (at, len) in lens.iter().enumerate() {
        packet.extend(vec![0x51 + u8::try_from(at).unwrap(); *len]);
    }

    packet
}

/// A whole file of 29 pages: a header block, the two pages that open the stream, and 161 packets of
/// 2880 samples each, five of them on the first page of audio and six on every other.
fn golden() -> Vec<u8> {
    let tags = taffle::ogg::opus_tags(
        "teddyCloud",
        &["version=TeddyCloud v0.6.2 (203f12d) - 2024-10-26 18:14:34 +0000 ubuntu linux-x86_64(64)"],
    )
    .unwrap();
    let mut head = b"OpusHead".to_vec();
    head.extend_from_slice(&[1, 2, 0x38, 0x01, 0x80, 0xbb, 0, 0, 0, 0, 0]);

    // Three frames of 148 bytes, framed alike, with one byte stating three bytes of padding.
    let mut closing = vec![0b0000_1111, 0b0100_0011, 3];
    closing.extend(vec![0x61; 444]);
    closing.extend([0; 3]);

    let mut audio = golden_page(0, 0, 2, &[head]);
    audio.extend(golden_page(1, 0, 0, &[tags.to_vec()]));
    audio.extend(golden_page(
        2,
        14_400,
        0,
        &[
            golden_packet([384, 260, 245]),
            golden_packet([200, 210, 302]),
            golden_packet([200, 211, 328]),
            golden_packet([200, 212, 322]),
            closing,
        ],
    ));
    for block in 1..27_u32 {
        let mut packets = vec![golden_packet([150, 160, 361]); 5];
        packets.push(golden_packet([150, 160, 362]));
        audio.extend(golden_page(
            block + 2,
            14_400 + 17_280 * u64::from(block),
            0,
            &packets,
        ));
    }

    let mut digest = taffle::digest::Digest::new();
    taffle::digest::Sha1::update(&mut digest, &audio);
    let mut file = taffle::header::encode_header(
        &taffle::digest::Sha1::finalize(digest),
        110_592,
        taffle::id::AudioId::new(444_913_029),
        &[0],
    )
    .unwrap()
    .to_vec();
    file.extend(audio);

    file
}

/// Where the audio region, and so the first Ogg page, starts.
const FIRST_PAGE_AT: usize = BLOCK_LEN;

/// The bytes the `OpusHead` page occupies: header, one lacing value, and the 19-byte packet.
const FIRST_PAGE_LEN: usize = 47;

/// Where the first audio page starts: behind the two Opus header pages.
const AUDIO_PAGE_AT: usize = 4608;

/// Where the first block-aligned page starts.
const ALIGNED_PAGE_AT: usize = 8192;

/// The samples per channel one Opus frame carries, which every page's granule advances by a
/// multiple of.
const SAMPLES_PER_FRAME: u64 = 2880;

/// Builds a page around the lacing values and body given, checksummed the way a writer does.
///
/// The checksum comes from the same `crc32` the parser checks against, which the golden
/// fixture's own stored checksums pin to the format in `crc.rs` — so building pages with it
/// tests the parser rather than itself.
fn page(flags: u8, lacing: &[u8], body: &[u8]) -> Vec<u8> {
    let mut page = Vec::new();
    page.extend_from_slice(&MAGIC);
    page.push(VERSION);
    page.push(flags);
    page.extend_from_slice(&7_u64.to_le_bytes());
    page.extend_from_slice(&444_913_029_u32.to_le_bytes());
    page.extend_from_slice(&3_u32.to_le_bytes());
    page.extend_from_slice(&[0; CHECKSUM_LEN]);
    page.push(u8::try_from(lacing.len()).unwrap());
    page.extend_from_slice(lacing);
    page.extend_from_slice(body);

    let checksum = crc32(&page);
    page[CHECKSUM_AT..CHECKSUM_AT + CHECKSUM_LEN].copy_from_slice(&checksum.to_le_bytes());

    page
}

/// A page of `lacing.len()` segments whose body is as long as the lacing values add up to.
fn laced(lacing: &[u8]) -> Vec<u8> {
    let body_len = lacing.iter().map(|&value| usize::from(value)).sum();

    page(0, lacing, &vec![0xa5; body_len])
}

/// The packets a page carries, and one more than a page can possibly hold.
///
/// A page has at most 255 lacing values and so at most 255 packets. Stopping a step past that
/// is what makes an iterator that never ends fail the test that collects it rather than hang
/// it.
fn packets<'a>(view: &PageView<'a>) -> Vec<&'a [u8]> {
    all(view.packets())
}

fn packet_lens(view: &PageView<'_>) -> Vec<usize> {
    packets(view).iter().map(|packet| packet.len()).collect()
}

fn parse_err(page: &[u8]) -> PageError {
    PageView::parse(page).unwrap_err()
}

#[test]
fn parses_the_opus_head_page_the_audio_region_starts_with() {
    let golden = golden();
    let view = PageView::parse(&golden[FIRST_PAGE_AT..]).unwrap();

    assert!(view.is_first(), "the first page carries the BOS flag");
    assert!(!view.is_last());
    assert_eq!(view.sequence(), 0);
    assert_eq!(view.granule_position(), 0);
    assert_eq!(view.serial(), 444_913_029);
    assert_eq!(view.total_len(), FIRST_PAGE_LEN);

    let packets = packets(&view);
    assert_eq!(packets.len(), 1);
    assert_eq!(packets[0].len(), 19);
    assert!(packets[0].starts_with(b"OpusHead"));
}

#[test]
fn parses_a_block_aligned_audio_page() {
    let golden = golden();
    let view = PageView::parse(&golden[ALIGNED_PAGE_AT..]).unwrap();
    let header = HeaderView::parse(&golden[..BLOCK_LEN]).unwrap();

    assert_eq!(view.total_len(), PAGE_LEN);
    assert_eq!(PAGE_LEN, 4096);
    assert_eq!(view.serial(), header.audio_id().get());
    assert_eq!(view.sequence(), 3);
    assert_eq!(view.granule_position(), 31_680);
    assert!(!view.is_first());
    assert!(!view.is_last());
}

#[test]
fn reads_the_page_at_the_front_and_leaves_what_follows_it_alone() {
    let golden = golden();
    let from_the_rest_of_the_file = PageView::parse(&golden[FIRST_PAGE_AT..]).unwrap();
    let exactly_one_page =
        PageView::parse(&golden[FIRST_PAGE_AT..FIRST_PAGE_AT + FIRST_PAGE_LEN]).unwrap();

    assert_eq!(from_the_rest_of_the_file.total_len(), FIRST_PAGE_LEN);
    assert_eq!(
        packet_lens(&from_the_rest_of_the_file),
        packet_lens(&exactly_one_page)
    );

    // Stepping on by what the page occupies lands on the next one.
    let next = PageView::parse(&golden[FIRST_PAGE_AT + FIRST_PAGE_LEN..]).unwrap();
    assert_eq!(next.sequence(), 1);
}

#[test]
fn walks_every_page_of_the_golden_file() {
    let golden = golden();
    let header = HeaderView::parse(&golden[..BLOCK_LEN]).unwrap();
    let mut at = FIRST_PAGE_AT;
    let mut granule = 0;
    let mut pages = 0;

    while at < golden.len() {
        let view = PageView::parse(&golden[at..]).unwrap();

        assert_eq!(view.serial(), header.audio_id().get(), "page at {at}");
        assert_eq!(view.sequence(), pages, "page at {at}");
        assert_eq!(view.is_first(), at == FIRST_PAGE_AT, "page at {at}");
        assert!(!view.is_last(), "page at {at}");
        assert_eq!(
            (view.granule_position() - granule) % SAMPLES_PER_FRAME,
            0,
            "page at {at}"
        );
        if at >= ALIGNED_PAGE_AT {
            assert_eq!(at % PAGE_LEN, 0, "page at {at}");
            assert_eq!(view.total_len(), PAGE_LEN, "page at {at}");
        }

        granule = view.granule_position();
        at += view.total_len();
        pages += 1;
    }

    assert_eq!(pages, 29);
    assert_eq!(
        at,
        golden.len(),
        "the last page ends at the end of the file"
    );
}

#[test]
fn splits_a_page_into_the_packets_its_lacing_table_describes() {
    let golden = golden();
    let view = PageView::parse(&golden[AUDIO_PAGE_AT..]).unwrap();

    // Fifteen lacing values for five packets: every packet but the last spans four segments.
    assert_eq!(packet_lens(&view), [895, 716, 743, 738, 450]);
    assert_eq!(view.total_len(), 3584);
    assert_eq!(
        view.total_len(),
        HEADER_LEN + 15 + packet_lens(&view).iter().sum::<usize>()
    );
}

#[test]
fn ends_a_packet_at_the_first_lacing_value_below_255() {
    let single = laced(&[4, 3]);
    let spanning = laced(&[CONTINUES, CONTINUES, 4]);

    assert_eq!(packet_lens(&PageView::parse(&single).unwrap()), [4, 3]);
    assert_eq!(packet_lens(&PageView::parse(&spanning).unwrap()), [514]);
}

#[test]
fn reads_a_lacing_value_of_zero_as_a_packet_of_no_bytes() {
    let empty = laced(&[0]);
    let two_empty = laced(&[0, 0]);
    // A packet of exactly 255 bytes needs the zero to say that it ends there.
    let exactly_full = laced(&[CONTINUES, 0]);

    assert_eq!(packet_lens(&PageView::parse(&empty).unwrap()), [0]);
    assert_eq!(packet_lens(&PageView::parse(&two_empty).unwrap()), [0, 0]);
    assert_eq!(packet_lens(&PageView::parse(&exactly_full).unwrap()), [255]);
}

#[test]
fn ends_at_a_packet_the_page_does_not_finish() {
    // A page whose lacing table ends on 255 carries a packet the next page continues, so
    // there is no whole packet to hand out for it.
    let only_a_fragment = laced(&[CONTINUES, CONTINUES]);
    let one_packet_then_a_fragment = laced(&[4, CONTINUES]);

    assert_eq!(
        packet_lens(&PageView::parse(&only_a_fragment).unwrap()),
        [] as [usize; 0]
    );
    assert_eq!(
        packet_lens(&PageView::parse(&one_packet_then_a_fragment).unwrap()),
        [4]
    );
}

#[test]
fn hands_out_the_fragment_a_continued_page_starts_with_as_a_packet() {
    // The other end of that run, which nothing here interprets: a page that states the
    // continued-packet flag parses like any other, and the tail of the packet the page before
    // it began — the leading four bytes here — is handed out as if it were whole. Joining the
    // two halves stays the caller's business; the flag itself is all this reports.
    let continued = page(FLAG_CONTINUED, &[4, 3], &[0xa5; 7]);
    let view = PageView::parse(&continued).unwrap();

    assert_eq!(packet_lens(&view), [4, 3]);
    assert!(view.is_continued());
    assert!(!view.is_first());
    assert!(!view.is_last());
}

#[test]
fn reads_the_flag_a_page_carries_a_packet_on_from_the_page_before_it_with() {
    let golden = golden();
    // The flag on its own, and beside the two flags that share the byte with it — a page that
    // begins or ends a stream is not one that continues a packet.
    let carries_on = page(FLAG_CONTINUED, &[1], &[0]);
    let begins = page(FLAG_FIRST, &[1], &[0]);
    let ends = page(FLAG_LAST, &[1], &[0]);
    let both = page(FLAG_CONTINUED | FLAG_LAST, &[1], &[0]);

    assert!(PageView::parse(&carries_on).unwrap().is_continued());
    assert!(!PageView::parse(&begins).unwrap().is_continued());
    assert!(!PageView::parse(&ends).unwrap().is_continued());
    assert!(PageView::parse(&both).unwrap().is_continued());

    // And no page of a TAF states it: not the one that opens the stream, and not an aligned
    // audio page either.
    assert!(!PageView::parse(&golden[FIRST_PAGE_AT..])
        .unwrap()
        .is_continued());
    assert!(!PageView::parse(&golden[ALIGNED_PAGE_AT..])
        .unwrap()
        .is_continued());
}

#[test]
fn reads_a_page_that_carries_no_segments_at_all() {
    let empty = laced(&[]);
    let view = PageView::parse(&empty).unwrap();

    assert_eq!(view.total_len(), HEADER_LEN);
    assert_eq!(packet_lens(&view), [] as [usize; 0]);
}

#[test]
fn reads_the_flags_a_page_ends_a_stream_with() {
    let ends_the_stream = page(FLAG_LAST, &[1], &[0]);
    let is_the_whole_stream = page(FLAG_FIRST | FLAG_LAST, &[1], &[0]);
    let last = PageView::parse(&ends_the_stream).unwrap();
    let only_page = PageView::parse(&is_the_whole_stream).unwrap();

    assert!(!last.is_first());
    assert!(last.is_last());
    assert!(only_page.is_first());
    assert!(only_page.is_last());
}

#[test]
fn rejects_fewer_bytes_than_a_page_header() {
    let golden = golden();
    assert_eq!(parse_err(&[]), PageError::TooShort);
    assert_eq!(
        parse_err(&golden[FIRST_PAGE_AT..FIRST_PAGE_AT + HEADER_LEN - 1]),
        PageError::TooShort
    );
}

#[test]
fn rejects_bytes_that_do_not_start_with_the_capture_pattern() {
    let golden = golden();
    let mut broken = golden[FIRST_PAGE_AT..FIRST_PAGE_AT + FIRST_PAGE_LEN].to_vec();
    broken[3] = b'X';

    // The capture pattern is looked at before the checksum that no longer matches either.
    assert_eq!(parse_err(&broken), PageError::BadMagic);
    assert_eq!(parse_err(&[0; HEADER_LEN]), PageError::BadMagic);
}

#[test]
fn rejects_a_version_of_the_framing_it_does_not_read() {
    let golden = golden();
    let mut future = golden[FIRST_PAGE_AT..FIRST_PAGE_AT + FIRST_PAGE_LEN].to_vec();
    future[4] = 1;

    assert_eq!(parse_err(&future), PageError::BadVersion);
}

#[test]
fn rejects_a_page_that_reaches_past_the_bytes_handed_in() {
    let golden = golden();
    // A lacing table the slice ends inside of, and a body the slice ends inside of.
    let aligned = &golden[ALIGNED_PAGE_AT..];

    assert_eq!(
        parse_err(&aligned[..HEADER_LEN + 16]),
        PageError::TruncatedBody
    );
    assert_eq!(
        parse_err(&aligned[..PAGE_LEN - 1]),
        PageError::TruncatedBody
    );
}

#[test]
fn rejects_a_page_whose_checksum_does_not_match_its_bytes() {
    let golden = golden();
    let intact = &golden[FIRST_PAGE_AT..FIRST_PAGE_AT + FIRST_PAGE_LEN];

    for flipped in [6, 14, HEADER_LEN, FIRST_PAGE_LEN - 1] {
        let mut broken = intact.to_vec();
        broken[flipped] ^= 0x01;

        assert_eq!(parse_err(&broken), PageError::BadCrc, "byte {flipped}");
    }

    // A page that states a checksum of its own that its bytes do not add up to.
    let mut restated = intact.to_vec();
    restated[CHECKSUM_AT] ^= 0x01;
    assert_eq!(parse_err(&restated), PageError::BadCrc);
}

#[test]
fn packets_replays_the_same_packets_from_a_clone() {
    let golden = golden();
    let view = PageView::parse(&golden[AUDIO_PAGE_AT..]).unwrap();
    let packets = view.packets();
    let replay = packets.clone();

    assert_eq!(all(packets).len(), 5);
    assert_eq!(
        all(replay).iter().map(|packet| packet.len()).collect::<Vec<_>>(),
        [895, 716, 743, 738, 450]
    );
}

#[test]
fn packets_ends_rather_than_panicking_on_a_body_shorter_than_its_lacing_table() {
    // Parsing sizes the body from the lacing table, so this state is unreachable through
    // `parse`.
    let mut packets = Packets {
        lacing: &[3],
        body: &[],
    };

    assert_eq!(packets.next(), None);
}

#[test]
fn page_every_error_says_what_went_wrong() {
    let rendered = [
        PageError::TooShort,
        PageError::BadMagic,
        PageError::BadVersion,
        PageError::BadCrc,
        PageError::TruncatedBody,
    ]
    .map(|error| error.message());

    assert_eq!(
        rendered,
        [
            "an Ogg page header needs 27 bytes",
            "these bytes do not start an Ogg page",
            "an Ogg page states a version other than 0",
            "an Ogg page's checksum does not match its bytes",
            "an Ogg page reaches past the end of the bytes handed in",
        ]
    );
}

#[test]
fn page_error_is_a_standard_error() {
    let error = PageError::BadCrc;

    assert_eq!(
        error.message(),
        "an Ogg page's checksum does not match its bytes"
    );
}
