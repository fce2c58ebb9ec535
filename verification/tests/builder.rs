use taffle::ogg::builder::{PAD_COMMENT, PAD_FILL};
use taffle::ogg::{
    opus_head, opus_tags, BuildError, PageBuilder, PageError, PageView, Packets, MAX_PACKET_LEN,
    MAX_SEGMENTS, OPUS_PRE_SKIP, OPUS_TAGS_LEN, OPUS_TAGS_MAGIC, PAGE_LEN,
};

/// Every packet there is left, and one more than a page can possibly hold.
fn all<'a>(packets: Packets<'a>) -> Vec<&'a [u8]> {
    let mut packets = packets;
    let mut list = Vec::new();
    while let Some(packet) = packets.next() {
        list.push(packet);
        if list.len() == 256 {
            break;
        }
    }
    list
}

/// One Ogg page of the golden file, byte by byte.
fn golden_page(sequence: u32, granule: u64, flags: u8, packets: &[Vec<u8>]) -> Vec<u8> {
    let mut lacing = Vec::new();
    for packet in packets {
        lacing.extend(vec![255; packet.len() / 255]);
        lacing.push(u8::try_from(packet.len() % 255).unwrap());
    }

    let mut page = b"OggS\0".to_vec();
    page.push(flags);
    page.extend_from_slice(&granule.to_le_bytes());
    page.extend_from_slice(&444_913_029_u32.to_le_bytes());
    page.extend_from_slice(&sequence.to_le_bytes());
    page.extend_from_slice(&[0; 4]);
    page.push(u8::try_from(lacing.len()).unwrap());
    page.extend_from_slice(&lacing);
    page.extend_from_slice(&packets.concat());

    let checksum = taffle::ogg::crc::crc32(&page);
    page[22..26].copy_from_slice(&checksum.to_le_bytes());

    page
}

/// A packet of three frames of the lengths given, which states the first two of them.
fn golden_packet(lens: [usize; 3]) -> Vec<u8> {
    let mut packet = vec![0b0000_1111, 0b1000_0011];
    for len in &lens[..2] {
        if *len < 252 {
            packet.push(u8::try_from(*len).unwrap());
        } else {
            packet.push(252 + u8::try_from(*len % 4).unwrap());
            packet.push(u8::try_from((*len - 252 - *len % 4) / 4).unwrap());
        }
    }
    for (at, len) in lens.iter().enumerate() {
        packet.extend(vec![0x51 + u8::try_from(at).unwrap(); *len]);
    }

    packet
}

/// A whole file of 29 pages: a header block, the two pages that open the stream, and 161 packets of
/// 2880 samples each, five of them on the first page of audio and six on every other.
fn golden() -> Vec<u8> {
    let tags = taffle::ogg::opus_tags(
        "teddyCloud",
        &["version=TeddyCloud v0.6.2 (203f12d) - 2024-10-26 18:14:34 +0000 ubuntu linux-x86_64(64)"],
    )
    .unwrap();
    let mut head = b"OpusHead".to_vec();
    head.extend_from_slice(&[1, 2, 0x38, 0x01, 0x80, 0xbb, 0, 0, 0, 0, 0]);

    // Three frames of 148 bytes, framed alike, with one byte stating three bytes of padding.
    let mut closing = vec![0b0000_1111, 0b0100_0011, 3];
    closing.extend(vec![0x61; 444]);
    closing.extend([0; 3]);

    let mut audio = golden_page(0, 0, 2, &[head]);
    audio.extend(golden_page(1, 0, 0, &[tags.to_vec()]));
    audio.extend(golden_page(
        2,
        14_400,
        0,
        &[
            golden_packet([384, 260, 245]),
            golden_packet([200, 210, 302]),
            golden_packet([200, 211, 328]),
            golden_packet([200, 212, 322]),
            closing,
        ],
    ));
    for block in 1..27_u32 {
        let mut packets = vec![golden_packet([150, 160, 361]); 5];
        packets.push(golden_packet([150, 160, 362]));
        audio.extend(golden_page(
            block + 2,
            14_400 + 17_280 * u64::from(block),
            0,
            &packets,
        ));
    }

    let mut digest = taffle::digest::Digest::new();
    taffle::digest::Sha1::update(&mut digest, &audio);
    let mut file = taffle::header::encode_header(
        &taffle::digest::Sha1::finalize(digest),
        110_592,
        taffle::id::AudioId::new(444_913_029),
        &[0],
    )
    .unwrap()
    .to_vec();
    file.extend(audio);

    file
}

/// The two pages carrying the Opus headers, which is what the golden file's audio region
/// starts with: page 0 at 4096, page 1 behind it, and the first audio page at 4608.
const HEADER_PAGES: core::ops::Range<usize> = 4096..4608;

/// The serial number every page of the golden file states: the file's audio id.
const SERIAL: u32 = 444_913_029;

/// The vendor string teddycloud wrote into the golden file.
const VENDOR: &str = "teddyCloud";

/// The one comment it wrote besides the padding.
const COMMENT: &str =
    "version=TeddyCloud v0.6.2 (203f12d) - 2024-10-26 18:14:34 +0000 ubuntu linux-x86_64(64)";

/// A page of `packets`, built the way a writer builds one.
fn page(sequence: u32, granule: u64, first: bool, packets: &[&[u8]]) -> Vec<u8> {
    let mut builder = PageBuilder::new(SERIAL, sequence);
    builder.granule_position(granule);
    builder.flags(first, false);

    for packet in packets {
        builder.push_packet(packet).unwrap();
    }

    builder.finish()
}

/// The packets a built page carries, bounded a step past the 255 a page can hold.
fn packet_lens(page: &[u8]) -> Vec<usize> {
    all(PageView::parse(page).unwrap().packets())
        .iter()
        .map(|packet| packet.len())
        .collect()
}

/// What a packet of `len` bytes occupies on a page, spelled out from RFC 3533 rather than
/// taken from the builder: the packet itself, one lacing value for every full 255-byte
/// segment, and one more that ends it.
fn rfc_packet_cost(len: usize) -> usize {
    len + len / 255 + 1
}

/// The largest packet that fits in `room` bytes with its lacing values, worked out by trying
/// every size rather than by the arithmetic the builder does.
fn largest_packet(room: usize) -> usize {
    (0..room)
        .rev()
        .find(|&len| rfc_packet_cost(len) <= room)
        .unwrap()
}

/// Reads an `OpusTags` packet back the way a player reads one: the vendor string, then every
/// comment, each behind its own four-byte little-endian length.
fn read_tags(packet: &[u8]) -> (Vec<u8>, Vec<Vec<u8>>) {
    assert!(packet.starts_with(&OPUS_TAGS_MAGIC));

    let len_at = |at: usize| {
        usize::try_from(u32::from_le_bytes(packet[at..at + 4].try_into().unwrap())).unwrap()
    };
    let string = |at: &mut usize| {
        let len = len_at(*at);
        let string = packet[*at + 4..*at + 4 + len].to_vec();
        *at += 4 + len;

        string
    };

    let mut at = OPUS_TAGS_MAGIC.len();
    let vendor = string(&mut at);
    let count = len_at(at);
    at += 4;
    let comments = (0..count).map(|_| string(&mut at)).collect();

    assert_eq!(at, packet.len(), "the packet ends where its comments end");

    (vendor, comments)
}

#[test]
fn builds_a_page_the_reader_reads_back() {
    let mut builder = PageBuilder::new(SERIAL, 7);
    builder.granule_position(31_680);
    builder.push_packet(&[1, 2, 3]).unwrap();
    builder.push_packet(&[0xa5; 300]).unwrap();
    let page = builder.finish();

    // Parsing checks the checksum, so a view at all is a page whose bytes add up.
    let view = PageView::parse(&page).unwrap();

    assert_eq!(view.serial(), SERIAL);
    assert_eq!(view.sequence(), 7);
    assert_eq!(view.granule_position(), 31_680);
    assert!(!view.is_first());
    assert!(!view.is_last());
    assert_eq!(view.total_len(), page.len());
    assert_eq!(
        all(view.packets()),
        [&[1, 2, 3][..], &[0xa5; 300][..]]
    );

    // 27 header bytes, three lacing values — one for the short packet, two for the one that
    // spans a full segment — and the 303 bytes of packet behind them.
    assert_eq!(page.len(), 27 + 3 + 303);
}

#[test]
fn builds_the_opus_head_packet_the_golden_file_states() {
    let golden = golden();
    let stated = PageView::parse(&golden[HEADER_PAGES])
        .unwrap()
        .packets()
        .next()
        .unwrap();

    assert_eq!(OPUS_PRE_SKIP, 312);
    assert_eq!(opus_head(OPUS_PRE_SKIP).as_slice(), stated);

    // The pre-skip is the only thing about the packet a caller chooses, and it is the
    // little-endian pair ten bytes in.
    let none = opus_head(0);
    assert_eq!(&none[10..12], &[0, 0]);
    assert_eq!(&none[..10], &stated[..10]);
    assert_eq!(&none[12..], &stated[12..]);
}

#[test]
fn builds_the_two_header_pages_the_golden_file_starts_with() {
    let golden = golden();
    let head = page(0, 0, true, &[&opus_head(OPUS_PRE_SKIP)]);
    let tags = page(1, 0, false, &[&opus_tags(VENDOR, &[COMMENT]).unwrap()]);

    // 27 header bytes plus one lacing value plus 19, and 27 plus two lacing values plus 436:
    // the 512 bytes that leave the first audio page the rest of the block.
    assert_eq!(head.len(), 47);
    assert_eq!(tags.len(), 465);

    let mut both = head;
    both.extend_from_slice(&tags);

    assert_eq!(both.len(), 512);
    assert_eq!(both, golden[HEADER_PAGES]);
}

#[test]
fn fills_the_tags_packet_out_to_its_fixed_length_whatever_it_says() {
    let cases: [(&str, &[&str]); 4] = [
        ("", &[]),
        ("taffle", &["encoder=taffle"]),
        (VENDOR, &[COMMENT]),
        ("v", &["x=1", "y=2", "z=3"]),
    ];

    for (vendor, comments) in cases {
        let packet = opus_tags(vendor, comments).unwrap();
        let (read_vendor, read_comments) = read_tags(&packet);

        assert_eq!(packet.len(), OPUS_TAGS_LEN, "{vendor}");
        assert_eq!(read_vendor, vendor.as_bytes(), "{vendor}");
        assert_eq!(read_comments.len(), comments.len() + 1, "{vendor}");

        for (read, comment) in read_comments.iter().zip(comments) {
            assert_eq!(read, comment.as_bytes(), "{vendor}");
        }

        // The last comment is the padding, and what it pads with is what teddycloud pads with.
        let padding = read_comments.last().unwrap();
        assert!(padding.starts_with(&PAD_COMMENT), "{vendor}");
        assert!(
            padding[PAD_COMMENT.len()..].iter().all(|&b| b == PAD_FILL),
            "{vendor}"
        );
    }
}

#[test]
fn refuses_tags_that_leave_no_room_for_the_padding_comment() {
    // What is left for a vendor string once the magic, the vendor's own length, the comment
    // count and the shortest possible padding comment — its length and the four bytes of its
    // name — are paid for.
    let longest = OPUS_TAGS_LEN - 8 - 4 - 4 - 4 - PAD_COMMENT.len();
    let vendor = String::from_utf8(vec![b'v'; longest]).unwrap();
    let (read_vendor, comments) = read_tags(&opus_tags(&vendor, &[]).unwrap());

    assert_eq!(longest, 412);
    assert_eq!(read_vendor.len(), longest);
    assert_eq!(comments, [PAD_COMMENT.to_vec()]);

    // One byte more of content, from either end, and the padding comment no longer fits.
    let one_too_many = String::from_utf8(vec![b'v'; longest + 1]).unwrap();
    assert_eq!(
        opus_tags(&one_too_many, &[]),
        Err(BuildError::TagsTooLong),
        "a vendor string one byte too long"
    );
    assert_eq!(
        opus_tags(VENDOR, &[&vendor]),
        Err(BuildError::TagsTooLong),
        "a comment that leaves the padding no room"
    );
}

#[test]
fn takes_the_largest_packet_that_fits_and_no_more() {
    let mut builder = PageBuilder::new(SERIAL, 0);

    // An empty page has spent its 27 header bytes and nothing else.
    assert_eq!(builder.body_capacity_left(), PAGE_LEN - 27);
    assert_eq!(largest_packet(builder.body_capacity_left()), 4053);

    let largest = largest_packet(builder.body_capacity_left());
    assert_eq!(
        builder.clone().push_packet(&vec![0; largest + 1]),
        Err(BuildError::PageFull)
    );

    builder.push_packet(&vec![0; largest]).unwrap();

    // 27 header bytes, sixteen lacing values and 4053 of packet: the page is full to the byte.
    assert_eq!(builder.body_capacity_left(), 0);
    assert_eq!(builder.clone().push_packet(&[]), Err(BuildError::PageFull));
    assert_eq!(builder.finish().len(), PAGE_LEN);
}

#[test]
fn takes_exactly_the_packets_its_capacity_says_it_takes() {
    // A page at every shape: empty, a byte in, a full segment in, and nearly full.
    for filler in [0, 1, 255, 3000] {
        let mut builder = PageBuilder::new(SERIAL, 0);
        builder.push_packet(&vec![0; filler]).unwrap();

        let room = builder.body_capacity_left();
        let largest = largest_packet(room);
        let spent = PAGE_LEN - room;

        assert_eq!(
            builder.clone().push_packet(&vec![0; largest + 1]),
            Err(BuildError::PageFull),
            "{filler} bytes in"
        );

        builder.push_packet(&vec![0; largest]).unwrap();

        assert_eq!(
            builder.body_capacity_left(),
            room - rfc_packet_cost(largest),
            "{filler} bytes in"
        );
        assert_eq!(
            builder.finish().len(),
            spent + rfc_packet_cost(largest),
            "{filler} bytes in"
        );
    }
}

#[test]
fn leaves_the_room_the_format_document_works_out_for_a_page() {
    // FORMAT.md's worked example: a page with 512 bytes already spent on it has 3557 left once
    // its header is paid for, and teddycloud's own sizing puts the largest packet that fits at
    // 3543 — thirteen full segments, a fourteenth lacing value, and no byte left over.
    let mut builder = PageBuilder::new(SERIAL, 2);
    builder.push_packet(&[]).unwrap();
    builder.push_packet(&[0; 509]).unwrap();

    assert_eq!(builder.body_capacity_left(), 3557);
    assert_eq!(largest_packet(3557), 3543);

    builder.push_packet(&[0; 3543]).unwrap();

    assert_eq!(builder.body_capacity_left(), 0);
    assert_eq!(builder.finish().len(), PAGE_LEN);
}

#[test]
fn runs_out_of_lacing_values_before_it_runs_out_of_room() {
    let mut builder = PageBuilder::new(SERIAL, 0);
    for _ in 0..MAX_SEGMENTS {
        builder.push_packet(&[7]).unwrap();
    }

    // Two bytes apiece is nowhere near the 4096 a page holds; what this page has spent is the
    // 255 lacing values its segment count can state.
    assert_eq!(builder.body_capacity_left(), 0);
    assert_eq!(builder.clone().push_packet(&[]), Err(BuildError::PageFull));

    let page = builder.finish();

    assert_eq!(page.len(), 27 + 255 + 255);
    assert_eq!(packet_lens(&page).len(), 255);
}

#[test]
fn counts_the_lacing_value_that_ends_a_packet_against_the_page() {
    let mut builder = PageBuilder::new(SERIAL, 0);
    for _ in 0..MAX_SEGMENTS - 1 {
        builder.push_packet(&[7]).unwrap();
    }

    // One lacing value left over: 254 bytes it can state, 255 it cannot, because that packet
    // needs a second value to say where it ends.
    assert_eq!(builder.body_capacity_left(), 255);
    assert_eq!(
        builder.clone().push_packet(&[0; 255]),
        Err(BuildError::PageFull)
    );

    builder.push_packet(&[0; 254]).unwrap();

    assert_eq!(builder.body_capacity_left(), 0);
}

#[test]
fn refuses_a_packet_no_page_describes_before_it_looks_at_the_room() {
    let mut builder = PageBuilder::new(SERIAL, 0);

    // 65 024 bytes is the most a lacing table describes. It does not fit the 4096 a page
    // occupies either, and the nearly empty page says so; one byte more is a packet no page
    // could ever hold, and that is what it is told, whatever room this page has.
    assert_eq!(
        builder.push_packet(&vec![0; MAX_PACKET_LEN]),
        Err(BuildError::PageFull)
    );
    assert_eq!(
        builder.push_packet(&vec![0; MAX_PACKET_LEN + 1]),
        Err(BuildError::PacketTooLarge)
    );
    assert_eq!(MAX_PACKET_LEN, 65_024);

    // Nothing was taken on the way.
    assert_eq!(builder.body_capacity_left(), PAGE_LEN - 27);
}

#[test]
fn laces_a_packet_that_fills_a_segment_with_the_value_that_ends_it() {
    let page = page(0, 0, false, &[&[0xa5; 255]]);

    // The segment count and the two lacing values behind it: 255 says the segment carries on,
    // and the zero behind it says the packet ends there.
    assert_eq!(&page[26..29], &[2, 255, 0]);
    assert_eq!(packet_lens(&page), [255]);
}

#[test]
fn takes_a_packet_of_no_bytes_at_all() {
    let page = page(0, 0, false, &[&[], &[1]]);
    let view = PageView::parse(&page).unwrap();

    assert_eq!(packet_lens(&page), [0, 1]);
    assert_eq!(page.len(), 27 + 2 + 1);

    // A page states no granule position until it is told one.
    assert_eq!(view.granule_position(), 0);
}

#[test]
fn states_the_ends_of_the_stream_it_is_told_to() {
    for (first, last) in [(false, false), (true, false), (false, true), (true, true)] {
        let mut builder = PageBuilder::new(SERIAL, 0);
        builder.flags(first, last);
        builder.push_packet(&[0]).unwrap();
        let page = builder.finish();
        let view = PageView::parse(&page).unwrap();

        assert_eq!(view.is_first(), first, "first {first}, last {last}");
        assert_eq!(view.is_last(), last, "first {first}, last {last}");
    }

    // Stating the flags again states both of them again rather than adding to what was said.
    let mut builder = PageBuilder::new(SERIAL, 0);
    builder.flags(true, true);
    builder.flags(false, false);
    builder.push_packet(&[0]).unwrap();
    let page = builder.finish();
    let view = PageView::parse(&page).unwrap();

    assert!(!view.is_first());
    assert!(!view.is_last());
}

#[test]
fn states_a_checksum_over_the_bytes_of_the_whole_page() {
    let page = page(3, 2880, false, &[&[0xa5; 400]]);

    // Every part of the page is summed: the granule position, the serial, the sequence, the
    // checksum the page itself states, the lacing table and the body. A reader that finds one
    // of them changed says so.
    for byte in [6, 14, 18, 22, 27, page.len() - 1] {
        let mut broken = page.clone();
        broken[byte] ^= 0x01;

        assert_eq!(
            PageView::parse(&broken).unwrap_err(),
            PageError::BadCrc,
            "byte {byte}"
        );
    }
}

#[test]
fn build_every_error_says_what_went_wrong() {
    let rendered = [
        BuildError::PageFull,
        BuildError::PacketTooLarge,
        BuildError::TagsTooLong,
    ]
    .map(|error| error.message());

    assert_eq!(
        rendered,
        [
            "an Ogg page has no room left for another packet",
            "a packet is longer than the 65024 bytes an Ogg page's lacing table describes",
            "OpusTags content does not fit a 436-byte packet",
        ]
    );
}

#[test]
fn build_error_is_a_standard_error() {
    let error = BuildError::PageFull;

    assert_eq!(
        error.message(),
        "an Ogg page has no room left for another packet"
    );
}
