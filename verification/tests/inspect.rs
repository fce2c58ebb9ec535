use taffle::digest::{Digest, Sha1};
use taffle::duration::Duration;
use taffle::header::{encode_header, HeaderView, BLOCK_LEN, SHA1_LEN};
use taffle::id::AudioId;
use taffle::info_cmd::{hex, why, Reading};
use taffle::inspect::{playtime, read_through, Bytes, InspectError, Inspection, Source};
use taffle::ogg::PageError;
use taffle::reader::ValidateError;

/// One Ogg page of the golden file, byte by byte.
fn golden_page(sequence: u32, granule: u64, flags: u8, packets: &[Vec<u8>]) -> Vec<u8> {
    let mut lacing = Vec::new();
    for packet in packets {
        lacing.extend(vec![255; packet.len() / 255]);
        lacing.push(u8::try_from(packet.len() % 255).unwrap());
    }

    let mut page = b"OggS\0".to_vec();
    page.push(flags);
    page.extend_from_slice(&granule.to_le_bytes());
    page.extend_from_slice(&444_913_029_u32.to_le_bytes());
    page.extend_from_slice(&sequence.to_le_bytes());
    page.extend_from_slice(&[0; 4]);
    page.push(u8::try_from(lacing.len()).unwrap());
    page.extend_from_slice(&lacing);
    page.extend_from_slice(&packets.concat());

    let checksum = taffle::ogg::crc::crc32(&page);
    page[22..26].copy_from_slice(&checksum.to_le_bytes());

    page
}

/// A packet of three frames of the lengths given, which states the first two of them.
fn golden_packet(lens: [usize; 3]) -> Vec<u8> {
    let mut packet = vec![0b0000_1111, 0b1000_0011];
    for len in &lens[..2] {
        if *len < 252 {
            packet.push(u8::try_from(*len).unwrap());
        } else {
            packet.push(252 + u8::try_from(*len % 4).unwrap());
            packet.push(u8::try_from((*len - 252 - *len % 4) / 4).unwrap());
        }
    }
    for (at, len) in lens.iter().enumerate() {
        packet.extend(vec![0x51 + u8::try_from(at).unwrap(); *len]);
    }

    packet
}

/// A whole file of 29 pages: a header block, the two pages that open the stream, and 161 packets of
/// 2880 samples each, five of them on the first page of audio and six on every other.
fn golden() -> Vec<u8> {
    let tags = taffle::ogg::opus_tags(
        "teddyCloud",
        &["version=TeddyCloud v0.6.2 (203f12d) - 2024-10-26 18:14:34 +0000 ubuntu linux-x86_64(64)"],
    )
    .unwrap();
    let mut head = b"OpusHead".to_vec();
    head.extend_from_slice(&[1, 2, 0x38, 0x01, 0x80, 0xbb, 0, 0, 0, 0, 0]);

    // Three frames of 148 bytes, framed alike, with one byte stating three bytes of padding.
    let mut closing = vec![0b0000_1111, 0b0100_0011, 3];
    closing.extend(vec![0x61; 444]);
    closing.extend([0; 3]);

    let mut audio = golden_page(0, 0, 2, &[head]);
    audio.extend(golden_page(1, 0, 0, &[tags.to_vec()]));
    audio.extend(golden_page(
        2,
        14_400,
        0,
        &[
            golden_packet([384, 260, 245]),
            golden_packet([200, 210, 302]),
            golden_packet([200, 211, 328]),
            golden_packet([200, 212, 322]),
            closing,
        ],
    ));
    for block in 1..27_u32 {
        let mut packets = vec![golden_packet([150, 160, 361]); 5];
        packets.push(golden_packet([150, 160, 362]));
        audio.extend(golden_page(
            block + 2,
            14_400 + 17_280 * u64::from(block),
            0,
            &packets,
        ));
    }

    let mut digest = taffle::digest::Digest::new();
    taffle::digest::Sha1::update(&mut digest, &audio);
    let mut file = taffle::header::encode_header(
        &taffle::digest::Sha1::finalize(digest),
        110_592,
        taffle::id::AudioId::new(444_913_029),
        &[0],
    )
    .unwrap()
    .to_vec();
    file.extend(audio);

    file
}

/// What a file that stopped being readable says when it is read from.
const GONE: &str = "the disk went away";

/// A file that reads as far as what it was given goes, and fails from there on.
///
/// Which is the difference a reader has to keep: a read that fails is not a file that ended,
/// and half a book taken for a whole one is the one answer an inspection must never give.
struct Failing(Vec<u8>);

impl Source for Failing {
    fn read_block(&mut self, block: &mut Vec<u8>) -> Result<usize, String> {
        if self.0.len() < BLOCK_LEN {
            return Err(GONE.to_owned());
        }
        block.clear();
        block.extend(self.0.drain(..BLOCK_LEN));

        Ok(BLOCK_LEN)
    }
}

/// A header block stating an audio region of one block, which is what a file that reads past
/// its header has to have behind it.
fn header_block() -> Vec<u8> {
    encode_header(&[0; SHA1_LEN], 4096, AudioId::new(1), &[0])
        .expect("a header block")
        .to_vec()
}

/// What `file` was found to hold.
fn inspect(file: &[u8]) -> Result<Inspection, InspectError> {
    read_through(&mut Bytes::new(file))
}

#[test]
fn inspect_a_file_that_cannot_be_read_at_all_says_so_rather_than_that_it_is_no_taf() {
    let why = read_through(&mut Failing(Vec::new()))
        .expect_err("a file that cannot be read is no file to read");

    // The read that failed, carried as it stands: a file nothing could be read out of is not a
    // file that was read and found to be no TAF.
    assert!(
        matches!(&why, InspectError::Header(read) if read.contains(GONE)),
        "{why:?}"
    );
}

#[test]
fn inspect_a_file_that_stops_being_readable_is_said_so_rather_than_taken_for_its_end() {
    // The header block reads, and the audio region behind it does not. A file that ended there
    // would be short of what its header states; this one is a file nobody knows the end of, and
    // saying which is the whole point of telling the two apart.
    let why = read_through(&mut Failing(header_block()))
        .expect_err("a file that cannot be read is no file to read");

    assert!(
        matches!(&why, InspectError::Read(read) if read.contains(GONE)),
        "{why:?}"
    );
    assert_eq!(header_block().len(), BLOCK_LEN);
}

#[test]
fn info_cmd_a_file_that_cannot_be_read_at_all_says_so_rather_than_that_it_is_no_taf() {
    let refused = read_through(&mut Failing(Vec::new()))
        .expect_err("a file that cannot be read is no file to read");

    assert!(why(&refused).contains(GONE), "{}", why(&refused));
    assert_eq!(
        why(&refused),
        "cannot read the header block: the disk went away"
    );
}

#[test]
fn info_cmd_a_file_that_stops_being_readable_is_said_so_rather_than_taken_for_its_end() {
    let refused = read_through(&mut Failing(header_block()))
        .expect_err("a file that cannot be read is no file to read");

    assert!(why(&refused).contains(GONE), "{}", why(&refused));
    assert_eq!(header_block().len(), BLOCK_LEN);
}

#[test]
fn a_granule_position_is_the_audio_in_front_of_it_and_not_the_pre_skip() {
    // The first sample of the audio is granule 312, which is where the file begins playing.
    assert_eq!(playtime(0), Duration::from_secs(0));
    assert_eq!(playtime(312), Duration::from_secs(0));
    assert_eq!(playtime(48_312), Duration::from_secs(1));
    // And what is not a whole second is the nanoseconds of one, kept rather than dropped: 2 880
    // samples is one Opus frame of a TAF, which is 60 ms.
    assert_eq!(playtime(2_880 + 312), Duration::from_millis(60));
    assert_eq!(playtime(48_312 + 1), Duration::new(1, 20_833));
}

#[test]
fn a_taf_reads_back_as_everything_its_header_states() {
    let taf = inspect(&golden()).expect("the fixture is the file its header describes");

    assert_eq!(taf.audio_id.get(), 444_913_029);
    assert_eq!(taf.audio_bytes, 110_592);
    // 161 Opus frames of 60 ms is 9.66 seconds of audio in the file, and what it *plays* is that
    // less the 312-sample pre-skip a player drops in front of it: 9.6535 s, which is where the
    // fractions of a second matter — a reading that dropped them would say the same 0:09 as one
    // that kept them.
    assert_eq!(taf.duration, Duration::new(9, 653_500_000));
    // The one chapter every TAF has, at the block its audio begins in.
    assert_eq!(taf.chapters.len(), 1);
    assert_eq!(taf.chapters[0].block.get(), 0);
    assert_eq!(taf.chapters[0].start, Duration::from_secs(0));
}

#[test]
fn a_block_that_does_not_add_up_is_refused_at_the_block_it_lies_in() {
    // A byte of the file's fourth block turned over, where no checksum was fixed up after it. The
    // header block is the first of them, so that is block 2 of the audio region — and which block
    // it was is the whole of what this refusal has to carry.
    let mut bytes = golden();
    bytes[3 * BLOCK_LEN + 100] ^= 0x01;

    let why = inspect(&bytes).expect_err("a page that does not sum to its checksum is no page");

    assert!(matches!(why, InspectError::Block { at: 2, .. }), "{why:?}");
}

#[test]
fn audio_that_does_not_hash_to_what_the_header_states_carries_both_hashes() {
    let whole = golden();
    let header = HeaderView::parse(&whole[..BLOCK_LEN]).expect("a TAF opens with a header block");
    let stated = *header.sha1();

    // The hash the header states, one bit of it turned over: every page of the file still adds up,
    // so the file's own SHA-1 is the one thing that catches it — which is what audio somebody
    // changed and re-summed the pages of comes to.
    let at = whole[..BLOCK_LEN]
        .windows(stated.len())
        .position(|window| window == stated)
        .expect("the header states its hash");
    let mut bytes = whole.clone();
    bytes[at] ^= 0x01;
    let mut asked_for = stated;
    asked_for[0] ^= 0x01;

    let why = inspect(&bytes).expect_err("audio that hashes to something else is not that audio");

    // The audio was left alone, so it still hashes to what the file used to state, and the header
    // now asks for that hash with one bit turned over. Which way round they are is what tells a
    // reader where the damage is.
    assert!(
        matches!(
            why,
            InspectError::Sha1Mismatch { stated, hashed } if stated == asked_for && hashed == *header.sha1()
        ),
        "{why:?}"
    );
}

#[test]
fn a_file_that_is_no_taf_at_all_is_refused_before_anything_is_hashed() {
    let why = inspect(b"TAF").expect_err("three bytes are no TAF");

    assert!(matches!(why, InspectError::Parse(_)), "{why:?}");
}

#[test]
fn a_taf_is_read_back_with_everything_its_header_states() {
    let mut reading = Reading::new();
    let said = reading.file("golden-sine.taf", inspect(&golden()));

    // 9.66 seconds of sine in 27 blocks of audio, and the one chapter every TAF starts at block 0.
    assert_eq!(
        said.answer.join("\n"),
        "golden-sine.taf\n  \
         audio id: 444913029\n  \
         duration: 0:09\n  \
         audio: 110592 bytes\n  \
         chapters: 1\n\
         \x20     #  block  start\n\
         \x20     1      0   0:00\n  \
         valid"
    );
    assert!(said.aside.is_empty());
    assert_eq!(reading.verdict(), Ok(()));
}

#[test]
fn a_taf_whose_audio_does_not_hash_to_what_its_header_states_is_refused() {
    let mut bytes = golden();
    let stated = *HeaderView::parse(&bytes[..BLOCK_LEN]).expect("a header block").sha1();
    let at = bytes[..BLOCK_LEN]
        .windows(stated.len())
        .position(|window| window == stated)
        .expect("the header states its hash");
    bytes[at] ^= 0x01;
    let mut asked_for = stated;
    asked_for[0] ^= 0x01;

    let mut reading = Reading::new();
    let said = reading.file("tampered.taf", inspect(&bytes));

    // Both hashes are said: the one the header asks for and the one the audio came to.
    assert_eq!(
        said.aside,
        [format!(
            "tampered.taf: the audio does not hash to the sha1 its header states: header {}, audio {}",
            hex(&asked_for),
            hex(&stated)
        )]
    );
    assert_eq!(
        reading.verdict(),
        Err("1 file is not the TAF its header describes".to_owned())
    );
    // Nothing is said about a file that is not the one its header describes.
    assert!(said.answer.is_empty());
}

#[test]
fn a_taf_whose_pages_do_not_add_up_is_refused_at_the_block_they_lie_in() {
    let mut bytes = golden();
    bytes[3 * BLOCK_LEN + 100] ^= 0x01;

    let mut reading = Reading::new();
    let said = reading.file("flipped.taf", inspect(&bytes));

    assert_eq!(
        said.aside,
        ["flipped.taf: block 2 of the audio region: an Ogg page's checksum does not match its bytes"]
    );
    assert!(said.answer.is_empty());
}

#[test]
fn a_taf_that_stops_short_is_refused_wherever_it_stops() {
    let whole = golden();

    // Cut in the middle of a block, and cut exactly where one ends: the first leaves a read that is
    // no block at all, the second a file that is simply short of the length its header states.
    let cases = [
        (
            "mid-block.taf",
            whole.len() - 2048,
            "2048 bytes are not one",
        ),
        (
            "whole-blocks.taf",
            whole.len() - BLOCK_LEN,
            "106496 bytes, and its header states 110592",
        ),
    ];

    for (name, len, expected) in cases {
        let mut reading = Reading::new();
        let said = reading.file(name, inspect(&whole[..len]));

        assert!(said.aside[0].starts_with(name), "{:?}", said.aside);
        assert!(said.aside[0].contains(expected), "{:?}", said.aside);
        assert!(said.answer.is_empty());
        assert!(reading.verdict().is_err());
    }
}

#[test]
fn a_file_that_is_no_taf_at_all_is_refused_under_its_own_name() {
    let mut wave = b"RIFF".to_vec();
    wave.resize(16_044, 0);

    let cases = [
        ("book.wav", inspect(&wave)),
        ("stub.taf", inspect(b"TAF")),
        (
            "nowhere.taf",
            Err(InspectError::Open("No such file or directory".to_owned())),
        ),
        (
            "folder",
            Err(InspectError::Header("Is a directory".to_owned())),
        ),
    ];

    for (name, result) in cases {
        let mut reading = Reading::new();
        let said = reading.file(name, result);

        assert!(said.aside[0].starts_with(name), "{:?}", said.aside);
        assert!(said.answer.is_empty());
        assert!(reading.verdict().is_err());
    }
}

#[test]
fn every_file_named_is_read_and_one_that_is_no_taf_does_not_stop_the_rest() {
    let mut reading = Reading::new();
    let broken = reading.file("broken.taf", inspect(&vec![0; 8192]));
    let whole = reading.file("golden-sine.taf", inspect(&golden()));

    assert!(broken.aside[0].starts_with("broken.taf: "));
    assert_eq!(whole.answer[1], "  audio id: 444913029");
    assert_eq!(whole.answer.last().map(String::as_str), Some("  valid"));
    assert_eq!(
        reading.verdict(),
        Err("1 file is not the TAF its header describes".to_owned())
    );
}

#[test]
fn the_files_that_were_not_tafs_are_counted_in_what_the_run_comes_to() {
    let mut reading = Reading::new();
    for at in 0..2 {
        reading.file(&format!("broken{at}.taf"), inspect(&vec![0; 8192]));
    }

    assert_eq!(
        reading.verdict(),
        Err("2 files are not the TAFs their headers describe".to_owned())
    );
}

#[test]
fn a_hash_is_quoted_in_the_digits_it_is_read_in() {
    let mut digest = Digest::new();
    Sha1::update(&mut digest, b"abc");

    assert_eq!(
        hex(&digest.finalize()),
        "a9993e364706816aba3e25717850c26c9cd0d89d"
    );
}

#[test]
fn every_layer_of_what_is_wrong_is_on_one_line() {
    let cases = [
        (InspectError::Open("no such file".to_owned()), "no such file"),
        (InspectError::Read("it went away".to_owned()), "it went away"),
        (
            InspectError::Audio(ValidateError::ChapterPageMissing(27)),
            "a TAF's header starts a chapter at block 27, which the file does not hold",
        ),
        (
            InspectError::Block {
                at: 3,
                source: ValidateError::Page(PageError::BadMagic),
            },
            "block 3 of the audio region: these bytes do not start an Ogg page",
        ),
    ];

    for (error, expected) in cases {
        assert_eq!(why(&error), expected);
    }
}

#[test]
fn a_number_wider_than_its_column_takes_the_room_it_needs() {
    let mut taf = inspect(&golden()).expect("a whole file");
    taf.chapters[0].start = Duration::from_secs(3_730);
    let said = Reading::new().file("a.taf", Ok(taf));

    assert_eq!(said.answer[6], "      1      0  1:02:10");
}
