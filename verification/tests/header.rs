use taffle::header::varint::decode_u64;
use taffle::header::{
    encode_header, ChapterPages, EncodeHeaderError, HeaderError, HeaderView, BLOCK_LEN, FIELD_AUDIO_ID,
    FIELD_FILL, FIELD_NUM_BYTES, FIELD_SHA1, FIELD_TRACK_PAGE_NUMS, MAX_MESSAGE_LEN, PREFIX_LEN,
    SHA1_LEN, WIRE_FIXED32, WIRE_FIXED64, WIRE_LEN_DELIMITED, WIRE_VARINT,
};
use taffle::id::{AudioId, BlockIndex};

/// Every chapter start there is left.
fn starts(pages: ChapterPages<'_>) -> Vec<u32> {
    let mut pages = pages;
    let mut list = Vec::new();
    while let Some(start) = pages.next() {
        list.push(start.get());
    }
    list
}

/// A header block in the order teddycloud writes one, filled up to the end.
fn header_of(sha1: [u8; SHA1_LEN], num_bytes: u64, audio_id: u64, packed: &[u8]) -> Vec<u8> {
    let mut message = bytes_field(FIELD_SHA1, &sha1);
    message.extend(varint_field(FIELD_NUM_BYTES, num_bytes));
    message.extend(varint_field(FIELD_AUDIO_ID, audio_id));
    message.extend(bytes_field(FIELD_TRACK_PAGE_NUMS, packed));
    let fill = MAX_MESSAGE_LEN - message.len() - 3;
    message.extend(bytes_field(FIELD_FILL, &vec![0; fill]));
    block(&message).to_vec()
}

/// A file of one chapter and 27 blocks, as far as its header and the byte behind it.
fn golden() -> Vec<u8> {
    let mut file = header_of(
        [
            0x1a, 0xc8, 0x22, 0xae, 0x55, 0x0f, 0x04, 0xdc, 0xe1, 0x3e, 0xd2, 0x23, 0xbb, 0xa9, 0x92,
            0x7f, 0xb8, 0x45, 0xa1, 0xf4,
        ],
        110_592,
        444_913_029,
        &[0],
    );
    file.push(0x4f);
    file
}

/// The header of a file of three chapters.
fn real_1() -> Vec<u8> {
    header_of(
        [
            0x6c, 0xdb, 0x1e, 0x91, 0x31, 0x99, 0x93, 0xb8, 0x61, 0xfe, 0x72, 0x1a, 0xb2, 0xaf, 0xab,
            0xb2, 0x5d, 0x68, 0xed, 0x05,
        ],
        339_968,
        444_913_053,
        &[0, 27, 55],
    )
}

/// The header of a file of two chapters.
fn real_2() -> Vec<u8> {
    header_of(
        [
            0x4a, 0xdb, 0x8a, 0x3f, 0x15, 0x6a, 0x71, 0xa0, 0x7f, 0x5f, 0xe8, 0xa6, 0x39, 0x9a, 0xa7,
            0xf1, 0x21, 0xe3, 0x8e, 0xe9,
        ],
        5_443_584,
        444_913_094,
        &[0, 0x97, 0x05],
    )
}

const SHA1: [u8; SHA1_LEN] = [0x11; SHA1_LEN];

fn varint(mut value: u64) -> Vec<u8> {
    let mut out = Vec::new();
    loop {
        let byte = u8::try_from(value & 0x7f).unwrap();
        value >>= 7;
        if value == 0 {
            out.push(byte);
            return out;
        }
        out.push(byte | 0x80);
    }
}

fn key(field: u32, wire: u32) -> Vec<u8> {
    varint(u64::from(field << 3 | wire))
}

fn varint_field(field: u32, value: u64) -> Vec<u8> {
    let mut out = key(field, WIRE_VARINT);
    out.extend(varint(value));
    out
}

fn bytes_field(field: u32, payload: &[u8]) -> Vec<u8> {
    let mut out = key(field, WIRE_LEN_DELIMITED);
    out.extend(varint(u64::try_from(payload.len()).unwrap()));
    out.extend_from_slice(payload);
    out
}

/// The required fields plus a one-chapter list, in the order teddycloud writes them.
fn required_message() -> Vec<u8> {
    message_with_chapters(&[0])
}

/// The required fields around a chapter list given as raw packed bytes.
fn message_with_chapters(packed: &[u8]) -> Vec<u8> {
    let mut message = bytes_field(FIELD_SHA1, &SHA1);
    message.extend(varint_field(FIELD_NUM_BYTES, 110_592));
    message.extend(varint_field(FIELD_AUDIO_ID, 444_913_029));
    message.extend(bytes_field(FIELD_TRACK_PAGE_NUMS, packed));
    message.extend(bytes_field(FIELD_FILL, &[]));
    message
}

/// The required fields with the fill sized so the message is exactly `total` bytes.
fn message_of_len(total: usize) -> Vec<u8> {
    let mut message = bytes_field(FIELD_SHA1, &SHA1);
    message.extend(varint_field(FIELD_NUM_BYTES, 110_592));
    message.extend(varint_field(FIELD_AUDIO_ID, 444_913_029));
    message.extend(bytes_field(FIELD_TRACK_PAGE_NUMS, &[0]));
    // A tag byte plus the two-byte length varint of a fill this long.
    let fill = total - message.len() - 3;
    message.extend(bytes_field(FIELD_FILL, &vec![0; fill]));
    assert_eq!(message.len(), total);
    message
}

fn block(message: &[u8]) -> [u8; BLOCK_LEN] {
    block_with_prefix(u32::try_from(message.len()).unwrap(), message)
}

fn block_with_prefix(prefix: u32, message: &[u8]) -> [u8; BLOCK_LEN] {
    let mut block = [0_u8; BLOCK_LEN];
    block[..PREFIX_LEN].copy_from_slice(&prefix.to_be_bytes());
    block[PREFIX_LEN..PREFIX_LEN + message.len()].copy_from_slice(message);
    block
}

fn chapters(view: &HeaderView<'_>) -> Vec<u32> {
    starts(view.chapter_pages())
}

fn parse_err(block: &[u8]) -> HeaderError {
    HeaderView::parse(block).unwrap_err()
}

#[test]
fn parses_the_golden_fixture_header() {
    let golden = golden();
    let view = HeaderView::parse(&golden[..BLOCK_LEN]).unwrap();

    assert_eq!(
        view.sha1(),
        &[
            0x1a, 0xc8, 0x22, 0xae, 0x55, 0x0f, 0x04, 0xdc, 0xe1, 0x3e, 0xd2, 0x23, 0xbb, 0xa9,
            0x92, 0x7f, 0xb8, 0x45, 0xa1, 0xf4
        ]
    );
    assert_eq!(view.data_length(), 110_592);
    assert_eq!(view.audio_id(), AudioId::new(444_913_029));
    assert_eq!(view.chapter_count(), 1);
    assert_eq!(chapters(&view), [0]);
    assert_eq!(
        view.chapter_pages().next(),
        Some(BlockIndex::new(0)),
        "every TAF starts a chapter at block 0"
    );
}

#[test]
fn parses_the_three_chapter_header() {
    let raw = real_1();
    let view = HeaderView::parse(&raw).unwrap();

    assert_eq!(
        view.sha1(),
        &[
            0x6c, 0xdb, 0x1e, 0x91, 0x31, 0x99, 0x93, 0xb8, 0x61, 0xfe, 0x72, 0x1a, 0xb2, 0xaf,
            0xab, 0xb2, 0x5d, 0x68, 0xed, 0x05
        ]
    );
    assert_eq!(view.data_length(), 339_968);
    assert_eq!(view.audio_id(), AudioId::new(444_913_053));
    assert_eq!(view.chapter_count(), 3);
    assert_eq!(chapters(&view), [0, 27, 55]);
}

#[test]
fn parses_the_two_chapter_header() {
    let raw = real_2();
    let view = HeaderView::parse(&raw).unwrap();

    assert_eq!(
        view.sha1(),
        &[
            0x4a, 0xdb, 0x8a, 0x3f, 0x15, 0x6a, 0x71, 0xa0, 0x7f, 0x5f, 0xe8, 0xa6, 0x39, 0x9a,
            0xa7, 0xf1, 0x21, 0xe3, 0x8e, 0xe9
        ]
    );
    assert_eq!(view.data_length(), 5_443_584);
    assert_eq!(view.audio_id(), AudioId::new(444_913_094));
    assert_eq!(view.chapter_count(), 2);
    assert_eq!(chapters(&view), [0, 663]);
}

#[test]
fn rejects_a_block_that_is_not_exactly_one_block_long() {
    let golden = golden();

    assert_eq!(
        parse_err(&golden[..BLOCK_LEN - 1]),
        HeaderError::WrongBlockLen
    );
    assert_eq!(parse_err(&golden[..=BLOCK_LEN]), HeaderError::WrongBlockLen);
}

#[test]
fn rejects_a_zeroed_block_as_a_missing_hash() {
    // A zeroed block claims a zero-length message, so the first thing missing is field 1.
    assert_eq!(
        parse_err(&[0_u8; BLOCK_LEN]),
        HeaderError::MissingField(FIELD_SHA1)
    );
}

#[test]
fn rejects_a_prefix_that_reaches_past_the_block() {
    let message = required_message();

    assert_eq!(
        parse_err(&block_with_prefix(
            u32::try_from(MAX_MESSAGE_LEN).unwrap() + 1,
            &message
        )),
        HeaderError::PrefixOutOfRange
    );
    assert_eq!(
        parse_err(&block_with_prefix(u32::MAX, &message)),
        HeaderError::PrefixOutOfRange
    );
}

#[test]
fn accepts_a_message_that_fills_the_block_exactly() {
    let raw = block(&message_of_len(MAX_MESSAGE_LEN));
    let view = HeaderView::parse(&raw).unwrap();

    assert_eq!(chapters(&view), [0]);
}

#[test]
fn accepts_the_one_byte_shorter_message_teddycloud_can_emit() {
    // teddycloud's fill sizing lands on 4091 bytes when the fill's own length varint
    // shrinks; the block then ends in one zero byte that is not part of the message.
    let raw = block(&message_of_len(MAX_MESSAGE_LEN - 1));
    let view = HeaderView::parse(&raw).unwrap();

    assert_eq!(chapters(&view), [0]);
}

#[test]
fn ignores_whatever_follows_the_message() {
    let message = required_message();
    let mut raw = block(&message);
    raw[PREFIX_LEN + message.len()..].fill(0xff);

    assert_eq!(HeaderView::parse(&raw).unwrap().data_length(), 110_592);
}

#[test]
fn keeps_reading_the_fields_that_follow_the_fill() {
    // teddycloud writes its own bookkeeping fields 6..=9 *after* the fill field.
    let mut message = message_with_chapters(&[0, 27]);
    message.extend(varint_field(6, 478_080));
    message.extend(varint_field(7, 168));
    message.extend(varint_field(8, 27));
    message.extend(varint_field(9, 29));

    let raw = block(&message);
    let view = HeaderView::parse(&raw).unwrap();

    assert_eq!(chapters(&view), [0, 27]);
}

#[test]
fn skips_unknown_fields_of_every_skippable_wire_type() {
    let mut message = key(100, WIRE_FIXED64);
    message.extend_from_slice(&[0xff; 8]);
    message.extend(bytes_field(101, &[0xff; 3]));
    message.extend(key(102, WIRE_FIXED32));
    message.extend_from_slice(&[0xff; 4]);
    message.extend(varint_field(103, u64::MAX));
    message.extend(required_message());

    let raw = block(&message);
    let view = HeaderView::parse(&raw).unwrap();

    assert_eq!(view.audio_id(), AudioId::new(444_913_029));
}

#[test]
fn rejects_a_wire_type_it_cannot_skip() {
    for wire in [3, 4, 6, 7] {
        let mut message = required_message();
        message.extend(key(100, wire));

        assert_eq!(
            parse_err(&block(&message)),
            HeaderError::UnexpectedWireType(100),
            "wire type {wire}"
        );
    }
}

#[test]
fn rejects_a_fixed_width_field_the_message_ends_inside_of() {
    let mut message = required_message();
    message.extend(key(100, WIRE_FIXED64));
    message.extend_from_slice(&[0xff; 7]);

    assert_eq!(parse_err(&block(&message)), HeaderError::TruncatedField);

    let mut message = required_message();
    message.extend(key(101, WIRE_FIXED32));
    message.extend_from_slice(&[0xff; 3]);

    assert_eq!(parse_err(&block(&message)), HeaderError::TruncatedField);
}

#[test]
fn rejects_a_length_delimited_field_that_reaches_past_the_message() {
    let mut message = required_message();
    message.extend(key(100, WIRE_LEN_DELIMITED));
    message.extend(varint(1));

    assert_eq!(parse_err(&block(&message)), HeaderError::TruncatedField);
}

#[test]
fn rejects_a_message_that_ends_in_the_middle_of_a_field() {
    // One tail per place a field can run out of bytes: a key, a length, a payload of each
    // shape, and the varint of a field this parser only steps over.
    let mut hash = key(FIELD_SHA1, WIRE_LEN_DELIMITED);
    hash.extend(varint(u64::try_from(SHA1_LEN).unwrap()));
    hash.extend_from_slice(&SHA1[..SHA1_LEN - 1]);

    let mut chapter_list = key(FIELD_TRACK_PAGE_NUMS, WIRE_LEN_DELIMITED);
    chapter_list.extend(varint(3));
    chapter_list.extend_from_slice(&[0, 27]);

    let mut fill = key(FIELD_FILL, WIRE_LEN_DELIMITED);
    fill.extend(varint(1));

    let mut fill_length = key(FIELD_FILL, WIRE_LEN_DELIMITED);
    fill_length.push(0x80);

    let mut num_bytes = key(FIELD_NUM_BYTES, WIRE_VARINT);
    num_bytes.push(0x80);

    let mut unknown = key(100, WIRE_VARINT);
    unknown.push(0x80);

    let tails = [
        hash,
        chapter_list,
        fill,
        fill_length,
        num_bytes,
        unknown,
        vec![0x80],
    ];

    for tail in tails {
        let mut message = required_message();
        message.extend_from_slice(&tail);

        assert_eq!(
            parse_err(&block(&message)),
            HeaderError::TruncatedField,
            "tail {tail:02x?}"
        );
    }
}

#[test]
fn rejects_known_fields_carrying_the_wrong_wire_type() {
    let wrong = [
        (FIELD_SHA1, WIRE_VARINT),
        (FIELD_NUM_BYTES, WIRE_LEN_DELIMITED),
        (FIELD_AUDIO_ID, WIRE_LEN_DELIMITED),
        (FIELD_TRACK_PAGE_NUMS, WIRE_VARINT),
        (FIELD_FILL, WIRE_VARINT),
    ];

    for (field, wire) in wrong {
        let mut message = key(field, wire);
        message.extend(varint(0));

        assert_eq!(
            parse_err(&block(&message)),
            HeaderError::UnexpectedWireType(field),
            "field {field}"
        );
    }
}

#[test]
fn rejects_a_field_that_appears_twice() {
    let repeats = [
        (FIELD_SHA1, bytes_field(FIELD_SHA1, &SHA1)),
        (FIELD_NUM_BYTES, varint_field(FIELD_NUM_BYTES, 1)),
        (FIELD_AUDIO_ID, varint_field(FIELD_AUDIO_ID, 1)),
        (
            FIELD_TRACK_PAGE_NUMS,
            bytes_field(FIELD_TRACK_PAGE_NUMS, &[1]),
        ),
        (FIELD_FILL, bytes_field(FIELD_FILL, &[])),
    ];

    for (field, repeat) in repeats {
        let mut message = required_message();
        message.extend(repeat);

        assert_eq!(
            parse_err(&block(&message)),
            HeaderError::DuplicateField(field),
            "field {field}"
        );
    }
}

#[test]
fn rejects_a_hash_that_is_not_twenty_bytes() {
    for len in [SHA1_LEN - 1, SHA1_LEN + 1] {
        let mut message = bytes_field(FIELD_SHA1, &vec![0x11; len]);
        message.extend(varint_field(FIELD_NUM_BYTES, 1));
        message.extend(varint_field(FIELD_AUDIO_ID, 1));
        message.extend(bytes_field(FIELD_FILL, &[]));

        assert_eq!(
            parse_err(&block(&message)),
            HeaderError::TruncatedField,
            "hash of {len} bytes"
        );
    }
}

#[test]
fn reports_each_missing_required_field_by_number() {
    let fields = [
        (FIELD_SHA1, bytes_field(FIELD_SHA1, &SHA1)),
        (FIELD_NUM_BYTES, varint_field(FIELD_NUM_BYTES, 1)),
        (FIELD_AUDIO_ID, varint_field(FIELD_AUDIO_ID, 1)),
        (FIELD_FILL, bytes_field(FIELD_FILL, &[])),
    ];

    for (missing, _) in &fields {
        let mut message = Vec::new();
        for (field, bytes) in &fields {
            if field != missing {
                message.extend_from_slice(bytes);
            }
        }

        assert_eq!(
            parse_err(&block(&message)),
            HeaderError::MissingField(*missing)
        );
    }
}

#[test]
fn reads_a_num_bytes_that_needs_all_of_u32() {
    let mut message = bytes_field(FIELD_SHA1, &SHA1);
    message.extend(varint_field(FIELD_NUM_BYTES, u64::from(u32::MAX)));
    message.extend(varint_field(FIELD_AUDIO_ID, 1));
    message.extend(bytes_field(FIELD_FILL, &[]));

    assert_eq!(
        HeaderView::parse(&block(&message)).unwrap().data_length(),
        u32::MAX
    );
}

#[test]
fn rejects_a_num_bytes_wider_than_u32() {
    // The field is a `uint64` on the wire, so a value this crate cannot hold is a
    // well-formed varint carrying an out-of-range value, not a malformed varint.
    let mut message = bytes_field(FIELD_SHA1, &SHA1);
    message.extend(varint_field(FIELD_NUM_BYTES, u64::from(u32::MAX) + 1));
    message.extend(varint_field(FIELD_AUDIO_ID, 1));
    message.extend(bytes_field(FIELD_FILL, &[]));

    assert_eq!(
        parse_err(&block(&message)),
        HeaderError::FieldOutOfRange(FIELD_NUM_BYTES)
    );
}

#[test]
fn rejects_an_audio_id_wider_than_u32() {
    let mut message = bytes_field(FIELD_SHA1, &SHA1);
    message.extend(varint_field(FIELD_NUM_BYTES, 1));
    message.extend(varint_field(FIELD_AUDIO_ID, u64::from(u32::MAX) + 1));
    message.extend(bytes_field(FIELD_FILL, &[]));

    assert_eq!(parse_err(&block(&message)), HeaderError::VarintOverflow);
}

#[test]
fn treats_an_absent_chapter_list_as_no_chapters() {
    let mut message = bytes_field(FIELD_SHA1, &SHA1);
    message.extend(varint_field(FIELD_NUM_BYTES, 1));
    message.extend(varint_field(FIELD_AUDIO_ID, 1));
    message.extend(bytes_field(FIELD_FILL, &[]));

    let raw = block(&message);
    let view = HeaderView::parse(&raw).unwrap();

    assert_eq!(view.chapter_count(), 0);
    assert_eq!(view.chapter_pages().next(), None);
}

#[test]
fn rejects_a_chapter_list_that_does_not_decode() {
    let truncated = message_with_chapters(&[0x80]);
    assert_eq!(parse_err(&block(&truncated)), HeaderError::TruncatedField);

    let too_wide = message_with_chapters(&[0x80, 0x80, 0x80, 0x80, 0x10]);
    assert_eq!(parse_err(&block(&too_wide)), HeaderError::VarintOverflow);
}

#[test]
fn reads_fields_in_any_order() {
    let mut message = bytes_field(FIELD_FILL, &[0, 0]);
    message.extend(bytes_field(FIELD_TRACK_PAGE_NUMS, &[0, 27]));
    message.extend(varint_field(FIELD_AUDIO_ID, 7));
    message.extend(varint_field(FIELD_NUM_BYTES, 4096));
    message.extend(bytes_field(FIELD_SHA1, &SHA1));

    let raw = block(&message);
    let view = HeaderView::parse(&raw).unwrap();

    assert_eq!(view.sha1(), &SHA1);
    assert_eq!(view.data_length(), 4096);
    assert_eq!(view.audio_id(), AudioId::new(7));
    assert_eq!(chapters(&view), [0, 27]);
}

#[test]
fn chapter_pages_replays_the_same_list_from_a_clone() {
    let raw = real_1();
    let view = HeaderView::parse(&raw).unwrap();
    let pages = view.chapter_pages();
    let replay = pages.clone();

    assert_eq!(starts(pages).len(), view.chapter_count());
    assert_eq!(starts(replay), [0, 27, 55]);
}

#[test]
fn chapter_pages_ends_rather_than_panicking_on_bytes_that_do_not_decode() {
    // Parsing validates the range, so this state is unreachable through `parse`.
    let mut pages = ChapterPages { rest: &[0x80] };

    assert_eq!(pages.next(), None);
}

#[test]
fn every_error_says_what_went_wrong_and_where() {
    let rendered = [
        HeaderError::WrongBlockLen,
        HeaderError::PrefixOutOfRange,
        HeaderError::TruncatedField,
        HeaderError::MissingField(1),
        HeaderError::DuplicateField(2),
        HeaderError::UnexpectedWireType(3),
        HeaderError::VarintOverflow,
        HeaderError::FieldOutOfRange(4),
    ]
    .map(|error| error.message());

    assert_eq!(
        rendered,
        [
            "TAF header block is not 4096 bytes long",
            "TAF header message is longer than 4092 bytes",
            "a TAF header field reaches past the end of the header message",
            "TAF header field 1 is missing",
            "TAF header field 2 appears more than once",
            "TAF header field 3 has an unreadable wire type",
            "a TAF header varint is wider than its field",
            "TAF header field 4 holds an out-of-range value",
        ]
    );
}

#[test]
fn header_error_is_a_standard_error() {
    let error = HeaderError::WrongBlockLen;

    assert_eq!(
        error.message(),
        "TAF header block is not 4096 bytes long"
    );
}

#[test]
fn a_header_states_what_it_was_given_and_fills_its_block() {
    let sha1 = [0x5a; SHA1_LEN];
    let raw = encode_header(&sha1, 5_443_584, AudioId::new(444_913_094), &[0, 27, 663]).unwrap();
    let view = HeaderView::parse(&raw).unwrap();

    assert_eq!(view.sha1(), &sha1);
    assert_eq!(view.data_length(), 5_443_584);
    assert_eq!(view.audio_id(), AudioId::new(444_913_094));
    assert_eq!(chapters_of(&view), [0, 27, 663]);
    assert_eq!(raw[..PREFIX_LEN], [0, 0, 0x0f, 0xfc]);
}

#[test]
fn a_header_with_no_chapters_reads_back_as_one_with_none() {
    let raw = encode_header(&[0; SHA1_LEN], 0, AudioId::new(0), &[]).unwrap();

    assert_eq!(HeaderView::parse(&raw).unwrap().chapter_count(), 0);
}

#[test]
fn a_header_takes_as_many_chapters_as_its_block_holds() {
    let fitting = vec![u32::MAX; 808];
    let raw = encode_header(&[0; SHA1_LEN], 1, AudioId::new(1), &fitting).unwrap();
    assert_eq!(HeaderView::parse(&raw).unwrap().chapter_count(), 808);

    let too_many = vec![u32::MAX; 820];
    let refused = encode_header(&[0; SHA1_LEN], 1, AudioId::new(1), &too_many);
    assert_eq!(refused.err(), Some(EncodeHeaderError::TooManyChapters));
}

fn chapters_of(view: &HeaderView<'_>) -> Vec<u32> {
    starts(view.chapter_pages())
}

#[test]
fn a_key_is_a_varint_like_any_other() {
    assert_eq!(decode_u64(&key(100, WIRE_FIXED32)), Ok((805, 2)));
}
