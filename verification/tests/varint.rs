use taffle::header::varint::{decode_u32, decode_u64, encode_u32, MAX_U32_LEN};
use taffle::header::HeaderError;

#[test]
fn decodes_a_two_byte_varint() {
    assert_eq!(decode_u32(&[0x96, 0x01]), Ok((150, 2)));
}

#[test]
fn decodes_a_single_byte_varint_and_leaves_the_rest() {
    assert_eq!(decode_u64(&[0x00, 0xff]), Ok((0, 1)));
    assert_eq!(decode_u64(&[0x7f, 0xff]), Ok((127, 1)));
}

#[test]
fn decodes_the_widest_u64() {
    let widest = [0xff, 0xff, 0xff, 0xff, 0xff, 0xff, 0xff, 0xff, 0xff, 0x01];

    assert_eq!(decode_u64(&widest), Ok((u64::MAX, 10)));
}

#[test]
fn decodes_the_widest_u32() {
    assert_eq!(
        decode_u32(&[0xff, 0xff, 0xff, 0xff, 0x0f]),
        Ok((u32::MAX, 5))
    );
}

#[test]
fn rejects_a_six_byte_u32_varint() {
    assert_eq!(
        decode_u32(&[0x80, 0x80, 0x80, 0x80, 0x80, 0x01]),
        Err(HeaderError::VarintOverflow)
    );
}

#[test]
fn rejects_a_varint_carrying_more_than_sixty_four_bits() {
    let too_wide = [0x80, 0x80, 0x80, 0x80, 0x80, 0x80, 0x80, 0x80, 0x80, 0x02];

    assert_eq!(decode_u64(&too_wide), Err(HeaderError::VarintOverflow));
}

#[test]
fn rejects_a_varint_longer_than_ten_bytes() {
    let unterminated = [0x80; 11];

    assert_eq!(decode_u64(&unterminated), Err(HeaderError::VarintOverflow));
}

#[test]
fn rejects_a_varint_that_the_buffer_ends_in_the_middle_of() {
    assert_eq!(decode_u64(&[]), Err(HeaderError::TruncatedField));
    assert_eq!(decode_u64(&[0x80, 0x80]), Err(HeaderError::TruncatedField));
}

#[test]
fn encodes_the_bytes_the_wire_format_states() {
    let cases: [(u32, &[u8]); 7] = [
        (0, &[0x00]),
        (1, &[0x01]),
        (127, &[0x7f]),
        (128, &[0x80, 0x01]),
        (150, &[0x96, 0x01]),
        (16_383, &[0xff, 0x7f]),
        (u32::MAX, &[0xff, 0xff, 0xff, 0xff, 0x0f]),
    ];

    for (value, expected) in cases {
        let mut buf = [0; MAX_U32_LEN];

        assert_eq!(encode_u32(value, &mut buf), expected, "value {value}");
    }
}

#[test]
fn encodes_what_the_decoder_reads_back() {
    // One value per varint width, plus the boundaries between them.
    let values = [
        0,
        1,
        127,
        128,
        16_383,
        16_384,
        2_097_151,
        2_097_152,
        268_435_455,
        268_435_456,
        444_913_029,
        u32::MAX,
    ];

    for value in values {
        let mut buf = [0; MAX_U32_LEN];
        let encoded = encode_u32(value, &mut buf);

        assert_eq!(
            decode_u32(encoded),
            Ok((value, encoded.len())),
            "value {value}"
        );
    }
}

#[test]
fn leaves_the_buffer_behind_the_varint_alone() {
    let mut buf = [0xff; MAX_U32_LEN];

    assert_eq!(encode_u32(150, &mut buf), &[0x96, 0x01]);
    assert_eq!(buf, [0x96, 0x01, 0xff, 0xff, 0xff]);
}
