use taffle::ogg::crc::{build_table, crc32, crc32_from, HIGH_BIT, POLYNOMIAL};

/// The page a TAF's audio region begins with: 27 bytes of header, one lacing value, and the 19-byte
/// `OpusHead` packet.
const FIRST_PAGE: [u8; 47] = [
    0x4f, 0x67, 0x67, 0x53, 0x00, 0x02, 0x00, 0x00, 0x00, 0x00, 0x00, 0x00, 0x00, 0x00, 0x85, 0xd5,
    0x84, 0x1a, 0x00, 0x00, 0x00, 0x00, 0xbd, 0x88, 0x61, 0xe6, 0x01, 0x13, 0x4f, 0x70, 0x75, 0x73,
    0x48, 0x65, 0x61, 0x64, 0x01, 0x02, 0x38, 0x01, 0x80, 0xbb, 0x00, 0x00, 0x00, 0x00, 0x00,
];

/// Where a page states its checksum, and how wide it is.
const CHECKSUM: core::ops::Range<usize> = 22..26;

/// The checksum summed one bit at a time, the way RFC 3533 words it.
fn bitwise(data: &[u8]) -> u32 {
    let mut crc: u32 = 0;

    for &byte in data {
        crc ^= u32::from(byte) << 24;
        for _ in 0..8 {
            crc = if crc & HIGH_BIT == 0 {
                crc << 1
            } else {
                (crc << 1) ^ POLYNOMIAL
            };
        }
    }

    crc
}

#[test]
fn sums_an_empty_slice_to_an_empty_register() {
    assert_eq!(crc32(&[]), 0);
}

#[test]
fn sums_nothing_onto_a_register_that_already_holds_something() {
    assert_eq!(crc32_from(0x1234_5678, &[]), 0x1234_5678);
}

#[test]
fn matches_the_check_value_of_this_crc_variant() {
    // The value the CRC catalogue states for `123456789` under these parameters, which is
    // what tells this variant apart from the reflected CRC-32 everything else uses.
    assert_eq!(crc32(b"123456789"), 0x89a1_897f);
}

#[test]
fn reproduces_the_checksum_the_golden_fixture_states() {
    let mut page: [u8; 47] = FIRST_PAGE;
    let stated = u32::from_le_bytes(page[CHECKSUM].try_into().unwrap());
    page[CHECKSUM].fill(0);

    assert_eq!(stated, 0xe661_88bd, "the checksum the fixture stores");
    assert_eq!(crc32(&page), stated);
}

#[test]
fn sums_what_a_bit_at_a_time_implementation_sums() {
    // Every byte value, fed in at every offset of the register, plus a real page.
    let sweep: Vec<u8> = (0..=u8::MAX).cycle().take(1031).collect();

    for data in [&[][..], b"a", b"123456789", &sweep, &FIRST_PAGE] {
        assert_eq!(crc32(data), bitwise(data), "{} bytes", data.len());
    }
}

#[test]
fn sums_in_pieces_what_it_sums_in_one_go() {
    let page = &FIRST_PAGE;

    for split in [0, 1, 22, 26, page.len()] {
        let (head, tail) = page.split_at(split);

        assert_eq!(
            crc32_from(crc32(head), tail),
            crc32(page),
            "split at {split}"
        );
    }
}

#[test]
fn builds_a_table_of_what_each_byte_sums_to_on_its_own() {
    let table = build_table();

    for (byte, &entry) in table.iter().enumerate() {
        assert_eq!(
            entry,
            bitwise(&[u8::try_from(byte).unwrap()]),
            "byte {byte}"
        );
    }

    // The first two entries spell out the polynomial itself: an empty register stays empty,
    // and a single set bit leaves the polynomial behind.
    assert_eq!(table[0], 0);
    assert_eq!(table[1], POLYNOMIAL);
    assert_eq!(table[255], 0xb1f7_40b4);
}
