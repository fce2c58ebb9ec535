use taffle::digest::{Digest, Sha1, Sha1Update};

/// A SHA-1 of the caller's own.
struct RustCrypto(sha1::Sha1);

impl Sha1 for RustCrypto {
    fn update(&mut self, data: &[u8]) {
        sha1::Digest::update(&mut self.0, data);
    }
    fn finalize(self) -> [u8; 20] {
        sha1::Digest::finalize(self.0).into()
    }
}

/// The RFC 3174 vector for `b"abc"`.
const ABC: [u8; 20] = [
    0xa9, 0x99, 0x3e, 0x36, 0x47, 0x06, 0x81, 0x6a, 0xba, 0x3e, 0x25, 0x71, 0x78, 0x50, 0xc2, 0x6c,
    0x9c, 0xd0, 0xd8, 0x9d,
];

#[test]
fn every_digest_takes_bytes_through_a_reference_that_hides_which_one_it_is() {
    let mut digest = RustCrypto(<sha1::Sha1 as sha1::Digest>::new());

    {
        let taking: &mut dyn Sha1Update = &mut digest;
        taking.update(b"a");
        taking.update(b"bc");
    }

    assert_eq!(digest.finalize(), ABC);
}

#[test]
fn digest_trait_contract_matches_rfc3174_vector() {
    let mut d = RustCrypto(<sha1::Sha1 as sha1::Digest>::new());
    Sha1::update(&mut d, b"abc");
    assert_eq!(d.finalize(), ABC);
}

#[test]
fn the_digest_of_this_crate_hashes_what_it_is_fed_in_pieces() {
    let mut digest = Digest::new();
    Sha1::update(&mut digest, b"a");
    Sha1::update(&mut digest, b"");
    Sha1::update(&mut digest, b"bc");

    assert_eq!(digest.finalize(), ABC);
}

#[test]
fn the_digest_of_this_crate_hashes_nothing_to_what_nothing_hashes_to() {
    assert_eq!(
        Digest::new().finalize(),
        [
            0xda, 0x39, 0xa3, 0xee, 0x5e, 0x6b, 0x4b, 0x0d, 0x32, 0x55, 0xbf, 0xef, 0x95, 0x60,
            0x18, 0x90, 0xaf, 0xd8, 0x07, 0x09
        ]
    );
}
