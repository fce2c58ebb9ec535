//! The hash a TAF states of its audio region, and what a hash has to be able to do.
//!
//! What reads and writes a TAF feeds the audio past a digest as it goes; which implementation that
//! is is up to whoever uses this. [`Digest`] is one for a host.

use sha1::Digest as _;
use sha1::Sha1 as Hasher;
use vstd::prelude::*;

verus! {

/// A SHA-1 being taken. What it has been fed and what bytes hash to are the implementation's to say.
pub trait Sha1: Sized {
    /// Everything that has been fed so far.
    closed spec fn fed(&self) -> Seq<u8> {
        vstd::pervasive::arbitrary()
    }

    /// What bytes hash to.
    closed spec fn hash(fed: Seq<u8>) -> Seq<u8> {
        vstd::pervasive::arbitrary()
    }

    /// Feeds `data` behind everything that was fed before it.
    fn update(&mut self, data: &[u8])
        ensures
            final(self).fed() == old(self).fed() + data@,
    ;

    /// What everything that was fed hashes to.
    fn finalize(self) -> (hash: [u8; 20])
        ensures
            hash@ == Self::hash(self.fed()),
    ;
}

/// The half of a SHA-1 that is fed, which is all a reader needs of one. What it has taken in is the
/// implementation's to say.
pub trait Sha1Update {
    /// Everything that has been taken in so far.
    closed spec fn taken(&self) -> Seq<u8> {
        vstd::pervasive::arbitrary()
    }

    /// Takes `data` in behind everything that was taken in before it.
    fn update(&mut self, data: &[u8])
        ensures
            final(self).taken() == old(self).taken() + data@,
    ;
}

impl<T: Sha1> Sha1Update for T {
    open spec fn taken(&self) -> Seq<u8> {
        self.fed()
    }

    fn update(&mut self, data: &[u8]) {
        Sha1::update(self, data);
    }
}

/// The hasher of the `sha1` crate, a SHA-1 in progress.
#[verifier::external_type_specification]
#[verifier::external_body]
pub struct ExHasher(Hasher);

/// What `data` hashes to by SHA-1, as the `sha1` crate computes it.
pub uninterp spec fn sha1_of(data: Seq<u8>) -> Seq<u8>;

/// Everything the `sha1` crate's hasher has been fed since it was made.
pub uninterp spec fn hashed_so_far(hasher: Hasher) -> Seq<u8>;

/// `sha1::Digest::new`: a hasher nothing has been fed to.
#[verifier::external_body]
fn hasher_new() -> (hasher: Hasher)
    ensures
        hashed_so_far(hasher) == Seq::<u8>::empty(),
{
    Hasher::new()
}

/// `sha1::Digest::update`: the hasher has been fed `data` behind what it was fed before.
#[verifier::external_body]
fn hasher_update(hasher: &mut Hasher, data: &[u8])
    ensures
        hashed_so_far(*final(hasher)) == hashed_so_far(*old(hasher)) + data@,
{
    hasher.update(data);
}

/// `sha1::Digest::finalize`: the hash of everything the hasher was fed, which depends on nothing
/// else.
#[verifier::external_body]
fn hasher_finalize(hasher: Hasher) -> (hash: [u8; 20])
    ensures
        hash@ == sha1_of(hashed_so_far(hasher)),
{
    hasher.finalize().into()
}

/// A SHA-1 taken by the `sha1` crate.
pub struct Digest {
    hasher: Hasher,
}

impl Digest {
    /// A digest with nothing in it yet.
    pub fn new() -> (digest: Self)
        ensures
            digest.fed() == Seq::<u8>::empty(),
    {
        Digest { hasher: hasher_new() }
    }
}

impl Sha1 for Digest {
    closed spec fn fed(&self) -> Seq<u8> {
        hashed_so_far(self.hasher)
    }

    open spec fn hash(fed: Seq<u8>) -> Seq<u8> {
        sha1_of(fed)
    }

    fn update(&mut self, data: &[u8]) {
        hasher_update(&mut self.hasher, data);
    }

    fn finalize(self) -> (hash: [u8; 20]) {
        hasher_finalize(self.hasher)
    }
}

} // verus!
