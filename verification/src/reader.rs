//! Validating a TAF's audio region, one block at a time.
//!
//! The first block holds three Ogg pages, the two that open the Opus stream in its first 512 bytes,
//! and every block behind it holds one page that fills it. A [`Validator`] is handed the blocks in
//! order and holds each of them against the header; at the end it says whether the region as a whole
//! was the one the header describes. A block that is refused changes nothing.

use crate::bytes::begins_with;
use crate::digest::Sha1Update;
use crate::header::{ChapterPages, HeaderView, BLOCK_LEN};
use crate::id::{AudioId, BlockIndex};
use crate::ogg::{PageError, PageView, OPUS_HEAD_MAGIC, OPUS_TAGS_MAGIC};
use crate::text::{around, put_decimal};
use vstd::prelude::*;
use vstd::slice::slice_subrange;
use vstd::string::StringExecFns;

verus! {

/// The bytes the two pages that open the stream take up.
pub const HEADER_PAGES_LEN: usize = 512;

/// The pages the first block holds.
pub const FIRST_BLOCK_PAGES: usize = 3;

/// The pages every block behind it holds.
pub const BLOCK_PAGES: usize = 1;

/// The pages of the first block that open the stream.
pub const HEADER_PAGES: usize = 2;

/// Why an audio region is not the one its header describes.
#[derive(Debug, Clone, Copy, PartialEq, Eq, Structural)]
#[non_exhaustive]
pub enum ValidateError {
    /// There is no Ogg page where one has to be.
    Page(PageError),
    /// What was handed in is no block.
    WrongBlockLen {
        /// The bytes that were handed in.
        len: usize,
    },
    /// A page does not end where it has to.
    Misaligned {
        /// The page, counted from the first of the file.
        page: u32,
    },
    /// A page states a serial number other than the audio id.
    SerialMismatch,
    /// A page states a sequence number other than its own.
    SequenceGap {
        /// The sequence number it would have to state.
        expected: u32,
    },
    /// A page states fewer samples than the page in front of it.
    GranuleRegression {
        /// The page, counted from the first of the file.
        page: u32,
    },
    /// The stream never begins.
    MissingBos,
    /// A page begins a stream that has already begun.
    UnexpectedBos {
        /// The page, counted from the first of the file.
        page: u32,
    },
    /// A page ends the stream, which no page of a TAF does.
    UnexpectedEos {
        /// The page, counted from the first of the file.
        page: u32,
    },
    /// A page carries on a packet, which no page of a TAF does.
    ContinuedPacket {
        /// The page, counted from the first of the file.
        page: u32,
    },
    /// A page that opens the stream does not carry the packet it opens it with.
    MissingOpusHeader {
        /// The page, counted from the first of the file.
        page: u32,
    },
    /// The region is not as long as the header states.
    LengthMismatch {
        /// The bytes the header states.
        header: u32,
        /// The bytes there are.
        actual: u64,
    },
    /// The region does not hash to what the header states.
    Sha1Mismatch,
    /// The header starts a chapter at a block the region does not hold.
    ChapterPageMissing(u32),
}

impl ValidateError {
    /// What the error says.
    pub open spec fn said(self) -> Seq<char> {
        match self {
            ValidateError::Page(error) => error.said(),
            ValidateError::WrongBlockLen { len } => {
                "a TAF's audio region is read one 4096-byte block at a time, and "@
                    + crate::text::decimal(len as nat) + " bytes are not one"@
            },
            ValidateError::Misaligned { page } => "Ogg page "@ + crate::text::decimal(page as nat)
                + " does not end where the TAF block it lies in does"@,
            ValidateError::SerialMismatch => {
                "an Ogg page states a serial number other than the file's audio id"@
            },
            ValidateError::SequenceGap { expected } => {
                "an Ogg page states a sequence number other than "@ + crate::text::decimal(
                    expected as nat,
                ) + ""@
            },
            ValidateError::GranuleRegression { page } => "Ogg page "@ + crate::text::decimal(
                page as nat,
            ) + " states a granule position behind the page before it"@,
            ValidateError::MissingBos => "a TAF's Opus stream never begins"@,
            ValidateError::UnexpectedBos { page } => "Ogg page "@ + crate::text::decimal(
                page as nat,
            ) + " begins a stream that page 0 already began"@,
            ValidateError::UnexpectedEos { page } => "Ogg page "@ + crate::text::decimal(
                page as nat,
            ) + " ends the stream, which no page of a TAF does"@,
            ValidateError::ContinuedPacket { page } => "Ogg page "@ + crate::text::decimal(
                page as nat,
            ) + " carries on a packet from the page before it, which no page of a TAF does"@,
            ValidateError::MissingOpusHeader { page } => "Ogg page "@ + crate::text::decimal(
                page as nat,
            ) + " does not carry the Opus header packet it opens the stream with"@,
            ValidateError::LengthMismatch { header, actual } => "a TAF's audio region is "@
                + crate::text::decimal(actual as nat) + " bytes, and its header states "@
                + crate::text::decimal(header as nat),
            ValidateError::Sha1Mismatch => {
                "a TAF's audio region does not hash to what its header states"@
            },
            ValidateError::ChapterPageMissing(block) => {
                "a TAF's header starts a chapter at block "@ + crate::text::decimal(block as nat)
                    + ", which the file does not hold"@
            },
        }
    }

    /// What went wrong, in words.
    pub fn message(&self) -> (text: String)
        ensures
            text@ == self.said(),
    {
        match *self {
            ValidateError::Page(error) => error.message(),
            ValidateError::WrongBlockLen { len } => around(
                "a TAF's audio region is read one 4096-byte block at a time, and ",
                len as u64,
                " bytes are not one",
            ),
            ValidateError::Misaligned { page } => around(
                "Ogg page ",
                page as u64,
                " does not end where the TAF block it lies in does",
            ),
            ValidateError::SerialMismatch => String::from_str(
                "an Ogg page states a serial number other than the file's audio id",
            ),
            ValidateError::SequenceGap { expected } => around(
                "an Ogg page states a sequence number other than ",
                expected as u64,
                "",
            ),
            ValidateError::GranuleRegression { page } => around(
                "Ogg page ",
                page as u64,
                " states a granule position behind the page before it",
            ),
            ValidateError::MissingBos => String::from_str("a TAF's Opus stream never begins"),
            ValidateError::UnexpectedBos { page } => around(
                "Ogg page ",
                page as u64,
                " begins a stream that page 0 already began",
            ),
            ValidateError::UnexpectedEos { page } => around(
                "Ogg page ",
                page as u64,
                " ends the stream, which no page of a TAF does",
            ),
            ValidateError::ContinuedPacket { page } => around(
                "Ogg page ",
                page as u64,
                " carries on a packet from the page before it, which no page of a TAF does",
            ),
            ValidateError::MissingOpusHeader { page } => around(
                "Ogg page ",
                page as u64,
                " does not carry the Opus header packet it opens the stream with",
            ),
            ValidateError::LengthMismatch { header, actual } => {
                let mut text: String = around(
                    "a TAF's audio region is ",
                    actual,
                    " bytes, and its header states ",
                );
                put_decimal(&mut text, header as u64);
                text
            },
            ValidateError::Sha1Mismatch => String::from_str(
                "a TAF's audio region does not hash to what its header states",
            ),
            ValidateError::ChapterPageMissing(block) => around(
                "a TAF's header starts a chapter at block ",
                block as u64,
                ", which the file does not hold",
            ),
        }
    }
}

/// A chapter that starts with a block.
#[derive(Debug, Clone, Copy, PartialEq, Eq, Structural)]
pub struct ChapterInfo {
    /// The block.
    pub block: BlockIndex,
    /// The granule position the audio in front of it ends at.
    pub granule: u64,
}

/// What an audio region came to.
#[derive(Debug, Clone, Copy, PartialEq, Eq, Structural)]
pub struct Summary {
    /// The Ogg pages there are.
    pub pages: u32,
    /// The granule position the audio ends at.
    pub total_samples: u64,
    /// The bytes of the region.
    pub audio_bytes: u32,
    /// The chapters that start in it.
    pub chapters_seen: u32,
}

/// How far a region has been read.
#[verifier::ext_equal]
pub struct Reading {
    /// The hash the header states.
    pub sha1: Seq<u8>,
    /// The length the header states.
    pub data_length: u32,
    /// The audio id the header states.
    pub audio_id: AudioId,
    /// The chapter starts that have not been met.
    pub chapters: Seq<u32>,
    /// The blocks that were read.
    pub blocks: u32,
    /// The pages in them.
    pub pages: u32,
    /// The granule position they end at.
    pub granule: u64,
    /// The chapter starts that were met.
    pub chapters_seen: u32,
}

/// Before the first block of the region `header` describes.
pub open spec fn before_reading(header: crate::header::Header) -> Reading {
    Reading {
        sha1: header.sha1,
        data_length: header.data_length,
        audio_id: header.audio_id,
        chapters: header.chapters,
        blocks: 0,
        pages: 0,
        granule: 0,
        chapters_seen: 0,
    }
}

/// A count with one more counted, where there is any more to count.
pub open spec fn counted_on(count: u32) -> u32 {
    if count == u32::MAX {
        count
    } else {
        (count + 1) as u32
    }
}

/// Whether the first packet of `page` begins with `magic`.
pub open spec fn opens_with(page: crate::ogg::Page, magic: Seq<u8>) -> bool {
    let packets = crate::ogg::page::packets_in(page.lacing, page.body);
    packets.len() > 0 && magic.len() <= packets[0].len() && packets[0].take(magic.len() as int)
        == magic
}

/// What is wrong with `page` as the page `at` of the stream `audio_id`, behind a page that states
/// `granule`.
pub open spec fn page_fault(
    page: crate::ogg::Page,
    audio_id: AudioId,
    at: u32,
    granule: u64,
) -> Option<ValidateError> {
    if page.serial != audio_id.0 {
        Some(ValidateError::SerialMismatch)
    } else if page.sequence != at {
        Some(ValidateError::SequenceGap { expected: at })
    } else if at == 0 && page.flags & crate::ogg::FLAG_FIRST == 0 {
        Some(ValidateError::MissingBos)
    } else if at != 0 && page.flags & crate::ogg::FLAG_FIRST != 0 {
        Some(ValidateError::UnexpectedBos { page: at })
    } else if page.flags & crate::ogg::FLAG_LAST != 0 {
        Some(ValidateError::UnexpectedEos { page: at })
    } else if page.flags & crate::ogg::FLAG_CONTINUED != 0 {
        Some(ValidateError::ContinuedPacket { page: at })
    } else if page.granule < granule {
        Some(ValidateError::GranuleRegression { page: at })
    } else if at == 0 && !opens_with(page, OPUS_HEAD_MAGIC@) {
        Some(ValidateError::MissingOpusHeader { page: at })
    } else if at == 1 && !opens_with(page, OPUS_TAGS_MAGIC@) {
        Some(ValidateError::MissingOpusHeader { page: at })
    } else {
        None
    }
}

/// The bytes `page` occupies.
pub open spec fn page_len(page: crate::ogg::Page) -> nat {
    27 + page.lacing.len() + page.body.len()
}

/// The pages of `block` from the page `index` of its `held` pages on, which begins at `at`: the pages
/// of the file up to its end, and the granule position there. Every page has to end where it has to:
/// the last one with the block, the one in front of the first block's audio at byte 512, and no
/// other one at either.
pub open spec fn pages_walked(
    block: Seq<u8>,
    audio_id: AudioId,
    held: nat,
    index: nat,
    at: nat,
    pages: u32,
    granule: u64,
) -> Result<(u32, u64), ValidateError>
    decreases held - index,
{
    if index >= held {
        Ok((pages, granule))
    } else {
        match crate::ogg::page::read_page(block.skip(at as int)) {
            Err(error) => Err(ValidateError::Page(error)),
            Ok(page) => {
                let end = at + page_len(page);
                if page_fault(page, audio_id, pages, granule) is Some {
                    Err(page_fault(page, audio_id, pages, granule)->0)
                } else if (index + 1 == held) != (end == 4096) || (held == 3 && index + 1 == 2) != (
                end == 512) {
                    Err(ValidateError::Misaligned { page: pages })
                } else {
                    pages_walked(
                        block,
                        audio_id,
                        held,
                        index + 1,
                        end,
                        counted_on(pages),
                        page.granule,
                    )
                }
            },
        }
    }
}

impl Reading {
    /// The chapter that starts with the next block, where one does.
    pub open spec fn starting(self) -> Option<ChapterInfo> {
        if self.chapters.len() > 0 && self.chapters[0] == self.blocks {
            Some(ChapterInfo { block: BlockIndex(self.chapters[0]), granule: self.granule })
        } else {
            None
        }
    }

    /// What reading `block` next comes to.
    pub open spec fn block_read(self, block: Seq<u8>) -> Result<Reading, ValidateError> {
        if block.len() != 4096 {
            Err(ValidateError::WrongBlockLen { len: block.len() as usize })
        } else {
            let held: nat = if self.blocks == 0 {
                3
            } else {
                1
            };
            match pages_walked(block, self.audio_id, held, 0, 0, self.pages, self.granule) {
                Err(error) => Err(error),
                Ok((pages, granule)) => {
                    let starts = self.starting() is Some;
                    Ok(
                        Reading {
                            chapters: if starts {
                                self.chapters.skip(1)
                            } else {
                                self.chapters
                            },
                            blocks: counted_on(self.blocks),
                            pages,
                            granule,
                            chapters_seen: if starts {
                                counted_on(self.chapters_seen)
                            } else {
                                self.chapters_seen
                            },
                            ..self
                        },
                    )
                },
            }
        }
    }

    /// What the region came to, once every block of it has been read and it hashed to `hash`.
    pub open spec fn ended(self, hash: Option<Seq<u8>>) -> Result<Summary, ValidateError> {
        if self.blocks * 4096 != self.data_length {
            Err(
                ValidateError::LengthMismatch {
                    header: self.data_length,
                    actual: (self.blocks * 4096) as u64,
                },
            )
        } else if self.pages == 0 {
            Err(ValidateError::MissingBos)
        } else if self.chapters.len() > 0 {
            Err(ValidateError::ChapterPageMissing(self.chapters[0]))
        } else if hash is Some && hash->0 != self.sha1 {
            Err(ValidateError::Sha1Mismatch)
        } else {
            Ok(
                Summary {
                    pages: self.pages,
                    total_samples: self.granule,
                    audio_bytes: self.data_length,
                    chapters_seen: self.chapters_seen,
                },
            )
        }
    }
}

/// What reading `audio` from the block `at` on comes to: how far the region has been read then and
/// the chapters that start in it, or the block that is refused and why.
pub open spec fn region_read(reading: Reading, audio: Seq<u8>, at: nat) -> Result<
    (Reading, Seq<ChapterInfo>),
    (nat, ValidateError),
>
    decreases audio.len(),
{
    if audio.len() == 0 {
        Ok((reading, Seq::empty()))
    } else {
        let len = if audio.len() < 4096 {
            audio.len() as int
        } else {
            4096
        };
        match reading.block_read(audio.take(len)) {
            Err(error) => Err((at, error)),
            Ok(next) => match region_read(next, audio.skip(len), at + 1) {
                Err(refused) => Err(refused),
                Ok((end, starts)) => Ok(
                    (
                        end,
                        (match reading.starting() {
                            Some(chapter) => seq![chapter],
                            None => Seq::empty(),
                        }) + starts,
                    ),
                ),
            },
        }
    }
}

/// A TAF's audio region being validated.
#[derive(Debug, Clone, Copy)]
pub struct Validator<'h> {
    sha1: [u8; 20],
    data_length: u32,
    audio_id: AudioId,
    chapters: ChapterPages<'h>,
    blocks: u32,
    pages: u32,
    granule: u64,
    chapters_seen: u32,
}

impl<'h> View for Validator<'h> {
    type V = Reading;

    closed spec fn view(&self) -> Reading {
        Reading {
            sha1: self.sha1@,
            data_length: self.data_length,
            audio_id: self.audio_id,
            chapters: self.chapters@,
            blocks: self.blocks,
            pages: self.pages,
            granule: self.granule,
            chapters_seen: self.chapters_seen,
        }
    }
}

impl<'h> Validator<'h> {
    /// A validator of the region `header` describes, in front of its first block.
    pub fn new(header: &'h HeaderView<'h>) -> (validator: Self)
        ensures
            validator@ == before_reading(header@),
    {
        Validator {
            sha1: *header.sha1(),
            data_length: header.data_length(),
            audio_id: header.audio_id(),
            chapters: header.chapter_pages(),
            blocks: 0,
            pages: 0,
            granule: 0,
            chapters_seen: 0,
        }
    }

    /// Takes the next block of the region, feeds it to `digest` where there is one, and says which
    /// chapter starts with it. A block that is refused is fed to nothing and changes nothing.
    pub fn push_block<D: Sha1Update>(
        &mut self,
        block: &[u8],
        digest: Option<&mut D>,
    ) -> (result: Result<Option<ChapterInfo>, ValidateError>)
        ensures
            match result {
                Ok(chapter) => {
                    &&& old(self)@.block_read(block@) == Ok::<Reading, ValidateError>(final(self)@)
                    &&& chapter == old(self)@.starting()
                },
                Err(error) => {
                    &&& old(self)@.block_read(block@) == Err::<Reading, ValidateError>(error)
                    &&& *final(self) == *old(self)
                },
            },
            digest matches Some(digest) ==> final(digest).taken() == (if result is Ok {
                digest.taken() + block@
            } else {
                digest.taken()
            }),
    {
        if block.len() != BLOCK_LEN {
            return Err(ValidateError::WrongBlockLen { len: block.len() });
        }
        let (pages, granule) = match self.walk(block) {
            Err(error) => {
                return Err(error);
            },
            Ok(walked) => walked,
        };
        if let Some(digest) = digest {
            digest.update(block);
        }
        let chapter: Option<ChapterInfo> = self.take_chapter();
        self.blocks = self.blocks.saturating_add(1);
        self.pages = pages;
        self.granule = granule;
        Ok(chapter)
    }

    /// Says what the region came to, with `digest_result` being what it hashed to where that is to be
    /// checked.
    pub fn finish(self, digest_result: Option<[u8; 20]>) -> (result: Result<
        Summary,
        ValidateError,
    >)
        ensures
            result == self@.ended(
                match digest_result {
                    Some(hash) => Some(hash@),
                    None => None,
                },
            ),
    {
        let actual: u64 = self.blocks as u64 * 4096;
        if actual != self.data_length as u64 {
            return Err(ValidateError::LengthMismatch { header: self.data_length, actual });
        }
        if self.pages == 0 {
            return Err(ValidateError::MissingBos);
        }
        let mut chapters: ChapterPages<'h> = self.chapters;
        if let Some(missing) = chapters.next() {
            return Err(ValidateError::ChapterPageMissing(missing.get()));
        }
        if let Some(hash) = digest_result {
            if !same_hash(&hash, &self.sha1) {
                return Err(ValidateError::Sha1Mismatch);
            }
        }
        Ok(
            Summary {
                pages: self.pages,
                total_samples: self.granule,
                audio_bytes: self.data_length,
                chapters_seen: self.chapters_seen,
            },
        )
    }

    /// The pages of the file up to the end of `block`, and the granule position there.
    fn walk(&self, block: &[u8]) -> (result: Result<(u32, u64), ValidateError>)
        requires
            block@.len() == 4096,
        ensures
            result == pages_walked(
                block@,
                self.audio_id,
                if self.blocks == 0 {
                    3
                } else {
                    1
                },
                0,
                0,
                self.pages,
                self.granule,
            ),
    {
        let held: usize = if self.blocks == 0 {
            FIRST_BLOCK_PAGES
        } else {
            BLOCK_PAGES
        };
        let mut at: usize = 0;
        let mut pages: u32 = self.pages;
        let mut granule: u64 = self.granule;
        let mut index: usize = 0;
        while index < held
            invariant
                block@.len() == 4096,
                index <= held <= 3,
                held == (if self.blocks == 0 {
                    3nat
                } else {
                    1nat
                }),
                at <= 4096,
                pages_walked(
                    block@,
                    self.audio_id,
                    held as nat,
                    0,
                    0,
                    self.pages,
                    self.granule,
                ) == pages_walked(
                    block@,
                    self.audio_id,
                    held as nat,
                    index as nat,
                    at as nat,
                    pages,
                    granule,
                ),
            decreases held - index,
        {
            let rest = slice_subrange(block, at, block.len());
            assert(rest@ =~= block@.skip(at as int));
            let view = match PageView::parse(rest) {
                Err(error) => {
                    return Err(ValidateError::Page(error));
                },
                Ok(view) => view,
            };
            if let Some(error) = self.check(&view, pages, granule) {
                return Err(error);
            }
            at += view.total_len();
            let closes_the_block: bool = index + 1 == held;
            let closes_the_header_pages: bool = held == FIRST_BLOCK_PAGES && index + 1
                == HEADER_PAGES;
            if closes_the_block != (at == BLOCK_LEN) || closes_the_header_pages != (at
                == HEADER_PAGES_LEN) {
                return Err(ValidateError::Misaligned { page: pages });
            }
            granule = view.granule_position();
            pages = pages.saturating_add(1);
            index += 1;
        }
        Ok((pages, granule))
    }

    /// What is wrong with `view` as the page `page` of the file, behind one that states `granule`.
    fn check(&self, view: &PageView<'_>, page: u32, granule: u64) -> (fault: Option<ValidateError>)
        ensures
            fault == page_fault(view@, self.audio_id, page, granule),
    {
        if view.serial() != self.audio_id.get() {
            return Some(ValidateError::SerialMismatch);
        }
        if view.sequence() != page {
            return Some(ValidateError::SequenceGap { expected: page });
        }
        if view.is_first() != (page == 0) {
            return if page == 0 {
                Some(ValidateError::MissingBos)
            } else {
                Some(ValidateError::UnexpectedBos { page })
            };
        }
        if view.is_last() {
            return Some(ValidateError::UnexpectedEos { page });
        }
        if view.is_continued() {
            return Some(ValidateError::ContinuedPacket { page });
        }
        if view.granule_position() < granule {
            return Some(ValidateError::GranuleRegression { page });
        }
        let opened: bool = match page {
            0 => first_packet_begins(view, OPUS_HEAD_MAGIC.as_slice()),
            1 => first_packet_begins(view, OPUS_TAGS_MAGIC.as_slice()),
            _ => true,
        };
        if opened {
            None
        } else {
            Some(ValidateError::MissingOpusHeader { page })
        }
    }

    /// Takes the chapter that starts with the next block, where one does.
    fn take_chapter(&mut self) -> (chapter: Option<ChapterInfo>)
        ensures
            chapter == old(self)@.starting(),
            final(self)@ == (if chapter is Some {
                Reading {
                    chapters: old(self)@.chapters.skip(1),
                    chapters_seen: counted_on(old(self)@.chapters_seen),
                    ..old(self)@
                }
            } else {
                old(self)@
            }),
    {
        let mut rest: ChapterPages<'h> = self.chapters;
        if let Some(start) = rest.next() {
            if start.get() == self.blocks {
                self.chapters = rest;
                self.chapters_seen = self.chapters_seen.saturating_add(1);
                return Some(ChapterInfo { block: start, granule: self.granule });
            }
        }
        None
    }
}

/// Whether the first packet of `view` begins with `magic`.
fn first_packet_begins(view: &PageView<'_>, magic: &[u8]) -> (begins: bool)
    ensures
        begins == opens_with(view@, magic@),
{
    let mut packets = view.packets();
    match packets.next() {
        None => false,
        Some(packet) => begins_with(packet, magic),
    }
}

/// Whether two hashes are the same.
fn same_hash(left: &[u8; 20], right: &[u8; 20]) -> (same: bool)
    ensures
        same == (left@ == right@),
{
    let same: bool = begins_with(left.as_slice(), right.as_slice());
    assert(left@.take(20) =~= left@);
    same
}

/// The block `at` of `audio`.
pub open spec fn block_at(audio: Seq<u8>, at: nat) -> Seq<u8> {
    audio.subrange(at as int * 4096, at as int * 4096 + 4096)
}

/// The page that closes the block `at` of `audio`: the one of which it is made up, and the one behind
/// byte 512 of the first.
pub open spec fn closing_page(audio: Seq<u8>, at: nat) -> Result<crate::ogg::Page, crate::ogg::PageError> {
    crate::ogg::page::read_page(
        block_at(audio, at).skip(
            if at == 0 {
                512
            } else {
                0
            },
        ),
    )
}

/// The granule position behind the first `blocks` blocks of `audio`, as the last page of them states it.
pub open spec fn granule_behind(audio: Seq<u8>, blocks: nat) -> u64 {
    if blocks == 0 {
        0
    } else {
        closing_page(audio, (blocks - 1) as nat)->Ok_0.granule
    }
}

/// Whether `page` can stand in a stream: it is of the stream `audio_id`, it is the page `at` of it, it
/// begins the stream where it is the first page and nowhere else, and neither ends the stream nor
/// carries a packet on.
pub open spec fn page_stands(page: crate::ogg::Page, audio_id: AudioId, at: nat) -> bool {
    &&& page.serial == audio_id.0
    &&& page.sequence == at
    &&& (page.flags & 2u8 != 0) == (at == 0)
    &&& page.flags & 4u8 == 0
    &&& page.flags & 1u8 == 0
}

/// Whether the page that closes the block `at` of `audio` can close it.
pub open spec fn block_stands(audio: Seq<u8>, audio_id: AudioId, at: nat) -> bool {
    closing_page(audio, at) matches Ok(page) && {
        &&& page_stands(page, audio_id, at + 2)
        &&& page.granule >= granule_behind(audio, at)
        &&& 27 + page.lacing.len() + page.body.len() == (if at == 0 {
            3584int
        } else {
            4096int
        })
    }
}

/// Whether the first block of `audio` opens a stream: a page that begins with `OpusHead` and one that
/// begins with `OpusTags`, which ends at byte 512, and a page of audio behind them.
pub open spec fn opens_the_stream(audio: Seq<u8>, audio_id: AudioId) -> bool {
    let block = block_at(audio, 0);
    crate::ogg::page::read_page(block) matches Ok(head) && {
        let end = 27 + head.lacing.len() + head.body.len();
        &&& page_stands(head, audio_id, 0)
        &&& opens_with(head, seq![0x4fu8, 0x70, 0x75, 0x73, 0x48, 0x65, 0x61, 0x64])
        &&& crate::ogg::page::read_page(block.skip(end as int)) matches Ok(tags) && {
            &&& page_stands(tags, audio_id, 1)
            &&& opens_with(tags, seq![0x4fu8, 0x70, 0x75, 0x73, 0x54, 0x61, 0x67, 0x73])
            &&& end + 27 + tags.lacing.len() + tags.body.len() == 512
        }
    }
}

/// Whether `audio` is a region `header` describes: whole blocks, of which the first opens the stream and
/// every one is closed by a page that can close it, with a chapter at none that is not there.
pub open spec fn is_region(header: crate::header::Header, audio: Seq<u8>) -> bool {
    &&& audio.len() > 0
    &&& audio.len() % 4096 == 0
    &&& audio.len() == header.data_length
    &&& opens_the_stream(audio, header.audio_id)
    &&& forall|i: nat|
        i < audio.len() / 4096 ==> #[trigger] block_stands(audio, header.audio_id, i)
    &&& forall|i: int|
        0 <= i < header.chapters.len() ==> #[trigger] header.chapters[i] < audio.len() / 4096
    &&& forall|i: int, j: int|
        0 <= i < j < header.chapters.len() ==> header.chapters[i] < header.chapters[j]
}

proof fn lemma_first_block_read(reading: Reading, block: Seq<u8>)
    requires
        reading.blocks == 0,
        reading.pages == 0,
        reading.granule == 0,
        reading.block_read(block) is Ok,
    ensures
        ({
            let next = reading.block_read(block)->Ok_0;
            &&& block.len() == 4096
            &&& opens_the_stream(block, reading.audio_id)
            &&& block_stands(block, reading.audio_id, 0)
            &&& next.blocks == 1
            &&& next.pages == 3
            &&& next.granule == granule_behind(block, 1)
        }),
{
    assert(block_at(block, 0) =~= block);
    let id = reading.audio_id;
    let head = crate::ogg::page::read_page(block.skip(0))->Ok_0;
    assert(block.skip(0) =~= block);
    reveal_with_fuel(pages_walked, 4);
    let end = page_len(head);
    let tags = crate::ogg::page::read_page(block.skip(end as int))->Ok_0;
    assert(end + page_len(tags) == 512);
    let page = crate::ogg::page::read_page(block.skip(512))->Ok_0;
    assert(OPUS_HEAD_MAGIC@ =~= seq![0x4fu8, 0x70, 0x75, 0x73, 0x48, 0x65, 0x61, 0x64]);
    assert(OPUS_TAGS_MAGIC@ =~= seq![0x4fu8, 0x70, 0x75, 0x73, 0x54, 0x61, 0x67, 0x73]);
    assert(page_fault(head, id, 0, 0) is None);
    assert(page_fault(tags, id, 1, head.granule) is None);
    assert(page_fault(page, id, 2, tags.granule) is None);
}

proof fn lemma_next_block_read(reading: Reading, block: Seq<u8>)
    requires
        reading.blocks > 0,
        reading.block_read(block) is Ok,
    ensures
        ({
            let next = reading.block_read(block)->Ok_0;
            let page = crate::ogg::page::read_page(block);
            &&& block.len() == 4096
            &&& page is Ok
            &&& page_stands(page->Ok_0, reading.audio_id, reading.pages as nat) || reading.pages == 0
            &&& page->Ok_0.granule >= reading.granule
            &&& 27 + page->Ok_0.lacing.len() + page->Ok_0.body.len() == 4096
            &&& next.pages == counted_on(reading.pages)
            &&& next.granule == page->Ok_0.granule
        }),
{
    assert(block.skip(0) =~= block);
    reveal_with_fuel(pages_walked, 2);
    let page = crate::ogg::page::read_page(block)->Ok_0;
    assert(page_fault(page, reading.audio_id, reading.pages, reading.granule) is None);
}

proof fn lemma_blocks_counted(reading: Reading, audio: Seq<u8>, at: nat)
    requires
        region_read(reading, audio, at) is Ok,
    ensures
        ({
            let end = (region_read(reading, audio, at)->Ok_0).0;
            let blocks = reading.blocks + audio.len() / 4096;
            &&& audio.len() % 4096 == 0
            &&& end.blocks == (if blocks <= u32::MAX {
                blocks
            } else {
                u32::MAX as int
            })
            &&& end.sha1 == reading.sha1
            &&& end.data_length == reading.data_length
            &&& end.audio_id == reading.audio_id
        }),
    decreases audio.len(),
{
    if audio.len() > 0 {
        let len = if audio.len() < 4096 {
            audio.len() as int
        } else {
            4096
        };
        let next = reading.block_read(audio.take(len))->Ok_0;
        assert(audio.take(len).len() == 4096);
        lemma_blocks_counted(next, audio.skip(4096), at + 1);
    }
}

/// What the first block of `audio` and the blocks behind it come to, each for itself.
proof fn lemma_region_step(reading: Reading, audio: Seq<u8>, at: nat) -> (read: (
    Reading,
    Reading,
    Seq<ChapterInfo>,
))
    requires
        region_read(reading, audio, at) is Ok,
        audio.len() >= 4096,
    ensures
        reading.block_read(audio.take(4096)) == Ok::<_, ValidateError>(read.0),
        region_read(read.0, audio.skip(4096), at + 1) == Ok::<_, (nat, ValidateError)>(
            (read.1, read.2),
        ),
        region_read(reading, audio, at) == Ok::<_, (nat, ValidateError)>(
            (
                read.1,
                (if reading.starting() is Some {
                    seq![reading.starting()->0]
                } else {
                    Seq::empty()
                }) + read.2,
            ),
        ),
        read.0.blocks == counted_on(reading.blocks),
        read.0.audio_id == reading.audio_id,
        read.0.chapters == (if reading.starting() is Some {
            reading.chapters.skip(1)
        } else {
            reading.chapters
        }),
        read.0.chapters_seen == (if reading.starting() is Some {
            counted_on(reading.chapters_seen)
        } else {
            reading.chapters_seen
        }),
{
    let next = reading.block_read(audio.take(4096))->Ok_0;
    let (end, more) = region_read(next, audio.skip(4096), at + 1)->Ok_0;
    (next, end, more)
}

/// What reading on behind the first block comes to, block by block of the region `all`.
#[verifier::rlimit(40)]
proof fn lemma_rest_stands(all: Seq<u8>, reading: Reading, done: nat, at: nat)
    requires
        all.len() % 4096 == 0,
        all.len() <= u32::MAX,
        0 < done <= all.len() / 4096,
        reading.blocks == done,
        reading.pages == done + 2,
        reading.granule == granule_behind(all, done),
        region_read(reading, all.skip(done as int * 4096), at) is Ok,
    ensures
        ({
            let count = all.len() / 4096;
            let end = (region_read(reading, all.skip(done as int * 4096), at)->Ok_0).0;
            &&& end.pages == count + 2
            &&& end.granule == granule_behind(all, count)
            &&& forall|i: nat|
                done <= i < count ==> #[trigger] block_stands(all, reading.audio_id, i)
        }),
    decreases all.len() / 4096 - done,
{
    let count = all.len() / 4096;
    let rest = all.skip(done as int * 4096);
    assert(all.len() == count * 4096);
    if done < count {
        assert(rest.len() >= 4096);
        let (next, end, more) = lemma_region_step(reading, rest, at);
        let block = rest.take(4096);
        assert(block =~= block_at(all, done));
        lemma_next_block_read(reading, block);
        assert(block.skip(0) =~= block);
        assert(block_stands(all, reading.audio_id, done));
        assert(next.granule == granule_behind(all, done + 1));
        assert(rest.skip(4096) =~= all.skip((done + 1) as int * 4096));
        lemma_rest_stands(all, next, done + 1, at + 1);
        assert forall|i: nat| done <= i < count implies #[trigger] block_stands(
            all,
            reading.audio_id,
            i,
        ) by {
            if i > done {
                assert(block_stands(all, next.audio_id, i));
            }
        }
    } else {
        assert(rest.len() == 0);
    }
}

/// Whether `starts` are the first of `chapters`, in order, each at a block of `all` from `done` on and with
/// the granule position in front of it.
#[verifier::opaque]
spec fn starts_stand(all: Seq<u8>, chapters: Seq<u32>, starts: Seq<ChapterInfo>, done: nat) -> bool {
    &&& starts.len() <= chapters.len()
    &&& forall|i: int|
        0 <= i < starts.len() ==> (#[trigger] starts[i]).block.0 == chapters[i] && done <= chapters[i]
            < all.len() / 4096 && starts[i].granule == granule_behind(all, chapters[i] as nat)
    &&& forall|i: int, j: int| 0 <= i < j < starts.len() ==> chapters[i] < chapters[j]
}

proof fn lemma_no_starts_stand(all: Seq<u8>, chapters: Seq<u32>, done: nat)
    ensures
        starts_stand(all, chapters, Seq::empty(), done),
{
    reveal(starts_stand);
}

proof fn lemma_later_starts_stand(
    all: Seq<u8>,
    chapters: Seq<u32>,
    starts: Seq<ChapterInfo>,
    done: nat,
)
    requires
        starts_stand(all, chapters, starts, done + 1),
    ensures
        starts_stand(all, chapters, starts, done),
{
    reveal(starts_stand);
}

/// A chapter in front of the ones that start behind it.
proof fn lemma_one_more_start(
    all: Seq<u8>,
    chapters: Seq<u32>,
    start: ChapterInfo,
    more: Seq<ChapterInfo>,
    done: nat,
)
    requires
        chapters.len() > 0,
        chapters[0] == done,
        done < all.len() / 4096,
        start.block.0 == done,
        start.granule == granule_behind(all, done),
        starts_stand(all, chapters.skip(1), more, done + 1),
    ensures
        starts_stand(all, chapters, seq![start] + more, done),
{
    reveal(starts_stand);
    let left = chapters.skip(1);
    let starts = seq![start] + more;
    assert forall|i: int| 0 <= i < starts.len() implies (#[trigger] starts[i]).block.0 == chapters[i]
        && done <= chapters[i] < all.len() / 4096 && starts[i].granule == granule_behind(
        all,
        chapters[i] as nat,
    ) by {
        if i > 0 {
            assert(starts[i] == more[i - 1]);
            assert(left[i - 1] == chapters[i]);
        }
    }
    assert forall|i: int, j: int| 0 <= i < j < starts.len() implies chapters[i] < chapters[j] by {
        assert(more[j - 1].block.0 == left[j - 1]);
        assert(left[j - 1] == chapters[j]);
        if i > 0 {
            assert(left[i - 1] == chapters[i]);
        }
    }
}

/// The granule position behind the next block is the one the page that closes it states.
proof fn lemma_next_granule(all: Seq<u8>, reading: Reading, done: nat)
    requires
        reading.blocks == done,
        done == 0 ==> reading.pages == 0 && reading.granule == 0,
        block_at(all, done).len() == 4096,
        reading.block_read(block_at(all, done)) is Ok,
    ensures
        reading.block_read(block_at(all, done))->Ok_0.granule == granule_behind(all, done + 1),
{
    let block = block_at(all, done);
    if done == 0 {
        lemma_first_block_read(reading, block);
        assert(block_at(block, 0) =~= block);
    } else {
        lemma_next_block_read(reading, block);
        assert(block.skip(0) =~= block);
    }
}

/// The chapters that start in what is left of the region `all`.
#[verifier::rlimit(40)]
proof fn lemma_rest_starts(all: Seq<u8>, reading: Reading, done: nat, at: nat)
    requires
        all.len() % 4096 == 0,
        all.len() <= u32::MAX,
        done <= all.len() / 4096,
        reading.blocks == done,
        reading.granule == granule_behind(all, done),
        reading.chapters_seen <= done,
        done == 0 ==> reading.pages == 0,
        region_read(reading, all.skip(done as int * 4096), at) is Ok,
    ensures
        ({
            let (end, starts) = region_read(reading, all.skip(done as int * 4096), at)->Ok_0;
            &&& starts_stand(all, reading.chapters, starts, done)
            &&& starts.len() <= reading.chapters.len()
            &&& end.chapters == reading.chapters.skip(starts.len() as int)
            &&& end.chapters_seen == reading.chapters_seen + starts.len()
        }),
    decreases all.len() / 4096 - done,
{
    let count = all.len() / 4096;
    let rest = all.skip(done as int * 4096);
    let (_, starts) = region_read(reading, rest, at)->Ok_0;
    assert(all.len() == count * 4096);
    if done < count {
        assert(rest.len() >= 4096);
        let (next, end, more) = lemma_region_step(reading, rest, at);
        assert(rest.take(4096) =~= block_at(all, done));
        lemma_next_granule(all, reading, done);
        assert(rest.skip(4096) =~= all.skip((done + 1) as int * 4096));
        lemma_rest_starts(all, next, done + 1, at + 1);
        if reading.starting() is Some {
            lemma_one_more_start(all, reading.chapters, reading.starting()->0, more, done);
            assert(end.chapters =~= reading.chapters.skip(starts.len() as int));
        } else {
            assert(starts =~= more);
            lemma_later_starts_stand(all, reading.chapters, more, done);
        }
    } else {
        assert(rest.len() == 0);
        assert(starts =~= Seq::empty());
        assert(reading.chapters.skip(0) =~= reading.chapters);
        lemma_no_starts_stand(all, reading.chapters, done);
    }
}

/// What a region that is accepted is: the region the header describes, which hashes to what it states.
/// The summary counts every page of it and every chapter of the header, and ends where its last page
/// does; every chapter starts where the header says, at the granule position the page in front of it
/// states.
#[verifier::rlimit(30)]
pub proof fn lemma_what_an_accepted_region_is(
    header: crate::header::Header,
    audio: Seq<u8>,
    hash: Seq<u8>,
)
    requires
        region_read(before_reading(header), audio, 0) is Ok,
        (region_read(before_reading(header), audio, 0)->Ok_0).0.ended(Some(hash)) is Ok,
    ensures
        ({
            let (end, starts) = region_read(before_reading(header), audio, 0)->Ok_0;
            let summary = end.ended(Some(hash))->Ok_0;
            let count = audio.len() / 4096;
            &&& is_region(header, audio)
            &&& hash == header.sha1
            &&& summary.pages == count + 2
            &&& summary.total_samples == granule_behind(audio, count)
            &&& summary.audio_bytes == audio.len()
            &&& summary.chapters_seen == header.chapters.len()
            &&& starts.len() == header.chapters.len()
            &&& forall|i: int|
                0 <= i < starts.len() ==> (#[trigger] starts[i]).block.0 == header.chapters[i]
                    && starts[i].granule == granule_behind(audio, header.chapters[i] as nat)
        }),
{
    let reading = before_reading(header);
    let (end, starts) = region_read(reading, audio, 0)->Ok_0;
    let count = audio.len() / 4096;
    lemma_blocks_counted(reading, audio, 0);
    assert(end.blocks * 4096 == header.data_length);
    assert(end.blocks < u32::MAX);
    assert(audio.len() == header.data_length);
    if audio.len() == 0 {
        assert(end.pages == 0);
    } else {
        lemma_audio_stands(header, audio);
        assert(audio.skip(0) =~= audio);
        assert(audio.skip(0int * 4096) =~= audio);
        lemma_rest_starts(audio, reading, 0, 0);
        reveal(starts_stand);
        assert(starts.len() == header.chapters.len());
        assert forall|i: int| 0 <= i < header.chapters.len() implies #[trigger] header.chapters[i]
            < count by {
            assert(starts[i].block.0 == header.chapters[i]);
        }
    }
}

proof fn lemma_audio_stands(header: crate::header::Header, audio: Seq<u8>)
    requires
        region_read(before_reading(header), audio, 0) is Ok,
        audio.len() > 0,
        audio.len() % 4096 == 0,
        audio.len() <= u32::MAX,
    ensures
        ({
            let end = (region_read(before_reading(header), audio, 0)->Ok_0).0;
            let count = audio.len() / 4096;
            &&& opens_the_stream(audio, header.audio_id)
            &&& forall|i: nat| i < count ==> #[trigger] block_stands(audio, header.audio_id, i)
            &&& end.pages == count + 2
            &&& end.granule == granule_behind(audio, count)
        }),
{
    let reading = before_reading(header);
    let block = audio.take(4096);
    let (next, _, _) = lemma_region_step(reading, audio, 0);
    lemma_first_block_read(reading, block);
    assert(block_at(audio, 0) =~= block);
    assert(block_at(block, 0) =~= block);
    assert(audio.skip(4096) =~= audio.skip(1int * 4096));
    lemma_rest_stands(audio, next, 1, 1);
    assert forall|i: nat| i < audio.len() / 4096 implies #[trigger] block_stands(
        audio,
        header.audio_id,
        i,
    ) by {
        if i > 0 {
            assert(block_stands(audio, next.audio_id, i));
        } else {
            assert(block_stands(block, header.audio_id, 0));
        }
    }
}

/// What a page is refused for: a page that can stand where it is and goes back no samples is refused for
/// nothing but the packet a stream opens with, and any other is named for what it is.
pub proof fn lemma_what_a_page_is_refused_for(
    page: crate::ogg::Page,
    audio_id: AudioId,
    at: u32,
    granule: u64,
)
    ensures
        at > 1 && page_stands(page, audio_id, at as nat) && page.granule >= granule <==> at > 1
            && page_fault(page, audio_id, at, granule) is None,
        page_fault(page, audio_id, at, granule) is None ==> page_stands(page, audio_id, at as nat)
            && page.granule >= granule,
        page.serial != audio_id.0 <==> page_fault(page, audio_id, at, granule) == Some(
            ValidateError::SerialMismatch,
        ),
        page.serial == audio_id.0 && page.sequence != at <==> page_fault(
            page,
            audio_id,
            at,
            granule,
        ) == Some(ValidateError::SequenceGap { expected: at }),
        page_fault(page, audio_id, at, granule) == Some(ValidateError::MissingBos) ==> at == 0
            && page.flags & 2u8 == 0,
        page_fault(page, audio_id, at, granule) == Some(ValidateError::UnexpectedBos { page: at })
            ==> at > 0 && page.flags & 2u8 != 0,
        page_fault(page, audio_id, at, granule) == Some(ValidateError::UnexpectedEos { page: at })
            ==> page.flags & 4u8 != 0,
        page_fault(page, audio_id, at, granule) == Some(ValidateError::ContinuedPacket { page: at })
            ==> page.flags & 1u8 != 0,
        page_fault(page, audio_id, at, granule) == Some(
            ValidateError::GranuleRegression { page: at },
        ) ==> page.granule < granule,
        page_fault(page, audio_id, at, granule) == Some(
            ValidateError::MissingOpusHeader { page: at },
        ) ==> at <= 1,
{
}

/// What reads as a page that can stand and goes back no samples is walked past, to the next one.
proof fn lemma_one_page_walked(
    block: Seq<u8>,
    audio_id: AudioId,
    held: nat,
    index: nat,
    at: nat,
    pages: u32,
    granule: u64,
)
    requires
        index < held,
        held == 3 || held == 1,
        at <= block.len(),
        crate::ogg::page::read_page(block.skip(at as int)) matches Ok(page) && {
            let end = at + page_len(page);
            &&& page_fault(page, audio_id, pages, granule) is None
            &&& (end == 4096) == (index + 1 == held)
            &&& (end == 512) == (index == 1)
        },
    ensures
        ({
            let page = crate::ogg::page::read_page(block.skip(at as int))->Ok_0;
            pages_walked(block, audio_id, held, index, at, pages, granule) == pages_walked(
                block,
                audio_id,
                held,
                index + 1,
                at + page_len(page),
                counted_on(pages),
                page.granule,
            )
        }),
{
}

#[verifier::rlimit(60)]
proof fn lemma_first_block_accepted(reading: Reading, block: Seq<u8>)
    requires
        reading.blocks == 0,
        reading.pages == 0,
        reading.granule == 0,
        block.len() == 4096,
        opens_the_stream(block, reading.audio_id),
        first_granules_count(block),
        block_stands(block, reading.audio_id, 0),
    ensures
        reading.block_read(block) is Ok,
{
    let id = reading.audio_id;
    assert(block_at(block, 0) =~= block);
    assert(block.skip(0) =~= block);
    assert(OPUS_HEAD_MAGIC@ =~= seq![0x4fu8, 0x70, 0x75, 0x73, 0x48, 0x65, 0x61, 0x64]);
    assert(OPUS_TAGS_MAGIC@ =~= seq![0x4fu8, 0x70, 0x75, 0x73, 0x54, 0x61, 0x67, 0x73]);
    let head = crate::ogg::page::read_page(block)->Ok_0;
    let end = page_len(head);
    let tags = crate::ogg::page::read_page(block.skip(end as int))->Ok_0;
    let page = crate::ogg::page::read_page(block.skip(512))->Ok_0;
    lemma_what_a_page_is_refused_for(page, id, 2, tags.granule);
    lemma_one_page_walked(block, id, 3, 0, 0, 0, 0);
    lemma_one_page_walked(block, id, 3, 1, end, 1, head.granule);
    lemma_one_page_walked(block, id, 3, 2, 512, 2, tags.granule);
    assert(pages_walked(block, id, 3, 3, 4096, 3, page.granule) is Ok);
}

/// Whether the pages that open the stream and the first page of audio count on from each other.
pub open spec fn first_granules_count(audio: Seq<u8>) -> bool {
    let block = block_at(audio, 0);
    let head = crate::ogg::page::read_page(block)->Ok_0;
    let tags = crate::ogg::page::read_page(
        block.skip((27 + head.lacing.len() + head.body.len()) as int),
    )->Ok_0;
    head.granule <= tags.granule <= closing_page(audio, 0)->Ok_0.granule
}

proof fn lemma_next_block_accepted(reading: Reading, all: Seq<u8>, at: nat)
    requires
        at > 0,
        reading.blocks > 0,
        reading.pages == at + 2,
        reading.granule == granule_behind(all, at),
        block_at(all, at).len() == 4096,
        block_stands(all, reading.audio_id, at),
    ensures
        reading.block_read(block_at(all, at)) is Ok,
{
    let block = block_at(all, at);
    let id = reading.audio_id;
    assert(block.skip(0) =~= block);
    let page = crate::ogg::page::read_page(block)->Ok_0;
    lemma_what_a_page_is_refused_for(page, id, reading.pages, reading.granule);
    lemma_one_page_walked(block, id, 1, 0, 0, reading.pages, reading.granule);
    assert(pages_walked(block, id, 1, 1, 4096, counted_on(reading.pages), page.granule) is Ok);
}

/// What reads on reads the rest of a region of which every block stands.
proof fn lemma_rest_is_accepted(all: Seq<u8>, reading: Reading, done: nat, at: nat)
    requires
        all.len() % 4096 == 0,
        all.len() <= u32::MAX,
        0 < done <= all.len() / 4096,
        reading.blocks == done,
        reading.pages == done + 2,
        reading.granule == granule_behind(all, done),
        forall|i: nat|
            i < all.len() / 4096 ==> #[trigger] block_stands(all, reading.audio_id, i),
    ensures
        region_read(reading, all.skip(done as int * 4096), at) is Ok,
    decreases all.len() / 4096 - done,
{
    let count = all.len() / 4096;
    let rest = all.skip(done as int * 4096);
    assert(all.len() == count * 4096);
    if done < count {
        let block = rest.take(4096);
        assert(block =~= block_at(all, done));
        assert(block_stands(all, reading.audio_id, done));
        lemma_next_block_accepted(reading, all, done);
        lemma_next_block_read(reading, block);
        let next = reading.block_read(block)->Ok_0;
        assert(block.skip(0) =~= block);
        assert(next.granule == granule_behind(all, done + 1));
        assert(rest.skip(4096) =~= all.skip((done + 1) as int * 4096));
        lemma_rest_is_accepted(all, next, done + 1, at + 1);
    } else {
        assert(rest.len() == 0);
    }
}

/// A region is accepted: where `audio` is a region `header` describes, and its first pages count on from
/// each other, every block of it is accepted.
#[verifier::rlimit(30)]
pub proof fn lemma_a_region_is_accepted(header: crate::header::Header, audio: Seq<u8>)
    requires
        is_region(header, audio),
        first_granules_count(audio),
    ensures
        region_read(before_reading(header), audio, 0) is Ok,
{
    let reading = before_reading(header);
    let block = audio.take(4096);
    assert(block_at(audio, 0) =~= block);
    assert(block_at(block, 0) =~= block);
    assert(block_stands(audio, header.audio_id, 0));
    lemma_first_block_accepted(reading, block);
    lemma_first_block_read(reading, block);
    let next = reading.block_read(block)->Ok_0;
    assert(audio.skip(4096) =~= audio.skip(1int * 4096));
    lemma_rest_is_accepted(audio, next, 1, 1);
}

/// The block that is refused is the first one that cannot be read on with: everything in front of it is
/// accepted, and it is refused for what is wrong with it.
#[verifier::rlimit(30)]
pub proof fn lemma_the_first_block_that_is_refused(reading: Reading, audio: Seq<u8>, at: nat)
    requires
        region_read(reading, audio, at) is Err,
    ensures
        ({
            let (block, error) = region_read(reading, audio, at)->Err_0;
            let from = (block - at) * 4096;
            let front = region_read(reading, audio.take(from), at);
            let rest = audio.skip(from);
            &&& at <= block
            &&& from < audio.len()
            &&& front is Ok
            &&& (front->Ok_0).0.block_read(
                if rest.len() < 4096 {
                    rest
                } else {
                    rest.take(4096)
                },
            ) == Err::<Reading, ValidateError>(error)
        }),
    decreases audio.len(),
{
    let (block, error) = region_read(reading, audio, at)->Err_0;
    let len = if audio.len() < 4096 {
        audio.len() as int
    } else {
        4096
    };
    assert(audio.skip(0) =~= audio);
    assert(audio.take(audio.len() as int) =~= audio);
    if let Ok(next) = reading.block_read(audio.take(len)) {
        let more = audio.skip(len);
        assert(len == 4096);
        lemma_the_first_block_that_is_refused(next, more, at + 1);
        let from = (block - at) * 4096;
        assert(from == (block - (at + 1)) * 4096 + 4096);
        assert(audio.skip(from) =~= more.skip(from - 4096));
        let front = audio.take(from);
        assert(front.take(4096) =~= audio.take(4096));
        assert(front.skip(4096) =~= more.take(from - 4096));
    } else {
        assert(audio.take(0).len() == 0);
    }
}

/// What is said of a region that was read to its end, in the order it is looked at: one that is not as
/// long as the header states, one of no pages, one in which a chapter of the header never starts, and one
/// that hashes to something else.
pub proof fn lemma_what_a_region_is_refused_for(end: Reading, hash: Seq<u8>)
    ensures
        ({
            let verdict = end.ended(Some(hash));
            &&& end.blocks * 4096 != end.data_length <==> verdict == Err::<Summary, ValidateError>(
                ValidateError::LengthMismatch {
                    header: end.data_length,
                    actual: (end.blocks * 4096) as u64,
                },
            )
            &&& end.blocks * 4096 == end.data_length && end.pages == 0 <==> verdict == Err::<
                Summary,
                ValidateError,
            >(ValidateError::MissingBos)
            &&& end.blocks * 4096 == end.data_length && end.pages > 0 && end.chapters.len() > 0 <==> (
            verdict matches Err(ValidateError::ChapterPageMissing(_block)))
            &&& verdict matches Err(ValidateError::ChapterPageMissing(block)) ==> block
                == end.chapters[0]
            &&& end.blocks * 4096 == end.data_length && end.pages > 0 && end.chapters.len() == 0 && hash
                != end.sha1 <==> verdict == Err::<Summary, ValidateError>(
                ValidateError::Sha1Mismatch,
            )
            &&& end.ended(None) is Ok <==> end.blocks * 4096 == end.data_length && end.pages > 0
                && end.chapters.len() == 0
        }),
{
}

/// Chapters that start in order, at blocks that are still to come, are all met.
#[verifier::rlimit(30)]
proof fn lemma_every_chapter_is_met(all: Seq<u8>, reading: Reading, done: nat, at: nat)
    requires
        all.len() % 4096 == 0,
        all.len() <= u32::MAX,
        done <= all.len() / 4096,
        reading.blocks == done,
        region_read(reading, all.skip(done as int * 4096), at) is Ok,
        forall|i: int|
            0 <= i < reading.chapters.len() ==> done <= #[trigger] reading.chapters[i] < all.len()
                / 4096,
        forall|i: int, j: int|
            0 <= i < j < reading.chapters.len() ==> reading.chapters[i] < reading.chapters[j],
    ensures
        (region_read(reading, all.skip(done as int * 4096), at)->Ok_0).0.chapters.len() == 0,
    decreases all.len() / 4096 - done,
{
    let count = all.len() / 4096;
    let rest = all.skip(done as int * 4096);
    assert(all.len() == count * 4096);
    if done < count {
        assert(rest.len() >= 4096);
        let (next, end, more) = lemma_region_step(reading, rest, at);
        assert(rest.skip(4096) =~= all.skip((done + 1) as int * 4096));
        assert forall|i: int| 0 <= i < next.chapters.len() implies done + 1
            <= #[trigger] next.chapters[i] < count by {
            if reading.starting() is Some {
                assert(next.chapters[i] == reading.chapters[i + 1]);
                assert(reading.chapters[0] < reading.chapters[i + 1]);
            } else {
                assert(next.chapters[i] == reading.chapters[i]);
                assert(reading.chapters[0] != done);
                if i > 0 {
                    assert(reading.chapters[0] < reading.chapters[i]);
                }
            }
        }
        assert forall|i: int, j: int| 0 <= i < j < next.chapters.len() implies next.chapters[i]
            < next.chapters[j] by {
            if reading.starting() is Some {
                assert(next.chapters[i] == reading.chapters[i + 1]);
                assert(next.chapters[j] == reading.chapters[j + 1]);
            }
        }
        lemma_every_chapter_is_met(all, next, done + 1, at + 1);
    } else {
        assert(rest.len() == 0);
        if reading.chapters.len() > 0 {
            assert(reading.chapters[0] < count);
        }
    }
}

/// A region is accepted as a whole: where `audio` is a region `header` describes, its first pages count on
/// from each other and it hashes to what the header states, nothing is wrong with it.
#[verifier::rlimit(30)]
pub proof fn lemma_a_region_is_accepted_as_a_whole(header: crate::header::Header, audio: Seq<u8>)
    requires
        is_region(header, audio),
        first_granules_count(audio),
    ensures
        region_read(before_reading(header), audio, 0) is Ok,
        (region_read(before_reading(header), audio, 0)->Ok_0).0.ended(Some(header.sha1)) is Ok,
{
    let reading = before_reading(header);
    lemma_a_region_is_accepted(header, audio);
    let end = (region_read(reading, audio, 0)->Ok_0).0;
    lemma_blocks_counted(reading, audio, 0);
    lemma_audio_stands(header, audio);
    assert(audio.skip(0int * 4096) =~= audio);
    lemma_every_chapter_is_met(audio, reading, 0, 0);
}

/// An error about a page names it, counted from the first of the file, and one about a length names both.
pub proof fn lemma_an_error_names_what_it_is_about(page: u32, len: usize, header: u32, actual: u64)
    ensures
        ({
            let named = "Ogg page "@ + crate::text::decimal(page as nat);
            &&& named.is_prefix_of((ValidateError::Misaligned { page }).said())
            &&& named.is_prefix_of((ValidateError::GranuleRegression { page }).said())
            &&& named.is_prefix_of((ValidateError::UnexpectedBos { page }).said())
            &&& named.is_prefix_of((ValidateError::UnexpectedEos { page }).said())
            &&& named.is_prefix_of((ValidateError::ContinuedPacket { page }).said())
            &&& named.is_prefix_of((ValidateError::MissingOpusHeader { page }).said())
        }),
        (ValidateError::WrongBlockLen { len }).said()
            == "a TAF's audio region is read one 4096-byte block at a time, and "@
            + crate::text::decimal(len as nat) + " bytes are not one"@,
        (ValidateError::LengthMismatch { header, actual }).said() == "a TAF's audio region is "@
            + crate::text::decimal(actual as nat) + " bytes, and its header states "@
            + crate::text::decimal(header as nat),
        ValidateError::ChapterPageMissing(header).said() == "a TAF's header starts a chapter at block "@
            + crate::text::decimal(header as nat) + ", which the file does not hold"@,
        crate::text::decimal(page as nat).is_suffix_of(
            ("an Ogg page states a sequence number other than "@ + crate::text::decimal(page as nat)),
        ),
        (ValidateError::SequenceGap { expected: page }).said()
            == "an Ogg page states a sequence number other than "@ + crate::text::decimal(page as nat),
{
    reveal_strlit("");
    let number = crate::text::decimal(page as nat);
    let named = "Ogg page "@ + number;
    let gap = "an Ogg page states a sequence number other than "@ + number;
    assert(gap + ""@ =~= gap);
    assert(gap.skip(gap.len() - number.len()) =~= number);
    assert((ValidateError::Misaligned { page }).said().take(named.len() as int) =~= named);
    assert((ValidateError::GranuleRegression { page }).said().take(named.len() as int) =~= named);
    assert((ValidateError::UnexpectedBos { page }).said().take(named.len() as int) =~= named);
    assert((ValidateError::UnexpectedEos { page }).said().take(named.len() as int) =~= named);
    assert((ValidateError::ContinuedPacket { page }).said().take(named.len() as int) =~= named);
    assert((ValidateError::MissingOpusHeader { page }).said().take(named.len() as int) =~= named);
}

} // verus!
