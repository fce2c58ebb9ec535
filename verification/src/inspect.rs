//! Reading a TAF back: what a file says about itself, held against what it holds.
//!
//! A file is read through the way a box reads one — the header block, then the audio region one
//! block at a time, hashed on the way — so what comes back has been checked rather than believed.
//! Nothing is held but the block in hand and the chapters found so far, and nothing is sought: a
//! [`Source`] is anything bytes come out of in order.

use crate::digest::{Digest, Sha1};
use crate::duration::Duration;
use crate::header::{HeaderError, HeaderView};
use crate::id::{AudioId, BlockIndex};
use crate::ogg::OPUS_PRE_SKIP;
use crate::reader::{ChapterInfo, ValidateError, Validator};
use crate::text::around;
use vstd::prelude::*;
use vstd::string::StringExecFns;

verus! {

/// The frames of one channel a second of a TAF's audio comes to.
pub const RATE: u64 = 48_000;

/// What bytes come out of in order. What is left of them, and when reading them fails, are the
/// implementation's to say.
pub trait Source {
    /// What has not been read yet.
    closed spec fn rest(&self) -> Seq<u8> {
        vstd::pervasive::arbitrary()
    }

    /// How many more blocks can be read before one cannot, where one cannot.
    closed spec fn fails_after(&self) -> Option<nat> {
        vstd::pervasive::arbitrary()
    }

    /// What it says when it cannot be read.
    closed spec fn trouble(&self) -> Seq<char> {
        vstd::pervasive::arbitrary()
    }

    /// Reads the next block into `block`, in the place of whatever that held, and says how many bytes
    /// there were: a whole block, what was left at the end, or nothing at all where that was a block
    /// boundary. Where it cannot be read, it says why.
    fn read_block(&mut self, block: &mut Vec<u8>) -> (result: Result<usize, String>)
        ensures
            match result {
                Ok(len) => {
                    &&& old(self).fails_after() != Some(0nat)
                    &&& final(block)@ == next_block(old(self).rest())
                    &&& len == final(block)@.len()
                    &&& final(self).rest() == old(self).rest().skip(len as int)
                    &&& final(self).fails_after() == one_less(old(self).fails_after())
                    &&& final(self).trouble() == old(self).trouble()
                },
                Err(why) => old(self).fails_after() == Some(0nat) && why@ == old(self).trouble(),
            },
    ;
}

/// How many more blocks can be read once one has been.
pub open spec fn one_less(fails_after: Option<nat>) -> Option<nat> {
    match fails_after {
        Some(blocks) => Some((blocks - 1) as nat),
        None => None,
    }
}

/// The next block of `rest`, or what is left of it.
pub open spec fn next_block(rest: Seq<u8>) -> Seq<u8> {
    if rest.len() < 4096 {
        rest
    } else {
        rest.take(4096)
    }
}

/// Bytes that are at hand.
pub struct Bytes<'a> {
    rest: &'a [u8],
}

impl<'a> Bytes<'a> {
    /// `bytes`, none of which has been read.
    pub fn new(bytes: &'a [u8]) -> (source: Self)
        ensures
            source.rest() == bytes@,
            source.fails_after() is None,
    {
        Bytes { rest: bytes }
    }
}

impl<'a> Source for Bytes<'a> {
    closed spec fn rest(&self) -> Seq<u8> {
        self.rest@
    }

    open spec fn fails_after(&self) -> Option<nat> {
        None
    }

    open spec fn trouble(&self) -> Seq<char> {
        Seq::empty()
    }

    fn read_block(&mut self, block: &mut Vec<u8>) -> (result: Result<usize, String>) {
        let len: usize = if self.rest.len() < 4096 {
            self.rest.len()
        } else {
            4096
        };
        block.clear();
        crate::bytes::put(block, vstd::slice::slice_subrange(self.rest, 0, len));
        assert(block@ =~= next_block(old(self).rest@));
        self.rest = vstd::slice::slice_subrange(self.rest, len, self.rest.len());
        assert(self.rest@ =~= old(self).rest@.skip(len as int));
        Ok(len)
    }
}

/// What a file holds, once it has been read through and found to be what its header describes.
#[derive(Debug, Clone, PartialEq, Eq)]
pub struct Inspection {
    /// The file's audio id, which is also the serial number of its every Ogg page.
    pub audio_id: AudioId,
    /// How long the file plays.
    pub duration: Duration,
    /// The bytes its audio region occupies, which is everything behind the header block.
    pub audio_bytes: u32,
    /// Where every chapter of it starts, in the order the file holds them.
    pub chapters: Vec<ChapterRead>,
}

/// One chapter of a file that was read back.
#[derive(Debug, Clone, Copy, PartialEq, Eq, Structural)]
pub struct ChapterRead {
    /// The block of the audio region the chapter starts at.
    pub block: BlockIndex,
    /// How far into the audio it starts.
    pub start: Duration,
}

/// Why a file is not the TAF its header describes, or not one at all.
#[derive(Debug)]
#[non_exhaustive]
pub enum InspectError {
    /// The file could not be opened.
    Open(String),
    /// The block the header lies in could not be read.
    Header(String),
    /// That block is no TAF header.
    Parse(HeaderError),
    /// The audio region could not be read to its end, which is not a region that ended.
    Read(String),
    /// A block of the audio region is not the one the header describes.
    Block {
        /// Which block of the audio region it was, counted from the one behind the header.
        at: usize,
        /// What was wrong with it.
        source: ValidateError,
    },
    /// The audio region as a whole is not the one the header describes.
    Audio(ValidateError),
    /// The audio does not hash to the SHA-1 its header states.
    Sha1Mismatch {
        /// The hash the header states.
        stated: [u8; 20],
        /// The hash the audio came to.
        hashed: [u8; 20],
    },
}

impl InspectError {
    /// What the error says itself.
    pub open spec fn said(self) -> Seq<char> {
        match self {
            InspectError::Open(why) => why@,
            InspectError::Header(_) => "cannot read the header block"@,
            InspectError::Parse(error) => error.said(),
            InspectError::Read(why) => why@,
            InspectError::Block { at, .. } => "block "@ + crate::text::decimal(at as nat)
                + " of the audio region"@,
            InspectError::Audio(error) => error.said(),
            InspectError::Sha1Mismatch { .. } => {
                "the audio does not hash to the sha1 its header states"@
            },
        }
    }

    /// What went wrong, in words.
    pub fn message(&self) -> (text: String)
        ensures
            text@ == self.said(),
    {
        match self {
            InspectError::Open(why) => why.clone(),
            InspectError::Header(_) => String::from_str("cannot read the header block"),
            InspectError::Parse(error) => error.message(),
            InspectError::Read(why) => why.clone(),
            InspectError::Block { at, .. } => around(
                "block ",
                *at as u64,
                " of the audio region",
            ),
            InspectError::Audio(error) => error.message(),
            InspectError::Sha1Mismatch { .. } => String::from_str(
                "the audio does not hash to the sha1 its header states",
            ),
        }
    }
}

/// What a file holds.
#[verifier::ext_equal]
pub struct Found {
    /// The audio id.
    pub audio_id: AudioId,
    /// How long it plays.
    pub duration: Duration,
    /// The bytes of its audio region.
    pub audio_bytes: u32,
    /// Where every chapter starts.
    pub chapters: Seq<ChapterRead>,
}

impl View for Inspection {
    type V = Found;

    open spec fn view(&self) -> Found {
        Found {
            audio_id: self.audio_id,
            duration: self.duration,
            audio_bytes: self.audio_bytes,
            chapters: self.chapters@,
        }
    }
}

/// What keeps a file from being the TAF its header describes.
#[verifier::ext_equal]
pub enum Refusal {
    /// The block the header lies in cannot be read.
    Header(Seq<char>),
    /// There is no header.
    Parse(HeaderError),
    /// The audio region cannot be read to its end.
    Read(Seq<char>),
    /// A block is refused.
    Block(nat, ValidateError),
    /// The region as a whole is refused.
    Audio(ValidateError),
    /// The region hashes to something else.
    Sha1Mismatch(Seq<u8>, Seq<u8>),
}

/// Whether `error` is `refusal`. A block is counted as far as a count goes.
pub open spec fn is_refusal(error: InspectError, refusal: Refusal) -> bool {
    match (error, refusal) {
        (InspectError::Header(why), Refusal::Header(trouble)) => why@ == trouble,
        (InspectError::Parse(error), Refusal::Parse(refused)) => error == refused,
        (InspectError::Read(why), Refusal::Read(trouble)) => why@ == trouble,
        (InspectError::Block { at, source }, Refusal::Block(block, refused)) => {
            &&& source == refused
            &&& at == (if block <= usize::MAX {
                block
            } else {
                usize::MAX as nat
            })
        },
        (InspectError::Audio(error), Refusal::Audio(refused)) => error == refused,
        (InspectError::Sha1Mismatch { stated, hashed }, Refusal::Sha1Mismatch(header, audio)) => {
            stated@ == header && hashed@ == audio
        },
        _ => false,
    }
}

/// The samples of audio in front of a granule position, which counts the pre-skip in.
pub open spec fn audible(granule: u64) -> nat {
    if granule < 312 {
        0
    } else {
        (granule - 312) as nat
    }
}

/// How far into a file's audio a granule position is: whole seconds, and the whole nanoseconds of
/// what is left over.
pub open spec fn played(granule: u64) -> Duration {
    Duration {
        secs: (audible(granule) / 48_000) as u64,
        nanos: (audible(granule) % 48_000 * 1_000_000_000 / 48_000) as u32,
    }
}

/// A chapter as it is read back.
pub open spec fn chapter_read(chapter: ChapterInfo) -> ChapterRead {
    ChapterRead { block: chapter.block, start: played(chapter.granule) }
}

/// What the region `audio` comes to behind `header`, where it hashes to `hash`.
pub open spec fn region_found(
    header: crate::header::Header,
    audio: Seq<u8>,
    hash: Seq<u8>,
) -> Result<Found, Refusal> {
    match crate::reader::region_read(crate::reader::before_reading(header), audio, 0) {
        Err((at, error)) => Err(Refusal::Block(at, error)),
        Ok((end, starts)) => match end.ended(Some(hash)) {
            Err(ValidateError::Sha1Mismatch) => Err(Refusal::Sha1Mismatch(header.sha1, hash)),
            Err(error) => Err(Refusal::Audio(error)),
            Ok(summary) => Ok(
                Found {
                    audio_id: header.audio_id,
                    duration: played(summary.total_samples),
                    audio_bytes: summary.audio_bytes,
                    chapters: starts.map_values(|chapter: ChapterInfo| chapter_read(chapter)),
                },
            ),
        },
    }
}

/// What the file `file` holds.
pub open spec fn file_found(file: Seq<u8>) -> Result<Found, Refusal> {
    source_found(file, None, Seq::empty())
}

/// Whether a source of which `fails_after` more blocks can be read fails before the end of `rest` has
/// been met.
pub open spec fn falls_short(rest: Seq<u8>, fails_after: Option<nat>) -> bool {
    fails_after matches Some(blocks) && blocks * 4096 <= rest.len()
}

/// As much of `rest` as is read before the source fails.
pub open spec fn reached(rest: Seq<u8>, fails_after: Option<nat>) -> Seq<u8> {
    if falls_short(rest, fails_after) {
        rest.take(fails_after->0 as int * 4096)
    } else {
        rest
    }
}

/// What a source holds that holds `file`, where reading it fails as stated: a source that stops being
/// readable is not one that ended, and what was wrong in front of that is what is wrong.
pub open spec fn source_found(
    file: Seq<u8>,
    fails_after: Option<nat>,
    trouble: Seq<char>,
) -> Result<Found, Refusal> {
    let first = next_block(file);
    let audio = file.skip(first.len() as int);
    let left = one_less(fails_after);
    if fails_after == Some(0nat) {
        Err(Refusal::Header(trouble))
    } else {
        match crate::header::read_header(first) {
            Err(error) => Err(Refusal::Parse(error)),
            Ok(header) => if falls_short(audio, left) {
                match crate::reader::region_read(
                    crate::reader::before_reading(header),
                    reached(audio, left),
                    0,
                ) {
                    Err((at, error)) => Err(Refusal::Block(at, error)),
                    Ok(_) => Err(Refusal::Read(trouble)),
                }
            } else {
                region_found(header, audio, crate::digest::sha1_of(audio))
            },
        }
    }
}

/// A file of a header block and the region behind it holds what the region comes to behind the header.
pub proof fn lemma_a_file_is_a_header_and_a_region(block: Seq<u8>, audio: Seq<u8>)
    requires
        block.len() == 4096,
        crate::header::read_header(block) is Ok,
    ensures
        file_found(block + audio) == region_found(
            crate::header::read_header(block)->Ok_0,
            audio,
            crate::digest::sha1_of(audio),
        ),
{
    let file = block + audio;
    assert(next_block(file) =~= block);
    assert(file.skip(4096) =~= audio);
}

/// Time passes at 48 kHz: how far into the audio a granule position is, with the pre-skip off it, is the
/// time that many samples take, to the nanosecond that has not gone by yet, and nothing in front of the
/// first of them.
pub proof fn lemma_time_passes_at_the_rate(granule: u64)
    ensures
        ({
            let time = played(granule);
            let nanos = time.secs as int * 1_000_000_000 + time.nanos as int;
            &&& time.nanos < 1_000_000_000
            &&& granule <= 312 ==> nanos == 0
            &&& granule >= 312 ==> nanos * 48_000 <= (granule - 312) * 1_000_000_000 < (nanos + 1)
                * 48_000
        }),
{
    let samples = audible(granule) as int;
    let rest = samples % 48_000;
    assert(samples == samples / 48_000 * 48_000 + rest);
    assert(0 <= rest * 1_000_000_000 / 48_000 < 1_000_000_000);
}

/// A later granule position is never earlier in the audio, and one that is a second of samples later is
/// a second later.
pub proof fn lemma_time_does_not_go_back(earlier: u64, later: u64)
    requires
        earlier <= later,
    ensures
        played(earlier).secs * 1_000_000_000 + played(earlier).nanos <= played(later).secs
            * 1_000_000_000 + played(later).nanos,
        312 <= earlier && later == earlier + 48_000 ==> played(later).secs == played(earlier).secs + 1
            && played(later).nanos == played(earlier).nanos,
{
    lemma_time_passes_at_the_rate(earlier);
    lemma_time_passes_at_the_rate(later);
    if 312 <= earlier && later == earlier + 48_000 {
        assert(audible(later) == audible(earlier) + 48_000);
    }
}

/// How far into a file's audio a granule position is, at 48 kHz and with the pre-skip off it.
pub fn playtime(granule: u64) -> (time: Duration)
    ensures
        time == played(granule),
        time.is_normal(),
        granule < 312 ==> time.secs == 0 && time.nanos == 0,
        granule >= 312 ==> (time.secs * 1_000_000_000 + time.nanos) * 48_000 <= (granule - 312)
            * 1_000_000_000 < (time.secs * 1_000_000_000 + time.nanos + 1) * 48_000,
{
    proof {
        lemma_time_passes_at_the_rate(granule);
    }
    let samples: u64 = granule.saturating_sub(OPUS_PRE_SKIP as u64);
    let rest: u64 = (samples % RATE) * 1_000_000_000 / RATE;
    Duration::new(samples / RATE, rest as u32)
}

/// What an audio region that is refused as a whole comes back as: the hash is stated beside the one
/// the header asks for.
pub fn refused(error: ValidateError, stated: &[u8; 20], hashed: [u8; 20]) -> (refusal: InspectError)
    ensures
        is_refusal(
            refusal,
            if error == ValidateError::Sha1Mismatch {
                Refusal::Sha1Mismatch(stated@, hashed@)
            } else {
                Refusal::Audio(error)
            },
        ),
{
    match error {
        ValidateError::Sha1Mismatch => InspectError::Sha1Mismatch { stated: *stated, hashed },
        other => InspectError::Audio(other),
    }
}

/// Reads a TAF out of `source` block by block, hashing it as it goes.
///
/// A source that stops being readable is not one that ended, and is said so.
#[verifier::rlimit(60)]
pub fn read_through<S: Source>(source: &mut S) -> (result: Result<Inspection, InspectError>)
    ensures
        ({
            let found = source_found(
                old(source).rest(),
                old(source).fails_after(),
                old(source).trouble(),
            );
            match result {
                Ok(inspection) => found == Ok::<Found, Refusal>(inspection@),
                Err(error) => found is Err && is_refusal(error, found->Err_0),
            }
        }),
{
    let ghost found = source_found(source.rest(), source.fails_after(), source.trouble());
    let ghost trouble = source.trouble();
    let mut first: Vec<u8> = Vec::new();
    if let Err(why) = source.read_block(&mut first) {
        return Err(InspectError::Header(why));
    }
    let ghost audio = source.rest();
    let ghost left = source.fails_after();
    let header = match HeaderView::parse(first.as_slice()) {
        Err(error) => {
            return Err(InspectError::Parse(error));
        },
        Ok(header) => header,
    };
    let mut validator: Validator<'_> = Validator::new(&header);
    let mut digest: Digest = Digest::new();
    let mut chapters: Vec<ChapterRead> = Vec::new();
    let mut block: Vec<u8> = Vec::new();
    let mut at: usize = 0;
    let ghost mut blocks: nat = 0;
    let ghost mut starts: Seq<ChapterInfo> = Seq::empty();
    let ghost whole = crate::reader::region_read(
        crate::reader::before_reading(header@),
        reached(audio, left),
        0,
    );
    let ghost short = falls_short(audio, left);
    assert(whole == joined(starts, whole));
    assert(chapters@ =~= starts.map_values(|chapter: ChapterInfo| chapter_read(chapter)));
    assert(digest.fed() + source.rest() =~= audio);
    let mut stopped: Option<InspectError> = None;
    loop
        invariant_except_break
            stopped is None,
            source.trouble() == trouble,
            short == falls_short(source.rest(), source.fails_after()),
            whole == joined(
                starts,
                crate::reader::region_read(
                    validator@,
                    reached(source.rest(), source.fails_after()),
                    blocks,
                ),
            ),
            at == (if blocks <= usize::MAX {
                blocks
            } else {
                usize::MAX as nat
            }),
        invariant
            whole is Err ==> found == Err::<Found, Refusal>(
                Refusal::Block((whole->Err_0).0, (whole->Err_0).1),
            ),
            whole is Ok && short ==> found == Err::<Found, Refusal>(Refusal::Read(trouble)),
            chapters@ == starts.map_values(|chapter: ChapterInfo| chapter_read(chapter)),
            digest.fed() + source.rest() == audio || stopped is Some,
        ensures
            stopped matches Some(error) ==> found is Err && is_refusal(error, found->Err_0),
            stopped is None ==> {
                &&& source.rest().len() == 0
                &&& !short
                &&& whole == joined(
                    starts,
                    crate::reader::region_read(validator@, source.rest(), blocks),
                )
            },
        decreases source.rest().len(),
    {
        let ghost rest = source.rest();
        let ghost fails = source.fails_after();
        let len: usize = match source.read_block(&mut block) {
            Err(why) => {
                assert(reached(rest, fails) =~= Seq::empty());
                stopped = Some(InspectError::Read(why));
                break;
            },
            Ok(len) => len,
        };
        if len == 0 {
            assert(source.rest() =~= rest);
            break;
        }
        let ghost before = validator@;
        let ghost fed = digest.fed();
        let started: Option<ChapterInfo> = match validator.push_block(
            block.as_slice(),
            Some(&mut digest),
        ) {
            Err(error) => {
                proof {
                    lemma_block_refused(before, rest, fails, blocks, error);
                }
                stopped = Some(InspectError::Block { at, source: error });
                break;
            },
            Ok(started) => started,
        };
        proof {
            lemma_block_taken(starts, before, rest, fails, blocks, validator@);
            assert(fed + rest =~= digest.fed() + source.rest());
            starts = starts + met(started);
            blocks = blocks + 1;
        }
        if let Some(chapter) = started {
            chapters.push(
                ChapterRead { block: chapter.block, start: playtime(chapter.granule) },
            );
        }
        assert(chapters@ =~= starts.map_values(|chapter: ChapterInfo| chapter_read(chapter)));
        at = at.saturating_add(1);
    }
    if let Some(error) = stopped {
        return Err(error);
    }
    assert(digest.fed() =~= audio);
    let hashed: [u8; 20] = digest.finalize();
    proof {
        assert(whole is Ok);
        assert((whole->Ok_0).1 =~= starts);
    }
    match validator.finish(Some(hashed)) {
        Err(error) => Err(refused(error, header.sha1(), hashed)),
        Ok(summary) => Ok(
            Inspection {
                audio_id: header.audio_id(),
                duration: playtime(summary.total_samples),
                audio_bytes: summary.audio_bytes,
                chapters,
            },
        ),
    }
}

/// What is read before a source fails goes on behind the block that is read next, and a block that is
/// a whole one leaves the rest as short as it was.
proof fn lemma_reached(rest: Seq<u8>, fails_after: Option<nat>)
    requires
        rest.len() > 0,
        fails_after != Some(0nat),
    ensures
        ({
            let len = next_block(rest).len() as int;
            let ahead = reached(rest, fails_after);
            &&& len <= ahead.len()
            &&& next_block(ahead) == next_block(rest)
            &&& ahead.skip(len) == reached(rest.skip(len), one_less(fails_after))
            &&& len == 4096 ==> falls_short(rest.skip(len), one_less(fails_after)) == falls_short(
                rest,
                fails_after,
            )
        }),
{
    let len = next_block(rest).len() as int;
    let ahead = reached(rest, fails_after);
    if falls_short(rest, fails_after) {
        let blocks = fails_after->0;
        assert((blocks - 1) * 4096 == blocks * 4096 - 4096);
        assert(next_block(ahead) =~= next_block(rest));
        assert(ahead.skip(len) =~= reached(rest.skip(len), one_less(fails_after)));
    } else {
        if fails_after is Some {
            let blocks = fails_after->0;
            assert((blocks - 1) * 4096 == blocks * 4096 - 4096);
        }
        assert(ahead.skip(len) =~= reached(rest.skip(len), one_less(fails_after)));
    }
}

/// The chapter a block starts, where it starts one.
spec fn met(started: Option<ChapterInfo>) -> Seq<ChapterInfo> {
    match started {
        Some(chapter) => seq![chapter],
        None => Seq::empty(),
    }
}

proof fn lemma_block_refused(
    reading: crate::reader::Reading,
    rest: Seq<u8>,
    fails_after: Option<nat>,
    at: nat,
    error: ValidateError,
)
    requires
        rest.len() > 0,
        fails_after != Some(0nat),
        reading.block_read(next_block(rest)) == Err::<crate::reader::Reading, ValidateError>(error),
    ensures
        crate::reader::region_read(reading, reached(rest, fails_after), at) == Err::<
            (crate::reader::Reading, Seq<ChapterInfo>),
            (nat, ValidateError),
        >((at, error)),
{
    lemma_reached(rest, fails_after);
    let ahead = reached(rest, fails_after);
    assert(ahead.take(next_block(rest).len() as int) =~= next_block(rest));
}

proof fn lemma_block_taken(
    starts: Seq<ChapterInfo>,
    reading: crate::reader::Reading,
    rest: Seq<u8>,
    fails_after: Option<nat>,
    at: nat,
    next: crate::reader::Reading,
)
    requires
        rest.len() > 0,
        fails_after != Some(0nat),
        reading.block_read(next_block(rest)) == Ok::<crate::reader::Reading, ValidateError>(next),
    ensures
        next_block(rest).len() == 4096,
        falls_short(rest.skip(4096), one_less(fails_after)) == falls_short(rest, fails_after),
        joined(starts, crate::reader::region_read(reading, reached(rest, fails_after), at))
            == joined(
            starts + met(reading.starting()),
            crate::reader::region_read(
                next,
                reached(rest.skip(4096), one_less(fails_after)),
                at + 1,
            ),
        ),
{
    lemma_reached(rest, fails_after);
    let ahead = reached(rest, fails_after);
    let started = met(reading.starting());
    let tail = crate::reader::region_read(
        next,
        reached(rest.skip(4096), one_less(fails_after)),
        at + 1,
    );
    assert(ahead.take(4096) =~= next_block(rest));
    assert(crate::reader::region_read(reading, ahead, at) == joined(started, tail));
    if tail is Ok {
        assert(starts + (started + (tail->Ok_0).1) =~= starts + started + (tail->Ok_0).1);
    }
}

/// Chapters in front of what the rest of a region comes to.
spec fn joined(
    starts: Seq<ChapterInfo>,
    rest: Result<
        (crate::reader::Reading, Seq<ChapterInfo>),
        (nat, ValidateError),
    >,
) -> Result<(crate::reader::Reading, Seq<ChapterInfo>), (nat, ValidateError)> {
    match rest {
        Err(refused) => Err(refused),
        Ok((end, more)) => Ok((end, starts + more)),
    }
}

/// What a file that is accepted is: a header block and the region it describes, which is as long as the
/// header states and hashes to what it states. What it is found to hold is what the header says of it,
/// one chapter for every one the header starts, in order, and how long its last page says it plays.
pub proof fn lemma_what_an_accepted_file_is(file: Seq<u8>)
    requires
        file_found(file) is Ok,
    ensures
        ({
            let found = file_found(file)->Ok_0;
            let audio = file.skip(4096);
            let stated = crate::header::read_header(file.take(4096));
            let header = stated->Ok_0;
            &&& file.len() > 4096
            &&& stated is Ok
            &&& audio.len() % 4096 == 0
            &&& header.data_length == audio.len()
            &&& header.sha1 == crate::digest::sha1_of(audio)
            &&& crate::reader::is_region(header, audio)
            &&& found.audio_id == header.audio_id
            &&& found.audio_bytes == audio.len()
            &&& found.duration == played(crate::reader::granule_behind(audio, audio.len() / 4096))
            &&& found.chapters.len() == header.chapters.len()
            &&& forall|i: int|
                0 <= i < found.chapters.len() ==> (#[trigger] found.chapters[i]).block.0
                    == header.chapters[i] && header.chapters[i] < audio.len() / 4096
                    && found.chapters[i].start == played(
                    crate::reader::granule_behind(audio, header.chapters[i] as nat),
                )
        }),
{
    let first = next_block(file);
    let audio = file.skip(first.len() as int);
    let header = crate::header::read_header(first)->Ok_0;
    assert(first.len() == 4096);
    let hash = crate::digest::sha1_of(audio);
    crate::reader::lemma_what_an_accepted_region_is(header, audio, hash);
    let starts = (crate::reader::region_read(crate::reader::before_reading(header), audio, 0)->Ok_0).1;
    let found = file_found(file)->Ok_0;
    assert forall|i: int| 0 <= i < found.chapters.len() implies (#[trigger] found.chapters[i]).block.0
        == header.chapters[i] && header.chapters[i] < audio.len() / 4096 && found.chapters[i].start
        == played(crate::reader::granule_behind(audio, header.chapters[i] as nat)) by {
        assert(found.chapters[i] == chapter_read(starts[i]));
    }
}

/// Which files are accepted: those of a header block and a region it describes, whose first pages count on
/// from each other and which hashes to what the header states.
pub proof fn lemma_a_file_is_accepted(file: Seq<u8>)
    requires
        file.len() > 4096,
        crate::header::read_header(file.take(4096)) is Ok,
        ({
            let header = crate::header::read_header(file.take(4096))->Ok_0;
            let audio = file.skip(4096);
            &&& crate::reader::is_region(header, audio)
            &&& crate::reader::first_granules_count(audio)
            &&& header.sha1 == crate::digest::sha1_of(audio)
        }),
    ensures
        file_found(file) is Ok,
{
    let header = crate::header::read_header(file.take(4096))->Ok_0;
    let audio = file.skip(4096);
    crate::reader::lemma_a_region_is_accepted_as_a_whole(header, audio);
}

/// What a file is refused for: no header block, the block of the region that is not the one the header
/// describes, the region as a whole, or what it hashes to, stated beside what it should.
pub proof fn lemma_what_a_file_is_refused_for(file: Seq<u8>)
    ensures
        file.len() < 4096 ==> file_found(file) == Err::<Found, Refusal>(
            Refusal::Parse(HeaderError::WrongBlockLen),
        ),
        file.len() >= 4096 ==> {
            let stated = crate::header::read_header(file.take(4096));
            let audio = file.skip(4096);
            let read = crate::reader::region_read(
                crate::reader::before_reading(stated->Ok_0),
                audio,
                0,
            );
            &&& stated matches Err(error) ==> file_found(file) == Err::<Found, Refusal>(
                Refusal::Parse(error),
            )
            &&& stated is Ok && read is Err ==> file_found(file) == Err::<Found, Refusal>(
                Refusal::Block((read->Err_0).0, (read->Err_0).1),
            )
            &&& file_found(file) matches Err(Refusal::Sha1Mismatch(states, hashes)) ==> {
                &&& stated is Ok && read is Ok
                &&& states == stated->Ok_0.sha1
                &&& hashes == crate::digest::sha1_of(audio)
                &&& states != hashes
            }
            &&& file_found(file) matches Err(Refusal::Audio(error)) ==> stated is Ok && read is Ok
                && error != ValidateError::Sha1Mismatch && (read->Ok_0).0.ended(
                Some(crate::digest::sha1_of(audio)),
            ) == Err::<crate::reader::Summary, ValidateError>(error)
        },
        !(file_found(file) matches Err(Refusal::Read(_))),
        !(file_found(file) matches Err(Refusal::Header(_))),
{
    if file.len() >= 4096 {
        let stated = crate::header::read_header(file.take(4096));
        let audio = file.skip(4096);
        if let Ok(header) = stated {
            if let Ok((end, _)) = crate::reader::region_read(
                crate::reader::before_reading(header),
                audio,
                0,
            ) {
                lemma_keeps_the_hash(crate::reader::before_reading(header), audio, 0);
                crate::reader::lemma_what_a_region_is_refused_for(
                    end,
                    crate::digest::sha1_of(audio),
                );
            }
        }
    }
}

proof fn lemma_keeps_the_hash(reading: crate::reader::Reading, audio: Seq<u8>, at: nat)
    ensures
        crate::reader::region_read(reading, audio, at) matches Ok((end, _starts)) ==> end.sha1
            == reading.sha1,
    decreases audio.len(),
{
    if audio.len() > 0 {
        let len = if audio.len() < 4096 {
            audio.len() as int
        } else {
            4096
        };
        if let Ok(next) = reading.block_read(audio.take(len)) {
            lemma_keeps_the_hash(next, audio.skip(len), at + 1);
        }
    }
}

/// A source that stops being readable is not one that ended: it is a file only where it is read past its
/// end, and then it is the file it holds. One that fails in front of that is refused, for the first block
/// that is wrong in front of the failure, or for the failure.
pub proof fn lemma_a_source_that_fails_is_no_file(file: Seq<u8>, blocks: nat, trouble: Seq<char>)
    ensures
        ({
            let found = source_found(file, Some(blocks), trouble);
            &&& blocks == 0 ==> found == Err::<Found, Refusal>(Refusal::Header(trouble))
            &&& blocks * 4096 > file.len() ==> found == file_found(file)
            &&& blocks * 4096 <= file.len() ==> found is Err
            &&& 0 < blocks && blocks * 4096 <= file.len() && crate::header::read_header(
                file.take(4096),
            ) is Ok ==> {
                let header = crate::header::read_header(file.take(4096))->Ok_0;
                match crate::reader::region_read(
                    crate::reader::before_reading(header),
                    file.subrange(4096, blocks as int * 4096),
                    0,
                ) {
                    Ok(_) => found == Err::<Found, Refusal>(Refusal::Read(trouble)),
                    Err((at, error)) => found == Err::<Found, Refusal>(Refusal::Block(at, error)),
                }
            }
        }),
{
    if 0 < blocks && file.len() >= 4096 {
        let audio = file.skip(4096);
        if blocks * 4096 <= file.len() {
            assert(audio.take((blocks - 1) * 4096) =~= file.subrange(4096, blocks as int * 4096));
        }
    }
}

/// What is at hand is read a block at a time, and what is left at the end as it is.
pub proof fn lemma_what_is_read_next(rest: Seq<u8>)
    ensures
        next_block(rest).len() == (if rest.len() < 4096 {
            rest.len()
        } else {
            4096
        }),
        next_block(rest) + rest.skip(next_block(rest).len() as int) == rest,
{
    assert(next_block(rest) + rest.skip(next_block(rest).len() as int) =~= rest);
}

} // verus!
