//! What is written reads back: a TAF that was finished is one its reader accepts, block by block and
//! as a whole, with every chapter where it was started.

use crate::header::Header;
use crate::id::BlockIndex;
use crate::ogg::Draft;
use crate::reader::{ChapterInfo, Reading, Summary, ValidateError};
use crate::writer::Written;
use vstd::prelude::*;

verus! {

/// Whether everything that was written makes up whole blocks, and every chapter starts at one of
/// them: some audio was added, and some behind the last chapter that was started.
pub open spec fn is_whole(written: Written) -> bool {
    &&& written.pages.len() >= 3
    &&& written.chapters.last() < written.pages.len() - 2
}

/// The granule position in front of the block `block`.
pub open spec fn granule_before(written: Written, block: int) -> u64 {
    if block == 0 {
        0
    } else {
        written.pages[block + 1].granule
    }
}

/// Every chapter, with where it starts.
pub open spec fn chapter_starts(written: Written) -> Seq<ChapterInfo> {
    Seq::new(
        written.chapters.len(),
        |i: int|
            ChapterInfo {
                block: BlockIndex(written.chapters[i]),
                granule: granule_before(written, written.chapters[i] as int),
            },
    )
}

/// What reading the whole file comes to.
pub open spec fn summary_of(written: Written) -> Summary {
    Summary {
        pages: written.pages.len() as u32,
        total_samples: written.granule,
        audio_bytes: written.len() as u32,
        chapters_seen: written.chapters.len() as u32,
    }
}

/// How many chapters start in front of the block `block`.
spec fn met(chapters: Seq<u32>, block: nat) -> nat
    decreases block,
{
    if block == 0 {
        0
    } else {
        let before = met(chapters, (block - 1) as nat);
        if before < chapters.len() && chapters[before as int] == block - 1 {
            before + 1
        } else {
            before
        }
    }
}

/// How far the file has been read in front of the block `block`.
spec fn reading_at(written: Written, sha1: Seq<u8>, block: nat) -> Reading {
    let header = written.header(sha1);
    Reading {
        chapters: written.chapters.skip(met(written.chapters, block) as int),
        blocks: block as u32,
        pages: if block == 0 {
            0
        } else {
            (block + 2) as u32
        },
        granule: granule_before(written, block as int),
        chapters_seen: met(written.chapters, block) as u32,
        ..crate::reader::before_reading(header)
    }
}

proof fn lemma_met(chapters: Seq<u32>, block: nat)
    requires
        forall|i: int, j: int| 0 <= i < j < chapters.len() ==> chapters[i] < chapters[j],
    ensures
        met(chapters, block) <= chapters.len(),
        met(chapters, block) <= block,
        forall|i: int| 0 <= i < met(chapters, block) ==> chapters[i] < block,
        forall|i: int| met(chapters, block) <= i < chapters.len() ==> chapters[i] >= block,
    decreases block,
{
    if block > 0 {
        lemma_met(chapters, (block - 1) as nat);
        let before = met(chapters, (block - 1) as nat) as int;
        if before < chapters.len() {
            assert(chapters[before] >= block - 1);
            assert forall|i: int| met(chapters, block) <= i < chapters.len() implies chapters[i]
                >= block by {
                if i > before {
                    assert(chapters[before] < chapters[i]);
                }
            }
        }
    }
}

/// Where a page lies in the file.
proof fn lemma_region_page(pages: Seq<Draft>, at: int)
    requires
        0 <= at < pages.len(),
    ensures
        ({
            let from = crate::writer::region(pages.take(at)).len() as int;
            let bytes = pages[at].bytes();
            &&& from + bytes.len() <= crate::writer::region(pages).len()
            &&& crate::writer::region(pages).subrange(from, from + bytes.len()) == bytes
        }),
    decreases pages.len(),
{
    let front = pages.drop_last();
    let from = crate::writer::region(pages.take(at)).len() as int;
    let bytes = pages[at].bytes();
    if at == pages.len() - 1 {
        assert(pages.take(at) =~= front);
        assert(crate::writer::region(pages).subrange(from, from + bytes.len()) =~= bytes);
    } else {
        lemma_region_page(front, at);
        assert(front.take(at) =~= pages.take(at));
        assert(crate::writer::region(pages).subrange(from, from + bytes.len())
            =~= crate::writer::region(front).subrange(from, from + bytes.len()));
    }
}

/// Where the pages of a file begin.
proof fn lemma_page_offset(written: Written, at: int)
    requires
        written.well_formed(),
        0 <= at <= written.pages.len(),
    ensures
        crate::writer::region(written.pages.take(at)).len() == (if at == 0 {
            0int
        } else if at == 1 {
            47
        } else if at == 2 {
            512
        } else {
            (at - 2) * 4096
        }),
{
    let front = written.pages.take(at);
    assert forall|i: int| 0 <= i < front.len() implies #[trigger] front[i].len()
        == Written::page_target(i) by {
        assert(written.page_fits(i));
    }
    crate::writer::lemma_region_len(front);
}

/// A page of a file is what its reader asks of that page.
proof fn lemma_no_fault(written: Written, at: int)
    requires
        written.well_formed(),
        0 <= at < written.pages.len(),
    ensures
        crate::reader::page_fault(
            written.pages[at].page(),
            written.audio_id,
            at as u32,
            if at == 0 {
                0
            } else {
                written.pages[at - 1].granule
            },
        ) is None,
{
    assert(written.page_fits(at));
    assert(2u8 & 2u8 != 0 && 2u8 & 4u8 == 0 && 2u8 & 1u8 == 0 && 0u8 & 2u8 == 0 && 0u8 & 4u8 == 0
        && 0u8 & 1u8 == 0) by (bit_vector);
}

/// A page of a file, with whatever lies behind it, reads as that page.
proof fn lemma_page_read(written: Written, at: int, rest: Seq<u8>)
    requires
        written.well_formed(),
        0 <= at < written.pages.len(),
    ensures
        crate::ogg::page::read_page(written.pages[at].bytes() + rest) == Ok::<
            crate::ogg::Page,
            crate::ogg::PageError,
        >(written.pages[at].page()),
        crate::reader::page_len(written.pages[at].page()) == Written::page_target(at),
        written.pages[at].bytes().len() == Written::page_target(at),
        written.pages.len() < 0x10_0000,
{
    assert(written.page_fits(at));
    crate::ogg::builder::lemma_page_reads_back(written.pages[at], rest);
    crate::ogg::builder::lemma_bytes_len(written.pages[at]);
    lemma_page_offset(written, written.pages.len() as int);
    assert(written.pages.take(written.pages.len() as int) =~= written.pages);
}

#[verifier::rlimit(30)]
proof fn lemma_first_block(written: Written)
    requires
        written.well_formed(),
        is_whole(written),
    ensures
        ({
            let p = written.pages;
            crate::reader::pages_walked(
                p[0].bytes() + p[1].bytes() + p[2].bytes(),
                written.audio_id,
                3,
                0,
                0,
                0,
                0,
            ) == Ok::<(u32, u64), ValidateError>((3u32, p[2].granule))
        }),
{
    let p = written.pages;
    let block = p[0].bytes() + p[1].bytes() + p[2].bytes();
    lemma_page_read(written, 0, p[1].bytes() + p[2].bytes());
    lemma_page_read(written, 1, p[2].bytes());
    lemma_page_read(written, 2, Seq::empty());
    assert(block.skip(0) =~= p[0].bytes() + (p[1].bytes() + p[2].bytes()));
    assert(block.skip(47) =~= p[1].bytes() + p[2].bytes());
    assert(block.skip(512) =~= p[2].bytes() + Seq::empty());
    lemma_no_fault(written, 0);
    lemma_no_fault(written, 1);
    lemma_no_fault(written, 2);
    let id = written.audio_id;
    let g0 = p[0].granule;
    let g1 = p[1].granule;
    let g2 = p[2].granule;
    assert(crate::reader::pages_walked(block, id, 3, 3, 4096, 3, g2) == Ok::<
        (u32, u64),
        ValidateError,
    >((3u32, g2)));
    assert(crate::reader::pages_walked(block, id, 3, 2, 512, 2, g1) == Ok::<
        (u32, u64),
        ValidateError,
    >((3u32, g2)));
    assert(crate::reader::pages_walked(block, id, 3, 1, 47, 1, g0) == Ok::<
        (u32, u64),
        ValidateError,
    >((3u32, g2)));
}

proof fn lemma_later_block(written: Written, block: nat)
    requires
        written.well_formed(),
        is_whole(written),
        0 < block < written.pages.len() - 2,
    ensures
        ({
            let page = written.pages[block as int + 2];
            crate::reader::pages_walked(
                page.bytes(),
                written.audio_id,
                1,
                0,
                0,
                (block + 2) as u32,
                granule_before(written, block as int),
            ) == Ok::<(u32, u64), ValidateError>(((block + 3) as u32, page.granule))
        }),
{
    let at = block as int + 2;
    let page = written.pages[at];
    lemma_page_read(written, at, Seq::empty());
    lemma_no_fault(written, at);
    assert(page.bytes().skip(0) =~= page.bytes() + Seq::empty());
    assert(crate::reader::pages_walked(
        page.bytes(),
        written.audio_id,
        1,
        1,
        4096,
        (at + 1) as u32,
        page.granule,
    ) == Ok::<(u32, u64), ValidateError>(((at + 1) as u32, page.granule)));
}

/// Where the page `at` lies in the file.
proof fn lemma_page_place(written: Written, at: int, from: int)
    requires
        written.well_formed(),
        0 <= at < written.pages.len(),
        from == (if at == 0 {
            0int
        } else if at == 1 {
            47
        } else if at == 2 {
            512
        } else {
            (at - 2) * 4096
        }),
    ensures
        crate::writer::region(written.pages).subrange(from, from + Written::page_target(at))
            == written.pages[at].bytes(),
        from + Written::page_target(at) <= crate::writer::region(written.pages).len(),
{
    lemma_page_offset(written, at);
    lemma_region_page(written.pages, at);
    lemma_page_read(written, at, Seq::empty());
}

/// The bytes of the block `block` of the file.
proof fn lemma_block_bytes(written: Written, block: nat)
    requires
        written.well_formed(),
        is_whole(written),
        block < written.pages.len() - 2,
    ensures
        ({
            let p = written.pages;
            let audio = crate::writer::region(p);
            &&& audio.len() == (p.len() - 2) * 4096
            &&& audio.subrange(block as int * 4096, block as int * 4096 + 4096) == (if block == 0 {
                p[0].bytes() + p[1].bytes() + p[2].bytes()
            } else {
                p[block as int + 2].bytes()
            })
        }),
{
    let p = written.pages;
    let audio = crate::writer::region(p);
    lemma_page_offset(written, p.len() as int);
    assert(p.take(p.len() as int) =~= p);
    if block == 0 {
        lemma_page_place(written, 0, 0);
        lemma_page_place(written, 1, 47);
        lemma_page_place(written, 2, 512);
        lemma_three(audio);
    } else {
        lemma_page_place(written, block as int + 2, block as int * 4096);
    }
}

proof fn lemma_three(audio: Seq<u8>)
    requires
        audio.len() >= 4096,
    ensures
        audio.subrange(0, 4096) == audio.subrange(0, 47) + audio.subrange(47, 512)
            + audio.subrange(512, 4096),
{
    assert(audio.subrange(0, 4096) =~= audio.subrange(0, 47) + audio.subrange(47, 512)
        + audio.subrange(512, 4096));
}

/// What the pages of the block `block` come to.
proof fn lemma_block_walked(written: Written, block: nat)
    requires
        written.well_formed(),
        is_whole(written),
        block < written.pages.len() - 2,
    ensures
        ({
            let audio = crate::writer::region(written.pages);
            let bytes = audio.subrange(block as int * 4096, block as int * 4096 + 4096);
            &&& bytes.len() == 4096
            &&& crate::reader::pages_walked(
                bytes,
                written.audio_id,
                if block == 0 {
                    3
                } else {
                    1
                },
                0,
                0,
                if block == 0 {
                    0
                } else {
                    (block + 2) as u32
                },
                granule_before(written, block as int),
            ) == Ok::<(u32, u64), ValidateError>(
                ((block + 3) as u32, granule_before(written, block as int + 1)),
            )
        }),
{
    lemma_block_bytes(written, block);
    if block == 0 {
        lemma_first_block(written);
    } else {
        lemma_later_block(written, block);
    }
}

proof fn lemma_page_count(written: Written)
    requires
        written.well_formed(),
    ensures
        written.pages.len() < 0x10_0000,
{
    lemma_page_read(written, 0, Seq::empty());
}

/// Every block of the file is accepted behind the one in front of it.
proof fn lemma_block_accepted(written: Written, sha1: Seq<u8>, block: nat)
    requires
        written.well_formed(),
        is_whole(written),
        block < written.pages.len() - 2,
    ensures
        ({
            let audio = crate::writer::region(written.pages);
            reading_at(written, sha1, block).block_read(
                audio.subrange(block as int * 4096, block as int * 4096 + 4096),
            ) == Ok::<Reading, ValidateError>(reading_at(written, sha1, block + 1))
        }),
{
    let chapters = written.chapters;
    lemma_block_walked(written, block);
    lemma_page_count(written);
    lemma_met(chapters, block);
    lemma_met(chapters, block + 1);
    let before = met(chapters, block) as int;
    lemma_chapter_step(reading_at(written, sha1, block), chapters, block);
    let audio = crate::writer::region(written.pages);
    let bytes = audio.subrange(block as int * 4096, block as int * 4096 + 4096);
    let next = reading_at(written, sha1, block).block_read(bytes)->Ok_0;
    assert(next.chapters == chapters.skip(met(chapters, block + 1) as int));
    assert(next =~= reading_at(written, sha1, block + 1));
}

/// A chapter is met with the block it starts at, and no other one is.
proof fn lemma_chapter_step(reading: Reading, chapters: Seq<u32>, block: nat)
    requires
        block < u32::MAX,
        reading.blocks == block,
        met(chapters, block) <= block,
        met(chapters, block) <= chapters.len(),
        reading.chapters == chapters.skip(met(chapters, block) as int),
        reading.chapters_seen == met(chapters, block),
    ensures
        reading.starting() is Some <==> met(chapters, block + 1) == met(chapters, block) + 1,
        reading.starting() is None <==> met(chapters, block + 1) == met(chapters, block),
        reading.starting() is Some ==> reading.chapters.skip(1) == chapters.skip(
            met(chapters, block + 1) as int,
        ),
        reading.starting() is Some ==> met(chapters, block) < chapters.len() && chapters[met(
            chapters,
            block,
        ) as int] == block,
{
    let before = met(chapters, block) as int;
    if before < chapters.len() {
        assert(reading.chapters[0] == chapters[before]);
        assert(reading.chapters.skip(1) =~= chapters.skip(before + 1));
    }
}

/// From every block on, the rest of the file is accepted.
#[verifier::spinoff_prover]
#[verifier::rlimit(40)]
proof fn lemma_rest_accepted(written: Written, sha1: Seq<u8>, block: nat)
    requires
        written.well_formed(),
        is_whole(written),
        block <= written.pages.len() - 2,
    ensures
        crate::reader::region_read(
            reading_at(written, sha1, block),
            crate::writer::region(written.pages).skip(block as int * 4096),
            block,
        ) == Ok::<(Reading, Seq<ChapterInfo>), (nat, ValidateError)>(
            (
                reading_at(written, sha1, (written.pages.len() - 2) as nat),
                chapter_starts(written).skip(met(written.chapters, block) as int),
            ),
        ),
    decreases written.pages.len() - block,
{
    let audio = crate::writer::region(written.pages);
    let n = (written.pages.len() - 2) as nat;
    lemma_page_offset(written, written.pages.len() as int);
    assert(written.pages.take(written.pages.len() as int) =~= written.pages);
    let starts = chapter_starts(written);
    if block == n {
        lemma_all_met(written);
        assert(starts.skip(met(written.chapters, n) as int) =~= Seq::empty());
        assert(audio.skip(block as int * 4096).len() == 0);
    } else {
        lemma_block_accepted(written, sha1, block);
        lemma_rest_accepted(written, sha1, block + 1);
        lemma_rest_of(audio, block as int);
        lemma_region_step(
            reading_at(written, sha1, block),
            audio.skip(block as int * 4096),
            block,
            reading_at(written, sha1, block + 1),
            reading_at(written, sha1, n),
            starts.skip(met(written.chapters, block + 1) as int),
        );
        lemma_starts_step(written, sha1, block);
    }
}

/// Every chapter of the file starts in front of its end.
proof fn lemma_all_met(written: Written)
    requires
        written.well_formed(),
        is_whole(written),
    ensures
        met(written.chapters, (written.pages.len() - 2) as nat) == written.chapters.len(),
{
    let n = (written.pages.len() - 2) as nat;
    lemma_met(written.chapters, n);
    if met(written.chapters, n) < written.chapters.len() {
        assert(written.chapters[written.chapters.len() - 1] >= n);
    }
}

/// A region from a block on is that block and the region from the next one on.
proof fn lemma_rest_of(audio: Seq<u8>, block: int)
    requires
        0 <= block,
        block * 4096 + 4096 <= audio.len(),
    ensures
        audio.skip(block * 4096).len() >= 4096,
        audio.skip(block * 4096).take(4096) == audio.subrange(block * 4096, block * 4096 + 4096),
        audio.skip(block * 4096).skip(4096) == audio.skip((block + 1) * 4096),
{
    assert(audio.skip(block * 4096).take(4096) =~= audio.subrange(
        block * 4096,
        block * 4096 + 4096,
    ));
    assert(audio.skip(block * 4096).skip(4096) =~= audio.skip((block + 1) * 4096));
}

/// The chapters that start from a block on are the one that starts with it and those behind it.
proof fn lemma_starts_step(written: Written, sha1: Seq<u8>, block: nat)
    requires
        written.well_formed(),
        is_whole(written),
        block < written.pages.len() - 2,
    ensures
        (match reading_at(written, sha1, block).starting() {
            Some(chapter) => seq![chapter],
            None => Seq::empty(),
        }) + chapter_starts(written).skip(met(written.chapters, block + 1) as int)
            == chapter_starts(written).skip(met(written.chapters, block) as int),
{
    let reading = reading_at(written, sha1, block);
    let starts = chapter_starts(written);
    lemma_met(written.chapters, block);
    let before = met(written.chapters, block) as int;
    lemma_page_count(written);
    lemma_chapter_step(reading, written.chapters, block);
    if reading.starting() is Some {
        assert(reading.starting() == Some(starts[before]));
        assert(seq![starts[before]] + starts.skip(before + 1) =~= starts.skip(before));
    } else {
        assert(Seq::<ChapterInfo>::empty() + starts.skip(before) =~= starts.skip(before));
    }
}

/// One block in front of the rest of a region.
proof fn lemma_region_step(
    reading: Reading,
    audio: Seq<u8>,
    at: nat,
    next: Reading,
    end: Reading,
    starts: Seq<ChapterInfo>,
)
    requires
        audio.len() >= 4096,
        reading.block_read(audio.take(4096)) == Ok::<Reading, ValidateError>(next),
        crate::reader::region_read(next, audio.skip(4096), at + 1) == Ok::<
            (Reading, Seq<ChapterInfo>),
            (nat, ValidateError),
        >((end, starts)),
    ensures
        crate::reader::region_read(reading, audio, at) == Ok::<
            (Reading, Seq<ChapterInfo>),
            (nat, ValidateError),
        >(
            (
                end,
                (match reading.starting() {
                    Some(chapter) => seq![chapter],
                    None => Seq::empty(),
                }) + starts,
            ),
        ),
{
}

/// What is written validates. Of a TAF that some audio was added to behind the last chapter that was
/// started, every block is accepted in turn, every chapter is met where it was started, and the
/// region as a whole is the one the header describes.
pub proof fn lemma_what_is_written_validates(written: Written, sha1: Seq<u8>)
    requires
        written.well_formed(),
        is_whole(written),
    ensures
        ({
            let header = written.header(sha1);
            let audio = crate::writer::region(written.pages);
            let read = crate::reader::region_read(crate::reader::before_reading(header), audio, 0);
            &&& read is Ok
            &&& (read->Ok_0).1 == chapter_starts(written)
            &&& (read->Ok_0).0.ended(Some(sha1)) == Ok::<Summary, ValidateError>(
                summary_of(written),
            )
        }),
{
    let audio = crate::writer::region(written.pages);
    let header = written.header(sha1);
    let n = (written.pages.len() - 2) as nat;
    lemma_rest_accepted(written, sha1, 0);
    assert(audio.skip(0) =~= audio);
    assert(written.chapters.skip(0) =~= written.chapters);
    assert(reading_at(written, sha1, 0) =~= crate::reader::before_reading(header));
    assert(chapter_starts(written).skip(0) =~= chapter_starts(written));
    lemma_met(written.chapters, n);
    lemma_all_met(written);
    lemma_page_offset(written, written.pages.len() as int);
    assert(written.pages.take(written.pages.len() as int) =~= written.pages);
    lemma_page_read(written, 0, Seq::empty());
    assert(written.page_fits(written.pages.len() - 1));
}

/// The header block of such a file reads back as what the file is read against.
pub proof fn lemma_what_is_written_states_itself(written: Written, sha1: Seq<u8>)
    requires
        sha1.len() == 20,
        crate::header::encode::fits(written.header(sha1)),
    ensures
        crate::header::read_header(
            crate::header::encode::header_block(written.header(sha1)),
        ) == Ok::<Header, crate::header::HeaderError>(written.header(sha1)),
{
    crate::header::encode::lemma_header_reads_back(written.header(sha1));
}

/// What is written reads back. The header block of such a file with its audio region behind it is a
/// file that is found to hold what was put into it: its audio id, its length, and every chapter where
/// it was started.
pub proof fn lemma_what_is_written_reads_back(written: Written)
    requires
        written.well_formed(),
        is_whole(written),
        crate::digest::sha1_of(crate::writer::region(written.pages)).len() == 20,
        crate::header::encode::fits(
            written.header(crate::digest::sha1_of(crate::writer::region(written.pages))),
        ),
    ensures
        ({
            let audio = crate::writer::region(written.pages);
            let header = written.header(crate::digest::sha1_of(audio));
            crate::inspect::file_found(crate::header::encode::header_block(header) + audio) == Ok::<
                crate::inspect::Found,
                crate::inspect::Refusal,
            >(
                crate::inspect::Found {
                    audio_id: written.audio_id,
                    duration: crate::inspect::played(written.granule),
                    audio_bytes: written.len() as u32,
                    chapters: chapter_starts(written).map_values(
                        |chapter: ChapterInfo| crate::inspect::chapter_read(chapter),
                    ),
                },
            )
        }),
{
    let audio = crate::writer::region(written.pages);
    let sha1 = crate::digest::sha1_of(audio);
    let header = written.header(sha1);
    crate::header::encode::lemma_block_len(header);
    crate::header::encode::lemma_header_reads_back(header);
    crate::inspect::lemma_a_file_is_a_header_and_a_region(
        crate::header::encode::header_block(header),
        audio,
    );
    lemma_what_is_written_validates(written, sha1);
}

/// Everything that is put into a file reads back. Start a file with an audio id and tags that fit, put
/// packets and chapters into it, close it, and put the header block in front: where nothing was refused
/// and some audio stands behind the last chapter, the file is found to hold that audio id and as many
/// samples as were put in, and its pages carry every packet, in the order they were put in: each as it
/// came, but for the last one of a page, which is padded to close it and heard as it came.
pub proof fn lemma_everything_put_in_reads_back(
    audio_id: crate::id::AudioId,
    tags: crate::writer::Tags<'_>,
    puts: Seq<crate::writer::carried::Put>,
)
    requires
        tags.fit(),
        ({
            let start = crate::writer::started(audio_id, tags.packet());
            let held = start.put_all(puts);
            let end = held->0.flushed().0;
            let sha1 = crate::digest::sha1_of(crate::writer::region(end.pages));
            &&& held is Some
            &&& held->0.flushed().1 is None
            &&& is_whole(end)
            &&& sha1.len() == 20
            &&& crate::header::encode::fits(end.header(sha1))
        }),
    ensures
        ({
            let start = crate::writer::started(audio_id, tags.packet());
            let end = start.put_all(puts)->0.flushed().0;
            let packets = crate::writer::carried::packets_of(puts);
            let audio = crate::writer::region(end.pages);
            let header = end.header(crate::digest::sha1_of(audio));
            &&& crate::writer::carried::pages_carry(end.pages, packets)
            &&& crate::writer::carried::on_pages(end.pages) == crate::writer::carried::all_heard(
                crate::writer::bytes_of(packets),
            )
            &&& crate::inspect::file_found(crate::header::encode::header_block(header) + audio)
                == Ok::<crate::inspect::Found, crate::inspect::Refusal>(
                crate::inspect::Found {
                    audio_id,
                    duration: crate::inspect::played(crate::writer::granule_behind(0, packets)),
                    audio_bytes: audio.len() as u32,
                    chapters: chapter_starts(end).map_values(
                        |chapter: ChapterInfo| crate::inspect::chapter_read(chapter),
                    ),
                },
            )
        }),
{
    let start = crate::writer::started(audio_id, tags.packet());
    let held = start.put_all(puts)->0;
    crate::writer::lemma_started(audio_id, tags);
    start.lemma_everything_put_in_is_carried(puts);
    lemma_everything_put_in_is_on_pages(start, puts);
    held.lemma_flushed_keeps();
    lemma_what_is_written_reads_back(held.flushed().0);
}

/// The file that comes of `puts`, put into one that was started with `audio_id` and `tags`.
pub open spec fn file_of(
    audio_id: crate::id::AudioId,
    tags: crate::writer::Tags<'_>,
    puts: Seq<crate::writer::carried::Put>,
) -> Seq<u8> {
    let end = crate::writer::started(audio_id, tags.packet()).put_all(puts)->0.flushed().0;
    let audio = crate::writer::region(end.pages);
    crate::header::encode::header_block(end.header(crate::digest::sha1_of(audio))) + audio
}

/// Whether a file comes of `puts`, put into one that was started with `audio_id` and `tags`: nothing is
/// refused, some audio stands behind the last chapter, and the header has room for the chapters.
pub open spec fn makes_a_file(
    audio_id: crate::id::AudioId,
    tags: crate::writer::Tags<'_>,
    puts: Seq<crate::writer::carried::Put>,
) -> bool {
    let start = crate::writer::started(audio_id, tags.packet());
    let held = start.put_all(puts);
    let end = held->0.flushed().0;
    let sha1 = crate::digest::sha1_of(crate::writer::region(end.pages));
    &&& tags.fit()
    &&& held is Some
    &&& held->0.flushed().1 is None
    &&& is_whole(end)
    &&& sha1.len() == 20
    &&& crate::header::encode::fits(end.header(sha1))
}

/// Whether `time` is how long `samples` samples play, of which the first 312 are not heard: to the
/// nanosecond that has not gone by yet, at 48000 of them a second.
pub open spec fn plays(time: crate::duration::Duration, samples: int) -> bool {
    let nanos = time.secs * 1_000_000_000 + time.nanos;
    &&& time.nanos < 1_000_000_000
    &&& samples < 312 ==> nanos == 0
    &&& samples >= 312 ==> nanos * 48_000 <= (samples - 312) * 1_000_000_000 < (nanos + 1) * 48_000
}

/// A file plays as long as what was put into it: what it is found to hold is as many samples as its
/// packets have, with what is not heard off them.
pub proof fn lemma_a_file_plays_what_was_put_in(
    audio_id: crate::id::AudioId,
    tags: crate::writer::Tags<'_>,
    puts: Seq<crate::writer::carried::Put>,
)
    requires
        makes_a_file(audio_id, tags, puts),
    ensures
        ({
            let file = file_of(audio_id, tags, puts);
            let found = crate::inspect::file_found(file);
            let packets = crate::writer::carried::packets_of(puts);
            &&& found is Ok
            &&& found->Ok_0.audio_id == audio_id
            &&& found->Ok_0.audio_bytes == file.len() - 4096
            &&& plays(found->Ok_0.duration, crate::writer::carried::samples_of(packets) as int)
        }),
{
    let start = crate::writer::started(audio_id, tags.packet());
    let held = start.put_all(puts)->0;
    let end = held.flushed().0;
    let packets = crate::writer::carried::packets_of(puts);
    let audio = crate::writer::region(end.pages);
    lemma_everything_put_in_reads_back(audio_id, tags, puts);
    crate::writer::lemma_started(audio_id, tags);
    start.lemma_everything_put_in_is_carried(puts);
    held.lemma_flushed_keeps();
    crate::writer::carried::lemma_all_packets_are_on_pages(end.pages, packets);
    end.lemma_few_packets();
    crate::writer::carried::lemma_samples_add_up(packets);
    crate::inspect::lemma_time_passes_at_the_rate(
        crate::writer::granule_behind(0, packets),
    );
    crate::header::encode::lemma_block_len(end.header(crate::digest::sha1_of(audio)));
    lemma_blocks(end);
}

/// The chapters of a file are the ones that were started: the first at the front of it, and then one
/// for every block at which one was, each once and in order.
pub proof fn lemma_a_file_has_the_chapters_that_were_started(
    audio_id: crate::id::AudioId,
    tags: crate::writer::Tags<'_>,
    puts: Seq<crate::writer::carried::Put>,
)
    requires
        makes_a_file(audio_id, tags, puts),
    ensures
        ({
            let start = crate::writer::started(audio_id, tags.packet());
            let stated = crate::header::read_header(file_of(audio_id, tags, puts).take(4096));
            let chapters = stated->Ok_0.chapters;
            let found = crate::inspect::file_found(file_of(audio_id, tags, puts))->Ok_0.chapters;
            &&& stated is Ok
            &&& chapters.len() > 0
            &&& chapters[0] == 0
            &&& forall|i: int, j: int| 0 <= i < j < chapters.len() ==> chapters[i] < chapters[j]
            &&& forall|block: u32| #[trigger]
                chapters.contains(block) <==> block == 0 || exists|at: int|
                    0 <= at < puts.len() && puts[at] is Chapter && #[trigger] start.starts_at(puts, at)
                        == block
            &&& found.len() == chapters.len()
            &&& forall|i: int|
                0 <= i < found.len() ==> (#[trigger] found[i]).block.0 == chapters[i]
        }),
{
    let start = crate::writer::started(audio_id, tags.packet());
    let held = start.put_all(puts)->0;
    let end = held.flushed().0;
    let audio = crate::writer::region(end.pages);
    let header = end.header(crate::digest::sha1_of(audio));
    lemma_everything_put_in_reads_back(audio_id, tags, puts);
    crate::writer::lemma_started(audio_id, tags);
    start.lemma_chapters_are_where_they_were_started(puts);
    held.lemma_nothing_else_starts_a_chapter(crate::writer::Held { bytes: Seq::empty(), samples: 0 });
    crate::header::encode::lemma_block_len(header);
    crate::header::encode::lemma_header_reads_back(header);
    assert(file_of(audio_id, tags, puts).take(4096) =~= crate::header::encode::header_block(header));
    assert(header.chapters == held.chapters);
    assert(start.chapters[0] == 0);
    assert(header.chapters.take(1)[0] == start.chapters[0]);
    assert forall|block: u32| start.chapters.contains(block) <==> block == 0 by {
        if block == 0 {
            assert(start.chapters[0] == block);
        }
    }
}

/// A chapter starts when everything in front of it has been played.
pub proof fn lemma_a_chapter_starts_when_it_was_started(
    audio_id: crate::id::AudioId,
    tags: crate::writer::Tags<'_>,
    puts: Seq<crate::writer::carried::Put>,
    at: int,
    i: int,
)
    requires
        makes_a_file(audio_id, tags, puts),
        0 <= at < puts.len(),
        puts[at] is Chapter,
        0 <= i < crate::inspect::file_found(file_of(audio_id, tags, puts))->Ok_0.chapters.len(),
        crate::inspect::file_found(file_of(audio_id, tags, puts))->Ok_0.chapters[i].block.0
            == crate::writer::started(audio_id, tags.packet()).starts_at(puts, at),
    ensures
        plays(
            crate::inspect::file_found(file_of(audio_id, tags, puts))->Ok_0.chapters[i].start,
            crate::writer::carried::samples_of(
                crate::writer::carried::packets_of(puts.take(at)),
            ) as int,
        ),
{
    let start = crate::writer::started(audio_id, tags.packet());
    let held = start.put_all(puts)->0;
    let end = held.flushed().0;
    let block = start.starts_at(puts, at);
    let before = crate::writer::carried::packets_of(puts.take(at));
    lemma_everything_put_in_reads_back(audio_id, tags, puts);
    crate::writer::lemma_started(audio_id, tags);
    start.lemma_a_chapter_starts_with_the_packet_behind_it(puts, at);
    start.lemma_everything_put_in_is_carried(puts);
    held.lemma_flushed_grows();
    held.lemma_flushed_keeps();
    assert(end.pages.take(block + 2) =~= held.pages.take(block + 2));
    let front = end.pages.take(block + 2);
    assert(chapter_starts(end)[i].granule == granule_before(end, block));
    if block > 0 {
        assert(front.last() == end.pages[block + 1]);
        assert(granule_before(end, block) == crate::writer::granule_behind(0, before));
    } else {
        assert(before.len() == 0);
    }
    end.lemma_few_packets();
    crate::writer::carried::lemma_fewer_on_fewer_pages(end.pages, block + 2);
    crate::writer::carried::lemma_samples_add_up(before);
    crate::inspect::lemma_time_passes_at_the_rate(crate::writer::granule_behind(0, before));
}

/// Everything that is put into a file that has just been started is on its pages once it is closed.
proof fn lemma_everything_put_in_is_on_pages(start: Written, puts: Seq<crate::writer::carried::Put>)
    requires
        start.well_formed(),
        start.pages.len() == 2,
        start.packets.len() == 0,
        start.granule == 0,
        start.put_all(puts) is Some,
        start.put_all(puts)->0.flushed().1 is None,
    ensures
        ({
            let end = start.put_all(puts)->0.flushed().0;
            let packets = crate::writer::carried::packets_of(puts);
            &&& end.audio_id == start.audio_id
            &&& end.granule == crate::writer::granule_behind(0, packets)
            &&& crate::writer::carried::pages_carry(end.pages, packets)
            &&& crate::writer::carried::on_pages(end.pages) == crate::writer::carried::all_heard(
                crate::writer::bytes_of(packets),
            )
        }),
{
    let held = start.put_all(puts)->0;
    let packets = crate::writer::carried::packets_of(puts);
    let none = Seq::<crate::writer::Held>::empty();
    let heard = crate::writer::carried::all_heard(crate::writer::bytes_of(packets));
    start.lemma_everything_put_in_is_carried(puts);
    assert(none.skip(0) =~= start.packets);
    assert(none.take(0) =~= none);
    start.lemma_every_packet_put_in_is_carried(puts, none);
    assert(none + packets =~= packets);
    held.lemma_flushing_carries_everything();
    held.lemma_flushing_carries_every_packet(packets);
    assert(start.carried() =~= Seq::empty());
    assert(start.carried() + heard =~= heard);
}

/// A file whose last part is a packet is whole once it is closed: some audio stands behind its last
/// chapter.
pub proof fn lemma_a_file_that_ends_with_a_packet_is_whole(
    start: Written,
    puts: Seq<crate::writer::carried::Put>,
)
    requires
        start.well_formed(),
        puts.len() > 0,
        puts.last() is Packet,
        start.put_all(puts) is Some,
        start.put_all(puts)->0.flushed().1 is None,
    ensures
        is_whole(start.put_all(puts)->0.flushed().0),
{
    let before = start.put_all(puts.drop_last())->0;
    start.lemma_everything_put_in_is_carried(puts.drop_last());
    if let crate::writer::carried::Put::Packet(packet) = puts.last() {
        before.lemma_a_packet_gets_a_page(packet);
    }
    lemma_blocks(before);
}

/// The last chapter of a file starts at a block there is, or at the one that comes next.
proof fn lemma_blocks(written: Written)
    requires
        written.well_formed(),
    ensures
        written.len() / 4096 == written.pages.len() - 2,
        written.pages.len() > 2 ==> written.len() % 4096 == 0,
        written.pages.len() < 0x10_0000,
{
    lemma_page_lens(written);
    crate::writer::lemma_region_len(written.pages);
}

proof fn lemma_page_lens(written: Written)
    requires
        written.well_formed(),
    ensures
        forall|i: int|
            0 <= i < written.pages.len() ==> #[trigger] written.pages[i].len()
                == Written::page_target(i),
{
    assert forall|i: int| 0 <= i < written.pages.len() implies #[trigger] written.pages[i].len()
        == Written::page_target(i) by {
        assert(written.page_fits(i));
    }
}

/// Nothing that is put into a file is dropped. Start a file with tags that fit, put packets and chapters
/// into it and close it, with nothing refused: its pages behind the first two read back as pages of
/// exactly the packets that were put in, in order, each as it came but for the last one of a page, which
/// is padded to close it. Every page counts the samples of all packets up to its last one, and the bytes
/// are whole blocks as soon as there is any packet.
pub proof fn lemma_nothing_put_in_is_dropped(
    audio_id: crate::id::AudioId,
    tags: crate::writer::Tags<'_>,
    puts: Seq<crate::writer::carried::Put>,
    at: int,
)
    requires
        tags.fit(),
        crate::writer::started(audio_id, tags.packet()).put_all(puts) is Some,
        crate::writer::started(audio_id, tags.packet()).put_all(puts)->0.flushed().1 is None,
    ensures
        ({
            let end = crate::writer::started(audio_id, tags.packet()).put_all(puts)->0.flushed().0;
            let packets = crate::writer::carried::packets_of(puts);
            &&& crate::writer::carried::packets_on(end.pages) == packets.len()
            &&& packets.len() > 0 ==> crate::writer::region(end.pages).len() % 4096 == 0
            &&& 2 <= at < end.pages.len() ==> {
                let page = end.pages[at];
                let first = crate::writer::carried::packets_on(end.pages.take(at)) as int;
                let last = crate::writer::carried::packets_on(end.pages.take(at + 1)) as int;
                &&& 0 <= first < last <= packets.len()
                &&& crate::ogg::page::read_page(crate::writer::page_list(end.pages)[at]) == Ok::<
                    crate::ogg::page::Page,
                    crate::ogg::page::PageError,
                >(page.page())
                &&& crate::ogg::page::packets_in(page.page().lacing, page.page().body)
                    == page.packets
                &&& crate::writer::carried::page_carries(
                    page.packets,
                    crate::writer::bytes_of(packets.subrange(first, last)),
                )
                &&& page.granule == crate::writer::carried::samples_of(packets.take(last))
            }
        }),
{
    let start = crate::writer::started(audio_id, tags.packet());
    let held = start.put_all(puts)->0;
    let end = held.flushed().0;
    let packets = crate::writer::carried::packets_of(puts);
    crate::writer::lemma_started(audio_id, tags);
    start.lemma_everything_put_in_is_carried(puts);
    lemma_everything_put_in_is_on_pages(start, puts);
    held.lemma_flushed_keeps();
    lemma_blocks(end);
    crate::writer::carried::lemma_all_packets_are_on_pages(end.pages, packets);
    if 2 <= at < end.pages.len() {
        assert(end.page_fits(at));
        assert(end.pages[at].bytes() + Seq::empty() =~= end.pages[at].bytes());
        crate::ogg::builder::lemma_page_reads_back(end.pages[at], Seq::empty());
        crate::ogg::builder::lemma_packets_read_back(end.pages[at].packets);
        crate::writer::carried::lemma_a_page_carries_its_packets(end.pages, packets, at);
        end.lemma_few_packets();
        crate::writer::carried::lemma_samples_add_up(
            packets.take(crate::writer::carried::packets_on(end.pages.take(at + 1)) as int),
        );
    }
}

/// What a writer wrote validates. A writer was started with tags that fit, a digest nothing had been fed
/// to and a sink nothing had been handed to; packets and chapters were put into it, the last of them a
/// packet, and it was finalized, with nothing refused. Then the header block states the audio id, every
/// block of what was emitted is accepted against it, and the region as a whole is the one it describes:
/// as many pages as were emitted, as many samples as were put in, as many bytes as were emitted, and
/// every chapter of the header.
pub proof fn lemma_what_a_writer_wrote_validates<D: crate::digest::Sha1, F: crate::writer::PageSink>(
    writer: &crate::writer::TafWriter<D, F>,
    audio_id: crate::id::AudioId,
    tags: crate::writer::Tags<'_>,
    puts: Seq<crate::writer::carried::Put>,
    block: Seq<u8>,
    emitted: Seq<Seq<u8>>,
)
    requires
        tags.fit(),
        puts.len() > 0,
        puts.last() is Packet,
        crate::writer::started(audio_id, tags.packet()).put_all(puts) == Some(writer@),
        writer@.flushed().1 is None,
        writer.fed_before() == Seq::<u8>::empty(),
        writer.sunk_before() == Seq::<Seq<u8>>::empty(),
        ({
            let end = writer@.flushed().0;
            let header = end.header(D::hash(writer.fed_before() + crate::writer::region(end.pages)));
            &&& header.sha1.len() == 20
            &&& crate::header::encode::fits(header)
            &&& block == crate::header::encode::header_block(header)
            &&& emitted == writer.sunk_before() + crate::writer::page_list(end.pages)
        }),
    ensures
        ({
            let audio = crate::writer::file::flat(emitted);
            let stated = crate::header::read_header(block);
            let header = stated->Ok_0;
            let read = crate::reader::region_read(crate::reader::before_reading(header), audio, 0);
            let verdict = (read->Ok_0).0.ended(Some(D::hash(audio)));
            let summary = verdict->Ok_0;
            &&& stated is Ok
            &&& header.audio_id == audio_id
            &&& read is Ok
            &&& verdict is Ok
            &&& summary.pages == emitted.len()
            &&& summary.total_samples == crate::writer::carried::samples_of(
                crate::writer::carried::packets_of(puts),
            )
            &&& summary.audio_bytes == audio.len()
            &&& summary.chapters_seen == header.chapters.len()
        }),
{
    let start = crate::writer::started(audio_id, tags.packet());
    let end = writer@.flushed().0;
    let audio = crate::writer::region(end.pages);
    let packets = crate::writer::carried::packets_of(puts);
    let header = end.header(D::hash(audio));
    assert(writer.fed_before() + audio =~= audio);
    assert(emitted =~= crate::writer::page_list(end.pages));
    crate::writer::file::lemma_flat(end.pages);
    crate::writer::lemma_started(audio_id, tags);
    start.lemma_everything_put_in_is_carried(puts);
    lemma_everything_put_in_is_on_pages(start, puts);
    writer@.lemma_flushed_keeps();
    lemma_a_file_that_ends_with_a_packet_is_whole(start, puts);
    lemma_what_is_written_states_itself(end, D::hash(audio));
    lemma_what_is_written_validates(end, D::hash(audio));
    crate::writer::carried::lemma_all_packets_are_on_pages(end.pages, packets);
    end.lemma_few_packets();
    crate::writer::carried::lemma_samples_add_up(packets);
    lemma_blocks(end);
    lemma_few_chapters(end);
}

/// There are no more chapters than there are blocks they can start at.
proof fn lemma_few_chapters(written: Written)
    requires
        written.well_formed(),
    ensures
        written.chapters.len() <= written.chapters.last() + 1,
{
    lemma_chapter_at_least(written, written.chapters.len() - 1);
}

proof fn lemma_chapter_at_least(written: Written, at: int)
    requires
        written.well_formed(),
        0 <= at < written.chapters.len(),
    ensures
        written.chapters[at] >= at,
    decreases at,
{
    if at > 0 {
        lemma_chapter_at_least(written, at - 1);
    }
}

} // verus!
