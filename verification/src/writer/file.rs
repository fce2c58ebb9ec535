//! A TAF written into a file: a block that is filled in at the end, the audio region behind it as its
//! pages are closed, and the header block once everything is known.

use super::carried::Put;
use super::{PageList, PageSink, Refused, Stream, TafWriter, Tags, WriterError, Written};
use crate::digest::Sha1;
use crate::header::EncodeHeaderError;
use crate::id::AudioId;
use crate::ogg::{BuildError, Draft};
use vstd::prelude::*;

verus! {

/// What a file is written into: bytes from where it stands, over what is there. What it holds, where it
/// stands and when it fails are the implementation's to say.
pub trait Output: Sized {
    /// What it holds, from the front.
    closed spec fn content(&self) -> Seq<u8> {
        vstd::pervasive::arbitrary()
    }

    /// Where in that it stands.
    closed spec fn position(&self) -> nat {
        vstd::pervasive::arbitrary()
    }

    /// How many more of the calls below it takes before one of them fails, where one does.
    closed spec fn fails_after(&self) -> Option<nat> {
        vstd::pervasive::arbitrary()
    }

    /// What it says when it fails.
    closed spec fn trouble(&self) -> Seq<char> {
        vstd::pervasive::arbitrary()
    }

    /// Writes all of `bytes` where it stands, or some of them and says what kept it from the rest.
    fn write_all(&mut self, bytes: &[u8]) -> (result: Result<(), String>)
        ensures
            is_call(
                (old(self).fails_after(), old(self).trouble()),
                (final(self).fails_after(), final(self).trouble()),
                result,
            ),
            result is Ok ==> {
                &&& final(self).content() == written_at(
                    old(self).content(),
                    old(self).position(),
                    bytes@,
                )
                &&& final(self).position() == old(self).position() + bytes@.len()
            },
            result is Err ==> partly_written(
                final(self).content(),
                old(self).content(),
                old(self).position(),
                bytes@,
            ),
    ;

    /// Goes back to the front, or says what kept it from it.
    fn rewind(&mut self) -> (result: Result<(), String>)
        ensures
            is_call(
                (old(self).fails_after(), old(self).trouble()),
                (final(self).fails_after(), final(self).trouble()),
                result,
            ),
            final(self).content() == old(self).content(),
            result is Ok ==> final(self).position() == 0,
    ;

    /// Sees through what has been written, or says what kept it from it.
    fn flush(&mut self) -> (result: Result<(), String>)
        ensures
            is_call(
                (old(self).fails_after(), old(self).trouble()),
                (final(self).fails_after(), final(self).trouble()),
                result,
            ),
            final(self).content() == old(self).content(),
            result is Ok ==> final(self).position() == old(self).position(),
    ;
}

/// Whether a call that came to `result` failed where it had to: `before` and `after` are how many calls
/// there are before one fails and what is said then.
pub open spec fn is_call(
    before: (Option<nat>, Seq<char>),
    after: (Option<nat>, Seq<char>),
    result: Result<(), String>,
) -> bool {
    match result {
        Ok(()) => !fails_within(before.0, 1) && after == (less(before.0, 1), before.1),
        Err(why) => fails_within(before.0, 1) && why@ == before.1,
    }
}

/// Whether one of `count` calls fails.
pub open spec fn fails_within(fails_after: Option<nat>, count: nat) -> bool {
    fails_after matches Some(calls) && calls < count
}

/// How many more calls there are before one fails, once `count` have not.
pub open spec fn less(fails_after: Option<nat>, count: nat) -> Option<nat> {
    match fails_after {
        Some(calls) => Some((calls - count) as nat),
        None => None,
    }
}

/// `content` as far as `at`, with zeros where there was nothing.
pub open spec fn reaching(content: Seq<u8>, at: nat) -> Seq<u8> {
    if content.len() < at {
        content + Seq::new((at - content.len()) as nat, |i: int| 0u8)
    } else {
        content
    }
}

/// `content` with `bytes` written over it from `at` on, past its end where they reach past it.
pub open spec fn written_at(content: Seq<u8>, at: nat, bytes: Seq<u8>) -> Seq<u8> {
    if bytes.len() == 0 {
        content
    } else {
        let there = reaching(content, at);
        there.take(at as int) + bytes + if at + bytes.len() < there.len() {
            there.skip((at + bytes.len()) as int)
        } else {
            Seq::empty()
        }
    }
}

/// Whether `after` is `before` with some of `bytes` written over it from `at` on, from the first of
/// them.
pub open spec fn partly_written(after: Seq<u8>, before: Seq<u8>, at: nat, bytes: Seq<u8>) -> bool {
    exists|count: int|
        0 <= count <= bytes.len() && after == written_at(before, at, #[trigger] bytes.take(count))
}

/// Whether `after` is `before` with the first `whole` of `pieces` written over it from `at` on, some of
/// the next of them behind those, and nothing else.
pub open spec fn cut_short(
    after: Seq<u8>,
    before: Seq<u8>,
    at: nat,
    pieces: Seq<Seq<u8>>,
    whole: nat,
) -> bool {
    exists|count: int|
        0 <= count <= pieces[whole as int].len() && after == written_at(
            before,
            at,
            flat(pieces.take(whole as int)) + #[trigger] pieces[whole as int].take(count),
        )
}

/// What is written where the last writing ended is written as if it all had been written at once.
pub proof fn lemma_written_on(content: Seq<u8>, at: nat, first: Seq<u8>, second: Seq<u8>)
    ensures
        written_at(written_at(content, at, first), at + first.len(), second) == written_at(
            content,
            at,
            first + second,
        ),
{
    let once = written_at(content, at, first);
    if first.len() == 0 {
        assert(first + second =~= second);
    } else if second.len() == 0 {
        assert(first + second =~= first);
    } else {
        assert(written_at(once, at + first.len(), second) =~= written_at(
            content,
            at,
            first + second,
        ));
    }
}

proof fn lemma_cut_short(
    after: Seq<u8>,
    before: Seq<u8>,
    at: nat,
    pieces: Seq<Seq<u8>>,
    whole: nat,
)
    requires
        whole < pieces.len(),
        ({
            let front = flat(pieces.take(whole as int));
            partly_written(
                after,
                written_at(before, at, front),
                at + front.len(),
                pieces[whole as int],
            )
        }),
    ensures
        cut_short(after, before, at, pieces, whole),
{
    let front = flat(pieces.take(whole as int));
    let once = written_at(before, at, front);
    let piece = pieces[whole as int];
    let count = choose|count: int|
        0 <= count <= piece.len() && after == written_at(
            once,
            at + front.len(),
            #[trigger] piece.take(count),
        );
    lemma_written_on(before, at, front, piece.take(count));
}

/// A file at hand: the bytes of it, and where it stands.
#[derive(Debug)]
pub struct Buffer {
    bytes: Vec<u8>,
    at: usize,
}

impl Buffer {
    /// It stands at one of its bytes or behind them.
    #[verifier::type_invariant]
    spec fn holds(self) -> bool {
        self.at <= self.bytes@.len()
    }

    /// A file with nothing in it.
    pub fn new() -> (buffer: Self)
        ensures
            buffer.content() == Seq::<u8>::empty(),
            buffer.position() == 0,
            buffer.fails_after() is None,
    {
        Buffer { bytes: Vec::new(), at: 0 }
    }

    /// What it holds.
    pub fn into_bytes(self) -> (bytes: Vec<u8>)
        ensures
            bytes@ == self.content(),
    {
        self.bytes
    }
}

impl Output for Buffer {
    closed spec fn content(&self) -> Seq<u8> {
        self.bytes@
    }

    closed spec fn position(&self) -> nat {
        self.at as nat
    }

    open spec fn fails_after(&self) -> Option<nat> {
        None
    }

    open spec fn trouble(&self) -> Seq<char> {
        Seq::empty()
    }

    fn write_all(&mut self, bytes: &[u8]) -> (result: Result<(), String>) {
        proof {
            use_type_invariant(&*self);
        }
        let at: usize = self.at;
        let mut written: Vec<u8> = Vec::new();
        let kept = vstd::slice::slice_subrange(self.bytes.as_slice(), 0, at);
        crate::bytes::put(&mut written, kept);
        crate::bytes::put(&mut written, bytes);
        let reached: usize = written.len();
        if reached < self.bytes.len() {
            let rest = vstd::slice::slice_subrange(
                self.bytes.as_slice(),
                reached,
                self.bytes.len(),
            );
            crate::bytes::put(&mut written, rest);
        }
        assert(written@ =~= written_at(self.bytes@, at as nat, bytes@));
        *self = Buffer { bytes: written, at: reached };
        Ok(())
    }

    fn rewind(&mut self) -> (result: Result<(), String>) {
        self.at = 0;
        Ok(())
    }

    fn flush(&mut self) -> (result: Result<(), String>) {
        Ok(())
    }
}

/// Why a TAF could not be written into a file.
#[derive(Debug)]
#[non_exhaustive]
pub enum WriterIoError {
    /// The TAF could not be written.
    Writer(WriterError),
    /// The file could not be.
    Io(String),
}

impl WriterIoError {
    /// What the error says.
    pub open spec fn said(self) -> Seq<char> {
        match self {
            WriterIoError::Writer(error) => error.said(),
            WriterIoError::Io(why) => why@,
        }
    }

    /// What went wrong, in words.
    pub fn message(&self) -> (text: String)
        ensures
            text@ == self.said(),
    {
        match self {
            WriterIoError::Writer(error) => error.message(),
            WriterIoError::Io(why) => why.clone(),
        }
    }
}

/// The bytes of `pages`, one behind the other.
pub open spec fn flat(pages: Seq<Seq<u8>>) -> Seq<u8>
    decreases pages.len(),
{
    if pages.len() == 0 {
        Seq::empty()
    } else {
        flat(pages.drop_last()) + pages.last()
    }
}

/// Pages one behind the other are the region they make up.
pub proof fn lemma_flat(pages: Seq<Draft>)
    ensures
        flat(super::page_list(pages)) == super::region(pages),
    decreases pages.len(),
{
    if pages.len() > 0 {
        lemma_flat(pages.drop_last());
        assert(super::page_list(pages).drop_last() =~= super::page_list(pages.drop_last()));
    }
}

/// Writes `pages` behind each other into `out`, up to the first that cannot be.
fn put_pages<O: Output>(out: &mut O, pages: &Vec<Vec<u8>>) -> (error: Option<String>)
    ensures
        match error {
            None => {
                &&& !fails_within(old(out).fails_after(), pages@.len())
                &&& final(out).fails_after() == less(old(out).fails_after(), pages@.len())
                &&& final(out).trouble() == old(out).trouble()
                &&& final(out).content() == written_at(
                    old(out).content(),
                    old(out).position(),
                    flat(listed(pages@)),
                )
                &&& final(out).position() == old(out).position() + flat(listed(pages@)).len()
            },
            Some(why) => {
                &&& fails_within(old(out).fails_after(), pages@.len())
                &&& why@ == old(out).trouble()
                &&& cut_short(
                    final(out).content(),
                    old(out).content(),
                    old(out).position(),
                    listed(pages@),
                    old(out).fails_after()->0,
                )
            },
        },
{
    let ghost all = listed(pages@);
    let mut at: usize = 0;
    while at < pages.len()
        invariant
            at <= pages@.len(),
            all == listed(pages@),
            !fails_within(old(out).fails_after(), at as nat),
            out.fails_after() == less(old(out).fails_after(), at as nat),
            out.trouble() == old(out).trouble(),
            out.content() == written_at(
                old(out).content(),
                old(out).position(),
                flat(all.take(at as int)),
            ),
            out.position() == old(out).position() + flat(all.take(at as int)).len(),
        decreases pages@.len() - at,
    {
        proof {
            assert(all.take(at + 1).drop_last() =~= all.take(at as int));
            assert(all[at as int] == pages@[at as int]@);
            lemma_written_on(
                old(out).content(),
                old(out).position(),
                flat(all.take(at as int)),
                all[at as int],
            );
        }
        if let Err(why) = out.write_all(pages[at].as_slice()) {
            proof {
                lemma_cut_short(
                    out.content(),
                    old(out).content(),
                    old(out).position(),
                    all,
                    at as nat,
                );
            }
            return Some(why);
        }
        at += 1;
    }
    assert(all.take(at as int) =~= all);
    None
}

/// The bytes of each of `pages`.
spec fn listed(pages: Seq<Vec<u8>>) -> Seq<Seq<u8>> {
    pages.map_values(|page: Vec<u8>| page@)
}

/// A TAF being written into a file.
pub struct StdTafWriter<D: Sha1, O: Output> {
    stream: Stream<D>,
    out: O,
    began: Ghost<(Seq<u8>, nat)>,
    whole: Ghost<bool>,
}

impl<D: Sha1, O: Output> View for StdTafWriter<D, O> {
    type V = Written;

    closed spec fn view(&self) -> Written {
        self.stream@
    }
}

/// What an operation that came to `result` comes to, where writing came to `error`: a file that could
/// not be written comes first.
fn outcome<T>(error: Option<String>, result: Result<T, WriterError>) -> (said: Result<
    T,
    WriterIoError,
>)
    ensures
        match (error, result) {
            (Some(why), _) => said == Err::<T, WriterIoError>(WriterIoError::Io(why)),
            (None, Ok(value)) => said == Ok::<T, WriterIoError>(value),
            (None, Err(error)) => said == Err::<T, WriterIoError>(WriterIoError::Writer(error)),
        },
{
    match error {
        Some(why) => Err(WriterIoError::Io(why)),
        None => match result {
            Ok(value) => Ok(value),
            Err(error) => Err(WriterIoError::Writer(error)),
        },
    }
}

/// The block a file begins with until its header is known.
pub open spec fn blank() -> Seq<u8> {
    Seq::new(4096, |i: int| 0u8)
}

/// Whether `error` is a file that said `trouble`.
pub open spec fn is_trouble(error: WriterIoError, trouble: Seq<char>) -> bool {
    error matches WriterIoError::Io(why) && why@ == trouble
}

/// Whether `result` is what a writer refused, or that it refused nothing.
pub open spec fn is_refusal(result: Result<(), WriterIoError>, refused: Option<WriterError>) -> bool {
    match refused {
        None => result is Ok,
        Some(error) => result == Err::<(), WriterIoError>(WriterIoError::Writer(error)),
    }
}

/// The pages of `next` that a file with the pages of `before` does not have, each as its bytes.
pub open spec fn closed_since(before: Written, next: Written) -> Seq<Seq<u8>> {
    super::page_list(next.pages).skip(before.pages.len() as int)
}

impl<D: Sha1, O: Output> StdTafWriter<D, O> {
    /// What holds of every writer.
    pub closed spec fn well_formed(&self) -> bool {
        &&& self.stream.well_formed()
        &&& self.stream.digest.fed() == self.stream.fed_before@ + super::region(self.stream.pages@)
        &&& self.whole@ ==> {
            let written = blank() + super::region(self.stream.pages@);
            &&& self.out.content() == written_at(self.began@.0, self.began@.1, written)
            &&& self.out.position() == self.began@.1 + written.len()
        }
    }

    /// What the file holds.
    pub closed spec fn content(&self) -> Seq<u8> {
        self.out.content()
    }

    /// Where in that it stands.
    pub closed spec fn position(&self) -> nat {
        self.out.position()
    }

    /// What the file held before anything was written into it, and where in that it stood.
    pub closed spec fn began(&self) -> (Seq<u8>, nat) {
        self.began@
    }

    /// Whether nothing that was to be written into the file has failed.
    pub closed spec fn whole(&self) -> bool {
        self.whole@
    }

    /// How many more calls the file takes before one of them fails, where one does.
    pub closed spec fn fails_after(&self) -> Option<nat> {
        self.out.fails_after()
    }

    /// What the file says when it fails.
    pub closed spec fn trouble(&self) -> Seq<char> {
        self.out.trouble()
    }

    /// What had been fed to the digest before the writer was made.
    pub closed spec fn fed_before(&self) -> Seq<u8> {
        self.stream.fed_before@
    }

    /// While nothing has failed, the file holds the block that is filled in at the end and every page
    /// there is, written where it stood and over what it held, and it stands behind them.
    pub proof fn lemma_in_step(&self)
        requires
            self.well_formed(),
        ensures
            self@.well_formed(),
            self.whole() ==> {
                let written = blank() + super::region(self@.pages);
                &&& self.content() == written_at(self.began().0, self.began().1, written)
                &&& self.position() == self.began().1 + written.len()
            },
    {
    }

    /// A file that was empty holds that block and every page there is, and nothing else.
    pub proof fn lemma_an_empty_file_holds_the_block_and_the_pages(&self)
        requires
            self.well_formed(),
            self.whole(),
            self.began() == (Seq::<u8>::empty(), 0nat),
        ensures
            self.content() == blank() + super::region(self@.pages),
    {
        let written = blank() + super::region(self@.pages);
        assert(written_at(Seq::empty(), 0, written) =~= written);
    }

    /// What an operation leaves behind that took the writer from `old` to here and came to `result`,
    /// where the model of it went to `next` and refused `refused`. Every page it closed has gone into
    /// the file, or the file has failed and nothing has been written into it since.
    pub open spec fn came_to(
        &self,
        old: &Self,
        next: Written,
        refused: Option<WriterError>,
        result: Result<(), WriterIoError>,
    ) -> bool {
        let pieces = closed_since(old@, next);
        &&& self@ == next
        &&& self.began() == old.began()
        &&& self.fed_before() == old.fed_before()
        &&& if fails_within(old.fails_after(), pieces.len()) {
            &&& result is Err && is_trouble(result->Err_0, old.trouble())
            &&& !self.whole()
            &&& cut_short(
                self.content(),
                old.content(),
                old.position(),
                pieces,
                old.fails_after()->0,
            )
        } else {
            &&& is_refusal(result, refused)
            &&& self.whole() == old.whole()
            &&& self.fails_after() == less(old.fails_after(), pieces.len())
            &&& self.trouble() == old.trouble()
            &&& self.content() == written_at(old.content(), old.position(), flat(pieces))
            &&& self.position() == old.position() + flat(pieces).len()
        }
    }

    /// Writes the pages of `closed` into the file, which are those that have been closed since there
    /// were those of `from`, and says what kept one from it.
    fn write(&mut self, closed: PageList, Ghost(from): Ghost<Written>) -> (error: Option<String>)
        requires
            old(self).stream.well_formed(),
            old(self).stream.digest.fed() == old(self).stream.fed_before@ + super::region(
                old(self).stream.pages@,
            ),
            from.pages.len() <= old(self)@.pages.len(),
            old(self)@.pages.take(from.pages.len() as int) == from.pages,
            old(self).whole@ ==> {
                let written = blank() + super::region(from.pages);
                &&& old(self).out.content() == written_at(
                    old(self).began@.0,
                    old(self).began@.1,
                    written,
                )
                &&& old(self).out.position() == old(self).began@.1 + written.len()
            },
            closed.pages() == closed_since(from, old(self)@),
        ensures
            final(self).well_formed(),
            final(self).stream == old(self).stream,
            final(self).began == old(self).began,
            ({
                let pieces = closed_since(from, old(self)@);
                match error {
                    None => {
                        &&& !fails_within(old(self).fails_after(), pieces.len())
                        &&& final(self).whole@ == old(self).whole@
                        &&& final(self).fails_after() == less(old(self).fails_after(), pieces.len())
                        &&& final(self).trouble() == old(self).trouble()
                        &&& final(self).content() == written_at(
                            old(self).content(),
                            old(self).position(),
                            flat(pieces),
                        )
                        &&& final(self).position() == old(self).position() + flat(pieces).len()
                    },
                    Some(why) => {
                        &&& fails_within(old(self).fails_after(), pieces.len())
                        &&& why@ == old(self).trouble()
                        &&& !final(self).whole@
                        &&& cut_short(
                            final(self).content(),
                            old(self).content(),
                            old(self).position(),
                            pieces,
                            old(self).fails_after()->0,
                        )
                    },
                }
            }),
    {
        let ghost whole = self.whole@;
        proof {
            assert(listed(closed.list@) =~= closed_since(from, self@));
            lemma_region_since(from, self@);
            lemma_written_on(
                self.began@.0,
                self.began@.1,
                blank() + super::region(from.pages),
                flat(closed_since(from, self@)),
            );
            assert(blank() + super::region(from.pages) + flat(closed_since(from, self@))
                =~= blank() + super::region(self@.pages));
        }
        let error: Option<String> = put_pages(&mut self.out, &closed.list);
        proof {
            self.whole@ = whole && error is None;
        }
        error
    }

    /// Adds `packet`, which carries `samples` samples.
    pub fn add_packet(&mut self, packet: &[u8], samples: u32) -> (result: Result<
        (),
        WriterIoError,
    >)
        requires
            old(self).well_formed(),
        ensures
            final(self).well_formed(),
            ({
                let (next, refused) = old(self)@.added(super::Held { bytes: packet@, samples });
                final(self).came_to(old(self), next, refused, result)
            }),
    {
        let ghost from = self@;
        let mut closed: PageList = self.none_closed();
        let added = self.stream.add_packet(packet, samples, &mut closed);
        proof {
            old(self)@.lemma_added_grows(super::Held { bytes: packet@, samples });
        }
        let error: Option<String> = self.write(closed, Ghost(from));
        outcome(error, added)
    }

    /// Starts a chapter with the next packet.
    pub fn begin_chapter(&mut self) -> (result: Result<(), WriterIoError>)
        requires
            old(self).well_formed(),
        ensures
            final(self).well_formed(),
            ({
                let (next, refused) = old(self)@.begun();
                final(self).came_to(old(self), next, refused, result)
            }),
    {
        let ghost from = self@;
        let mut closed: PageList = self.none_closed();
        let begun = self.stream.begin_chapter(&mut closed);
        proof {
            old(self)@.lemma_flushed_grows();
        }
        let error: Option<String> = self.write(closed, Ghost(from));
        outcome(error, begun)
    }

    /// A list for the pages that are closed from here on.
    fn none_closed(&mut self) -> (closed: PageList)
        requires
            old(self).well_formed(),
        ensures
            final(self).well_formed(),
            final(self)@ == old(self)@,
            final(self).stream.pages == old(self).stream.pages,
            final(self).stream.fed_before == old(self).stream.fed_before,
            final(self).stream.sunk_before@ == (
                Seq::<Seq<u8>>::empty(),
                old(self).stream.pages@.len(),
            ),
            final(self).stream.in_step(&closed),
            final(self).out == old(self).out,
            final(self).began == old(self).began,
            final(self).whole == old(self).whole,
    {
        let ghost count = self.stream.pages@.len();
        let closed = PageList::new();
        self.stream.sunk_before = Ghost((Seq::empty(), count));
        assert(closed.pages() =~= super::handed_over(
            self.stream.sunk_before@,
            self.stream.pages@,
        ));
        closed
    }

    /// Closes everything that is held, fills in the header block, and hands the file back. The file
    /// comes back where that fails too, with what was written into it up to there.
    pub fn finalize(self) -> (result: Result<O, Refused<WriterIoError, O>>)
        requires
            self.well_formed(),
        ensures
            ({
                let (next, refused) = self@.flushed();
                let header = next.header(D::hash(self.fed_before() + super::region(next.pages)));
                let block = crate::header::encode::header_block(header);
                let pieces = closed_since(self@, next);
                let written = written_at(self.content(), self.position(), flat(pieces));
                &&& refused is None ==> header.sha1.len() == 20
                &&& if fails_within(self.fails_after(), pieces.len()) {
                    &&& result is Err && is_trouble(result->Err_0.error, self.trouble())
                    &&& cut_short(
                        result->Err_0.back.content(),
                        self.content(),
                        self.position(),
                        pieces,
                        self.fails_after()->0,
                    )
                } else if refused is Some {
                    &&& result is Err && result->Err_0.error == WriterIoError::Writer(refused->0)
                    &&& result->Err_0.back.content() == written
                } else if !crate::header::encode::fits(header) {
                    &&& result is Err && result->Err_0.error == WriterIoError::Writer(
                        WriterError::Header(EncodeHeaderError::TooManyChapters),
                    )
                    &&& result->Err_0.back.content() == written
                } else if fails_within(self.fails_after(), pieces.len() + 1) {
                    &&& result is Err && is_trouble(result->Err_0.error, self.trouble())
                    &&& result->Err_0.back.content() == written
                } else if fails_within(self.fails_after(), pieces.len() + 2) {
                    &&& result is Err && is_trouble(result->Err_0.error, self.trouble())
                    &&& partly_written(result->Err_0.back.content(), written, 0, block)
                } else if fails_within(self.fails_after(), pieces.len() + 3) {
                    &&& result is Err && is_trouble(result->Err_0.error, self.trouble())
                    &&& result->Err_0.back.content() == written_at(written, 0, block)
                } else {
                    &&& result is Ok
                    &&& result->Ok_0.content() == written_at(written, 0, block)
                    &&& self.whole() ==> result->Ok_0.content() == written_at(
                        written_at(
                            self.began().0,
                            self.began().1,
                            blank() + super::region(next.pages),
                        ),
                        0,
                        block,
                    )
                }
            }),
    {
        let mut writer: StdTafWriter<D, O> = self;
        let ghost next = writer@.flushed().0;
        let mut closed: PageList = writer.none_closed();
        let StdTafWriter { stream, out, .. } = writer;
        let finished = stream.finish(&mut closed);
        proof {
            self@.lemma_flushed_grows();
            assert(listed(closed.list@) =~= closed_since(self@, next));
            self.lemma_all_written(next);
        }
        let mut out: O = out;
        let error: Option<String> = put_pages(&mut out, &closed.list);
        let block: [u8; 4096] = match outcome(error, finished) {
            Err(error) => {
                return Err(Refused { error, back: out });
            },
            Ok(block) => block,
        };
        if let Err(why) = out.rewind() {
            return Err(Refused { error: WriterIoError::Io(why), back: out });
        }
        if let Err(why) = out.write_all(block.as_slice()) {
            return Err(Refused { error: WriterIoError::Io(why), back: out });
        }
        if let Err(why) = out.flush() {
            return Err(Refused { error: WriterIoError::Io(why), back: out });
        }
        Ok(out)
    }

    /// What is written into a file that nothing has failed of is behind what has been.
    proof fn lemma_all_written(&self, next: Written)
        requires
            self.well_formed(),
            self@.pages.len() <= next.pages.len(),
            next.pages.take(self@.pages.len() as int) == self@.pages,
        ensures
            self.whole() ==> written_at(
                self.content(),
                self.position(),
                flat(closed_since(self@, next)),
            ) == written_at(
                self.began().0,
                self.began().1,
                blank() + super::region(next.pages),
            ),
    {
        let before = blank() + super::region(self@.pages);
        let since = flat(closed_since(self@, next));
        lemma_region_since(self@, next);
        lemma_written_on(self.began().0, self.began().1, before, since);
        assert(before + since =~= blank() + super::region(next.pages));
    }
}

proof fn lemma_region_in_two(first: Seq<Draft>, second: Seq<Draft>)
    ensures
        super::region(first + second) == super::region(first) + super::region(second),
    decreases second.len(),
{
    if second.len() == 0 {
        assert(first + second =~= first);
        assert(super::region(first) + super::region(second) =~= super::region(first));
    } else {
        lemma_region_in_two(first, second.drop_last());
        assert((first + second).drop_last() =~= first + second.drop_last());
        assert(super::region(first + second) =~= super::region(first) + super::region(second));
    }
}

proof fn lemma_region_since(before: Written, next: Written)
    requires
        before.pages.len() <= next.pages.len(),
        next.pages.take(before.pages.len() as int) == before.pages,
    ensures
        closed_since(before, next).len() == next.pages.len() - before.pages.len(),
        super::region(before.pages) + flat(closed_since(before, next)) == super::region(next.pages),
{
    let new = next.pages.skip(before.pages.len() as int);
    assert(closed_since(before, next) =~= super::page_list(new));
    lemma_flat(new);
    assert(before.pages + new =~= next.pages);
    lemma_region_in_two(before.pages, new);
}

/// What is written first, into a file that is started: the block that is filled in at the end, and the
/// two pages that open the stream.
pub open spec fn opening(audio_id: AudioId, tags: Seq<u8>) -> Seq<Seq<u8>> {
    seq![blank()] + super::page_list(super::started(audio_id, tags).pages)
}

proof fn lemma_flat_of_one(piece: Seq<u8>)
    ensures
        flat(seq![piece]) == piece,
{
    assert(seq![piece].drop_last() =~= Seq::empty());
    assert(flat(seq![piece].drop_last()) + piece =~= piece);
}

proof fn lemma_flat_in_two(first: Seq<Seq<u8>>, second: Seq<Seq<u8>>)
    ensures
        flat(first + second) == flat(first) + flat(second),
    decreases second.len(),
{
    if second.len() == 0 {
        assert(first + second =~= first);
        assert(flat(first) + flat(second) =~= flat(first));
    } else {
        lemma_flat_in_two(first, second.drop_last());
        assert((first + second).drop_last() =~= first + second.drop_last());
        assert(flat(first + second) =~= flat(first) + flat(second));
    }
}

/// What is cut short behind the block that is filled in at the end is cut short of all of it.
proof fn lemma_cut_short_behind(
    after: Seq<u8>,
    before: Seq<u8>,
    at: nat,
    first: Seq<u8>,
    pieces: Seq<Seq<u8>>,
    whole: nat,
)
    requires
        whole < pieces.len(),
        cut_short(after, written_at(before, at, first), at + first.len(), pieces, whole),
    ensures
        cut_short(after, before, at, seq![first] + pieces, whole + 1),
{
    let all = seq![first] + pieces;
    let piece = pieces[whole as int];
    let front = flat(pieces.take(whole as int));
    let count = choose|count: int|
        0 <= count <= piece.len() && after == written_at(
            written_at(before, at, first),
            at + first.len(),
            front + #[trigger] piece.take(count),
        );
    lemma_written_on(before, at, first, front + piece.take(count));
    let next = whole as int + 1;
    assert(all.take(next) =~= seq![first] + pieces.take(whole as int));
    lemma_flat_in_two(seq![first], pieces.take(whole as int));
    lemma_flat_of_one(first);
    assert(all[next] == piece);
    assert(first + (front + piece.take(count)) =~= flat(all.take(next)) + all[next].take(count));
}

/// Starts a TAF in the file `out`, behind a block that is filled in at the end. The file comes back
/// where that fails, with what was written into it up to there: where `tags` do not fit the packet they
/// are written as, that block and nothing else.
pub fn write_taf<D: Sha1, O: Output>(
    digest: D,
    audio_id: AudioId,
    tags: Tags<'_>,
    out: O,
) -> (result: Result<StdTafWriter<D, O>, Refused<WriterIoError, O>>)
    ensures
        if fails_within(out.fails_after(), 1) {
            &&& result is Err && is_trouble(result->Err_0.error, out.trouble())
            &&& partly_written(
                result->Err_0.back.content(),
                out.content(),
                out.position(),
                blank(),
            )
        } else if !tags.fit() {
            &&& result is Err && result->Err_0.error == WriterIoError::Writer(
                WriterError::Build(BuildError::TagsTooLong),
            )
            &&& result->Err_0.back.content() == written_at(out.content(), out.position(), blank())
            &&& result->Err_0.back.position() == out.position() + 4096
            &&& result->Err_0.back.fails_after() == less(out.fails_after(), 1)
        } else if fails_within(out.fails_after(), 3) {
            &&& result is Err && is_trouble(result->Err_0.error, out.trouble())
            &&& cut_short(
                result->Err_0.back.content(),
                out.content(),
                out.position(),
                opening(audio_id, tags.packet()),
                out.fails_after()->0,
            )
        } else {
            &&& result is Ok
            &&& ({
                let writer = result->Ok_0;
                let written = blank() + super::region(
                    super::started(audio_id, tags.packet()).pages,
                );
                &&& writer.well_formed()
                &&& writer.whole()
                &&& writer@ == super::started(audio_id, tags.packet())
                &&& writer.began() == (out.content(), out.position())
                &&& writer.content() == written_at(out.content(), out.position(), written)
                &&& writer.position() == out.position() + written.len()
                &&& writer.fed_before() == digest.fed()
                &&& writer.fails_after() == less(out.fails_after(), 3)
                &&& writer.trouble() == out.trouble()
            })
        },
{
    let ghost began = (out.content(), out.position());
    let ghost fails = out.fails_after();
    let mut out: O = out;
    let zeros: [u8; 4096] = [0; 4096];
    assert(zeros@ =~= blank());
    if let Err(why) = out.write_all(zeros.as_slice()) {
        return Err(Refused { error: WriterIoError::Io(why), back: out });
    }
    let mut opened: PageList = PageList::new();
    let started = Stream::start(digest, audio_id, tags, &mut opened);
    proof {
        let pages = if started is Ok {
            super::started(audio_id, tags.packet()).pages
        } else {
            Seq::empty()
        };
        assert(super::handed_over((Seq::empty(), 0), pages) =~= super::page_list(pages));
        assert(listed(opened.list@) =~= super::page_list(pages));
        lemma_flat(pages);
        lemma_written_on(began.0, began.1, blank(), super::region(pages));
    }
    let error: Option<String> = put_pages(&mut out, &opened.list);
    proof {
        if error is Some {
            lemma_cut_short_behind(
                out.content(),
                began.0,
                began.1,
                blank(),
                super::page_list(super::started(audio_id, tags.packet()).pages),
                (fails->0 - 1) as nat,
            );
        }
    }
    match outcome(error, started) {
        Err(error) => Err(Refused { error, back: out }),
        Ok(stream) => Ok(StdTafWriter { stream, out, began: Ghost(began), whole: Ghost(true) }),
    }
}

/// A file that stood at its end when it was begun and is finished holds the header block at its front,
/// what is left of what it held and of the block that was kept free, and every page. One that was empty
/// holds the header block and every page, and nothing else.
pub proof fn lemma_a_file_begun_at_its_end(content: Seq<u8>, region: Seq<u8>, block: Seq<u8>)
    requires
        block.len() == 4096,
    ensures
        written_at(written_at(content, content.len(), blank() + region), 0, block) == block + (content
            + blank()).skip(4096) + region,
        content.len() == 0 ==> written_at(
            written_at(content, content.len(), blank() + region),
            0,
            block,
        ) == block + region,
{
    let written = written_at(content, content.len(), blank() + region);
    assert(written =~= content + blank() + region);
    assert(written_at(written, 0, block) =~= block + (content + blank()).skip(4096) + region);
    assert(content.len() == 0 ==> written_at(written, 0, block) =~= block + region);
}

/// A file gains exactly the pages that are emitted where the same is put into a writer that emits them:
/// all of them in order, or those in front of the one the file fails at and some of that one. What is
/// put in comes to the same, unless the file fails.
pub proof fn lemma_a_file_gains_what_is_emitted<D: Sha1, F: PageSink, O: Output>(
    emitting: &TafWriter<D, F>,
    emitted: &TafWriter<D, F>,
    writing: &StdTafWriter<D, O>,
    wrote: &StdTafWriter<D, O>,
    put: Put,
    result: Result<(), WriterIoError>,
)
    requires
        emitting.well_formed(),
        emitted.well_formed(),
        emitted.sunk_before() == emitting.sunk_before(),
        emitting@ == writing@,
        emitted@ == emitting@.put(put).0,
        wrote.came_to(writing, writing@.put(put).0, writing@.put(put).1, result),
    ensures
        ({
            let pages = emitted.sunk().skip(emitting.sunk().len() as int);
            &&& emitted.sunk() == emitting.sunk() + pages
            &&& if fails_within(writing.fails_after(), pages.len()) {
                &&& result is Err && is_trouble(result->Err_0, writing.trouble())
                &&& cut_short(
                    wrote.content(),
                    writing.content(),
                    writing.position(),
                    pages,
                    writing.fails_after()->0,
                )
            } else {
                &&& is_refusal(result, emitting@.put(put).1)
                &&& wrote.content() == written_at(
                    writing.content(),
                    writing.position(),
                    flat(pages),
                )
            }
        }),
{
    emitting.lemma_in_step();
    emitted.lemma_in_step();
    match put {
        Put::Packet(packet) => emitting@.lemma_added_grows(packet),
        Put::Chapter => emitting@.lemma_flushed_grows(),
    }
    let before = emitting@.pages;
    let after = emitted@.pages;
    let pages = emitted.sunk().skip(emitting.sunk().len() as int);
    assert(super::page_list(after).take(before.len() as int) =~= super::page_list(
        after.take(before.len() as int),
    ));
    assert(pages =~= closed_since(writing@, emitted@));
    assert(emitted.sunk() =~= emitting.sunk() + pages);
}

/// What is written lies where it was written: every byte of it, with the ones around it as they were, and
/// zeros where there was nothing.
pub proof fn lemma_what_is_written_lies_where_it_was_written(
    content: Seq<u8>,
    at: nat,
    bytes: Seq<u8>,
    i: int,
)
    requires
        bytes.len() > 0,
        0 <= i < written_at(content, at, bytes).len(),
    ensures
        ({
            let written = written_at(content, at, bytes);
            &&& written.len() == (if at + bytes.len() > content.len() {
                at + bytes.len()
            } else {
                content.len()
            })
            &&& at <= i < at + bytes.len() ==> written[i] == bytes[i - at]
            &&& !(at <= i < at + bytes.len()) ==> written[i] == (if i < content.len() {
                content[i]
            } else {
                0
            })
        }),
{
}

/// Nothing written changes nothing.
pub proof fn lemma_nothing_written_changes_nothing(content: Seq<u8>, at: nat)
    ensures
        written_at(content, at, Seq::empty()) == content,
{
}

/// Pages lie one behind the other.
pub proof fn lemma_pages_lie_one_behind_the_other(pages: Seq<Seq<u8>>, page: Seq<u8>)
    ensures
        flat(Seq::empty()) == Seq::<u8>::empty(),
        flat(pages.push(page)) == flat(pages) + page,
        blank().len() == 4096,
        forall|i: int| 0 <= i < 4096 ==> #[trigger] blank()[i] == 0,
{
    assert(pages.push(page).drop_last() =~= pages);
}

} // verus!
