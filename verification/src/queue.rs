//! The queue of books behind a window: the book being edited, the books it joins, and the batch that
//! converts them.
//!
//! Nothing here draws, converts or reads a file. A window hands over what a person did and what a
//! running batch said, and reads back what it shows.

use crate::collision::{Collision, CollisionError};
use crate::duration::{clock, Duration};
use crate::job::JobOutcome;
use crate::plan::{BookPlan, Planned};
use crate::text::{around, put_decimal};
use crate::worker::BookFailure;
use vstd::prelude::*;
use vstd::string::StringExecFns;

verus! {

/// Where a book is: waiting, running, or what it came to.
#[derive(Debug)]
pub enum BookState {
    /// Queued, and nothing has been done to it.
    Ready,
    /// Converting right now.
    Converting {
        /// How much audio has gone into the file, in frames of one channel at 48 kHz.
        samples_done: u64,
    },
    /// Converted.
    Done {
        /// What was written, how long it plays and how many chapters it holds.
        result_line: String,
    },
    /// Did not convert.
    Failed {
        /// Why, and that nothing half-written was left behind.
        message: String,
    },
    /// Stopped, before or during the conversion.
    Cancelled,
}

/// Where a book is.
#[verifier::ext_equal]
pub enum Stage {
    /// Queued.
    Ready,
    /// Converting, with this much audio in the file.
    Converting(u64),
    /// Converted, with this said about it.
    Done(Seq<char>),
    /// Not converted, with this said about it.
    Failed(Seq<char>),
    /// Stopped.
    Cancelled,
}

impl View for BookState {
    type V = Stage;

    open spec fn view(&self) -> Stage {
        match self {
            BookState::Ready => Stage::Ready,
            BookState::Converting { samples_done } => Stage::Converting(*samples_done),
            BookState::Done { result_line } => Stage::Done(result_line@),
            BookState::Failed { message } => Stage::Failed(message@),
            BookState::Cancelled => Stage::Cancelled,
        }
    }
}

impl Stage {
    /// What a window calls it.
    pub open spec fn called(self) -> Seq<char> {
        match self {
            Stage::Ready => "ready"@,
            Stage::Converting(_) => "converting"@,
            Stage::Done(_) => "done"@,
            Stage::Failed(_) => "failed"@,
            Stage::Cancelled => "cancelled"@,
        }
    }
}

impl BookState {
    /// What a window calls this state.
    pub fn name(&self) -> (name: &'static str)
        ensures
            name@ == self@.called(),
    {
        match self {
            BookState::Ready => "ready",
            BookState::Converting { .. } => "converting",
            BookState::Done { .. } => "done",
            BookState::Failed { .. } => "failed",
            BookState::Cancelled => "cancelled",
        }
    }

    /// How much audio has gone into the file so far, and none for a book that is not running.
    pub fn samples_done(&self) -> (samples: u64)
        ensures
            samples == (match self@ {
                Stage::Converting(samples) => samples,
                _ => 0,
            }),
    {
        match self {
            BookState::Converting { samples_done } => *samples_done,
            _ => 0,
        }
    }
}

/// A book in the queue: what it will convert to, how long it says it plays, and where it is.
#[derive(Debug)]
pub struct Book {
    /// The conversion it was captured as.
    pub plan: BookPlan,
    /// How long the book states it plays, where every one of its files does.
    pub probed: Option<Duration>,
    /// What the book is doing, or what it came to.
    pub state: BookState,
}

/// A book.
#[verifier::ext_equal]
pub struct Entry {
    /// The conversion.
    pub plan: Planned,
    /// The length it states.
    pub probed: Option<Duration>,
    /// Where it is.
    pub stage: Stage,
}

impl View for Book {
    type V = Entry;

    open spec fn view(&self) -> Entry {
        Entry { plan: self.plan@, probed: self.probed, stage: self.state@ }
    }
}

/// How far the bar of a book goes.
#[derive(Debug, Clone, Copy, PartialEq, Eq, Structural)]
pub enum Bar {
    /// There is no length to count against, so there is a stripe instead of a percent.
    Striped,
    /// This much of that much, which is less than 99 of a hundred.
    Part {
        /// How much is in.
        done: u128,
        /// How much there is.
        of: u128,
    },
    /// Not quite full: the last hundredth is filled in by the conversion saying that it is done.
    NearlyDone,
}

/// The frames of `samples` and the frames of a length, brought onto one scale.
pub open spec fn scaled(samples: u64, length: Duration) -> (nat, nat) {
    (samples as nat * 1_000_000_000, length.in_nanos() * 48_000)
}

impl Entry {
    /// What a row says under the title: how many files the book holds, and how long they play where
    /// every one of them states it.
    pub open spec fn meta(self) -> Seq<char> {
        let files = self.plan.job.inputs.len();
        let held = if files == 1 {
            "1 file"@
        } else {
            ""@ + crate::text::decimal(files) + " files"@
        };
        match self.probed {
            Some(length) => held + " · "@ + crate::duration::on_clock(length.secs as nat),
            None => held,
        }
    }

    /// What a row says the book is doing or came to.
    pub open spec fn result(self) -> Seq<char> {
        match self.stage {
            Stage::Ready => Seq::empty(),
            Stage::Converting(samples) => crate::duration::on_clock((samples / 48_000) as nat)
                + " encoded"@,
            Stage::Done(line) => line,
            Stage::Failed(message) => message,
            Stage::Cancelled => with_removed_note("the conversion was stopped"@),
        }
    }

    /// How far the bar goes.
    pub open spec fn progress(self) -> Bar {
        match self.probed {
            None => Bar::Striped,
            Some(length) => {
                let samples = match self.stage {
                    Stage::Converting(samples) => samples,
                    _ => 0,
                };
                let (done, of) = scaled(samples, length);
                if of == 0 {
                    Bar::Striped
                } else if done * 100 >= of * 99 {
                    Bar::NearlyDone
                } else {
                    Bar::Part { done: done as u128, of: of as u128 }
                }
            },
        }
    }
}

impl Book {
    /// What the row says under the title.
    pub fn meta(&self) -> (text: String)
        ensures
            text@ == self@.meta(),
    {
        let files: usize = self.plan.job.inputs.len();
        let mut text: String = if files == 1 {
            String::from_str("1 file")
        } else {
            around("", files as u64, " files")
        };
        if let Some(length) = self.probed {
            text.append(" · ");
            text.append(clock(length).as_str());
        }
        text
    }

    /// What the row says the book is doing or came to, and nothing at all for one that has not run.
    pub fn result(&self) -> (text: String)
        ensures
            text@ == self@.result(),
    {
        match &self.state {
            BookState::Ready => String::new(),
            BookState::Converting { samples_done } => {
                let mut text: String = clock(Duration::from_secs(*samples_done / 48_000));
                text.append(" encoded");
                text
            },
            BookState::Done { result_line } => result_line.clone(),
            BookState::Failed { message } => message.clone(),
            BookState::Cancelled => removed_note("the conversion was stopped"),
        }
    }

    /// How far the bar of the book goes.
    pub fn progress(&self) -> (bar: Bar)
        ensures
            bar == self@.progress(),
    {
        let length: Duration = match self.probed {
            None => {
                return Bar::Striped;
            },
            Some(length) => length,
        };
        let samples: u64 = self.state.samples_done();
        let done: u128 = samples as u128 * 1_000_000_000;
        let of: u128 = (length.secs as u128 * 1_000_000_000 + length.nanos as u128) * 48_000;
        if of == 0 {
            Bar::Striped
        } else if done * 100 >= of * 99 {
            Bar::NearlyDone
        } else {
            Bar::Part { done, of }
        }
    }
}

/// What goes with every book that did not make it.
pub open spec fn with_removed_note(reason: Seq<char>) -> Seq<char> {
    reason + "; the unfinished file was removed"@
}

/// `reason`, and that the file a conversion had only half written is gone.
pub fn removed_note(reason: &str) -> (text: String)
    ensures
        text@ == with_removed_note(reason@),
{
    let mut text: String = String::from_str(reason);
    text.append("; the unfinished file was removed");
    text
}

/// What is said about a file that was written: where it is, how long it plays and how many chapters it
/// holds.
pub open spec fn wrote(path: Seq<char>, duration: Duration, chapters: nat) -> Seq<char> {
    "wrote "@ + path + " ("@ + crate::duration::on_clock(duration.secs as nat) + ", "@
        + crate::text::decimal(chapters) + (if chapters == 1 {
        " chapter"@
    } else {
        " chapters"@
    }) + ")"@
}

/// What is said about a file that was written.
pub fn wrote_line(outcome: &JobOutcome) -> (line: String)
    ensures
        line@ == wrote(
            outcome.taf_path@,
            outcome.report.duration,
            outcome.report.chapters@.len(),
        ),
{
    let chapters: usize = outcome.report.chapters.len();
    let mut line: String = String::from_str("wrote ");
    line.append(outcome.taf_path.as_str());
    line.append(" (");
    line.append(clock(outcome.report.duration).as_str());
    line.append(", ");
    put_decimal(&mut line, chapters as u64);
    if chapters == 1 {
        line.append(" chapter");
    } else {
        line.append(" chapters");
    }
    line.append(")");
    line
}

/// What a converted book says: the file, and on a line of its own the cover beside it or why there is
/// none.
pub open spec fn reported(outcome: JobOutcome) -> Seq<char> {
    wrote(outcome.taf_path@, outcome.report.duration, outcome.report.chapters@.len()) + (
    match outcome.cover_path {
        Some(cover) => "\nwrote "@ + cover@,
        None => Seq::empty(),
    }) + (match outcome.cover_error {
        Some(why) => "\nno cover was written: "@ + why@,
        None => Seq::empty(),
    })
}

/// What a converted book says.
pub fn report_line(outcome: &JobOutcome) -> (text: String)
    ensures
        text@ == reported(*outcome),
{
    let mut text: String = wrote_line(outcome);
    if let Some(cover) = &outcome.cover_path {
        text.append("\nwrote ");
        text.append(cover.as_str());
    }
    if let Some(why) = &outcome.cover_error {
        text.append("\nno cover was written: ");
        text.append(why.as_str());
    }
    assert(text@ =~= reported(*outcome));
    text
}

/// What a job that is over leaves its row in.
pub open spec fn left_in(result: Result<JobOutcome, BookFailure>) -> Stage {
    match result {
        Ok(outcome) => Stage::Done(reported(outcome)),
        Err(BookFailure::Failed(chain)) => Stage::Failed(with_removed_note(chain@)),
        Err(BookFailure::Cancelled) => Stage::Cancelled,
    }
}

/// What a job that is over leaves its row in.
pub fn finished(result: Result<JobOutcome, BookFailure>) -> (state: BookState)
    ensures
        state@ == left_in(result),
{
    match result {
        Ok(outcome) => BookState::Done { result_line: report_line(&outcome) },
        Err(BookFailure::Failed(chain)) => BookState::Failed {
            message: removed_note(chain.as_str()),
        },
        Err(BookFailure::Cancelled) => BookState::Cancelled,
    }
}

/// What lengths add up to in nanoseconds.
pub open spec fn sum_in_nanos(lengths: Seq<Option<Duration>>) -> nat
    decreases lengths.len(),
{
    if lengths.len() == 0 {
        0
    } else {
        sum_in_nanos(lengths.drop_last()) + (match lengths.last() {
            Some(length) => length.in_nanos(),
            None => 0,
        })
    }
}

/// Whether every length is stated.
pub open spec fn all_stated(lengths: Seq<Option<Duration>>) -> bool {
    forall|i: int| 0 <= i < lengths.len() ==> #[trigger] lengths[i] is Some
}

/// The most nanoseconds a length holds.
pub open spec fn most_nanos() -> nat {
    (u64::MAX * 1_000_000_000 + 999_999_999) as nat
}

/// Whether the lengths in front of the first that is not stated add up to one that can be counted.
pub open spec fn countable(lengths: Seq<Option<Duration>>) -> bool {
    forall|count: int|
        0 <= count <= lengths.len() && all_stated(#[trigger] lengths.take(count)) ==> sum_in_nanos(
            lengths.take(count),
        ) <= most_nanos()
}

/// How long a book states it plays: the sum of what its files state, and nothing at all where any one
/// of them states none.
pub open spec fn stated(lengths: Seq<Option<Duration>>) -> Option<Duration> {
    if all_stated(lengths) {
        Some(
            Duration {
                secs: (sum_in_nanos(lengths) / 1_000_000_000) as u64,
                nanos: (sum_in_nanos(lengths) % 1_000_000_000) as u32,
            },
        )
    } else {
        None
    }
}

proof fn lemma_sum_grows(lengths: Seq<Option<Duration>>, at: int)
    requires
        0 <= at <= lengths.len(),
    ensures
        sum_in_nanos(lengths.take(at)) <= sum_in_nanos(lengths),
    decreases lengths.len() - at,
{
    if at < lengths.len() {
        lemma_sum_grows(lengths, at + 1);
        assert(lengths.take(at + 1).drop_last() =~= lengths.take(at));
    } else {
        assert(lengths.take(at) =~= lengths);
    }
}

/// A length that is not stated counts nothing, whatever lies behind it.
proof fn lemma_countable(lengths: Seq<Option<Duration>>, at: int)
    requires
        0 <= at <= lengths.len(),
        all_stated(lengths.take(at)),
        sum_in_nanos(lengths.take(at)) <= most_nanos(),
        at < lengths.len() ==> lengths[at] is None,
    ensures
        countable(lengths),
{
    assert forall|count: int|
        0 <= count <= lengths.len() && all_stated(#[trigger] lengths.take(count)) implies sum_in_nanos(
        lengths.take(count),
    ) <= most_nanos() by {
        if count > at {
            assert(lengths.take(count)[at] is Some);
        }
        lemma_sum_grows(lengths.take(at), count);
        assert(lengths.take(at).take(count) =~= lengths.take(count));
    }
}

/// The nanoseconds of `length`.
fn nanos_of(length: Duration) -> (nanos: u128)
    ensures
        nanos == length.in_nanos(),
        nanos <= u64::MAX * 1_000_000_000 + u32::MAX,
{
    length.secs as u128 * 1_000_000_000 + length.nanos as u128
}

/// Whether `lengths` add up, as far as they are stated.
pub fn adds_up(lengths: &[Option<Duration>]) -> (does: bool)
    ensures
        does == countable(lengths@),
{
    let mut nanos: u128 = 0;
    let mut at: usize = 0;
    assert(lengths@.take(0) =~= Seq::empty());
    while at < lengths.len()
        invariant
            at <= lengths@.len(),
            nanos == sum_in_nanos(lengths@.take(at as int)),
            nanos <= most_nanos(),
            all_stated(lengths@.take(at as int)),
        decreases lengths@.len() - at,
    {
        assert(lengths@.take(at + 1).drop_last() =~= lengths@.take(at as int));
        let length: Duration = match lengths[at] {
            None => {
                proof {
                    lemma_countable(lengths@, at as int);
                }
                return true;
            },
            Some(length) => length,
        };
        let ghost before = lengths@.take(at as int);
        nanos += nanos_of(length);
        at += 1;
        assert(all_stated(lengths@.take(at as int))) by {
            assert forall|i: int| 0 <= i < at implies #[trigger] lengths@.take(at as int)[i]
                is Some by {
                if i < at - 1 {
                    assert(before[i] is Some);
                }
            }
        }
        if nanos > u64::MAX as u128 * 1_000_000_000 + 999_999_999 {
            return false;
        }
    }
    proof {
        lemma_countable(lengths@, at as int);
    }
    true
}

/// How long a book states it plays.
pub fn stated_length(lengths: &[Option<Duration>]) -> (length: Option<Duration>)
    requires
        countable(lengths@),
    ensures
        length == stated(lengths@),
{
    let mut nanos: u128 = 0;
    let mut at: usize = 0;
    assert(lengths@.take(0) =~= Seq::empty());
    while at < lengths.len()
        invariant
            at <= lengths@.len(),
            countable(lengths@),
            nanos == sum_in_nanos(lengths@.take(at as int)),
            nanos <= most_nanos(),
            all_stated(lengths@.take(at as int)),
        decreases lengths@.len() - at,
    {
        assert(lengths@.take(at + 1).drop_last() =~= lengths@.take(at as int));
        let length: Duration = match lengths[at] {
            None => {
                assert(!(lengths@[at as int] is Some));
                return None;
            },
            Some(length) => length,
        };
        let ghost before = lengths@.take(at as int);
        nanos += nanos_of(length);
        at += 1;
        assert(all_stated(lengths@.take(at as int))) by {
            assert forall|i: int| 0 <= i < at implies #[trigger] lengths@.take(at as int)[i]
                is Some by {
                if i < at - 1 {
                    assert(before[i] is Some);
                }
            }
        }
    }
    assert(lengths@.take(at as int) =~= lengths@);
    Some(
        Duration {
            secs: (nanos / 1_000_000_000) as u64,
            nanos: (nanos % 1_000_000_000) as u32,
        },
    )
}

/// The first of `plans` from `at` on that writes `path`.
pub open spec fn writer_of(plans: Seq<Planned>, path: Seq<char>, at: int) -> Option<Planned>
    decreases plans.len() - at,
{
    if at >= plans.len() {
        None
    } else if plans[at].job.output == Some(path) {
        Some(plans[at])
    } else {
        writer_of(plans, path, at + 1)
    }
}

/// What a refused set of conversions reads as beside a queue of titles: what there is to say, behind
/// the title of the book it is about.
pub open spec fn refusal_text(plans: Seq<Planned>, collision: Collision) -> Seq<char> {
    match writer_of(plans, collision.about(), 0) {
        Some(plan) => plan.title + ": "@ + collision.said(),
        None => collision.said(),
    }
}

/// What `plans` state.
pub open spec fn planned(plans: Seq<&BookPlan>) -> Seq<Planned> {
    plans.map_values(|plan: &BookPlan| plan@)
}

/// What a refused set of conversions reads as beside a queue of titles.
pub fn collision_refusal(plans: &[&BookPlan], error: &CollisionError) -> (text: String)
    ensures
        text@ == refusal_text(planned(plans@), error@),
{
    let output: String = error.output();
    let ghost all = planned(plans@);
    let mut at: usize = 0;
    while at < plans.len()
        invariant
            at <= plans@.len(),
            all == planned(plans@),
            output@ == error@.about(),
            writer_of(all, output@, 0) == writer_of(all, output@, at as int),
        decreases plans@.len() - at,
    {
        assert(all[at as int] == plans@[at as int]@);
        let writes: bool = match &plans[at].job.output {
            Some(path) => *path == output,
            None => false,
        };
        if writes {
            let mut text: String = plans[at].title.clone();
            text.append(": ");
            text.append(error.message().as_str());
            return text;
        }
        at += 1;
    }
    error.message()
}

/// The row `index` names, where it names one of `count` rows: one that is negative or past the end is
/// a row that is not there.
pub fn row_of(index: i32, count: usize) -> (row: Option<usize>)
    ensures
        row == (if 0 <= index && index < count {
            Some(index as usize)
        } else {
            None
        }),
{
    if index >= 0 && (index as usize) < count {
        Some(index as usize)
    } else {
        None
    }
}

/// A length as rows are counted.
pub open spec fn counted(len: nat) -> i32 {
    if len > i32::MAX {
        i32::MAX
    } else {
        len as i32
    }
}

/// `len` as rows are counted: a longer list is the longest that can be.
pub fn count_of(len: usize) -> (count: i32)
    ensures
        count == counted(len as nat),
{
    if len > 0x7fff_ffff {
        0x7fff_ffff
    } else {
        len as i32
    }
}

/// How far a bar goes: as far as the audio in the file is of the length the book states, and no further
/// than 99 of a hundred of it. Without a length there is nothing to count against.
pub proof fn lemma_how_far_a_bar_goes(entry: Entry, samples: u64)
    requires
        entry.stage == Stage::Converting(samples),
    ensures
        entry.probed is None ==> entry.progress() == Bar::Striped,
        entry.probed matches Some(length) ==> {
            let there = (length.secs * 1_000_000_000 + length.nanos) * 48_000;
            let done = samples * 1_000_000_000;
            &&& entry.progress() == Bar::Striped <==> there == 0
            &&& entry.progress() == Bar::NearlyDone <==> there > 0 && done * 100 >= there * 99
            &&& entry.progress() is Part <==> done * 100 < there * 99
            &&& entry.progress() matches Bar::Part { done: part, of } ==> part == done && of == there
        },
{
    if let Some(length) = entry.probed {
        assert(length.in_nanos() * 48_000 <= (u64::MAX * 1_000_000_000 + u32::MAX) * 48_000);
    }
}

/// A bar does not go back: with more audio in the file it goes at least as far.
pub proof fn lemma_a_bar_does_not_go_back(entry: Entry, less: u64, more: u64)
    requires
        less <= more,
    ensures
        ({
            let before = (Entry { stage: Stage::Converting(less), ..entry }).progress();
            let behind = (Entry { stage: Stage::Converting(more), ..entry }).progress();
            match (before, behind) {
                (Bar::Part { done, of }, Bar::Part { done: then, of: whole }) => done <= then && of
                    == whole,
                (Bar::Part { .. }, Bar::NearlyDone) => true,
                (Bar::NearlyDone, Bar::NearlyDone) => true,
                (Bar::Striped, Bar::Striped) => true,
                _ => false,
            }
        }),
{
    lemma_how_far_a_bar_goes(Entry { stage: Stage::Converting(less), ..entry }, less);
    lemma_how_far_a_bar_goes(Entry { stage: Stage::Converting(more), ..entry }, more);
}

/// A book that is not being converted has put nothing in, and one that is says how many whole seconds
/// are.
pub proof fn lemma_what_is_encoded_is_said(entry: Entry, samples: u64)
    ensures
        !(entry.stage is Converting) && entry.probed is Some ==> entry.progress() == (Entry {
            stage: Stage::Converting(0),
            ..entry
        }).progress(),
        entry.stage == Stage::Converting(samples) ==> entry.result() == (Entry {
            stage: Stage::Converting((samples / 48_000 * 48_000) as u64),
            ..entry
        }).result(),
        entry.stage == Stage::Converting(samples) ==> entry.result() == crate::duration::on_clock(
            samples as nat / 48_000,
        ) + " encoded"@,
{
}

/// The lengths of a book's files add up, file by file, and one that states none leaves none for the book.
pub proof fn lemma_lengths_add_up(lengths: Seq<Option<Duration>>, next: Option<Duration>)
    requires
        countable(lengths.push(next)),
    ensures
        stated(Seq::empty()) == Some(Duration { secs: 0, nanos: 0 }),
        stated(lengths.push(next)) is Some <==> stated(lengths) is Some && next is Some,
        stated(lengths.push(next)) matches Some(whole) ==> {
            let before = stated(lengths)->0;
            &&& whole.nanos < 1_000_000_000
            &&& whole.secs * 1_000_000_000 + whole.nanos == before.secs * 1_000_000_000 + before.nanos
                + next->0.secs * 1_000_000_000 + next->0.nanos
        },
        stated(lengths) is None ==> exists|i: int|
            0 <= i < lengths.len() && #[trigger] lengths[i] is None,
        stated(lengths) is Some ==> forall|i: int|
            0 <= i < lengths.len() ==> #[trigger] lengths[i] is Some,
{
    let all = lengths.push(next);
    assert(all.drop_last() =~= lengths);
    assert(all.take(all.len() as int) =~= all);
    assert(all.take(lengths.len() as int) =~= lengths);
    if all_stated(lengths) && next is Some {
        assert forall|i: int| 0 <= i < all.len() implies #[trigger] all[i] is Some by {
            if i < lengths.len() {
                assert(lengths[i] is Some);
            }
        }
        assert(sum_in_nanos(all) <= most_nanos());
        assert(sum_in_nanos(lengths) <= most_nanos());
    }
    if all_stated(all) {
        assert forall|i: int| 0 <= i < lengths.len() implies #[trigger] lengths[i] is Some by {
            assert(all[i] is Some);
        }
        assert(all[lengths.len() as int] is Some);
    }
}

/// The book a refusal is about is the first that writes the file it is about, and there is none where no
/// book does.
pub proof fn lemma_the_book_a_refusal_is_about(plans: Seq<Planned>, path: Seq<char>, at: int)
    requires
        0 <= at <= plans.len(),
    ensures
        writer_of(plans, path, at) matches Some(plan) ==> exists|i: int|
            at <= i < plans.len() && #[trigger] plans[i] == plan && plan.job.output == Some(path) && (
            forall|j: int| at <= j < i ==> (#[trigger] plans[j]).job.output != Some(path)),
        writer_of(plans, path, at) is None ==> forall|i: int|
            at <= i < plans.len() ==> (#[trigger] plans[i]).job.output != Some(path),
    decreases plans.len() - at,
{
    if at < plans.len() {
        if plans[at].job.output == Some(path) {
            assert(plans[at] == plans[at]);
        } else {
            lemma_the_book_a_refusal_is_about(plans, path, at + 1);
            if let Some(plan) = writer_of(plans, path, at + 1) {
                let i = choose|i: int|
                    at + 1 <= i < plans.len() && #[trigger] plans[i] == plan && plan.job.output == Some(
                        path,
                    ) && (forall|j: int|
                        at + 1 <= j < i ==> (#[trigger] plans[j]).job.output != Some(path));
                assert(plans[i] == plan);
            }
        }
    }
}

/// What a row says of a book that is over: a converted one names its file, how long it plays and how many
/// chapters it has, and its cover or why there is none behind that; one that did not make it says why, and
/// that what was half written is gone.
pub proof fn lemma_what_a_book_that_is_over_says(
    entry: Entry,
    result: Result<JobOutcome, BookFailure>,
)
    requires
        entry.stage == left_in(result),
    ensures
        result matches Ok(outcome) ==> {
            let first = "wrote "@ + outcome.taf_path@ + " ("@ + crate::duration::on_clock(
                outcome.report.duration.secs as nat,
            ) + ", "@ + crate::text::decimal(outcome.report.chapters@.len());
            &&& entry.stage is Done
            &&& entry.result().len() >= first.len()
            &&& entry.result().take(first.len() as int) == first
            &&& outcome.cover_path is None && outcome.cover_error is None ==> entry.result() == first
                + (if outcome.report.chapters@.len() == 1 {
                " chapter"@
            } else {
                " chapters"@
            }) + ")"@
            &&& outcome.cover_error matches Some(why) ==> entry.result().skip(
                entry.result().len() - why@.len(),
            ) == why@
            &&& outcome.cover_error is None && outcome.cover_path is Some ==> entry.result().skip(
                entry.result().len() - outcome.cover_path->0@.len(),
            ) == outcome.cover_path->0@
        },
        result matches Err(BookFailure::Failed(chain)) ==> entry.stage is Failed && entry.result()
            == chain@ + "; the unfinished file was removed"@,
        result matches Err(BookFailure::Cancelled) ==> entry.stage is Cancelled && entry.result()
            == "the conversion was stopped"@ + "; the unfinished file was removed"@,
{
    if let Ok(outcome) = result {
        let first = "wrote "@ + outcome.taf_path@ + " ("@ + crate::duration::on_clock(
            outcome.report.duration.secs as nat,
        ) + ", "@ + crate::text::decimal(outcome.report.chapters@.len());
        assert(entry.result().take(first.len() as int) =~= first);
        if let Some(why) = outcome.cover_error {
            assert(entry.result().skip(entry.result().len() - why@.len()) =~= why@);
        } else if let Some(cover) = outcome.cover_path {
            assert(entry.result().skip(entry.result().len() - cover@.len()) =~= cover@);
        } else {
            assert(entry.result() =~= first + (if outcome.report.chapters@.len() == 1 {
                " chapter"@
            } else {
                " chapters"@
            }) + ")"@);
        }
    }
}

/// What a row says under its title: how many files there are, and how long they play where that is
/// stated.
pub proof fn lemma_what_a_row_says_under_its_title(entry: Entry)
    ensures
        ({
            let files = entry.plan.job.inputs.len();
            let held = (Entry { probed: None, ..entry }).meta();
            &&& files == 1 ==> held == "1 file"@
            &&& files != 1 ==> held == crate::text::decimal(files) + " files"@
            &&& entry.probed matches Some(length) ==> entry.meta() == held + " · "@
                + crate::duration::on_clock(length.secs as nat)
            &&& entry.probed is None ==> entry.meta() == held
        }),
{
    reveal_strlit("");
    let files = entry.plan.job.inputs.len();
    assert(""@ + crate::text::decimal(files) =~= crate::text::decimal(files));
}

/// Rows are counted as far as a count goes, and longer lists never as shorter ones.
pub proof fn lemma_rows_are_counted(len: nat, more: nat)
    requires
        len <= more,
    ensures
        0 <= counted(len) <= counted(more) <= 0x7fff_ffff,
        len <= 0x7fff_ffff ==> counted(len) == len,
{
}

} // verus!
