//! The conversion a bare command line asks for: what was typed made into a job, and what it came to
//! made into words.
//!
//! The files that were written are the answer, one per line. Everything else — the line a running
//! conversion writes over, a chapter list longer than a box plays, a cover that could not be written —
//! is said aside, because none of it is the answer to what was asked.

use crate::cli::{ConvertArgs, Lines, Said};
use crate::collision::CollisionError;
use crate::duration::{clock, Duration, Seconds};
use crate::job::{
    over_limit, planned_chapters, ChapterError, ChapterMode, Conversion, ConvertError, ConvertJob, Job,
    JobError, JobOutcome, Progress, SilenceOpts,
};
use crate::path::default_output_path;
use crate::queue::wrote_line;
use crate::text::around;
use vstd::prelude::*;
use vstd::string::StringExecFns;

verus! {

/// The frames a typed duration comes to, as far as a count of them goes.
pub open spec fn frames(typed: Seconds) -> u64 {
    if typed@.0 * 48_000 + typed@.1 > u64::MAX {
        u64::MAX
    } else {
        (typed@.0 * 48_000 + typed@.1) as u64
    }
}

/// The job a command line states: its output is resolved, and how many encoders run is left open.
pub open spec fn asked(args: ConvertArgs) -> Job {
    Job {
        inputs: crate::job::texts(args.inputs@),
        output: if args.output is Some {
            Some(args.output->0@)
        } else if args.inputs@.len() > 0 {
            Some(crate::path::extended(args.inputs@[0]@, "taf"@))
        } else {
            None
        },
        chapters: match args.chapters {
            Some(list) => Some(list@.map_values(|typed: Seconds| frames(typed))),
            None => None,
        },
        silence: SilenceOpts {
            skip_leading: frames(args.skip_leading),
            trim_leading: args.trim_pause_leading,
            trim_each_chapter: args.trim_pause_each_chapter,
            add_pause_leading: frames(args.add_pause_leading),
            add_pause_each_chapter: frames(args.add_pause_each_chapter),
        },
        workers: None,
        write_cover: !args.no_cover,
    }
}

/// Whether a job would write into a file it reads.
pub open spec fn writes_over_itself(job: Job) -> bool {
    job.output is Some && job.inputs.contains(job.output->0)
}

/// Whether `count` is the frames of `typed`: all of them, or as many as can be counted.
pub open spec fn counts(count: u64, typed: Seconds) -> bool {
    &&& count <= typed@.0 * 48_000 + typed@.1
    &&& count < typed@.0 * 48_000 + typed@.1 ==> count == u64::MAX
}

/// The job `args` states, with the output resolved and held against the inputs.
pub fn job(args: ConvertArgs) -> (result: Result<ConvertJob, CollisionError>)
    ensures
        match result {
            Ok(job) => !writes_over_itself(asked(args)) && job@ == asked(args),
            Err(error) => writes_over_itself(asked(args)) && error@
                == crate::collision::Collision::Read(asked(args).output->0),
        },
        result matches Ok(job) ==> {
            &&& job.inputs == args.inputs
            &&& args.output is Some ==> job.output == args.output
            &&& args.output is None && args.inputs@.len() == 0 ==> job.output is None
            &&& args.output is None && args.inputs@.len() > 0 ==> job.output is Some
                && job.output->0@ == crate::path::extended(args.inputs@[0]@, seq!['t', 'a', 'f'])
            &&& counts(job.options.silence.skip_leading, args.skip_leading)
            &&& job.options.silence.trim_leading == args.trim_pause_leading
            &&& job.options.silence.trim_each_chapter == args.trim_pause_each_chapter
            &&& counts(job.options.silence.add_pause_leading, args.add_pause_leading)
            &&& counts(job.options.silence.add_pause_each_chapter, args.add_pause_each_chapter)
            &&& args.chapters is None ==> job.options.chapter_mode is Auto
            &&& args.chapters matches Some(list) ==> (job.options.chapter_mode matches
                ChapterMode::Explicit(offsets) && offsets@.len() == list@.len() && forall|i: int|
                0 <= i < list@.len() ==> counts(#[trigger] offsets@[i], list@[i]))
            &&& job.options.workers is None
            &&& job.write_cover == !args.no_cover
            &&& job.output is Some ==> forall|i: int|
                0 <= i < job.inputs@.len() ==> #[trigger] job.inputs@[i]@ != job.output->0@
        },
{
    let ghost stated = asked(args);
    let ConvertArgs {
        inputs,
        output,
        skip_leading,
        trim_pause_leading,
        trim_pause_each_chapter,
        add_pause_leading,
        add_pause_each_chapter,
        chapters,
        no_cover,
    } = args;
    let output: Option<String> = match output {
        Some(output) => Some(output),
        None => {
            if inputs.len() > 0 {
                Some(default_output_path(inputs[0].as_str()))
            } else {
                None
            }
        },
    };
    if let Err(error) = refuse_collision(&inputs, &output) {
        return Err(error);
    }
    let job = ConvertJob {
        inputs,
        output,
        options: Conversion {
            chapter_mode: match chapters {
                Some(offsets) => ChapterMode::Explicit(in_frames(&offsets)),
                None => ChapterMode::Auto,
            },
            silence: SilenceOpts {
                skip_leading: skip_leading.to_samples_48k(),
                trim_leading: trim_pause_leading,
                trim_each_chapter: trim_pause_each_chapter,
                add_pause_leading: add_pause_leading.to_samples_48k(),
                add_pause_each_chapter: add_pause_each_chapter.to_samples_48k(),
            },
            workers: None,
        },
        write_cover: !no_cover,
    };
    assert(job@ =~= stated);
    proof {
        reveal_strlit("taf");
        assert("taf"@ =~= seq!['t', 'a', 'f']);
        if job.output is Some {
            assert forall|i: int| 0 <= i < job.inputs@.len() implies #[trigger] job.inputs@[i]@
                != job.output->0@ by {
                assert(job@.inputs[i] == job.inputs@[i]@);
                assert(job@.inputs.contains(job@.inputs[i]));
            }
        }
    }
    Ok(job)
}

/// Whether `seconds` are what `text` reads as, or none where nothing was typed.
pub open spec fn reads_as(text: Seq<char>, seconds: Seconds) -> bool {
    if text.len() == 0 {
        seconds@ == (0nat, 0nat)
    } else {
        crate::duration::typed(text) matches Some((whole, fraction)) && seconds@ == (
            whole,
            crate::duration::nearest_frames(fraction),
        )
    }
}

/// A command line and a panel into which the same was typed come to one job: the same files, the same
/// output, the same chapters, and every option for itself.
pub proof fn lemma_a_command_line_and_a_panel_agree(args: ConvertArgs, panel: crate::plan::Typed)
    requires
        args.inputs@.len() > 0,
        panel.files == crate::job::texts(args.inputs@),
        args.output matches Some(path) ==> panel.output == path@ && path@.len() > 0,
        args.output is None ==> panel.output.len() == 0,
        reads_as(panel.skip_leading, args.skip_leading),
        panel.trim_leading == args.trim_pause_leading,
        panel.trim_each_chapter == args.trim_pause_each_chapter,
        reads_as(panel.add_pause_leading, args.add_pause_leading),
        reads_as(panel.add_pause_each, args.add_pause_each_chapter),
        args.chapters is None ==> panel.chapters.len() == 0,
        args.chapters matches Some(list) ==> panel.chapters.len() > 0 && ({
            let entries = crate::text::split(panel.chapters, ',');
            &&& entries.len() == list@.len()
            &&& forall|i: int|
                0 <= i < entries.len() ==> crate::duration::typed(#[trigger] entries[i]) is Some
                    && reads_as(entries[i], list@[i])
        }),
        panel.extract_cover == !args.no_cover,
    ensures
        crate::plan::captured(panel) is Ok,
        crate::plan::captured(panel)->Ok_0.job == asked(args),
{
    lemma_no_time_is_nothing();
    if let Some(list) = args.chapters {
        let entries = crate::text::split(panel.chapters, ',');
        crate::plan::lemma_a_list_of_times(panel.chapters);
        let read = crate::plan::listed_chapters(panel.chapters)->Ok_0->0;
        assert forall|i: int| 0 <= i < entries.len() implies read[i] == frames(list@[i]) by {
            assert(crate::duration::typed(entries[i]) is Some);
            assert(entries[i].len() > 0);
        }
        assert(read =~= list@.map_values(|typed: Seconds| frames(typed)));
    }
    assert(panel.files[0] == args.inputs@[0]@);
    assert(crate::plan::captured(panel)->Ok_0.job =~= asked(args));
}

proof fn lemma_no_time_is_nothing()
    ensures
        crate::duration::typed(Seq::empty()) is None,
{
    if crate::duration::typed(Seq::empty()) is Some {
        crate::duration::lemma_nothing_else_is_a_time(Seq::empty());
        crate::text::lemma_one_piece(Seq::empty(), ':');
    }
}

/// The frames the durations of `list` come to.
fn in_frames(list: &Vec<Seconds>) -> (offsets: Vec<u64>)
    ensures
        offsets@ == list@.map_values(|typed: Seconds| frames(typed)),
{
    let ghost all = list@.map_values(|typed: Seconds| frames(typed));
    let mut offsets: Vec<u64> = Vec::new();
    let mut at: usize = 0;
    while at < list.len()
        invariant
            at <= list@.len(),
            all == list@.map_values(|typed: Seconds| frames(typed)),
            offsets@ == all.take(at as int),
        decreases list@.len() - at,
    {
        offsets.push(list[at].to_samples_48k());
        at += 1;
        assert(offsets@ =~= all.take(at as int));
    }
    assert(offsets@ =~= all);
    offsets
}

/// Refuses a conversion that would write into a file it is reading. The paths are compared as they
/// were typed: two names for one file are two names here.
fn refuse_collision(inputs: &Vec<String>, output: &Option<String>) -> (result: Result<
    (),
    CollisionError,
>)
    ensures
        match result {
            Ok(()) => !(output is Some && crate::job::texts(inputs@).contains(output->0@)),
            Err(error) => output is Some && crate::job::texts(inputs@).contains(output->0@)
                && error@ == crate::collision::Collision::Read(output->0@),
        },
{
    let ghost paths = crate::job::texts(inputs@);
    if let Some(path) = output {
        let mut at: usize = 0;
        while at < inputs.len()
            invariant
                at <= inputs@.len(),
                paths == crate::job::texts(inputs@),
                output == Some(*path),
                forall|i: int| 0 <= i < at ==> paths[i] != path@,
            decreases inputs@.len() - at,
        {
            assert(paths[at as int] == inputs@[at as int]@);
            if inputs[at] == *path {
                assert(paths[at as int] == path@);
                return Err(CollisionError::OutputIsInput { output: inputs[at].clone() });
            }
            at += 1;
        }
    }
    Ok(())
}

/// A command line refuses what a set of jobs of which it is the only one is refused for, and nothing
/// else.
pub proof fn lemma_one_job_is_refused_as_a_set_of_one(job: Job)
    requires
        job.output is Some,
    ensures
        writes_over_itself(job) ==> crate::collision::collision(seq![job]) == Some(
            crate::collision::Collision::Read(job.output->0),
        ),
        !writes_over_itself(job) ==> crate::collision::collision(seq![job]) is None,
{
    let jobs = seq![job];
    let output = job.output->0;
    reveal_with_fuel(crate::collision::outputs, 2);
    assert(jobs.drop_last() =~= Seq::empty());
    assert(crate::collision::outputs(jobs) =~= seq![output]);
    reveal_with_fuel(crate::collision::first_read, 2);
    reveal_with_fuel(crate::collision::first_repeat, 2);
    assert(seq![output].take(0) =~= Seq::empty());
    if writes_over_itself(job) {
        assert(jobs[0].inputs.contains(output));
    }
    assert(crate::collision::is_read(jobs, output) == writes_over_itself(job));
}

/// Where `frames` of a conversion's audio lie, on a clock.
pub fn at_clock(frames: u64) -> (text: String)
    ensures
        text@ == crate::duration::on_clock((frames / 48_000) as nat),
{
    clock(Duration::from_secs(frames / 48_000))
}

/// What a failure is said as, layer by layer: as it stands, and a chapter past the end of the audio
/// with the times in front of it that the frames lie at.
pub open spec fn failure(error: JobError) -> Seq<Seq<char>> {
    match error {
        JobError::Convert(ConvertError::Chapters(ChapterError::OutOfRange { offset, total })) => {
            seq![
                "the chapter at "@ + crate::duration::on_clock((offset / 48_000) as nat)
                    + " is past the end of the audio, which runs "@ + crate::duration::on_clock(
                    (total / 48_000) as nat,
                ),
            ] + error.layers()
        },
        _ => error.layers(),
    }
}

/// What a failure is said as, layer by layer.
pub fn in_clock_time(error: &JobError) -> (layers: Vec<String>)
    ensures
        crate::job::texts(layers@) == failure(*error),
{
    let mut layers: Vec<String> = Vec::new();
    if let JobError::Convert(
        ConvertError::Chapters(ChapterError::OutOfRange { offset, total }),
    ) = error {
        let mut text: String = String::from_str("the chapter at ");
        text.append(at_clock(*offset).as_str());
        text.append(" is past the end of the audio, which runs ");
        text.append(at_clock(*total).as_str());
        layers.push(text);
    }
    let ghost front = layers@;
    let rest: Vec<String> = error.messages();
    let mut at: usize = 0;
    while at < rest.len()
        invariant
            at <= rest@.len(),
            layers@ == front + rest@.take(at as int),
        decreases rest@.len() - at,
    {
        layers.push(rest[at].clone());
        at += 1;
        assert(layers@ =~= front + rest@.take(at as int));
    }
    assert(rest@.take(at as int) =~= rest@);
    assert(crate::job::texts(layers@) =~= crate::job::texts(front) + crate::job::texts(rest@));
    assert(crate::job::texts(layers@) =~= failure(*error));
    layers
}

/// What is said aside about `chapters` chapters: that they are more than a box plays, where they are.
pub open spec fn warning(chapters: nat) -> Seq<Seq<char>> {
    match crate::job::limit_note(chapters) {
        Some(note) => seq!["warning: "@ + note],
        None => Seq::empty(),
    }
}

/// What is said aside about `chapters` chapters.
fn warn_over_limit(chapters: usize) -> (lines: Vec<String>)
    ensures
        crate::job::texts(lines@) == warning(chapters as nat),
{
    let mut lines: Vec<String> = Vec::new();
    if let Some(note) = over_limit(chapters) {
        let mut line: String = String::from_str("warning: ");
        line.append(note.as_str());
        lines.push(line);
    }
    assert(crate::job::texts(lines@) =~= warning(chapters as nat));
    lines
}

/// What is said aside in front of a conversion: a plan somebody typed is settled there, while there is
/// still a chance to stop the run.
pub fn before(mode: &ChapterMode) -> (lines: Vec<String>)
    ensures
        crate::job::texts(lines@) == (match mode@ {
            Some(offsets) => warning(
                if crate::job::planned(offsets) > usize::MAX {
                    usize::MAX as nat
                } else {
                    crate::job::planned(offsets)
                },
            ),
            None => Seq::empty(),
        }),
{
    match planned_chapters(mode) {
        Some(chapters) => warn_over_limit(chapters),
        None => {
            let lines: Vec<String> = Vec::new();
            assert(crate::job::texts(lines@) =~= Seq::empty());
            lines
        },
    }
}

/// What is said about a conversion that came to `outcome`, where `planned` is whether its chapters were
/// typed: in front of everything that its chapters are more than a box plays where that was not said
/// before, then the files it wrote, and behind them why there is no cover where there should have been
/// one.
pub open spec fn came_to(planned: bool, outcome: JobOutcome) -> Lines {
    Lines {
        ahead: if planned {
            Seq::empty()
        } else {
            warning(outcome.report.chapters@.len())
        },
        answer: seq![
            crate::queue::wrote(
                outcome.taf_path@,
                outcome.report.duration,
                outcome.report.chapters@.len(),
            ),
        ] + (match outcome.cover_path {
            Some(cover) => seq!["wrote "@ + cover@],
            None => Seq::empty(),
        }),
        aside: match outcome.cover_error {
            Some(why) => seq!["warning: no cover was written: "@ + why@],
            None => Seq::empty(),
        },
    }
}

/// What is said behind a conversion, or every layer of why it failed.
pub fn after(planned: bool, result: Result<JobOutcome, JobError>) -> (said: Result<
    Said,
    Vec<String>,
>)
    ensures
        match (result, said) {
            (Ok(outcome), Ok(said)) => said@ == came_to(planned, outcome),
            (Err(error), Err(layers)) => crate::job::texts(layers@) == failure(error),
            _ => false,
        },
{
    let outcome: JobOutcome = match result {
        Err(error) => {
            return Err(in_clock_time(&error));
        },
        Ok(outcome) => outcome,
    };
    let ahead: Vec<String> = if planned {
        Vec::new()
    } else {
        warn_over_limit(outcome.report.chapters.len())
    };
    let mut answer: Vec<String> = Vec::new();
    let mut aside: Vec<String> = Vec::new();
    answer.push(wrote_line(&outcome));
    if let Some(cover) = &outcome.cover_path {
        let mut line: String = String::from_str("wrote ");
        line.append(cover.as_str());
        answer.push(line);
    }
    if let Some(why) = &outcome.cover_error {
        let mut line: String = String::from_str("warning: no cover was written: ");
        line.append(why.as_str());
        aside.push(line);
    }
    let said = Said { ahead, answer, aside };
    assert(said@.ahead =~= came_to(planned, outcome).ahead);
    assert(said@.answer =~= came_to(planned, outcome).answer);
    assert(said@.aside =~= came_to(planned, outcome).aside);
    Ok(said)
}

/// The one line a running conversion writes over: how much audio has gone into the file.
#[derive(Debug, Default)]
pub struct ProgressLine {
    shown: Option<u64>,
}

impl View for ProgressLine {
    type V = Option<u64>;

    /// The seconds last written.
    closed spec fn view(&self) -> Option<u64> {
        self.shown
    }
}

/// The seconds a line that says `shown` comes to say for `event`, where it says anything new: a second
/// is written once however many blocks it took, and nothing but audio going in moves the line.
pub open spec fn moved_to(shown: Option<u64>, event: Progress) -> Option<u64> {
    match event {
        Progress::Encoded { samples_done } => if shown == Some(samples_done / 48_000) {
            None
        } else {
            Some(samples_done / 48_000)
        },
        _ => None,
    }
}

impl ProgressLine {
    /// A line on which nothing is written.
    pub fn new() -> (line: Self)
        ensures
            line@ is None,
    {
        ProgressLine { shown: None }
    }

    /// What is written over the line for `event`, where that is not what it already says.
    pub fn show(&mut self, event: Progress) -> (text: Option<String>)
        ensures
            match moved_to(old(self)@, event) {
                Some(seconds) => final(self)@ == Some(seconds) && text is Some && text->0@ == "\r"@
                    + crate::text::decimal(seconds as nat) + "s encoded"@,
                None => final(self)@ == old(self)@ && text is None,
            },
    {
        match event {
            Progress::Encoded { samples_done } => self.encoded(samples_done),
            _ => None,
        }
    }

    /// Writes the seconds `samples` come to over the line, where that is not what it already says.
    fn encoded(&mut self, samples: u64) -> (text: Option<String>)
        ensures
            match moved_to(old(self)@, Progress::Encoded { samples_done: samples }) {
                Some(seconds) => final(self)@ == Some(seconds) && text is Some && text->0@ == "\r"@
                    + crate::text::decimal(seconds as nat) + "s encoded"@,
                None => final(self)@ == old(self)@ && text is None,
            },
    {
        let seconds: u64 = samples / 48_000;
        if let Some(shown) = self.shown {
            if shown == seconds {
                return None;
            }
        }
        self.shown = Some(seconds);
        Some(around("\r", seconds, "s encoded"))
    }

    /// Whether the line has to be ended before anything else is said: where anything was ever written
    /// on it.
    pub fn finish(&self) -> (end: bool)
        ensures
            end == (self@ is Some),
    {
        self.shown.is_some()
    }
}

/// What a failure is said as: what it says itself, layer by layer. One of a chapter past the end of the
/// audio says first when that chapter and the end of the audio are, in whole seconds.
pub proof fn lemma_what_a_failure_is_said_as(error: JobError)
    ensures
        ({
            let said = failure(error);
            let layers = error.layers();
            match error {
                JobError::Convert(
                    ConvertError::Chapters(ChapterError::OutOfRange { offset, total }),
                ) => {
                    &&& said.len() == layers.len() + 1
                    &&& said.skip(1) == layers
                    &&& said[0] == "the chapter at "@ + crate::duration::on_clock(
                        offset as nat / 48_000,
                    ) + " is past the end of the audio, which runs "@ + crate::duration::on_clock(
                        total as nat / 48_000,
                    )
                },
                _ => said == layers,
            }
        }),
{
    if let JobError::Convert(
        ConvertError::Chapters(ChapterError::OutOfRange { offset, total }),
    ) = error {
        assert(failure(error).skip(1) =~= error.layers());
    }
}

/// More chapters than a box plays are warned of once: in front of a conversion whose chapters were typed,
/// and behind any other.
pub proof fn lemma_a_warning_is_given_once(chapters: nat, planned: bool, outcome: JobOutcome)
    ensures
        chapters <= 99 ==> warning(chapters) == Seq::<Seq<char>>::empty(),
        chapters > 99 ==> warning(chapters).len() == 1 && "warning: "@.is_prefix_of(
            warning(chapters)[0],
        ),
        planned ==> came_to(planned, outcome).ahead == Seq::<Seq<char>>::empty(),
        !planned && outcome.report.chapters@.len() <= 99 ==> came_to(planned, outcome).ahead == Seq::<
            Seq<char>,
        >::empty(),
        !planned && outcome.report.chapters@.len() > 99 ==> came_to(planned, outcome).ahead.len() == 1,
{
    crate::job::lemma_a_box_plays_ninety_nine_chapters(chapters);
    crate::job::lemma_a_box_plays_ninety_nine_chapters(outcome.report.chapters@.len());
    if chapters > 99 {
        let note = crate::job::limit_note(chapters)->0;
        let line = "warning: "@ + note;
        assert(line.take("warning: "@.len() as int) =~= "warning: "@);
    }
}

/// What a conversion is said to have come to: the file it wrote, how long that plays and how many chapters
/// it has, then the cover beside it, and aside why there is none.
pub proof fn lemma_what_a_conversion_is_said_to_come_to(planned: bool, outcome: JobOutcome)
    ensures
        ({
            let said = came_to(planned, outcome);
            let chapters = outcome.report.chapters@.len();
            &&& said.answer[0] == "wrote "@ + outcome.taf_path@ + " ("@ + crate::duration::on_clock(
                outcome.report.duration.secs as nat,
            ) + ", "@ + crate::text::decimal(chapters) + (if chapters == 1 {
                " chapter"@
            } else {
                " chapters"@
            }) + ")"@
            &&& outcome.cover_path matches Some(cover) ==> said.answer.len() == 2 && said.answer[1]
                == "wrote "@ + cover@
            &&& outcome.cover_path is None ==> said.answer.len() == 1
            &&& outcome.cover_error matches Some(why) ==> said.aside == seq![
                "warning: no cover was written: "@ + why@,
            ]
            &&& outcome.cover_error is None ==> said.aside.len() == 0
        }),
{
}

/// The line moves when another second of audio has begun, and only then: it says how many whole seconds
/// there are, and nothing for what it already says or for anything but audio.
pub proof fn lemma_when_the_line_moves(shown: Option<u64>, event: Progress)
    ensures
        moved_to(shown, event) matches Some(seconds) ==> (event matches Progress::Encoded {
            samples_done,
        } && seconds * 48_000 <= samples_done < seconds * 48_000 + 48_000 && shown != Some(seconds)),
        event matches Progress::Encoded { samples_done } ==> (moved_to(shown, event) is None <==> (
        shown matches Some(seconds) && seconds * 48_000 <= samples_done < seconds * 48_000 + 48_000)),
{
}

} // verus!
