//! A conversion of files on disk: what goes in, where it comes out, what is done to the audio on the
//! way, and what it comes to.

use crate::duration::Duration;
use crate::id::{AudioId, BlockIndex};
use crate::text::{around, copied};
use vstd::prelude::*;
use vstd::string::StringExecFns;

verus! {

/// The chapters a Toniebox plays. A longer list is a warning and not a refusal.
pub const MAX_CHAPTERS: usize = 99;

/// Where the chapters of a conversion come from.
#[derive(Debug, Clone, PartialEq, Eq)]
pub enum ChapterMode {
    /// From the inputs.
    Auto,
    /// From whoever asked for it: the frames the chapters start at.
    Explicit(Vec<u64>),
}

impl View for ChapterMode {
    type V = Option<Seq<u64>>;

    open spec fn view(&self) -> Option<Seq<u64>> {
        match self {
            ChapterMode::Auto => None,
            ChapterMode::Explicit(offsets) => Some(offsets@),
        }
    }
}

/// What is taken off the audio and what is put into it, in frames.
#[derive(Debug, Clone, Copy, PartialEq, Eq, Structural)]
pub struct SilenceOpts {
    /// How much is dropped from the very start.
    pub skip_leading: u64,
    /// Whether the silence the first chapter begins with is dropped.
    pub trim_leading: bool,
    /// Whether the silence every chapter begins with is dropped.
    pub trim_each_chapter: bool,
    /// How much silence goes in front of the first chapter.
    pub add_pause_leading: u64,
    /// How much silence goes in front of every chapter.
    pub add_pause_each_chapter: u64,
}

/// What is done to the audio.
#[derive(Debug, Clone, PartialEq, Eq)]
pub struct Conversion {
    /// Where the chapters come from.
    pub chapter_mode: ChapterMode,
    /// What is taken off the audio and what is put into it.
    pub silence: SilenceOpts,
    /// How many encoders run, where that is stated.
    pub workers: Option<usize>,
}

impl Default for Conversion {
    /// The audio as it is, with the chapters its inputs carry.
    fn default() -> (options: Self)
        ensures
            options.chapter_mode is Auto,
            options.silence == (SilenceOpts {
                skip_leading: 0,
                trim_leading: false,
                trim_each_chapter: false,
                add_pause_leading: 0,
                add_pause_each_chapter: 0,
            }),
            options.workers is None,
    {
        Conversion {
            chapter_mode: ChapterMode::Auto,
            silence: SilenceOpts {
                skip_leading: 0,
                trim_leading: false,
                trim_each_chapter: false,
                add_pause_leading: 0,
                add_pause_each_chapter: 0,
            },
            workers: None,
        }
    }
}

/// A conversion of files on disk.
#[derive(Debug, Clone, PartialEq, Eq)]
pub struct ConvertJob {
    /// The audio files to convert, in the order they play.
    pub inputs: Vec<String>,
    /// Where the TAF goes, or nothing for the name derived from the first input.
    pub output: Option<String>,
    /// What is done to the audio.
    pub options: Conversion,
    /// Whether the cover art an input carried is written beside the TAF.
    pub write_cover: bool,
}

/// What a job states.
#[verifier::ext_equal]
pub struct Job {
    /// The inputs.
    pub inputs: Seq<Seq<char>>,
    /// The output, where it is stated.
    pub output: Option<Seq<char>>,
    /// The chapters, where they are stated.
    pub chapters: Option<Seq<u64>>,
    /// What is taken off the audio and what is put into it.
    pub silence: SilenceOpts,
    /// How many encoders run, where that is stated.
    pub workers: Option<usize>,
    /// Whether the cover is written.
    pub write_cover: bool,
}

/// The texts of `list`.
pub open spec fn texts(list: Seq<String>) -> Seq<Seq<char>> {
    list.map_values(|text: String| text@)
}

/// The text there is, where there is one.
pub open spec fn text_of(text: Option<String>) -> Option<Seq<char>> {
    match text {
        Some(text) => Some(text@),
        None => None,
    }
}

impl View for ConvertJob {
    type V = Job;

    open spec fn view(&self) -> Job {
        Job {
            inputs: texts(self.inputs@),
            output: text_of(self.output),
            chapters: self.options.chapter_mode@,
            silence: self.options.silence,
            workers: self.options.workers,
            write_cover: self.write_cover,
        }
    }
}

impl Job {
    /// Where the job writes: as it is stated, or the name derived from the first input, or nowhere
    /// where there is neither.
    pub open spec fn resolved(self) -> Option<Seq<char>> {
        if self.output is Some {
            self.output
        } else if self.inputs.len() > 0 {
            Some(crate::path::extended(self.inputs[0], "taf"@))
        } else {
            None
        }
    }
}

impl ChapterMode {
    /// The same, again.
    pub fn copy(&self) -> (copy: Self)
        ensures
            copy@ == self@,
    {
        match self {
            ChapterMode::Auto => ChapterMode::Auto,
            ChapterMode::Explicit(offsets) => {
                let mut list: Vec<u64> = Vec::new();
                list.extend_from_slice(offsets.as_slice());
                assert(list@ =~= offsets@);
                ChapterMode::Explicit(list)
            },
        }
    }
}

impl ConvertJob {
    /// The same, again.
    pub fn copy(&self) -> (copy: Self)
        ensures
            copy@ == self@,
    {
        ConvertJob {
            inputs: copied(&self.inputs),
            output: match &self.output {
                Some(output) => Some(output.clone()),
                None => None,
            },
            options: Conversion {
                chapter_mode: self.options.chapter_mode.copy(),
                silence: self.options.silence,
                workers: self.options.workers,
            },
            write_cover: self.write_cover,
        }
    }

    /// Where the job writes.
    pub fn resolved_output(&self) -> (output: Option<String>)
        ensures
            text_of(output) == self@.resolved(),
    {
        match &self.output {
            Some(output) => Some(output.clone()),
            None => {
                if self.inputs.len() > 0 {
                    assert(self@.inputs[0] == self.inputs@[0]@);
                    Some(crate::path::default_output_path(self.inputs[0].as_str()))
                } else {
                    None
                }
            },
        }
    }
}

/// How many chapters a stated plan comes to: a TAF's first chapter begins where its audio does, so a
/// plan that does not begin there has that chapter put in front of it.
pub open spec fn planned(chapters: Seq<u64>) -> nat {
    if chapters.len() > 0 && chapters[0] == 0 {
        chapters.len()
    } else {
        chapters.len() + 1
    }
}

/// How many chapters a stated plan comes to, where one was stated, as far as a count of them goes.
pub fn planned_chapters(mode: &ChapterMode) -> (chapters: Option<usize>)
    ensures
        match mode@ {
            None => chapters is None,
            Some(offsets) => chapters is Some && chapters->0 == (if planned(offsets) > usize::MAX {
                usize::MAX as nat
            } else {
                planned(offsets)
            }),
        },
{
    match mode {
        ChapterMode::Auto => None,
        ChapterMode::Explicit(offsets) => {
            if offsets.len() > 0 && offsets[0] == 0 {
                Some(offsets.len())
            } else {
                Some(offsets.len().saturating_add(1))
            }
        },
    }
}

/// What there is to say about `chapters` chapters, where that is more of them than a box plays.
pub open spec fn limit_note(chapters: nat) -> Option<Seq<char>> {
    if chapters > 99 {
        Some(
            ""@ + crate::text::decimal(chapters) + " chapters is more than the 99 a Toniebox plays"@,
        )
    } else {
        None
    }
}

/// Says so where `chapters` is more of them than a box plays.
pub fn over_limit(chapters: usize) -> (note: Option<String>)
    ensures
        text_of(note) == limit_note(chapters as nat),
{
    if chapters > MAX_CHAPTERS {
        Some(around("", chapters as u64, " chapters is more than the 99 a Toniebox plays"))
    } else {
        None
    }
}

/// The cover art an input carried.
#[derive(Debug, Clone, PartialEq, Eq)]
pub struct Cover {
    /// The picture, as it was stored.
    pub bytes: Vec<u8>,
    /// Its type.
    pub mime: String,
}

/// A chapter of a file that was written.
#[derive(Debug, Clone, PartialEq, Eq)]
pub struct ChapterOut {
    /// The block it starts at.
    pub page: BlockIndex,
    /// How far into the audio it starts.
    pub start: Duration,
    /// What it is called, where it is called anything.
    pub title: Option<String>,
}

/// What a conversion came to.
#[derive(Debug, Clone, PartialEq, Eq)]
pub struct ConversionReport {
    /// The chapters of the file.
    pub chapters: Vec<ChapterOut>,
    /// How long it plays.
    pub duration: Duration,
    /// The cover art of the first input that carried any.
    pub cover: Option<Cover>,
    /// The audio id of the file.
    pub audio_id: AudioId,
}

/// What a job came to: the files it left on the disk, and what the conversion itself reported.
#[derive(Debug, Clone, PartialEq, Eq)]
pub struct JobOutcome {
    /// The TAF that was written.
    pub taf_path: String,
    /// The cover beside it, where one was written.
    pub cover_path: Option<String>,
    /// Why no cover was written, where one was carried and asked for and did not make it.
    pub cover_error: Option<String>,
    /// What the conversion itself came to.
    pub report: ConversionReport,
}

/// What a running conversion reports.
#[derive(Debug, Clone, Copy, PartialEq, Eq, Structural)]
#[non_exhaustive]
pub enum Progress {
    /// An input has been reached.
    Decoding {
        /// Which one.
        input_index: usize,
    },
    /// Audio has gone into the file.
    Encoded {
        /// How much of it, in frames of one channel at 48 kHz.
        samples_done: u64,
    },
    /// The file is being closed.
    Finalizing,
}

/// Why a chapter list is no plan.
#[derive(Debug, Clone, Copy, PartialEq, Eq, Structural)]
#[non_exhaustive]
pub enum ChapterError {
    /// There are no inputs.
    Empty,
    /// A chapter starts past the end of the audio.
    OutOfRange {
        /// The frame it starts at.
        offset: u64,
        /// The frames there are.
        total: u64,
    },
}

/// Why a conversion failed.
#[derive(Debug)]
#[non_exhaustive]
pub enum ConvertError {
    /// It was asked to stop.
    Cancelled,
    /// Its chapter list is no plan.
    Chapters(ChapterError),
    /// Anything else, every layer of it in words.
    Failed(Vec<String>),
}

/// Why a job could not be run.
#[derive(Debug)]
#[non_exhaustive]
pub enum JobError {
    /// An input could not be opened.
    OpenInput {
        /// The file that was to be read, as it was named.
        path: String,
        /// What the filesystem said about it.
        source: String,
    },
    /// The file the conversion writes into could not be created.
    CreateOutput {
        /// The file that was to be written, as it was named or derived.
        path: String,
        /// What the filesystem said about it.
        source: String,
    },
    /// The conversion itself failed.
    Convert(ConvertError),
}

impl ChapterError {
    /// What the error says.
    pub open spec fn said(self) -> Seq<char> {
        match self {
            ChapterError::Empty => "no inputs"@,
            ChapterError::OutOfRange { offset, total } => "explicit chapter at "@
                + crate::text::decimal(offset as nat) + " beyond total length "@
                + crate::text::decimal(total as nat),
        }
    }

    /// What went wrong, in words.
    pub fn message(&self) -> (text: String)
        ensures
            text@ == self.said(),
    {
        match *self {
            ChapterError::Empty => String::from_str("no inputs"),
            ChapterError::OutOfRange { offset, total } => {
                let mut text: String = around(
                    "explicit chapter at ",
                    offset,
                    " beyond total length ",
                );
                crate::text::put_decimal(&mut text, total);
                text
            },
        }
    }
}

impl JobError {
    /// Every layer of the error, the outermost first.
    pub open spec fn layers(self) -> Seq<Seq<char>> {
        match self {
            JobError::OpenInput { path, source } => seq!["cannot open input "@ + path@, source@],
            JobError::CreateOutput { path, source } => {
                seq!["cannot create output "@ + path@, source@]
            },
            JobError::Convert(ConvertError::Cancelled) => {
                seq!["the conversion was cancelled"@]
            },
            JobError::Convert(ConvertError::Chapters(error)) => seq![error.said()],
            JobError::Convert(ConvertError::Failed(layers)) => texts(layers@),
        }
    }

    /// Every layer of the error, the outermost first, in words.
    pub fn messages(&self) -> (layers: Vec<String>)
        ensures
            texts(layers@) == self.layers(),
    {
        let mut layers: Vec<String> = Vec::new();
        match self {
            JobError::OpenInput { path, source } => {
                let mut text: String = String::from_str("cannot open input ");
                text.append(path.as_str());
                layers.push(text);
                layers.push(source.clone());
            },
            JobError::CreateOutput { path, source } => {
                let mut text: String = String::from_str("cannot create output ");
                text.append(path.as_str());
                layers.push(text);
                layers.push(source.clone());
            },
            JobError::Convert(ConvertError::Cancelled) => {
                layers.push(String::from_str("the conversion was cancelled"));
            },
            JobError::Convert(ConvertError::Chapters(error)) => {
                layers.push(error.message());
            },
            JobError::Convert(ConvertError::Failed(list)) => {
                layers = copied(list);
            },
        }
        assert(texts(layers@) =~= self.layers());
        layers
    }
}

/// Texts on one line, with `": "` between them.
pub open spec fn on_one_line(layers: Seq<Seq<char>>) -> Seq<char>
    decreases layers.len(),
{
    if layers.len() == 0 {
        Seq::empty()
    } else if layers.len() == 1 {
        layers[0]
    } else {
        on_one_line(layers.drop_last()) + ": "@ + layers.last()
    }
}

/// Every layer of a failure on one line.
pub fn chain(layers: &Vec<String>) -> (line: String)
    ensures
        line@ == on_one_line(texts(layers@)),
{
    let mut line: String = String::new();
    let mut at: usize = 0;
    let ghost all = texts(layers@);
    assert(line@ =~= on_one_line(all.take(0)));
    while at < layers.len()
        invariant
            at <= layers@.len(),
            all == texts(layers@),
            line@ == on_one_line(all.take(at as int)),
        decreases layers@.len() - at,
    {
        assert(all.take(at + 1).drop_last() =~= all.take(at as int));
        assert(all[at as int] == layers@[at as int]@);
        if at > 0 {
            line.append(": ");
        }
        line.append(layers[at].as_str());
        at += 1;
        assert(line@ =~= on_one_line(all.take(at as int)));
    }
    assert(all.take(at as int) =~= all);
    line
}

impl Job {
    /// A job writes where it says, whatever it reads, and where it does not say, into the name of its
    /// first input with the format in the place of the extension; one that says nothing and reads nothing
    /// writes nowhere.
    pub proof fn lemma_where_a_job_writes(self)
        ensures
            self.output matches Some(path) ==> self.resolved() == Some(path),
            self.output is None && self.inputs.len() == 0 ==> self.resolved() is None,
            self.output is None && self.inputs.len() > 0 ==> self.resolved() == Some(
                crate::path::extended(self.inputs[0], seq!['t', 'a', 'f']),
            ),
    {
        reveal_strlit("taf");
        assert("taf"@ =~= seq!['t', 'a', 'f']);
    }
}

/// A plan comes to one chapter for every offset and one more where none of them is the start: the first
/// chapter of a file is where its audio begins, whether it was stated or not.
pub proof fn lemma_a_plan_opens_with_the_audio(offsets: Seq<u64>)
    ensures
        planned(seq![0u64] + offsets) == offsets.len() + 1,
        offsets.len() == 0 || offsets[0] > 0 ==> planned(offsets) == planned(seq![0u64] + offsets),
{
    assert((seq![0u64] + offsets)[0] == 0);
}

/// Ninety-nine chapters are played and a hundredth is not, and what is said of more of them begins with
/// how many there are.
pub proof fn lemma_a_box_plays_ninety_nine_chapters(chapters: nat)
    ensures
        limit_note(chapters) is None <==> chapters <= 99,
        limit_note(chapters) matches Some(note) ==> crate::text::decimal(chapters).is_prefix_of(note),
{
    reveal_strlit("");
    let number = crate::text::decimal(chapters);
    if chapters > 99 {
        let note = limit_note(chapters)->0;
        assert(""@ + number =~= number);
        assert(note.take(number.len() as int) =~= number);
    }
}

/// Layers are said outermost first, each behind the one it lies under and a colon.
pub proof fn lemma_layers_follow_each_other(layers: Seq<Seq<char>>, inner: Seq<char>)
    ensures
        on_one_line(Seq::empty()) == Seq::<char>::empty(),
        on_one_line(seq![inner]) == inner,
        layers.len() > 0 ==> on_one_line(layers.push(inner)) == on_one_line(layers) + seq![':', ' ']
            + inner,
{
    reveal_strlit(": ");
    assert(": "@ =~= seq![':', ' ']);
    assert(layers.push(inner).drop_last() =~= layers);
}

/// A failure names the file it is about and says what was said about it; one that was asked for is told
/// apart from every other; and what an engine says is passed on as it is.
pub proof fn lemma_a_failure_says_what_it_is_about(error: JobError)
    ensures
        error matches JobError::OpenInput { path, source } ==> {
            &&& error.layers().len() == 2
            &&& path@.is_suffix_of(error.layers()[0])
            &&& error.layers()[1] == source@
        },
        error matches JobError::CreateOutput { path, source } ==> {
            &&& error.layers().len() == 2
            &&& path@.is_suffix_of(error.layers()[0])
            &&& error.layers()[1] == source@
        },
        error matches JobError::Convert(ConvertError::Failed(layers)) ==> error.layers() == texts(
            layers@,
        ),
        error matches JobError::Convert(ConvertError::Chapters(why)) ==> error.layers() == seq![
            why.said(),
        ],
{
    match error {
        JobError::OpenInput { path, source } => {
            let line = "cannot open input "@ + path@;
            assert(line.skip(line.len() - path@.len()) =~= path@);
        },
        JobError::CreateOutput { path, source } => {
            let line = "cannot create output "@ + path@;
            assert(line.skip(line.len() - path@.len()) =~= path@);
        },
        _ => {},
    }
}

/// A chapter past the end is said with where it is and where the end is.
pub proof fn lemma_a_chapter_past_the_end_is_said(offset: u64, total: u64)
    ensures
        (ChapterError::OutOfRange { offset, total }).said() == "explicit chapter at "@
            + crate::text::decimal(offset as nat) + " beyond total length "@ + crate::text::decimal(
            total as nat,
        ),
{
}

} // verus!
