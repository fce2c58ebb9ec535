//! The options panel as it is typed, and the conversion it comes to.
//!
//! A panel holds text for as long as somebody is typing into it, and a conversion is made of paths and
//! frames. [`capture`] is where the one becomes the other, once per book, so that nothing that cannot
//! be read enters the queue. What was typed is kept beside what it was read as.

use crate::duration::Seconds;
use crate::job::{over_limit, planned_chapters, ChapterMode, Conversion, ConvertJob, Job};
use crate::job::SilenceOpts;
use crate::path::{default_output_path, file_stem};
use crate::text::{characters, copied, split_on};
use vstd::prelude::*;
use vstd::string::StringExecFns;

verus! {

/// The options panel as it stands: text where a person types, switches where they switch.
#[derive(Debug, Clone, PartialEq, Eq)]
pub struct Panel {
    /// The files to convert, in the order they play.
    pub files: Vec<String>,
    /// Where the TAF goes. Empty is the name derived from the first input.
    pub output_text: String,
    /// The chapter marks that override whatever the inputs carry, separated by commas. Empty leaves
    /// the chapters to the conversion.
    pub chapters_text: String,
    /// How much is dropped from the very start. Empty is none of it.
    pub skip_leading_text: String,
    /// Whether the silence the first chapter begins with is dropped.
    pub trim_leading: bool,
    /// Whether the silence every chapter begins with is dropped.
    pub trim_each_chapter: bool,
    /// How much silence goes in front of the first chapter. Empty is none of it.
    pub add_pause_leading_text: String,
    /// How much silence goes in front of every chapter. Empty is none of it.
    pub add_pause_each_text: String,
    /// Whether the cover art an input carries is written beside the TAF.
    pub extract_cover: bool,
}

/// What a panel holds.
#[verifier::ext_equal]
pub struct Typed {
    /// The files.
    pub files: Seq<Seq<char>>,
    /// The output field.
    pub output: Seq<char>,
    /// The chapter field.
    pub chapters: Seq<char>,
    /// The skip-leading field.
    pub skip_leading: Seq<char>,
    /// The leading-silence switch.
    pub trim_leading: bool,
    /// The every-chapter switch.
    pub trim_each_chapter: bool,
    /// The leading-pause field.
    pub add_pause_leading: Seq<char>,
    /// The every-chapter-pause field.
    pub add_pause_each: Seq<char>,
    /// The cover switch.
    pub extract_cover: bool,
}

impl View for Panel {
    type V = Typed;

    open spec fn view(&self) -> Typed {
        Typed {
            files: crate::job::texts(self.files@),
            output: self.output_text@,
            chapters: self.chapters_text@,
            skip_leading: self.skip_leading_text@,
            trim_leading: self.trim_leading,
            trim_each_chapter: self.trim_each_chapter,
            add_pause_leading: self.add_pause_leading_text@,
            add_pause_each: self.add_pause_each_text@,
            extract_cover: self.extract_cover,
        }
    }
}

/// A panel nobody has touched: nothing typed, and the cover extracted.
pub open spec fn untouched() -> Typed {
    Typed {
        files: Seq::empty(),
        output: Seq::empty(),
        chapters: Seq::empty(),
        skip_leading: Seq::empty(),
        trim_leading: false,
        trim_each_chapter: false,
        add_pause_leading: Seq::empty(),
        add_pause_each: Seq::empty(),
        extract_cover: true,
    }
}

impl Default for Panel {
    /// A panel nobody has touched.
    fn default() -> (panel: Self)
        ensures
            panel@ == untouched(),
    {
        let panel = Panel {
            files: Vec::new(),
            output_text: String::new(),
            chapters_text: String::new(),
            skip_leading_text: String::new(),
            trim_leading: false,
            trim_each_chapter: false,
            add_pause_leading_text: String::new(),
            add_pause_each_text: String::new(),
            extract_cover: true,
        };
        assert(panel@ =~= untouched());
        panel
    }
}

impl Panel {
    /// The same, again.
    pub fn copy(&self) -> (copy: Self)
        ensures
            copy@ == self@,
    {
        Panel {
            files: copied(&self.files),
            output_text: self.output_text.clone(),
            chapters_text: self.chapters_text.clone(),
            skip_leading_text: self.skip_leading_text.clone(),
            trim_leading: self.trim_leading,
            trim_each_chapter: self.trim_each_chapter,
            add_pause_leading_text: self.add_pause_leading_text.clone(),
            add_pause_each_text: self.add_pause_each_text.clone(),
            extract_cover: self.extract_cover,
        }
    }
}

/// A book as it is going to be converted.
#[derive(Debug, Clone, PartialEq, Eq)]
pub struct BookPlan {
    /// What the book is called in the queue: the first input's name without its extension.
    pub title: String,
    /// The panel this was captured from.
    pub panel: Panel,
    /// The conversion the panel came to.
    pub job: ConvertJob,
}

/// What a plan states.
#[verifier::ext_equal]
pub struct Planned {
    /// The title.
    pub title: Seq<char>,
    /// The panel.
    pub panel: Typed,
    /// The conversion.
    pub job: Job,
}

impl View for BookPlan {
    type V = Planned;

    open spec fn view(&self) -> Planned {
        Planned { title: self.title@, panel: self.panel@, job: self.job@ }
    }
}

/// Why what was typed is no conversion.
#[derive(Debug)]
pub enum CaptureError {
    /// The panel names no file at all.
    NoFiles,
    /// One of the duration fields holds something that is no duration.
    BadDuration {
        /// The field it was typed into, as the panel names it.
        field: &'static str,
        /// What was typed there.
        text: String,
    },
    /// One entry of the chapter list is no duration.
    BadChapterEntry {
        /// The entry, as it was typed.
        text: String,
    },
}

/// What is wrong with a panel.
#[verifier::ext_equal]
pub enum Fault {
    /// It names no file.
    NoFiles,
    /// This field holds this, which is no duration.
    Duration(Seq<char>, Seq<char>),
    /// The chapter list holds this, which is no duration.
    Chapter(Seq<char>),
}

impl Fault {
    /// What there is to say about it.
    pub open spec fn said(self) -> Seq<char> {
        match self {
            Fault::NoFiles => "there is nothing to convert: the book holds no files"@,
            Fault::Duration(field, text) => "the "@ + field + " time '"@ + text
                + "' is no duration"@,
            Fault::Chapter(text) => "the chapter list holds '"@ + text
                + "', which is no duration"@,
        }
    }
}

impl View for CaptureError {
    type V = Fault;

    open spec fn view(&self) -> Fault {
        match self {
            CaptureError::NoFiles => Fault::NoFiles,
            CaptureError::BadDuration { field, text } => Fault::Duration(field@, text@),
            CaptureError::BadChapterEntry { text } => Fault::Chapter(text@),
        }
    }
}

impl CaptureError {
    /// What went wrong, in words.
    pub fn message(&self) -> (text: String)
        ensures
            text@ == self@.said(),
    {
        match self {
            CaptureError::NoFiles => String::from_str(
                "there is nothing to convert: the book holds no files",
            ),
            CaptureError::BadDuration { field, text } => {
                let mut said: String = String::from_str("the ");
                said.append(field);
                said.append(" time '");
                said.append(text.as_str());
                said.append("' is no duration");
                said
            },
            CaptureError::BadChapterEntry { text } => {
                let mut said: String = String::from_str("the chapter list holds '");
                said.append(text.as_str());
                said.append("', which is no duration");
                said
            },
        }
    }
}

/// The frames a time of `whole` seconds and the fraction behind them comes to, as far as a count of
/// them goes.
pub open spec fn frames(time: (nat, Seq<char>)) -> u64 {
    let count = time.0 * 48_000 + crate::duration::nearest_frames(time.1);
    if count > u64::MAX {
        u64::MAX
    } else {
        count as u64
    }
}

/// The frames a duration field comes to, where it holds a duration or nothing at all.
pub open spec fn field_frames(text: Seq<char>) -> Option<u64> {
    if text.len() == 0 {
        Some(0)
    } else {
        match crate::duration::typed(text) {
            Some(time) => Some(frames(time)),
            None => None,
        }
    }
}

/// The first of `entries` from `at` on that is no duration.
pub open spec fn first_bad(entries: Seq<Seq<char>>, at: int) -> Option<Seq<char>>
    decreases entries.len() - at,
{
    if at >= entries.len() {
        None
    } else if crate::duration::typed(entries[at]) is None {
        Some(entries[at])
    } else {
        first_bad(entries, at + 1)
    }
}

/// The chapters a chapter field states: none where it is empty, and otherwise the frames every entry
/// of it comes to, in the order they were typed.
pub open spec fn listed_chapters(text: Seq<char>) -> Result<Option<Seq<u64>>, Fault> {
    if text.len() == 0 {
        Ok(None)
    } else {
        let entries = crate::text::split(text, ',');
        match first_bad(entries, 0) {
            Some(entry) => Err(Fault::Chapter(entry)),
            None => Ok(
                Some(
                    entries.map_values(
                        |entry: Seq<char>| frames(crate::duration::typed(entry)->0),
                    ),
                ),
            ),
        }
    }
}

/// The conversion a panel states, or the first thing that says it states none.
pub open spec fn captured(panel: Typed) -> Result<Planned, Fault> {
    if panel.files.len() == 0 {
        Err(Fault::NoFiles)
    } else if listed_chapters(panel.chapters) is Err {
        Err(listed_chapters(panel.chapters)->Err_0)
    } else if field_frames(panel.skip_leading) is None {
        Err(Fault::Duration("skip leading"@, panel.skip_leading))
    } else if field_frames(panel.add_pause_leading) is None {
        Err(Fault::Duration("add pause leading"@, panel.add_pause_leading))
    } else if field_frames(panel.add_pause_each) is None {
        Err(Fault::Duration("add pause each chapter"@, panel.add_pause_each))
    } else {
        Ok(
            Planned {
                title: crate::path::stem(panel.files[0]),
                panel,
                job: Job {
                    inputs: panel.files,
                    output: Some(
                        if panel.output.len() == 0 {
                            crate::path::extended(panel.files[0], "taf"@)
                        } else {
                            panel.output
                        },
                    ),
                    chapters: listed_chapters(panel.chapters)->Ok_0,
                    silence: SilenceOpts {
                        skip_leading: field_frames(panel.skip_leading)->0,
                        trim_leading: panel.trim_leading,
                        trim_each_chapter: panel.trim_each_chapter,
                        add_pause_leading: field_frames(panel.add_pause_leading)->0,
                        add_pause_each_chapter: field_frames(panel.add_pause_each)->0,
                    },
                    workers: None,
                    write_cover: panel.extract_cover,
                },
            },
        )
    }
}

/// The conversion `panel` states, read out of what was typed into it.
pub fn capture(panel: &Panel) -> (result: Result<BookPlan, CaptureError>)
    ensures
        match result {
            Ok(plan) => captured(panel@) == Ok::<Planned, Fault>(plan@),
            Err(error) => captured(panel@) == Err::<Planned, Fault>(error@),
        },
{
    if panel.files.len() == 0 {
        return Err(CaptureError::NoFiles);
    }
    assert(panel@.files[0] == panel.files@[0]@);
    let first = panel.files[0].as_str();
    let title: String = file_stem(first);
    let output: String = if panel.output_text.as_str().is_empty() {
        default_output_path(first)
    } else {
        panel.output_text.clone()
    };
    let chapter_mode: ChapterMode = match chapter_mode(panel.chapters_text.as_str()) {
        Err(error) => {
            return Err(error);
        },
        Ok(mode) => mode,
    };
    let skip_leading: u64 = match samples(panel.skip_leading_text.as_str(), "skip leading") {
        Err(error) => {
            return Err(error);
        },
        Ok(frames) => frames,
    };
    let add_pause_leading: u64 = match samples(
        panel.add_pause_leading_text.as_str(),
        "add pause leading",
    ) {
        Err(error) => {
            return Err(error);
        },
        Ok(frames) => frames,
    };
    let add_pause_each_chapter: u64 = match samples(
        panel.add_pause_each_text.as_str(),
        "add pause each chapter",
    ) {
        Err(error) => {
            return Err(error);
        },
        Ok(frames) => frames,
    };
    Ok(
        BookPlan {
            title,
            panel: panel.copy(),
            job: ConvertJob {
                inputs: copied(&panel.files),
                output: Some(output),
                options: Conversion {
                    chapter_mode,
                    silence: SilenceOpts {
                        skip_leading,
                        trim_leading: panel.trim_leading,
                        trim_each_chapter: panel.trim_each_chapter,
                        add_pause_leading,
                        add_pause_each_chapter,
                    },
                    workers: None,
                },
                write_cover: panel.extract_cover,
            },
        },
    )
}

/// Where the TAF goes while nobody has typed an output, and nothing at all while the book holds no
/// file to derive a name from.
pub fn derived_output(panel: &Panel) -> (output: Option<String>)
    ensures
        crate::job::text_of(output) == (if panel@.files.len() == 0 {
            None::<Seq<char>>
        } else {
            Some(crate::path::extended(panel@.files[0], "taf"@))
        }),
{
    if panel.files.len() == 0 {
        return None;
    }
    assert(panel@.files[0] == panel.files@[0]@);
    Some(default_output_path(panel.files[0].as_str()))
}

/// What there is to say about a chapter plan that is longer than a box plays.
pub open spec fn plan_note(chapters: Option<Seq<u64>>) -> Option<Seq<char>> {
    match chapters {
        None => None,
        Some(offsets) => crate::job::limit_note(
            if crate::job::planned(offsets) > usize::MAX {
                usize::MAX as nat
            } else {
                crate::job::planned(offsets)
            },
        ),
    }
}

/// Says so where `mode` plans more chapters than a Toniebox plays. A plan nobody typed is counted
/// where the file is written and not here.
pub fn chapter_warning(mode: &ChapterMode) -> (note: Option<String>)
    ensures
        crate::job::text_of(note) == plan_note(mode@),
{
    match planned_chapters(mode) {
        None => None,
        Some(chapters) => over_limit(chapters),
    }
}

/// The chapter plan `text` states.
fn chapter_mode(text: &str) -> (result: Result<ChapterMode, CaptureError>)
    ensures
        match result {
            Ok(mode) => listed_chapters(text@) == Ok::<Option<Seq<u64>>, Fault>(mode@),
            Err(error) => listed_chapters(text@) == Err::<Option<Seq<u64>>, Fault>(error@),
        },
{
    if text.is_empty() {
        return Ok(ChapterMode::Auto);
    }
    let chars: Vec<char> = characters(text);
    let list: Vec<Vec<char>> = split_on(chars.as_slice(), ',');
    let ghost entries = crate::text::split(text@, ',');
    let mut offsets: Vec<u64> = Vec::new();
    let mut at: usize = 0;
    let mut from: usize = 0;
    let ghost stated = entries.map_values(
        |entry: Seq<char>| frames(crate::duration::typed(entry)->0),
    );
    while at < list.len()
        invariant
            at <= list@.len(),
            text@.len() > 0,
            entries == crate::text::split(text@, ','),
            entries == crate::text::pieces(list@),
            stated == entries.map_values(
                |entry: Seq<char>| frames(crate::duration::typed(entry)->0),
            ),
            first_bad(entries, 0) == first_bad(entries, at as int),
            offsets@ == stated.take(at as int),
        decreases list@.len() - at,
    {
        assert(entries[at as int] == list@[at as int]@);
        let entry: String = crate::text::gathered(&list[at]);
        match Seconds::parse(entry.as_str()) {
            Err(_invalid) => {
                return Err(CaptureError::BadChapterEntry { text: entry });
            },
            Ok(seconds) => {
                offsets.push(seconds.to_samples_48k());
            },
        }
        at += 1;
        assert(offsets@ =~= stated.take(at as int));
    }
    assert(offsets@ =~= stated);
    Ok(ChapterMode::Explicit(offsets))
}

/// The frames `text` comes to, where `field` is the panel field it was typed into.
fn samples(text: &str, field: &'static str) -> (result: Result<u64, CaptureError>)
    ensures
        match result {
            Ok(frames) => field_frames(text@) == Some(frames),
            Err(error) => field_frames(text@) is None && error@ == Fault::Duration(field@, text@),
        },
{
    if text.is_empty() {
        return Ok(0);
    }
    match Seconds::parse(text) {
        Err(_invalid) => Err(CaptureError::BadDuration { field, text: String::from_str(text) }),
        Ok(seconds) => Ok(seconds.to_samples_48k()),
    }
}

/// A captured book keeps what was typed, reads every file of the panel in order, and states where it
/// will land.
pub proof fn lemma_capture_keeps_the_panel(panel: Typed)
    requires
        captured(panel) is Ok,
    ensures
        captured(panel)->Ok_0.panel == panel,
        captured(panel)->Ok_0.job.inputs == panel.files,
        captured(panel)->Ok_0.job.output is Some,
        captured(captured(panel)->Ok_0.panel) == captured(panel),
{
}

#[verifier::rlimit(30)]
proof fn lemma_first_bad(entries: Seq<Seq<char>>, at: int)
    requires
        0 <= at <= entries.len(),
    ensures
        first_bad(entries, at) is None <==> forall|i: int|
            at <= i < entries.len() ==> crate::duration::typed(#[trigger] entries[i]) is Some,
        first_bad(entries, at) matches Some(entry) ==> exists|i: int|
            at <= i < entries.len() && #[trigger] entries[i] == entry && crate::duration::typed(entry)
                is None && forall|k: int|
                at <= k < i ==> crate::duration::typed(#[trigger] entries[k]) is Some,
    decreases entries.len() - at,
{
    if at < entries.len() {
        lemma_first_bad(entries, at + 1);
        if crate::duration::typed(entries[at]) is None {
            assert(entries[at] == first_bad(entries, at)->0);
        } else if first_bad(entries, at + 1) is Some {
            let entry = first_bad(entries, at + 1)->0;
            let i = choose|i: int|
                at + 1 <= i < entries.len() && #[trigger] entries[i] == entry
                    && crate::duration::typed(entry) is None && forall|k: int|
                    at + 1 <= k < i ==> crate::duration::typed(#[trigger] entries[k]) is Some;
            assert(entries[i] == entry);
        }
    }
}

/// Whether `count` is the frames of a time: all of them, or as many as can be counted.
pub open spec fn counts(count: u64, time: (nat, Seq<char>)) -> bool {
    let frames = time.0 * 48_000 + crate::duration::nearest_frames(time.1);
    count <= frames && (count < frames ==> count == u64::MAX)
}

/// A chapter list is read entry by entry: one offset for every entry between commas, in the order they
/// were typed, and refused for the first entry that is no time. An empty one states no list.
pub proof fn lemma_a_list_of_times(text: Seq<char>)
    ensures
        ({
            let entries = crate::text::split(text, ',');
            let read = listed_chapters(text);
            &&& text.len() == 0 ==> read == Ok::<Option<Seq<u64>>, Fault>(None)
            &&& text.len() > 0 && read is Ok ==> {
                &&& read->Ok_0 is Some
                &&& read->Ok_0->0.len() == entries.len()
                &&& forall|i: int|
                    0 <= i < entries.len() ==> crate::duration::typed(#[trigger] entries[i]) is Some
                        && counts(read->Ok_0->0[i], crate::duration::typed(entries[i])->0)
            }
            &&& text.len() > 0 && (forall|i: int|
                0 <= i < entries.len() ==> crate::duration::typed(#[trigger] entries[i]) is Some)
                ==> read is Ok
            &&& read matches Err(fault) ==> (fault matches Fault::Chapter(entry) && exists|i: int|
                0 <= i < entries.len() && #[trigger] entries[i] == entry && crate::duration::typed(
                    entry,
                ) is None && forall|k: int|
                    0 <= k < i ==> crate::duration::typed(#[trigger] entries[k]) is Some)
        }),
{
    lemma_first_bad(crate::text::split(text, ','), 0);
}

/// Whether `count` is what a field of a panel comes to: none where nothing was typed, and the frames of
/// the time that was.
pub open spec fn field_counts(count: u64, text: Seq<char>) -> bool {
    if text.len() == 0 {
        count == 0
    } else {
        crate::duration::typed(text) is Some && counts(count, crate::duration::typed(text)->0)
    }
}

/// Whether a field of a panel holds something that is no time.
pub open spec fn is_no_time(text: Seq<char>) -> bool {
    text.len() > 0 && crate::duration::typed(text) is None
}

/// Every field of a panel is read for itself, and what was typed into one of them says nothing about
/// another.
pub proof fn lemma_every_field_is_read_for_itself(panel: Typed)
    requires
        captured(panel) is Ok,
    ensures
        ({
            let plan = captured(panel)->Ok_0;
            let silence = plan.job.silence;
            &&& plan.title == crate::path::stem(panel.files[0])
            &&& plan.panel == panel
            &&& plan.job.inputs == panel.files
            &&& panel.output.len() > 0 ==> plan.job.output == Some(panel.output)
            &&& panel.output.len() == 0 ==> plan.job.output == Some(
                crate::path::extended(panel.files[0], seq!['t', 'a', 'f']),
            )
            &&& field_counts(silence.skip_leading, panel.skip_leading)
            &&& field_counts(silence.add_pause_leading, panel.add_pause_leading)
            &&& field_counts(silence.add_pause_each_chapter, panel.add_pause_each)
            &&& silence.trim_leading == panel.trim_leading
            &&& silence.trim_each_chapter == panel.trim_each_chapter
            &&& listed_chapters(panel.chapters) == Ok::<Option<Seq<u64>>, Fault>(plan.job.chapters)
            &&& plan.job.workers is None
            &&& plan.job.write_cover == panel.extract_cover
        }),
{
    reveal_strlit("taf");
    assert("taf"@ =~= seq!['t', 'a', 'f']);
}

/// A panel is a conversion exactly where it names a file and everything that was typed is a time, and
/// where it is none, what is named is what is wrong.
pub proof fn lemma_what_is_no_conversion(panel: Typed)
    ensures
        captured(panel) is Ok <==> panel.files.len() > 0 && listed_chapters(panel.chapters) is Ok
            && !is_no_time(panel.skip_leading) && !is_no_time(panel.add_pause_leading) && !is_no_time(
            panel.add_pause_each,
        ),
        panel.files.len() == 0 <==> captured(panel) == Err::<Planned, Fault>(Fault::NoFiles),
        captured(panel) matches Err(Fault::Chapter(entry)) ==> listed_chapters(panel.chapters) == Err::<
            Option<Seq<u64>>,
            Fault,
        >(Fault::Chapter(entry)),
        captured(panel) matches Err(Fault::Duration(field, text)) ==> is_no_time(text) && {
            ||| field == "skip leading"@ && text == panel.skip_leading
            ||| field == "add pause leading"@ && text == panel.add_pause_leading
            ||| field == "add pause each chapter"@ && text == panel.add_pause_each
        },
{
    lemma_a_list_of_times(panel.chapters);
}

/// A plan nobody typed is not warned of, and one somebody did where it has more chapters than a box plays.
pub proof fn lemma_when_a_plan_is_warned_of(chapters: Option<Seq<u64>>)
    ensures
        chapters is None ==> plan_note(chapters) is None,
        chapters matches Some(offsets) ==> (plan_note(chapters) is Some <==> crate::job::planned(
            offsets,
        ) > 99),
{
    if let Some(offsets) = chapters {
        let count = crate::job::planned(offsets);
        crate::job::lemma_a_box_plays_ninety_nine_chapters(count);
        crate::job::lemma_a_box_plays_ninety_nine_chapters(usize::MAX as nat);
    }
}

/// What is wrong with a panel is said with what was typed: the field it was typed into, or the entry of
/// the list it is.
pub proof fn lemma_what_is_wrong_is_said_as_it_was_typed(field: Seq<char>, text: Seq<char>)
    ensures
        Fault::Duration(field, text).said() == "the "@ + field + " time '"@ + text
            + "' is no duration"@,
        Fault::Chapter(text).said() == "the chapter list holds '"@ + text + "', which is no duration"@,
{
}

} // verus!
