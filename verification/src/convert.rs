//! What a conversion of files decides: where it writes, whether there is anything to convert, and what
//! becomes of the cover.

use crate::job::{
    ChapterError, ConversionReport, ConvertError, ConvertJob, Cover, JobError, JobOutcome,
};
use crate::text::same;
use vstd::prelude::*;
use vstd::string::StringExecFns;

verus! {

/// What a picture of the type `mime` is called on disk, where anything here calls it something.
pub open spec fn picture_extension(mime: Seq<char>) -> Option<Seq<char>> {
    if mime == "image/jpeg"@ {
        Some("jpg"@)
    } else if mime == "image/png"@ {
        Some("png"@)
    } else {
        None
    }
}

/// What a picture of the type `mime` is called on disk, where anything here calls it something.
pub fn extension(mime: &str) -> (extension: Option<&'static str>)
    ensures
        match extension {
            Some(extension) => picture_extension(mime@) == Some(extension@),
            None => picture_extension(mime@) is None,
        },
{
    if same(mime, "image/jpeg") {
        Some("jpg")
    } else if same(mime, "image/png") {
        Some("png")
    } else {
        None
    }
}

/// Where the cover of the type `mime` goes that belongs to the TAF at `taf`, or why it goes nowhere:
/// it is of a type nothing here writes, or its place is the TAF itself.
pub open spec fn cover_place(taf: Seq<char>, mime: Seq<char>) -> Result<Seq<char>, Seq<char>> {
    match picture_extension(mime) {
        None => Err(
            "cover art of type '"@ + mime
                + "' was left out: a cover is written as image/jpeg or image/png and as nothing else"@,
        ),
        Some(extension) => if crate::path::extended(taf, extension) == taf {
            Err("cover art was left out: its place "@ + taf + " is the converted file itself"@)
        } else {
            Ok(crate::path::extended(taf, extension))
        },
    }
}

/// Where the cover `cover` goes that belongs to the TAF at `taf`: beside it, under its own name and
/// the extension the picture's type calls for, and never over it.
pub fn beside(taf: &str, cover: &Cover) -> (place: Result<String, String>)
    ensures
        match place {
            Ok(path) => cover_place(taf@, cover.mime@) == Ok::<Seq<char>, Seq<char>>(path@),
            Err(why) => cover_place(taf@, cover.mime@) == Err::<Seq<char>, Seq<char>>(why@),
        },
{
    match extension(cover.mime.as_str()) {
        None => {
            let mut why: String = String::from_str("cover art of type '");
            why.append(cover.mime.as_str());
            why.append(
                "' was left out: a cover is written as image/jpeg or image/png and as nothing else",
            );
            Err(why)
        },
        Some(extension) => {
            let path: String = crate::path::with_extension(taf, extension);
            if same(path.as_str(), taf) {
                let mut why: String = String::from_str("cover art was left out: its place ");
                why.append(taf);
                why.append(" is the converted file itself");
                Err(why)
            } else {
                Ok(path)
            }
        },
    }
}

/// Why the cover at `path` could not be written, where `error` is what stopped it.
pub fn unwritten(path: &str, error: &str) -> (why: String)
    ensures
        why@ == "cannot write cover "@ + path@ + ": "@ + error@,
{
    let mut why: String = String::from_str("cannot write cover ");
    why.append(path);
    why.append(": ");
    why.append(error);
    why
}

/// Where `job` writes. A job of no inputs has nothing to convert, whatever it says of its output, and
/// is refused before a file is made for it.
pub fn target(job: &ConvertJob) -> (path: Result<String, JobError>)
    ensures
        match path {
            Ok(path) => job@.inputs.len() > 0 && job@.resolved() == Some(path@),
            Err(error) => job@.inputs.len() == 0 && error == JobError::Convert(
                ConvertError::Chapters(ChapterError::Empty),
            ),
        },
{
    if job.inputs.len() == 0 {
        return Err(JobError::Convert(ConvertError::Chapters(ChapterError::Empty)));
    }
    match job.resolved_output() {
        Some(path) => Ok(path),
        None => {
            assert(false);
            Ok(String::new())
        },
    }
}

/// What is to become of the cover: where it goes or why it goes nowhere, where one was asked for and
/// an input carried one.
pub fn cover_due(write_cover: bool, taf: &str, report: &ConversionReport) -> (due: Option<
    Result<String, String>,
>)
    ensures
        match due {
            None => !write_cover || report.cover is None,
            Some(Ok(path)) => write_cover && report.cover is Some && cover_place(
                taf@,
                report.cover->0.mime@,
            ) == Ok::<Seq<char>, Seq<char>>(path@),
            Some(Err(why)) => write_cover && report.cover is Some && cover_place(
                taf@,
                report.cover->0.mime@,
            ) == Err::<Seq<char>, Seq<char>>(why@),
        },
{
    if !write_cover {
        return None;
    }
    match &report.cover {
        None => None,
        Some(cover) => Some(beside(taf, cover)),
    }
}

/// What the job came to, where `cover` is what became of the cover: the file it was written to, or why
/// it was not, or nothing where none was due. A cover never fails a conversion.
pub fn outcome(
    taf_path: String,
    cover: Option<Result<String, String>>,
    report: ConversionReport,
) -> (outcome: JobOutcome)
    ensures
        outcome.taf_path == taf_path,
        outcome.report == report,
        outcome.cover_path == (match cover {
            Some(Ok(path)) => Some(path),
            _ => None,
        }),
        outcome.cover_error == (match cover {
            Some(Err(why)) => Some(why),
            _ => None,
        }),
        outcome.cover_path is None || outcome.cover_error is None,
{
    match cover {
        None => JobOutcome { taf_path, cover_path: None, cover_error: None, report },
        Some(Ok(path)) => JobOutcome { taf_path, cover_path: Some(path), cover_error: None, report },
        Some(Err(why)) => JobOutcome { taf_path, cover_path: None, cover_error: Some(why), report },
    }
}

/// What a conversion of files does next.
#[derive(Debug, PartialEq, Eq)]
pub enum Step {
    /// Opens the input at this path.
    Open(String),
    /// Creates the file at this path.
    Create(String),
    /// Converts what was opened into what was created.
    Convert,
}

/// What a conversion of files does next.
#[verifier::ext_equal]
pub enum Due {
    /// Opens the input at this path.
    Open(Seq<char>),
    /// Creates the file at this path.
    Create(Seq<char>),
    /// Converts what was opened into what was created.
    Convert,
}

impl View for Step {
    type V = Due;

    open spec fn view(&self) -> Due {
        match self {
            Step::Open(path) => Due::Open(path@),
            Step::Create(path) => Due::Create(path@),
            Step::Convert => Due::Convert,
        }
    }
}

/// How far a conversion of files has come.
#[verifier::ext_equal]
pub struct Underway {
    /// The conversion.
    pub job: crate::job::Job,
    /// How many of its inputs are open.
    pub opened: nat,
    /// Whether the file it writes into has been created.
    pub created: bool,
}

impl Underway {
    /// The inputs are opened in the order they play and in front of the output, so a job naming a file
    /// that is not there leaves nothing behind.
    pub open spec fn due(self) -> Due {
        if self.opened < self.job.inputs.len() {
            Due::Open(self.job.inputs[self.opened as int])
        } else if !self.created {
            Due::Create(self.job.resolved()->0)
        } else {
            Due::Convert
        }
    }

    /// How far it has come once what is due has been done.
    pub open spec fn done(self) -> Underway {
        match self.due() {
            Due::Open(_) => Underway { opened: self.opened + 1, ..self },
            Due::Create(_) => Underway { created: true, ..self },
            Due::Convert => self,
        }
    }

    /// Why the job could not be run, where what was due failed for `why`.
    pub open spec fn failed(self, why: Seq<char>, error: JobError) -> bool {
        match self.due() {
            Due::Open(path) => error matches JobError::OpenInput { path: named, source } && named@
                == path && source@ == why,
            Due::Create(path) => error matches JobError::CreateOutput { path: named, source }
                && named@ == path && source@ == why,
            Due::Convert => false,
        }
    }
}

/// A conversion of files on its way.
#[derive(Debug)]
pub struct JobRun {
    job: ConvertJob,
    taf_path: String,
    opened: usize,
    created: bool,
}

impl View for JobRun {
    type V = Underway;

    closed spec fn view(&self) -> Underway {
        Underway { job: self.job@, opened: self.opened as nat, created: self.created }
    }
}

impl JobRun {
    /// What holds of every conversion of files.
    #[verifier::type_invariant]
    spec fn holds(self) -> bool {
        &&& self.job@.resolved() == Some(self.taf_path@)
        &&& self.opened <= self.job.inputs@.len()
        &&& self.created ==> self.opened == self.job.inputs@.len()
    }

    /// The conversion `job` asks for, of which nothing has been done.
    pub fn new(job: ConvertJob) -> (result: Result<Self, JobError>)
        ensures
            match result {
                Ok(run) => job@.inputs.len() > 0 && run@ == (Underway {
                    job: job@,
                    opened: 0,
                    created: false,
                }),
                Err(error) => job@.inputs.len() == 0 && error == JobError::Convert(
                    ConvertError::Chapters(ChapterError::Empty),
                ),
            },
    {
        let taf_path: String = match target(&job) {
            Err(error) => {
                return Err(error);
            },
            Ok(path) => path,
        };
        Ok(JobRun { job, taf_path, opened: 0, created: false })
    }

    /// What is due.
    pub fn step(&self) -> (step: Step)
        ensures
            step@ == self@.due(),
    {
        proof {
            use_type_invariant(self);
        }
        if self.opened < self.job.inputs.len() {
            assert(self.job@.inputs[self.opened as int] == self.job.inputs@[self.opened as int]@);
            Step::Open(self.job.inputs[self.opened].clone())
        } else if !self.created {
            Step::Create(self.taf_path.clone())
        } else {
            Step::Convert
        }
    }

    /// Takes what an opening or a creation that was due came to.
    pub fn did(&mut self, result: Result<(), String>) -> (next: Result<(), JobError>)
        requires
            !(old(self)@.due() is Convert),
        ensures
            match result {
                Ok(()) => next is Ok && final(self)@ == old(self)@.done(),
                Err(why) => {
                    &&& next is Err
                    &&& old(self)@.failed(why@, next->Err_0)
                    &&& final(self)@ == old(self)@
                },
            },
    {
        proof {
            use_type_invariant(&*self);
        }
        let opening: bool = self.opened < self.job.inputs.len();
        match result {
            Ok(()) => {
                if opening {
                    self.opened = self.opened + 1;
                } else {
                    self.created = true;
                }
                Ok(())
            },
            Err(source) => {
                if opening {
                    assert(self.job@.inputs[self.opened as int]
                        == self.job.inputs@[self.opened as int]@);
                    Err(JobError::OpenInput { path: self.job.inputs[self.opened].clone(), source })
                } else {
                    Err(JobError::CreateOutput { path: self.taf_path.clone(), source })
                }
            },
        }
    }

    /// What is to become of the cover of a conversion that came to `report`.
    pub fn cover(&self, report: &ConversionReport) -> (due: Option<Result<String, String>>)
        ensures
            match due {
                None => !self@.job.write_cover || report.cover is None,
                Some(Ok(path)) => self@.job.write_cover && report.cover is Some && cover_place(
                    self@.job.resolved()->0,
                    report.cover->0.mime@,
                ) == Ok::<Seq<char>, Seq<char>>(path@),
                Some(Err(why)) => self@.job.write_cover && report.cover is Some && cover_place(
                    self@.job.resolved()->0,
                    report.cover->0.mime@,
                ) == Err::<Seq<char>, Seq<char>>(why@),
            },
    {
        proof {
            use_type_invariant(self);
        }
        cover_due(self.job.write_cover, self.taf_path.as_str(), report)
    }

    /// What the job came to, where the conversion came to `report` and `cover` is what became of the
    /// cover.
    pub fn finish(
        self,
        report: ConversionReport,
        cover: Option<Result<String, String>>,
    ) -> (came_to: JobOutcome)
        ensures
            self@.job.resolved() == Some(came_to.taf_path@),
            came_to.report == report,
            came_to.cover_path == (match cover {
                Some(Ok(path)) => Some(path),
                _ => None,
            }),
            came_to.cover_error == (match cover {
                Some(Err(why)) => Some(why),
                _ => None,
            }),
            came_to.cover_path is None || came_to.cover_error is None,
    {
        proof {
            use_type_invariant(&self);
        }
        let JobRun { taf_path, .. } = self;
        outcome(taf_path, cover, report)
    }
}

/// Nothing is created while an input is still to be opened, however far a conversion has come.
pub proof fn lemma_the_output_comes_behind_every_input(run: Underway)
    requires
        run.due() is Create || run.due() is Convert,
    ensures
        run.opened >= run.job.inputs.len(),
{
}

/// The audio id a conversion is given at `seconds` seconds since the Unix epoch: as many of them as a
/// 32-bit field holds.
pub fn clock_audio_id(seconds: u64) -> (id: crate::id::AudioId)
    ensures
        id.0 == seconds % 0x1_0000_0000,
{
    crate::id::AudioId::new((seconds % 0x1_0000_0000) as u32)
}

/// A cover is never written over the TAF it belongs to.
pub proof fn lemma_a_cover_is_never_the_book(taf: Seq<char>, mime: Seq<char>)
    ensures
        cover_place(taf, mime) matches Ok(path) ==> path != taf,
{
}

/// How far a conversion has come once `steps` steps that were due have been done.
pub open spec fn after(run: Underway, steps: nat) -> Underway
    decreases steps,
{
    if steps == 0 {
        run
    } else {
        after(run, (steps - 1) as nat).done()
    }
}

/// What a conversion does, step by step: every input is opened, in the order they play, then the file is
/// created, and then it converts.
pub proof fn lemma_what_a_conversion_does(run: Underway, steps: nat)
    requires
        run.opened == 0,
        !run.created,
    ensures
        ({
            let inputs = run.job.inputs;
            let now = after(run, steps);
            &&& now.job == run.job
            &&& steps < inputs.len() ==> now.due() == Due::Open(inputs[steps as int])
            &&& steps == inputs.len() ==> now.due() == Due::Create(run.job.resolved()->0)
            &&& steps > inputs.len() ==> now.due() == Due::Convert
            &&& now.opened == (if steps < inputs.len() {
                steps
            } else {
                inputs.len()
            })
            &&& now.created <==> steps > inputs.len()
        }),
    decreases steps,
{
    if steps > 0 {
        lemma_what_a_conversion_does(run, (steps - 1) as nat);
    }
}

/// What a conversion says when a step fails: which file could not be opened or created, and why.
pub proof fn lemma_what_a_failed_step_says(run: Underway, why: Seq<char>, error: JobError)
    requires
        run.failed(why, error),
    ensures
        run.opened < run.job.inputs.len() ==> (error matches JobError::OpenInput { path, source }
            && path@ == run.job.inputs[run.opened as int] && source@ == why),
        run.opened >= run.job.inputs.len() ==> !run.created && (error matches JobError::CreateOutput {
            path,
            source,
        } && path@ == run.job.resolved()->0 && source@ == why),
{
}

/// Where a cover goes: beside the TAF and under its name, as `jpg` or `png` where it is one of those, and
/// nowhere where it is anything else.
pub proof fn lemma_where_a_cover_goes(dir: Seq<char>, stem: Seq<char>, mime: Seq<char>)
    requires
        dir.len() == 0 || dir.last() == '/',
        stem.len() > 0,
        !stem.contains('/'),
    ensures
        ({
            let taf = dir + stem + ".taf"@;
            let place = cover_place(taf, mime);
            &&& mime == "image/jpeg"@ ==> place == Ok::<Seq<char>, Seq<char>>(dir + stem + ".jpg"@)
            &&& mime == "image/png"@ ==> place == Ok::<Seq<char>, Seq<char>>(dir + stem + ".png"@)
            &&& mime != "image/jpeg"@ && mime != "image/png"@ ==> place == Err::<
                Seq<char>,
                Seq<char>,
            >(
                "cover art of type '"@ + mime
                    + "' was left out: a cover is written as image/jpeg or image/png and as nothing else"@,
            )
        }),
{
    reveal_strlit("image/jpeg");
    reveal_strlit("image/png");
    reveal_strlit("taf");
    reveal_strlit("jpg");
    reveal_strlit("png");
    reveal_strlit(".taf");
    reveal_strlit(".jpg");
    reveal_strlit(".png");
    let taf = dir + stem + ".taf"@;
    let before = seq!['t', 'a', 'f'];
    let old = dir + stem + seq!['.'] + before;
    assert("taf"@ =~= before);
    assert(taf =~= old);
    crate::path::lemma_an_extension_takes_the_place_of_another(dir, stem, before, "jpg"@);
    crate::path::lemma_an_extension_takes_the_place_of_another(dir, stem, before, "png"@);
    assert(dir + stem + seq!['.'] + "jpg"@ =~= dir + stem + ".jpg"@);
    assert(dir + stem + seq!['.'] + "png"@ =~= dir + stem + ".png"@);
    assert("image/jpeg"@.len() != "image/png"@.len());
    let last = taf.len() - 1;
    assert(taf[last] == 'f');
    assert((dir + stem + ".jpg"@)[last] == 'g');
    assert((dir + stem + ".png"@)[last] == 'g');
}

/// A cover whose place is the TAF itself is left out, and that is said.
pub proof fn lemma_a_cover_that_would_be_the_book(taf: Seq<char>, mime: Seq<char>)
    requires
        mime == "image/jpeg"@ && crate::path::extended(taf, "jpg"@) == taf || mime == "image/png"@
            && crate::path::extended(taf, "png"@) == taf,
    ensures
        cover_place(taf, mime) == Err::<Seq<char>, Seq<char>>(
            "cover art was left out: its place "@ + taf + " is the converted file itself"@,
        ),
{
    reveal_strlit("image/jpeg");
    reveal_strlit("image/png");
    assert("image/jpeg"@.len() != "image/png"@.len());
}

} // verus!
