//! The state behind the window: everything a person can do to the queue, and everything the window
//! reads back.
//!
//! Every method is one thing a person did or one word a running batch said, and says exactly what
//! state it leaves. What only a machine can do — reading how long a file plays, running the batch,
//! naming a directory of its own — is handed in or handed back.

use crate::collision::refuse_collisions;
use crate::duration::Duration;
use crate::id::AudioId;
use crate::job::{ConversionReport, Conversion, ConvertJob, Job, JobOutcome};
use crate::path::joined;
use crate::plan::{capture, chapter_warning, derived_output, BookPlan, CaptureError, Panel};
use crate::plan::{Fault, Planned, Typed};
use crate::queue::{adds_up, collision_refusal, count_of, finished, row_of, stated_length};
use crate::queue::{Bar, Book, BookState, Entry, Stage};
use crate::text::{characters, gathered, split_on};
use crate::worker::{BookFailure, Event};
use vstd::prelude::*;
use vstd::string::StringExecFns;

verus! {

/// The state behind the window.
#[derive(Debug)]
pub struct TaffleApp {
    /// Bumped whenever anything the window reads may have changed.
    revision: i32,
    /// Whether a batch is running.
    converting: bool,
    /// How many files the book being edited holds.
    file_count: i32,
    /// How many books are queued.
    book_count: i32,
    /// Why what was typed is no conversion, or nothing at all where it is one.
    panel_error: String,
    /// That the chapter plan is longer than a box plays, or nothing at all.
    chapter_warning: String,
    /// The book being edited, as it is typed.
    panel: Panel,
    /// The length every file of it states, where it states one.
    panel_durations: Vec<Option<Duration>>,
    /// The queue, in the order it was added to.
    books: Vec<Book>,
    /// Which book each job of the running batch belongs to.
    batch: Vec<usize>,
    /// Raised to stop the running batch.
    cancel: bool,
    /// Whether this is the self-test.
    smoke_mode: bool,
}

/// Everything the state behind the window is.
#[verifier::ext_equal]
pub struct Chrome {
    /// The revision.
    pub revision: i32,
    /// Whether a batch is running.
    pub converting: bool,
    /// The files of the book being edited, counted.
    pub file_count: i32,
    /// The books, counted.
    pub book_count: i32,
    /// What is wrong with the panel.
    pub panel_error: Seq<char>,
    /// What there is to say about the chapter plan.
    pub chapter_warning: Seq<char>,
    /// The panel.
    pub panel: Typed,
    /// The lengths the files of the panel state.
    pub lengths: Seq<Option<Duration>>,
    /// The queue.
    pub books: Seq<Entry>,
    /// The rows of the running batch.
    pub batch: Seq<usize>,
    /// Whether the batch is to stop.
    pub cancel: bool,
    /// Whether this is the self-test.
    pub smoke_mode: bool,
}

/// The entries of `books`.
pub open spec fn entries(books: Seq<Book>) -> Seq<Entry> {
    books.map_values(|book: Book| book@)
}

impl View for TaffleApp {
    type V = Chrome;

    closed spec fn view(&self) -> Chrome {
        Chrome {
            revision: self.revision,
            converting: self.converting,
            file_count: self.file_count,
            book_count: self.book_count,
            panel_error: self.panel_error@,
            chapter_warning: self.chapter_warning@,
            panel: self.panel@,
            lengths: self.panel_durations@,
            books: entries(self.books@),
            batch: self.batch@,
            cancel: self.cancel,
            smoke_mode: self.smoke_mode,
        }
    }
}

/// The revision behind `revision`, which wraps.
pub open spec fn bumped(revision: i32) -> i32 {
    if revision == i32::MAX {
        i32::MIN
    } else {
        (revision + 1) as i32
    }
}

/// A text, and none where there is none.
pub open spec fn or_nothing(text: Option<Seq<char>>) -> Seq<char> {
    match text {
        Some(text) => text,
        None => Seq::empty(),
    }
}

/// `list` with the item at `from` taken out and put back in at `to`.
pub open spec fn moved<T>(list: Seq<T>, from: int, to: int) -> Seq<T> {
    list.remove(from).insert(to, list[from])
}

/// Where the books that are still waiting sit in the queue, in the order they will run.
pub open spec fn waiting_rows(books: Seq<Entry>) -> Seq<usize>
    decreases books.len(),
{
    if books.len() == 0 {
        Seq::empty()
    } else if books.last().stage is Ready {
        waiting_rows(books.drop_last()).push((books.len() - 1) as usize)
    } else {
        waiting_rows(books.drop_last())
    }
}

/// The plans of the books that are still waiting, in the order they will run.
pub open spec fn waiting_plans(books: Seq<Entry>) -> Seq<Planned>
    decreases books.len(),
{
    if books.len() == 0 {
        Seq::empty()
    } else if books.last().stage is Ready {
        waiting_plans(books.drop_last()).push(books.last().plan)
    } else {
        waiting_plans(books.drop_last())
    }
}

/// The conversions of `plans`.
pub open spec fn jobs_of(plans: Seq<Planned>) -> Seq<Job> {
    plans.map_values(|plan: Planned| plan.job)
}

/// What keeps `plans` from converting together, in words.
pub open spec fn set_refusal(plans: Seq<Planned>) -> Option<Seq<char>> {
    match crate::collision::collision(jobs_of(plans)) {
        Some(collision) => Some(crate::queue::refusal_text(plans, collision)),
        None => None,
    }
}

/// What a running batch says: that a book is at a stage now, or that it is done.
#[verifier::ext_equal]
pub enum Word {
    /// The book of this job is at this stage.
    About(usize, Stage),
    /// The batch is done.
    Done,
}

/// What an event says.
pub open spec fn word_of(event: Event) -> Word {
    match event {
        Event::Started { index } => Word::About(index, Stage::Converting(0)),
        Event::Progress { index, samples_done } => {
            Word::About(index, Stage::Converting(samples_done))
        },
        Event::Finished { index, result } => Word::About(index, crate::queue::left_in(result)),
        Event::BatchDone => Word::Done,
    }
}

impl Chrome {
    /// The lengths are those of the files, one for each.
    pub open spec fn well_formed(self) -> bool {
        self.lengths.len() == self.panel.files.len()
    }

    /// Everything the window reads off the panel and the queue, counted and said anew. A panel nobody
    /// has put a file in yet is not a mistake, so nothing is said about it.
    pub open spec fn refreshed(self) -> Chrome {
        let (error, warning) = match crate::plan::captured(self.panel) {
            Err(Fault::NoFiles) => (Seq::empty(), Seq::empty()),
            Err(fault) => (fault.said(), Seq::empty()),
            Ok(plan) => (Seq::empty(), or_nothing(crate::plan::plan_note(plan.job.chapters))),
        };
        Chrome {
            revision: bumped(self.revision),
            file_count: crate::queue::counted(self.panel.files.len()),
            book_count: crate::queue::counted(self.books.len()),
            panel_error: error,
            chapter_warning: warning,
            ..self
        }
    }

    /// `why` said about the panel, over what the panel says about itself.
    pub open spec fn refused(self, why: Seq<char>) -> Chrome {
        Chrome { panel_error: why, ..self.refreshed() }
    }

    /// Whether `index` names one of `count` rows.
    pub open spec fn is_row(index: i32, count: nat) -> bool {
        0 <= index && index < count
    }

    /// A panel nobody has touched, in the place of the one there is.
    pub open spec fn with_fresh_panel(self) -> Chrome {
        Chrome { panel: crate::plan::untouched(), lengths: Seq::empty(), ..self }
    }

    /// What adding the book being edited to the queue comes to, and whether it was added.
    pub open spec fn added(self) -> (Chrome, bool) {
        match crate::plan::captured(self.panel) {
            Err(fault) => (self.refused(fault.said()), false),
            Ok(plan) => match set_refusal(waiting_plans(self.books).push(plan)) {
                Some(why) => (self.refused(why), false),
                None => {
                    let book = Entry {
                        plan,
                        probed: crate::queue::stated(self.lengths),
                        stage: Stage::Ready,
                    };
                    (
                        Chrome { books: self.books.push(book), ..self }.with_fresh_panel().refreshed(),
                        true,
                    )
                },
            },
        }
    }

    /// What starting a batch comes to, and whether one was started: of every book that is waiting, the
    /// one being edited included where it holds any file.
    pub open spec fn started(self) -> (Chrome, bool) {
        if self.converting {
            (self, false)
        } else {
            let (ready, added) = if self.panel.files.len() > 0 {
                self.added()
            } else {
                (self, true)
            };
            if !added || waiting_rows(ready.books).len() == 0 {
                (ready, false)
            } else {
                match set_refusal(waiting_plans(ready.books)) {
                    Some(why) => (ready.refused(why), false),
                    None => (
                        Chrome {
                            batch: waiting_rows(ready.books),
                            cancel: false,
                            converting: true,
                            ..ready
                        }.refreshed(),
                        true,
                    ),
                }
            }
        }
    }

    /// Where one word from the running batch leaves the queue. A job of no batch there is changes
    /// nothing.
    pub open spec fn adopted(self, word: Word) -> Chrome {
        match word {
            Word::Done => self,
            Word::About(job, stage) => if job < self.batch.len() && self.batch[job as int]
                < self.books.len() {
                let row = self.batch[job as int] as int;
                Chrome {
                    books: self.books.update(row, Entry { stage, ..self.books[row] }),
                    ..self
                }
            } else {
                self
            },
        }
    }

    /// What one word from the running batch comes to.
    pub open spec fn applied(self, word: Word) -> Chrome {
        Chrome {
            converting: if word is Done {
                false
            } else {
                self.converting
            },
            ..self.adopted(word)
        }.refreshed()
    }

    /// What words from the running batch come to, one behind the other.
    pub open spec fn applied_all(self, words: Seq<Word>) -> Chrome
        decreases words.len(),
    {
        if words.len() == 0 {
            self
        } else {
            self.applied_all(words.drop_last()).applied(words.last())
        }
    }
}

/// The name of a file of the self-test's book `name`, in the directory `directory`.
pub open spec fn drill_path_text(
    directory: Seq<char>,
    name: Seq<char>,
    extension: Seq<char>,
) -> Seq<char> {
    crate::path::under(directory, name + "."@ + extension)
}

/// The self-test's book `name`.
pub open spec fn drill_entry(directory: Seq<char>, name: Seq<char>) -> Entry {
    let files = seq![drill_path_text(directory, name, "m4b"@)];
    Entry {
        plan: Planned {
            title: name,
            panel: Typed { files, ..crate::plan::untouched() },
            job: Job {
                inputs: files,
                output: Some(drill_path_text(directory, name, "taf"@)),
                chapters: None,
                silence: crate::job::SilenceOpts {
                    skip_leading: 0,
                    trim_leading: false,
                    trim_each_chapter: false,
                    add_pause_leading: 0,
                    add_pause_each_chapter: 0,
                },
                workers: None,
                write_cover: true,
            },
        },
        probed: Some(Duration { secs: 60, nanos: 0 }),
        stage: Stage::Ready,
    }
}

/// The books of the self-test: one for every way a batch can leave one.
pub open spec fn drill_entries(directory: Seq<char>) -> Seq<Entry> {
    seq![
        drill_entry(directory, "taffle-smoke-drill-converted"@),
        drill_entry(directory, "taffle-smoke-drill-failed"@),
        drill_entry(directory, "taffle-smoke-drill-stopped"@),
    ]
}

/// What the batch of the self-test says.
pub open spec fn drill_words(directory: Seq<char>) -> Seq<Word> {
    seq![
        Word::About(0, Stage::Converting(0)),
        Word::About(0, Stage::Converting(720_000)),
        Word::About(0, Stage::Converting(1_440_000)),
        Word::About(0, Stage::Converting(2_160_000)),
        Word::About(
            0,
            Stage::Done(
                crate::queue::wrote(
                    drill_path_text(directory, "taffle-smoke-drill-converted"@, "taf"@),
                    Duration { secs: 61, nanos: 0 },
                    0,
                ),
            ),
        ),
        Word::About(1, Stage::Converting(0)),
        Word::About(
            1,
            Stage::Failed(
                crate::queue::with_removed_note(
                    "cannot open input "@ + drill_path_text(
                        directory,
                        "taffle-smoke-drill-failed"@,
                        "m4b"@,
                    ) + ": the file is not there"@,
                ),
            ),
        ),
        Word::About(2, Stage::Cancelled),
        Word::Done,
    ]
}

impl Chrome {
    /// The self-test's books queued behind those there are, and a batch of them running.
    pub open spec fn drill_queued(self, directory: Seq<char>) -> Chrome {
        let first = self.books.len();
        Chrome {
            books: self.books + drill_entries(directory),
            batch: Seq::new(3, |i: int| (first + i) as usize),
            converting: true,
            ..self
        }
    }

    /// The file of the self-test's next book in the panel.
    pub open spec fn drill_filled_in(self, directory: Seq<char>) -> Chrome {
        Chrome {
            panel: Typed {
                files: self.panel.files.push(
                    drill_path_text(directory, "taffle-smoke-drill-next"@, "m4b"@),
                ),
                ..self.panel
            },
            lengths: self.lengths.push(None),
            ..self
        }.refreshed()
    }

    /// What the self-test comes to: its books queued behind those there are and put through a batch of
    /// their own, and the next one being filled in.
    pub open spec fn drilled(self, directory: Seq<char>) -> Chrome {
        self.drill_queued(directory).applied_all(drill_words(directory)).drill_filled_in(directory)
    }
}

/// The lines of `text` that hold anything. A line ends with a line feed, or with a carriage return in
/// front of one.
pub open spec fn lines_in(text: Seq<char>) -> Seq<Seq<char>> {
    let pieces = crate::text::split(text, '\n');
    full_lines(pieces, pieces.len())
}

/// A piece of text up to a line feed, without the carriage return in front of it.
pub open spec fn without_return(piece: Seq<char>) -> Seq<char> {
    if piece.len() > 0 && piece.last() == '\r' {
        piece.drop_last()
    } else {
        piece
    }
}

/// The lines of the first `count` of `pieces` that hold anything.
pub open spec fn full_lines(pieces: Seq<Seq<char>>, count: nat) -> Seq<Seq<char>>
    decreases count,
{
    if count == 0 {
        Seq::empty()
    } else {
        let piece = pieces[count - 1];
        let line = if count < pieces.len() {
            without_return(piece)
        } else {
            piece
        };
        if line.len() == 0 {
            full_lines(pieces, (count - 1) as nat)
        } else {
            full_lines(pieces, (count - 1) as nat).push(line)
        }
    }
}

/// The files `paths` names, one path to a line.
pub fn named_files(paths: &str) -> (files: Vec<String>)
    ensures
        crate::job::texts(files@) == lines_in(paths@),
{
    let chars: Vec<char> = characters(paths);
    let pieces: Vec<Vec<char>> = split_on(chars.as_slice(), '\n');
    let ghost cut = crate::text::split(paths@, '\n');
    let mut files: Vec<String> = Vec::new();
    let mut at: usize = 0;
    assert(crate::job::texts(files@) =~= full_lines(cut, 0));
    while at < pieces.len()
        invariant
            at <= pieces@.len(),
            cut == crate::text::pieces(pieces@),
            crate::job::texts(files@) == full_lines(cut, at as nat),
        decreases pieces@.len() - at,
    {
        assert(cut[at as int] == pieces@[at as int]@);
        let piece = pieces[at].as_slice();
        let line = if at + 1 < pieces.len() && piece.len() > 0 && piece[piece.len() - 1] == '\r' {
            vstd::slice::slice_subrange(piece, 0, piece.len() - 1)
        } else {
            piece
        };
        let ghost said = if at + 1 < cut.len() {
            without_return(cut[at as int])
        } else {
            cut[at as int]
        };
        assert(line@ =~= said);
        if line.len() > 0 {
            let ghost before = files@;
            let mut kept: Vec<char> = Vec::new();
            kept.extend_from_slice(line);
            assert(kept@ =~= line@);
            let file: String = gathered(&kept);
            files.push(file);
            assert(crate::job::texts(files@) =~= crate::job::texts(before).push(said));
        }
        at += 1;
    }
    files
}

/// The plans of `list`, as conversions.
fn jobs_in(list: &Vec<&BookPlan>) -> (jobs: Vec<ConvertJob>)
    ensures
        crate::collision::stated(jobs@) == jobs_of(crate::queue::planned(list@)),
{
    let ghost all = jobs_of(crate::queue::planned(list@));
    let mut jobs: Vec<ConvertJob> = Vec::new();
    let mut at: usize = 0;
    while at < list.len()
        invariant
            at <= list@.len(),
            all == jobs_of(crate::queue::planned(list@)),
            crate::collision::stated(jobs@) == all.take(at as int),
        decreases list@.len() - at,
    {
        let ghost before = jobs@;
        let job: ConvertJob = list[at].job.copy();
        jobs.push(job);
        assert(crate::queue::planned(list@)[at as int] == list@[at as int]@);
        assert(all[at as int] == job@);
        at += 1;
        assert(crate::collision::stated(jobs@) =~= crate::collision::stated(before).push(job@));
        assert(crate::collision::stated(jobs@) =~= all.take(at as int));
    }
    assert(crate::collision::stated(jobs@) =~= all);
    jobs
}

/// What keeps `list` from converting together, in words.
fn refusal_of(list: &Vec<&BookPlan>) -> (why: Option<String>)
    ensures
        crate::job::text_of(why) == set_refusal(crate::queue::planned(list@)),
{
    let jobs: Vec<ConvertJob> = jobs_in(list);
    match refuse_collisions(jobs.as_slice()) {
        Ok(()) => None,
        Err(error) => Some(collision_refusal(list.as_slice(), &error)),
    }
}

proof fn lemma_entries_push(books: Seq<Book>, book: Book)
    ensures
        entries(books.push(book)) == entries(books).push(book@),
{
    assert(entries(books.push(book)) =~= entries(books).push(book@));
}

proof fn lemma_applied_next(chrome: Chrome, words: Seq<Word>, at: int)
    requires
        0 <= at < words.len(),
    ensures
        chrome.applied_all(words.take(at + 1)) == chrome.applied_all(words.take(at)).applied(
            words[at],
        ),
{
    assert(words.take(at + 1).drop_last() =~= words.take(at));
}

impl TaffleApp {
    /// The lengths are those of the files, one for each.
    pub open spec fn well_formed(&self) -> bool {
        self@.well_formed()
    }

    /// A window with nothing in it, which is the self-test's where `smoke`.
    pub fn new(smoke: bool) -> (app: Self)
        ensures
            app.well_formed(),
            app@ == (Chrome {
                revision: 0,
                converting: false,
                file_count: 0,
                book_count: 0,
                panel_error: Seq::empty(),
                chapter_warning: Seq::empty(),
                panel: crate::plan::untouched(),
                lengths: Seq::empty(),
                books: Seq::empty(),
                batch: Seq::empty(),
                cancel: false,
                smoke_mode: smoke,
            }),
    {
        let app = TaffleApp {
            revision: 0,
            converting: false,
            file_count: 0,
            book_count: 0,
            panel_error: String::new(),
            chapter_warning: String::new(),
            panel: Panel::default(),
            panel_durations: Vec::new(),
            books: Vec::new(),
            batch: Vec::new(),
            cancel: false,
            smoke_mode: smoke,
        };
        assert(app@.books =~= Seq::empty());
        app
    }

    /// Adds `files` to the book being edited, in that order, where `lengths` is how long each of them
    /// states it plays.
    pub fn add_files(&mut self, files: Vec<String>, lengths: Vec<Option<Duration>>)
        requires
            old(self).well_formed(),
            files@.len() == lengths@.len(),
        ensures
            final(self).well_formed(),
            final(self)@ == (Chrome {
                panel: Typed {
                    files: old(self)@.panel.files + crate::job::texts(files@),
                    ..old(self)@.panel
                },
                lengths: old(self)@.lengths + lengths@,
                ..old(self)@
            }.refreshed()),
    {
        let mut files: Vec<String> = files;
        let mut lengths: Vec<Option<Duration>> = lengths;
        let ghost added = crate::job::texts(files@);
        let ghost before = self.panel.files@;
        self.panel.files.append(&mut files);
        self.panel_durations.append(&mut lengths);
        assert(crate::job::texts(self.panel.files@) =~= crate::job::texts(before) + added);
        self.refresh();
    }

    /// Takes the file at `index` out of the book being edited. A file that is not there changes
    /// nothing.
    pub fn remove_file(&mut self, index: i32)
        requires
            old(self).well_formed(),
        ensures
            final(self).well_formed(),
            final(self)@ == (if Chrome::is_row(index, old(self)@.panel.files.len()) {
                Chrome {
                    panel: Typed {
                        files: old(self)@.panel.files.remove(index as int),
                        ..old(self)@.panel
                    },
                    lengths: old(self)@.lengths.remove(index as int),
                    ..old(self)@
                }.refreshed()
            } else {
                old(self)@
            }),
    {
        let at: usize = match row_of(index, self.panel.files.len()) {
            None => {
                return;
            },
            Some(at) => at,
        };
        let ghost before = self.panel.files@;
        let _file: String = self.panel.files.remove(at);
        let _length: Option<Duration> = self.panel_durations.remove(at);
        assert(crate::job::texts(self.panel.files@) =~= crate::job::texts(before).remove(
            at as int,
        ));
        self.refresh();
    }

    /// Moves the file at `from` to `to`. A file or a place that is not there changes nothing, and
    /// neither does a file that stays where it is.
    pub fn move_file(&mut self, from: i32, to: i32)
        requires
            old(self).well_formed(),
        ensures
            final(self).well_formed(),
            final(self)@ == (if Chrome::is_row(from, old(self)@.panel.files.len())
                && Chrome::is_row(to, old(self)@.panel.files.len()) && from != to {
                Chrome {
                    panel: Typed {
                        files: moved(old(self)@.panel.files, from as int, to as int),
                        ..old(self)@.panel
                    },
                    lengths: moved(old(self)@.lengths, from as int, to as int),
                    ..old(self)@
                }.refreshed()
            } else {
                old(self)@
            }),
    {
        let count: usize = self.panel.files.len();
        let start: usize = match row_of(from, count) {
            None => {
                return;
            },
            Some(at) => at,
        };
        let end: usize = match row_of(to, count) {
            None => {
                return;
            },
            Some(at) => at,
        };
        if start == end {
            return;
        }
        let ghost before = self.panel.files@;
        let file: String = self.panel.files.remove(start);
        self.panel.files.insert(end, file);
        let length: Option<Duration> = self.panel_durations.remove(start);
        self.panel_durations.insert(end, length);
        assert(crate::job::texts(self.panel.files@) =~= moved(
            crate::job::texts(before),
            from as int,
            to as int,
        ));
        self.refresh();
    }

    /// The file at `index`, as it was named, and nothing where there is none.
    pub fn file_at(&self, index: i32) -> (file: String)
        ensures
            file@ == (if Chrome::is_row(index, self@.panel.files.len()) {
                self@.panel.files[index as int]
            } else {
                Seq::empty()
            }),
    {
        match row_of(index, self.panel.files.len()) {
            None => String::new(),
            Some(at) => self.panel.files[at].clone(),
        }
    }

    /// Types `text` into the output field.
    pub fn set_output(&mut self, text: &str)
        requires
            old(self).well_formed(),
        ensures
            final(self).well_formed(),
            final(self)@ == (Chrome {
                panel: Typed { output: text@, ..old(self)@.panel },
                ..old(self)@
            }.refreshed()),
            final(self)@.panel == (Typed { output: text@, ..old(self)@.panel }),
            final(self)@.books == old(self)@.books && final(self)@.batch == old(self)@.batch,
            final(self)@.converting == old(self)@.converting && final(self)@.lengths == old(
                self,
            )@.lengths,
    {
        self.panel.output_text = String::from_str(text);
        self.refresh();
    }

    /// Types `text` into the chapter field.
    pub fn set_chapters(&mut self, text: &str)
        requires
            old(self).well_formed(),
        ensures
            final(self).well_formed(),
            final(self)@ == (Chrome {
                panel: Typed { chapters: text@, ..old(self)@.panel },
                ..old(self)@
            }.refreshed()),
            final(self)@.panel == (Typed { chapters: text@, ..old(self)@.panel }),
            final(self)@.books == old(self)@.books && final(self)@.batch == old(self)@.batch,
            final(self)@.converting == old(self)@.converting && final(self)@.lengths == old(
                self,
            )@.lengths,
    {
        self.panel.chapters_text = String::from_str(text);
        self.refresh();
    }

    /// Types `text` into the skip-leading field.
    pub fn set_skip_leading(&mut self, text: &str)
        requires
            old(self).well_formed(),
        ensures
            final(self).well_formed(),
            final(self)@ == (Chrome {
                panel: Typed { skip_leading: text@, ..old(self)@.panel },
                ..old(self)@
            }.refreshed()),
            final(self)@.panel == (Typed { skip_leading: text@, ..old(self)@.panel }),
            final(self)@.books == old(self)@.books && final(self)@.batch == old(self)@.batch,
            final(self)@.converting == old(self)@.converting && final(self)@.lengths == old(
                self,
            )@.lengths,
    {
        self.panel.skip_leading_text = String::from_str(text);
        self.refresh();
    }

    /// Switches whether the silence the first chapter begins with is dropped.
    pub fn set_trim_leading(&mut self, on: bool)
        requires
            old(self).well_formed(),
        ensures
            final(self).well_formed(),
            final(self)@ == (Chrome {
                panel: Typed { trim_leading: on, ..old(self)@.panel },
                ..old(self)@
            }.refreshed()),
            final(self)@.panel == (Typed { trim_leading: on, ..old(self)@.panel }),
            final(self)@.books == old(self)@.books && final(self)@.batch == old(self)@.batch,
            final(self)@.converting == old(self)@.converting && final(self)@.lengths == old(
                self,
            )@.lengths,
    {
        self.panel.trim_leading = on;
        self.refresh();
    }

    /// Switches whether the silence every chapter begins with is dropped.
    pub fn set_trim_each_chapter(&mut self, on: bool)
        requires
            old(self).well_formed(),
        ensures
            final(self).well_formed(),
            final(self)@ == (Chrome {
                panel: Typed { trim_each_chapter: on, ..old(self)@.panel },
                ..old(self)@
            }.refreshed()),
            final(self)@.panel == (Typed { trim_each_chapter: on, ..old(self)@.panel }),
            final(self)@.books == old(self)@.books && final(self)@.batch == old(self)@.batch,
            final(self)@.converting == old(self)@.converting && final(self)@.lengths == old(
                self,
            )@.lengths,
    {
        self.panel.trim_each_chapter = on;
        self.refresh();
    }

    /// Types `text` into the leading-pause field.
    pub fn set_add_pause_leading(&mut self, text: &str)
        requires
            old(self).well_formed(),
        ensures
            final(self).well_formed(),
            final(self)@ == (Chrome {
                panel: Typed { add_pause_leading: text@, ..old(self)@.panel },
                ..old(self)@
            }.refreshed()),
            final(self)@.panel == (Typed { add_pause_leading: text@, ..old(self)@.panel }),
            final(self)@.books == old(self)@.books && final(self)@.batch == old(self)@.batch,
            final(self)@.converting == old(self)@.converting && final(self)@.lengths == old(
                self,
            )@.lengths,
    {
        self.panel.add_pause_leading_text = String::from_str(text);
        self.refresh();
    }

    /// Types `text` into the every-chapter-pause field.
    pub fn set_add_pause_each(&mut self, text: &str)
        requires
            old(self).well_formed(),
        ensures
            final(self).well_formed(),
            final(self)@ == (Chrome {
                panel: Typed { add_pause_each: text@, ..old(self)@.panel },
                ..old(self)@
            }.refreshed()),
            final(self)@.panel == (Typed { add_pause_each: text@, ..old(self)@.panel }),
            final(self)@.books == old(self)@.books && final(self)@.batch == old(self)@.batch,
            final(self)@.converting == old(self)@.converting && final(self)@.lengths == old(
                self,
            )@.lengths,
    {
        self.panel.add_pause_each_text = String::from_str(text);
        self.refresh();
    }

    /// Switches whether the cover art an input carries is written beside the TAF.
    pub fn set_extract_cover(&mut self, on: bool)
        requires
            old(self).well_formed(),
        ensures
            final(self).well_formed(),
            final(self)@ == (Chrome {
                panel: Typed { extract_cover: on, ..old(self)@.panel },
                ..old(self)@
            }.refreshed()),
            final(self)@.panel == (Typed { extract_cover: on, ..old(self)@.panel }),
            final(self)@.books == old(self)@.books && final(self)@.batch == old(self)@.batch,
            final(self)@.converting == old(self)@.converting && final(self)@.lengths == old(
                self,
            )@.lengths,
    {
        self.panel.extract_cover = on;
        self.refresh();
    }

    /// What the output field holds.
    pub fn output_text(&self) -> (text: String)
        ensures
            text@ == self@.panel.output,
    {
        self.panel.output_text.clone()
    }

    /// Where the TAF goes while nobody has typed an output, and nothing while there is no file.
    pub fn derived_output(&self) -> (text: String)
        ensures
            text@ == (if self@.panel.files.len() == 0 {
                Seq::empty()
            } else {
                crate::path::extended(self@.panel.files[0], "taf"@)
            }),
    {
        match derived_output(&self.panel) {
            None => String::new(),
            Some(path) => path,
        }
    }

    /// What the chapter field holds.
    pub fn chapters_text(&self) -> (text: String)
        ensures
            text@ == self@.panel.chapters,
    {
        self.panel.chapters_text.clone()
    }

    /// What the skip-leading field holds.
    pub fn skip_leading_text(&self) -> (text: String)
        ensures
            text@ == self@.panel.skip_leading,
    {
        self.panel.skip_leading_text.clone()
    }

    /// Whether the leading silence is dropped.
    pub fn trim_leading(&self) -> (on: bool)
        ensures
            on == self@.panel.trim_leading,
    {
        self.panel.trim_leading
    }

    /// Whether every chapter's leading silence is dropped.
    pub fn trim_each_chapter(&self) -> (on: bool)
        ensures
            on == self@.panel.trim_each_chapter,
    {
        self.panel.trim_each_chapter
    }

    /// What the leading-pause field holds.
    pub fn add_pause_leading_text(&self) -> (text: String)
        ensures
            text@ == self@.panel.add_pause_leading,
    {
        self.panel.add_pause_leading_text.clone()
    }

    /// What the every-chapter-pause field holds.
    pub fn add_pause_each_text(&self) -> (text: String)
        ensures
            text@ == self@.panel.add_pause_each,
    {
        self.panel.add_pause_each_text.clone()
    }

    /// Whether the cover is written beside the TAF.
    pub fn extract_cover(&self) -> (on: bool)
        ensures
            on == self@.panel.extract_cover,
    {
        self.panel.extract_cover
    }

    /// Whether the lengths of the book being edited add up, as far as they are stated. Those of a book
    /// that cannot be queued are not added up.
    pub fn lengths_add_up(&self) -> (do_they: bool)
        ensures
            do_they == (self@.added().1 ==> crate::queue::countable(self@.lengths)),
    {
        match capture(&self.panel) {
            Err(_) => true,
            Ok(plan) => self.refused_with(&plan).is_some() || adds_up(
                self.panel_durations.as_slice(),
            ),
        }
    }

    /// Queues the book being edited and leaves a fresh panel behind, or says why it cannot be queued:
    /// what was typed is no conversion, or it would write over what another book reads or writes.
    pub fn add_to_batch(&mut self) -> (added: bool)
        requires
            old(self).well_formed(),
            old(self)@.added().1 ==> crate::queue::countable(old(self)@.lengths),
        ensures
            final(self).well_formed(),
            final(self)@ == old(self)@.added().0,
            added == old(self)@.added().1,
    {
        let plan: BookPlan = match capture(&self.panel) {
            Err(error) => {
                self.refuse(error.message().as_str());
                return false;
            },
            Ok(plan) => plan,
        };
        if let Some(why) = self.refused_with(&plan) {
            self.refuse(why.as_str());
            return false;
        }
        let ghost before = self@;
        let ghost listed = self.books@;
        let probed: Option<Duration> = stated_length(self.panel_durations.as_slice());
        let book = Book { plan, probed, state: BookState::Ready };
        proof {
            lemma_entries_push(listed, book);
        }
        self.books.push(book);
        self.panel = Panel::default();
        self.panel_durations.clear();
        self.refresh();
        true
    }

    /// The files of the queued book at `index`, where it can be reopened: a book that is still waiting,
    /// while no batch runs.
    pub fn reopenable(&self, index: i32) -> (files: Option<Vec<String>>)
        ensures
            match files {
                Some(files) => self@.can_reopen(index) && crate::job::texts(files@)
                    == self@.books[index as int].plan.panel.files,
                None => !self@.can_reopen(index),
            },
    {
        if self.converting {
            return None;
        }
        match row_of(index, self.books.len()) {
            None => None,
            Some(at) => {
                assert(self@.books[at as int] == self.books@[at as int]@);
                match self.books[at].state {
                    BookState::Ready => Some(crate::text::copied(&self.books[at].plan.panel.files)),
                    _ => None,
                }
            },
        }
    }

    /// Moves the queued book at `index` back into the editing area, exactly as it was typed, where
    /// `lengths` is how long each of its files states it plays.
    pub fn reopen_row(&mut self, index: i32, lengths: Vec<Option<Duration>>)
        requires
            old(self).well_formed(),
            old(self)@.can_reopen(index) ==> lengths@.len() == old(
                self,
            )@.books[index as int].plan.panel.files.len(),
        ensures
            final(self).well_formed(),
            final(self)@ == old(self)@.reopened(index, lengths@),
    {
        if self.converting {
            return;
        }
        let at: usize = match row_of(index, self.books.len()) {
            None => {
                return;
            },
            Some(at) => at,
        };
        assert(self@.books[at as int] == self.books@[at as int]@);
        let ready: bool = match self.books[at].state {
            BookState::Ready => true,
            _ => false,
        };
        if !ready {
            return;
        }
        let ghost listed = self.books@;
        let book: Book = self.books.remove(at);
        assert(entries(self.books@) =~= entries(listed).remove(at as int));
        self.panel = book.plan.panel;
        self.panel_durations = lengths;
        self.refresh();
    }

    /// Takes the queued book at `index` out of the queue, which does not move under a running batch.
    pub fn remove_row(&mut self, index: i32)
        requires
            old(self).well_formed(),
        ensures
            final(self).well_formed(),
            final(self)@ == (if !old(self)@.converting && Chrome::is_row(
                index,
                old(self)@.books.len(),
            ) {
                Chrome {
                    books: old(self)@.books.remove(index as int),
                    ..old(self)@
                }.refreshed()
            } else {
                old(self)@
            }),
    {
        if self.converting {
            return;
        }
        let at: usize = match row_of(index, self.books.len()) {
            None => {
                return;
            },
            Some(at) => at,
        };
        let ghost listed = self.books@;
        let _book: Book = self.books.remove(at);
        assert(entries(self.books@) =~= entries(listed).remove(at as int));
        self.refresh();
    }

    /// What the book at `index` is called, and nothing where there is none.
    pub fn book_title(&self, index: i32) -> (text: String)
        ensures
            text@ == (if Chrome::is_row(index, self@.books.len()) {
                self@.books[index as int].plan.title
            } else {
                Seq::empty()
            }),
    {
        match row_of(index, self.books.len()) {
            None => String::new(),
            Some(at) => self.books[at].plan.title.clone(),
        }
    }

    /// How many files the book at `index` holds and how long they play.
    pub fn book_meta(&self, index: i32) -> (text: String)
        ensures
            text@ == (if Chrome::is_row(index, self@.books.len()) {
                self@.books[index as int].meta()
            } else {
                Seq::empty()
            }),
    {
        match row_of(index, self.books.len()) {
            None => String::new(),
            Some(at) => self.books[at].meta(),
        }
    }

    /// What the book at `index` is doing.
    pub fn book_state_name(&self, index: i32) -> (text: String)
        ensures
            text@ == (if Chrome::is_row(index, self@.books.len()) {
                self@.books[index as int].stage.called()
            } else {
                Seq::empty()
            }),
    {
        match row_of(index, self.books.len()) {
            None => String::new(),
            Some(at) => String::from_str(self.books[at].state.name()),
        }
    }

    /// How much of the book at `index` has been converted.
    pub fn book_progress(&self, index: i32) -> (bar: Bar)
        ensures
            bar == (if Chrome::is_row(index, self@.books.len()) {
                self@.books[index as int].progress()
            } else {
                Bar::Striped
            }),
    {
        match row_of(index, self.books.len()) {
            None => Bar::Striped,
            Some(at) => self.books[at].progress(),
        }
    }

    /// What the book at `index` is doing or came to, in words.
    pub fn book_result(&self, index: i32) -> (text: String)
        ensures
            text@ == (if Chrome::is_row(index, self@.books.len()) {
                self@.books[index as int].result()
            } else {
                Seq::empty()
            }),
    {
        match row_of(index, self.books.len()) {
            None => String::new(),
            Some(at) => self.books[at].result(),
        }
    }

    /// Starts a batch of every book that is waiting, the one being edited included, and hands back its
    /// jobs in the order of the batch; nothing where there is nothing to convert or the set was
    /// refused.
    pub fn convert(&mut self) -> (jobs: Option<Vec<ConvertJob>>)
        requires
            old(self).well_formed(),
            !old(self)@.converting && old(self)@.added().1 ==> crate::queue::countable(
                old(self)@.lengths,
            ),
        ensures
            final(self).well_formed(),
            final(self)@ == old(self)@.started().0,
            jobs is Some == old(self)@.started().1,
            jobs matches Some(jobs) ==> crate::collision::stated(jobs@) == jobs_of(
                waiting_plans(final(self)@.books),
            ),
    {
        if self.converting {
            return None;
        }
        if self.panel.files.len() > 0 {
            if !self.add_to_batch() {
                return None;
            }
        }
        let batch: Vec<usize> = self.waiting();
        if batch.len() == 0 {
            return None;
        }
        if let Some(why) = self.refused_alone() {
            self.refuse(why.as_str());
            return None;
        }
        let jobs: Vec<ConvertJob> = self.waiting_jobs();
        self.batch = batch;
        self.cancel = false;
        self.converting = true;
        self.refresh();
        Some(jobs)
    }

    /// Stops the running batch. The rows hear about themselves as the batch reports every book it was
    /// started with.
    pub fn cancel(&mut self)
        requires
            old(self).well_formed(),
        ensures
            final(self).well_formed(),
            final(self)@ == (Chrome { cancel: true, ..old(self)@ }),
    {
        self.cancel = true;
    }

    /// Empties the queue and the book being edited, unless a batch is running.
    pub fn clear_all(&mut self)
        requires
            old(self).well_formed(),
        ensures
            final(self).well_formed(),
            final(self)@ == (if old(self)@.converting {
                old(self)@
            } else {
                Chrome { books: Seq::empty(), ..old(self)@ }.with_fresh_panel().refreshed()
            }),
    {
        if self.converting {
            return;
        }
        self.books.clear();
        assert(entries(self.books@) =~= Seq::empty());
        self.panel = Panel::default();
        self.panel_durations.clear();
        self.refresh();
    }

    /// Puts made-up books through a made-up batch and starts filling in the next one, in the self-test
    /// and nowhere else. Nothing is converted, read or written: the files are names in `directory`.
    #[verifier::rlimit(30)]
    pub fn smoke_drill(&mut self, directory: &str)
        requires
            old(self).well_formed(),
        ensures
            final(self).well_formed(),
            final(self)@ == (if old(self)@.smoke_mode {
                old(self)@.drilled(directory@)
            } else {
                old(self)@
            }),
    {
        if !self.smoke_mode {
            return;
        }
        let ghost queued = self@.drill_queued(directory@);
        let ghost words = drill_words(directory@);
        self.queue_drill(directory);
        assert(words.take(0) =~= Seq::empty());
        self.drill_step(Event::Started { index: 0 }, Ghost(queued), Ghost(words), Ghost(0));
        self.drill_step(
            Event::Progress { index: 0, samples_done: 720_000 },
            Ghost(queued),
            Ghost(words),
            Ghost(1),
        );
        self.drill_step(
            Event::Progress { index: 0, samples_done: 1_440_000 },
            Ghost(queued),
            Ghost(words),
            Ghost(2),
        );
        self.drill_step(
            Event::Progress { index: 0, samples_done: 2_160_000 },
            Ghost(queued),
            Ghost(words),
            Ghost(3),
        );
        self.drill_step(drill_made(directory), Ghost(queued), Ghost(words), Ghost(4));
        self.drill_step(Event::Started { index: 1 }, Ghost(queued), Ghost(words), Ghost(5));
        self.drill_step(drill_failed(directory), Ghost(queued), Ghost(words), Ghost(6));
        self.drill_step(
            Event::Finished { index: 2, result: Err(BookFailure::Cancelled) },
            Ghost(queued),
            Ghost(words),
            Ghost(7),
        );
        self.drill_step(Event::BatchDone, Ghost(queued), Ghost(words), Ghost(8));
        assert(words.take(9) =~= words);
        self.fill_in_next(directory);
    }

    /// Queues the books of the self-test and starts a batch of them.
    fn queue_drill(&mut self, directory: &str)
        requires
            old(self).well_formed(),
        ensures
            final(self).well_formed(),
            final(self)@ == old(self)@.drill_queued(directory@),
    {
        let ghost start = self@;
        let ghost listed = self.books@;
        let converted = drill_book(directory, "taffle-smoke-drill-converted");
        let failed = drill_book(directory, "taffle-smoke-drill-failed");
        let stopped = drill_book(directory, "taffle-smoke-drill-stopped");
        self.books.push(converted);
        self.books.push(failed);
        self.books.push(stopped);
        let first: usize = self.books.len() - 3;
        let mut batch: Vec<usize> = Vec::new();
        batch.push(first);
        batch.push(first + 1);
        batch.push(first + 2);
        self.batch = batch;
        self.converting = true;
        proof {
            assert(entries(self.books@) =~= entries(listed) + drill_entries(directory@));
            assert(self.batch@ =~= start.drill_queued(directory@).batch);
            assert(self@ =~= start.drill_queued(directory@));
        }
    }

    /// Adopts the word `at` of the self-test's batch.
    fn drill_step(
        &mut self,
        event: Event,
        Ghost(queued): Ghost<Chrome>,
        Ghost(words): Ghost<Seq<Word>>,
        Ghost(at): Ghost<int>,
    )
        requires
            old(self).well_formed(),
            0 <= at < words.len(),
            old(self)@ == queued.applied_all(words.take(at)),
            word_of(event) == words[at],
        ensures
            final(self).well_formed(),
            final(self)@ == queued.applied_all(words.take(at + 1)),
    {
        proof {
            lemma_applied_next(queued, words, at);
        }
        self.apply(event);
    }

    /// Puts the file of the self-test's next book into the panel, with no length read off it.
    fn fill_in_next(&mut self, directory: &str)
        requires
            old(self).well_formed(),
        ensures
            final(self).well_formed(),
            final(self)@ == old(self)@.drill_filled_in(directory@),
    {
        let ghost files = self.panel.files@;
        self.panel.files.push(drill_path(directory, "taffle-smoke-drill-next", "m4b"));
        self.panel_durations.push(None);
        assert(crate::job::texts(self.panel.files@) =~= crate::job::texts(files).push(
            drill_path_text(directory@, "taffle-smoke-drill-next"@, "m4b"@),
        ));
        self.refresh();
    }

    /// Adopts one word from the running batch.
    pub fn apply(&mut self, event: Event)
        requires
            old(self).well_formed(),
        ensures
            final(self).well_formed(),
            final(self)@ == old(self)@.applied(word_of(event)),
    {
        let done: bool = match event {
            Event::BatchDone => true,
            _ => false,
        };
        self.adopt(event);
        if done {
            self.converting = false;
        }
        self.refresh();
    }

    /// Where one word from the running batch leaves the queue. The last word of a batch is about the
    /// run and not about a row.
    pub fn adopt(&mut self, event: Event)
        requires
            old(self).well_formed(),
        ensures
            final(self).well_formed(),
            final(self)@ == old(self)@.adopted(word_of(event)),
    {
        let (job, state) = match event {
            Event::Started { index } => (index, BookState::Converting { samples_done: 0 }),
            Event::Progress { index, samples_done } => (
                index,
                BookState::Converting { samples_done },
            ),
            Event::Finished { index, result } => (index, finished(result)),
            Event::BatchDone => {
                return;
            },
        };
        if job >= self.batch.len() {
            return;
        }
        let at: usize = self.batch[job];
        if at >= self.books.len() {
            return;
        }
        let ghost listed = self.books@;
        let ghost stage = state@;
        self.books[at].state = state;
        assert(entries(self.books@) =~= entries(listed).update(
            at as int,
            Entry { stage, ..entries(listed)[at as int] },
        ));
    }

    /// The revision, which is another one whenever anything the window reads may have changed.
    pub fn revision(&self) -> (revision: i32)
        ensures
            revision == self@.revision,
    {
        self.revision
    }

    /// Whether a batch is running.
    pub fn converting(&self) -> (converting: bool)
        ensures
            converting == self@.converting,
    {
        self.converting
    }

    /// Whether the running batch is to stop.
    pub fn is_cancelled(&self) -> (cancelled: bool)
        ensures
            cancelled == self@.cancel,
    {
        self.cancel
    }

    /// How many files the book being edited holds.
    pub fn file_count(&self) -> (count: i32)
        ensures
            count == self@.file_count,
    {
        self.file_count
    }

    /// How many books are queued.
    pub fn book_count(&self) -> (count: i32)
        ensures
            count == self@.book_count,
    {
        self.book_count
    }

    /// Why what was typed is no conversion, or nothing at all where it is one.
    pub fn panel_error(&self) -> (text: String)
        ensures
            text@ == self@.panel_error,
    {
        self.panel_error.clone()
    }

    /// That the chapter plan is longer than a box plays, or nothing at all.
    pub fn chapter_warning(&self) -> (text: String)
        ensures
            text@ == self@.chapter_warning,
    {
        self.chapter_warning.clone()
    }

    /// Whether this is the self-test.
    pub fn smoke_mode(&self) -> (smoke: bool)
        ensures
            smoke == self@.smoke_mode,
    {
        self.smoke_mode
    }

    /// Recomputes everything the window reads off the panel and the queue, and bumps the revision.
    fn refresh(&mut self)
        requires
            old(self).well_formed(),
        ensures
            final(self).well_formed(),
            final(self)@ == old(self)@.refreshed(),
    {
        let (error, warning) = match capture(&self.panel) {
            Err(CaptureError::NoFiles) => (String::new(), String::new()),
            Err(error) => (error.message(), String::new()),
            Ok(plan) => (
                String::new(),
                match chapter_warning(&plan.job.options.chapter_mode) {
                    Some(note) => note,
                    None => String::new(),
                },
            ),
        };
        self.file_count = count_of(self.panel.files.len());
        self.book_count = count_of(self.books.len());
        self.panel_error = error;
        self.chapter_warning = warning;
        self.revision = if self.revision == 0x7fff_ffff {
            -0x8000_0000
        } else {
            self.revision + 1
        };
    }

    /// Says `why` about the panel, over what the panel says about itself.
    fn refuse(&mut self, why: &str)
        requires
            old(self).well_formed(),
        ensures
            final(self).well_formed(),
            final(self)@ == old(self)@.refused(why@),
    {
        self.refresh();
        self.panel_error = String::from_str(why);
    }

    /// Where the books that are still waiting sit in the queue, in the order they will run.
    fn waiting(&self) -> (rows: Vec<usize>)
        ensures
            rows@ == waiting_rows(self@.books),
    {
        let ghost all = self@.books;
        let mut rows: Vec<usize> = Vec::new();
        let mut at: usize = 0;
        assert(rows@ =~= waiting_rows(all.take(0)));
        while at < self.books.len()
            invariant
                at <= self.books@.len(),
                all == self@.books,
                all.len() == self.books@.len(),
                rows@ == waiting_rows(all.take(at as int)),
            decreases self.books@.len() - at,
        {
            assert(all.take(at + 1).drop_last() =~= all.take(at as int));
            assert(all[at as int] == self.books@[at as int]@);
            match self.books[at].state {
                BookState::Ready => {
                    rows.push(at);
                },
                _ => {},
            }
            at += 1;
        }
        assert(all.take(at as int) =~= all);
        rows
    }

    /// The plans of the books that are still waiting, in the order they will run.
    fn plans(&self) -> (plans: Vec<&BookPlan>)
        ensures
            crate::queue::planned(plans@) == waiting_plans(self@.books),
    {
        let ghost all = self@.books;
        let mut plans: Vec<&BookPlan> = Vec::new();
        let mut at: usize = 0;
        assert(crate::queue::planned(plans@) =~= waiting_plans(all.take(0)));
        while at < self.books.len()
            invariant
                at <= self.books@.len(),
                all == self@.books,
                all.len() == self.books@.len(),
                crate::queue::planned(plans@) == waiting_plans(all.take(at as int)),
            decreases self.books@.len() - at,
        {
            assert(all.take(at + 1).drop_last() =~= all.take(at as int));
            assert(all[at as int] == self.books@[at as int]@);
            let ghost before = plans@;
            match self.books[at].state {
                BookState::Ready => {
                    plans.push(&self.books[at].plan);
                    assert(crate::queue::planned(plans@) =~= crate::queue::planned(before).push(
                        all[at as int].plan,
                    ));
                },
                _ => {},
            }
            at += 1;
        }
        assert(all.take(at as int) =~= all);
        plans
    }

    /// What keeps the books that are waiting from converting together with `plan`, in words.
    fn refused_with(&self, plan: &BookPlan) -> (why: Option<String>)
        ensures
            crate::job::text_of(why) == set_refusal(waiting_plans(self@.books).push(plan@)),
    {
        let mut plans: Vec<&BookPlan> = self.plans();
        let ghost before = plans@;
        plans.push(plan);
        assert(crate::queue::planned(plans@) =~= crate::queue::planned(before).push(plan@));
        refusal_of(&plans)
    }

    /// What keeps the books that are waiting from converting together, in words.
    fn refused_alone(&self) -> (why: Option<String>)
        ensures
            crate::job::text_of(why) == set_refusal(waiting_plans(self@.books)),
    {
        let plans: Vec<&BookPlan> = self.plans();
        refusal_of(&plans)
    }

    /// The conversions of the books that are waiting, in the order they will run.
    fn waiting_jobs(&self) -> (jobs: Vec<ConvertJob>)
        ensures
            crate::collision::stated(jobs@) == jobs_of(waiting_plans(self@.books)),
    {
        let plans: Vec<&BookPlan> = self.plans();
        jobs_in(&plans)
    }
}

/// The jobs of a batch are those of its rows: the plan that runs in a place is the plan of the book in
/// the row that stands in that place, which is one that is waiting.
pub proof fn lemma_a_job_is_of_the_row_beside_it(books: Seq<Entry>, at: int)
    requires
        books.len() <= usize::MAX,
        0 <= at < waiting_rows(books).len(),
    ensures
        waiting_plans(books).len() == waiting_rows(books).len(),
        waiting_rows(books)[at] < books.len(),
        books[waiting_rows(books)[at] as int].stage is Ready,
        books[waiting_rows(books)[at] as int].plan == waiting_plans(books)[at],
    decreases books.len(),
{
    let less = books.drop_last();
    if at < waiting_rows(less).len() {
        lemma_a_job_is_of_the_row_beside_it(less, at);
    } else {
        lemma_as_many_plans_as_rows(less);
    }
}

proof fn lemma_as_many_plans_as_rows(books: Seq<Entry>)
    ensures
        waiting_plans(books).len() == waiting_rows(books).len(),
    decreases books.len(),
{
    if books.len() > 0 {
        lemma_as_many_plans_as_rows(books.drop_last());
    }
}

impl Chrome {
    /// Whether the book at `index` can be reopened: one that is still waiting, while no batch runs.
    pub open spec fn can_reopen(self, index: i32) -> bool {
        !self.converting && Chrome::is_row(index, self.books.len())
            && self.books[index as int].stage is Ready
    }

    /// What reopening the book at `index` comes to, where `lengths` is how long its files state they
    /// play: it leaves the queue, and what was typed for it is in the editing area.
    pub open spec fn reopened(self, index: i32, lengths: Seq<Option<Duration>>) -> Chrome {
        if self.can_reopen(index) {
            Chrome {
                panel: self.books[index as int].plan.panel,
                lengths,
                books: self.books.remove(index as int),
                ..self
            }.refreshed()
        } else {
            self
        }
    }

    /// A book that was added and is reopened is back in the editing area exactly as it was typed, and
    /// the queue is the one there was.
    pub proof fn lemma_reopening_gives_back_what_was_typed(self)
        requires
            !self.converting,
            self.added().1,
            self.books.len() <= i32::MAX,
        ensures
            ({
                let back = self.added().0.reopened(self.books.len() as i32, self.lengths);
                back.panel == self.panel && back.lengths == self.lengths && back.books == self.books
            }),
    {
        let added = self.added().0;
        let index = self.books.len() as i32;
        assert(added.can_reopen(index));
        assert(added.books.remove(index as int) =~= self.books);
    }

    /// A queue that takes a book can be converted as it stands: none of the books waiting in it would
    /// write over what is read or over another.
    pub proof fn lemma_a_queue_takes_only_what_can_run_together(self)
        requires
            self.added().1,
        ensures
            set_refusal(waiting_plans(self.added().0.books)) is None,
    {
        let plan = crate::plan::captured(self.panel)->Ok_0;
        let books = self.added().0.books;
        assert(books.drop_last() =~= self.books);
        assert(waiting_plans(books) == waiting_plans(self.books).push(plan));
    }
}

/// The name of a file of the self-test's book `name`, in the directory `directory`.
fn drill_path(directory: &str, name: &str, extension: &str) -> (path: String)
    ensures
        path@ == drill_path_text(directory@, name@, extension@),
{
    let mut file: String = String::from_str(name);
    file.append(".");
    file.append(extension);
    joined(directory, file.as_str())
}

/// The self-test's book `name`.
fn drill_book(directory: &str, name: &str) -> (book: Book)
    ensures
        book@ == drill_entry(directory@, name@),
{
    let mut files: Vec<String> = Vec::new();
    files.push(drill_path(directory, name, "m4b"));
    let mut panel: Panel = Panel::default();
    panel.files = crate::text::copied(&files);
    let book = Book {
        plan: BookPlan {
            title: String::from_str(name),
            job: ConvertJob {
                inputs: files,
                output: Some(drill_path(directory, name, "taf")),
                options: Conversion::default(),
                write_cover: panel.extract_cover,
            },
            panel,
        },
        probed: Some(Duration::from_secs(60)),
        state: BookState::Ready,
    };
    proof {
        let inputs = seq![drill_path_text(directory@, name@, "m4b"@)];
        assert(crate::job::texts(book.plan.job.inputs@) =~= inputs);
        assert(book@.plan.panel =~= (Typed { files: inputs, ..crate::plan::untouched() }));
        assert(book@ =~= drill_entry(directory@, name@));
    }
    book
}

/// The word that the self-test's first book is converted.
fn drill_made(directory: &str) -> (event: Event)
    ensures
        word_of(event) == drill_words(directory@)[4],
{
    let outcome = JobOutcome {
        taf_path: drill_path(directory, "taffle-smoke-drill-converted", "taf"),
        cover_path: None,
        cover_error: None,
        report: ConversionReport {
            chapters: Vec::new(),
            duration: Duration::from_secs(61),
            cover: None,
            audio_id: AudioId::new(1),
        },
    };
    assert(crate::queue::reported(outcome) =~= crate::queue::wrote(
        outcome.taf_path@,
        Duration { secs: 61, nanos: 0 },
        0,
    ));
    Event::Finished { index: 0, result: Ok(outcome) }
}

/// The word that the self-test's second book is not.
fn drill_failed(directory: &str) -> (event: Event)
    ensures
        word_of(event) == drill_words(directory@)[6],
{
    let mut line: String = String::from_str("cannot open input ");
    line.append(drill_path(directory, "taffle-smoke-drill-failed", "m4b").as_str());
    line.append(": the file is not there");
    Event::Finished { index: 1, result: Err(BookFailure::Failed(line)) }
}

/// Every book that is waiting runs, each once and in order, and no other does.
pub proof fn lemma_every_waiting_book_runs(books: Seq<Entry>)
    requires
        books.len() <= usize::MAX,
    ensures
        forall|row: usize| #[trigger]
            waiting_rows(books).contains(row) <==> row < books.len() && books[row as int].stage is Ready,
        forall|i: int, j: int|
            0 <= i < j < waiting_rows(books).len() ==> waiting_rows(books)[i] < waiting_rows(books)[j],
    decreases books.len(),
{
    let rows = waiting_rows(books);
    if books.len() > 0 {
        let less = books.drop_last();
        let last = (books.len() - 1) as usize;
        let before = waiting_rows(less);
        lemma_every_waiting_book_runs(less);
        assert forall|row: usize| #[trigger]
            rows.contains(row) <==> row < books.len() && books[row as int].stage is Ready by {
            if rows.contains(row) {
                let i = rows.index_of(row);
                if i < before.len() {
                    assert(before[i] == row);
                    assert(before.contains(row));
                }
            }
            if row < less.len() && books[row as int].stage is Ready {
                assert(less[row as int] == books[row as int]);
                assert(before.contains(row));
                assert(rows[before.index_of(row)] == row);
            }
            if row == last && books[row as int].stage is Ready {
                assert(rows[rows.len() - 1] == row);
            }
        }
        assert forall|i: int, j: int| 0 <= i < j < rows.len() implies rows[i] < rows[j] by {
            if j >= before.len() {
                assert(before.contains(before[i]));
            }
        }
    } else {
        assert forall|row: usize| !#[trigger] rows.contains(row) by {}
    }
}

/// What moves, moves, and nothing else does: what was at `from` is at `to`, and without it the list is the
/// one there was without it.
pub proof fn lemma_what_moves<T>(list: Seq<T>, from: int, to: int)
    requires
        0 <= from < list.len(),
        0 <= to < list.len(),
    ensures
        moved(list, from, to).len() == list.len(),
        moved(list, from, to)[to] == list[from],
        moved(list, from, to).remove(to) == list.remove(from),
        moved(moved(list, from, to), to, from) == list,
{
    let new = moved(list, from, to);
    assert(new.remove(to) =~= list.remove(from));
    assert(moved(new, to, from) =~= list);
}

/// Every revision is another one than the one before it.
pub proof fn lemma_a_revision_is_another_one(revision: i32)
    ensures
        bumped(revision) != revision,
        (bumped(revision) - revision - 1) % 0x1_0000_0000 == 0,
{
}

impl Chrome {
    /// What is read off a window anew leaves what was done to it alone, counts what there is, and says
    /// what is wrong with the panel: nothing while no file is in it, and else why it is no conversion.
    pub proof fn lemma_what_is_read_off_a_window(self)
        ensures
            ({
                let next = self.refreshed();
                let plan = crate::plan::captured(self.panel);
                &&& next.revision != self.revision
                &&& next.panel == self.panel && next.lengths == self.lengths
                &&& next.books == self.books && next.batch == self.batch
                &&& next.converting == self.converting && next.cancel == self.cancel
                &&& next.smoke_mode == self.smoke_mode
                &&& self.panel.files.len() <= 0x7fff_ffff ==> next.file_count == self.panel.files.len()
                &&& self.books.len() <= 0x7fff_ffff ==> next.book_count == self.books.len()
                &&& plan is Ok || plan == Err::<Planned, Fault>(Fault::NoFiles) ==> next.panel_error
                    == Seq::<char>::empty()
                &&& plan is Err && plan->Err_0 !is NoFiles ==> next.panel_error == plan->Err_0.said()
                &&& plan is Err ==> next.chapter_warning == Seq::<char>::empty()
                &&& plan matches Ok(plan) ==> match crate::plan::plan_note(plan.job.chapters) {
                    Some(note) => next.chapter_warning == note,
                    None => next.chapter_warning == Seq::<char>::empty(),
                }
            }),
    {
    }

    /// When a book joins the queue: where what was typed is a conversion and no two of it and the books
    /// that are waiting write one file or write over one that is read. It then waits behind all others,
    /// and the panel is one nobody has touched. A book that does not join leaves everything as it was but
    /// for what is said about it.
    pub proof fn lemma_when_a_book_joins_the_queue(self)
        ensures
            ({
                let (next, added) = self.added();
                let plan = crate::plan::captured(self.panel);
                &&& added <==> plan is Ok && crate::collision::run_together(
                    jobs_of(waiting_plans(self.books).push(plan->Ok_0)),
                )
                &&& added ==> {
                    &&& next.books.len() == self.books.len() + 1
                    &&& next.books.drop_last() == self.books
                    &&& next.books.last().plan == plan->Ok_0
                    &&& next.books.last().stage is Ready
                    &&& next.books.last().probed == crate::queue::stated(self.lengths)
                    &&& next.panel.files.len() == 0
                    &&& next.panel == crate::plan::untouched()
                    &&& next.lengths.len() == 0
                    &&& next.panel_error.len() == 0
                }
                &&& !added ==> next.books == self.books && next.panel == self.panel && next.lengths
                    == self.lengths
                &&& plan matches Err(fault) ==> next.panel_error == fault.said()
                &&& next.batch == self.batch && next.converting == self.converting && next.cancel
                    == self.cancel
            }),
    {
        let plan = crate::plan::captured(self.panel);
        if let Ok(plan) = plan {
            let jobs = jobs_of(waiting_plans(self.books).push(plan));
            crate::collision::lemma_what_runs_together(jobs);
            let book = Entry {
                plan,
                probed: crate::queue::stated(self.lengths),
                stage: Stage::Ready,
            };
            assert(self.books.push(book).drop_last() =~= self.books);
            assert(crate::plan::captured(crate::plan::untouched()) is Err);
        }
    }

    /// When a batch starts: not while one runs, not without a book that waits, and not where the book
    /// being edited cannot join it. It is a batch of all that wait, and they can run together.
    pub proof fn lemma_when_a_batch_starts(self)
        ensures
            ({
                let (next, started) = self.started();
                let ready = if self.panel.files.len() > 0 {
                    self.added().0
                } else {
                    self
                };
                &&& self.converting ==> !started && next == self
                &&& started ==> {
                    &&& !self.converting
                    &&& next.converting
                    &&& !next.cancel
                    &&& next.books == ready.books
                    &&& next.batch == waiting_rows(next.books)
                    &&& next.batch.len() > 0
                    &&& crate::collision::run_together(jobs_of(waiting_plans(next.books)))
                    &&& self.panel.files.len() > 0 ==> self.added().1
                }
                &&& !started ==> next.converting == self.converting && next.batch == self.batch
                    && next.cancel == self.cancel
                &&& !self.converting && self.panel.files.len() > 0 && self.added().1 ==> started
                &&& !self.converting && self.panel.files.len() == 0 && waiting_rows(self.books).len() > 0
                    && crate::collision::run_together(jobs_of(waiting_plans(self.books))) ==> started
            }),
    {
        let ready = if self.panel.files.len() > 0 {
            self.added().0
        } else {
            self
        };
        crate::collision::lemma_what_runs_together(jobs_of(waiting_plans(ready.books)));
        if self.panel.files.len() > 0 && self.added().1 {
            self.lemma_a_queue_takes_only_what_can_run_together();
            self.lemma_when_a_book_joins_the_queue();
            assert(waiting_rows(ready.books).len() > 0);
        }
    }

    /// What one word from a batch does: it leaves the book it is about at the stage it names, and every
    /// other book, and everything else about that one, as it was. A word about no book of the batch does
    /// nothing, and the last word ends the batch.
    pub proof fn lemma_what_one_word_does(self, word: Word, row: int)
        requires
            0 <= row < self.books.len(),
        ensures
            ({
                let next = self.applied(word);
                &&& next.books.len() == self.books.len()
                &&& next.books[row].plan == self.books[row].plan
                &&& next.books[row].probed == self.books[row].probed
                &&& word matches Word::About(job, stage) ==> {
                    let about = job < self.batch.len() && self.batch[job as int] == row;
                    &&& about ==> next.books[row].stage == stage
                    &&& !about ==> next.books[row].stage == self.books[row].stage
                    &&& next.converting == self.converting
                }
                &&& word is Done ==> next.books == self.books && !next.converting
                &&& next.batch == self.batch && next.panel == self.panel && next.lengths
                    == self.lengths && next.cancel == self.cancel
            }),
    {
    }

    /// A book is where the last word about it left it, however many words there were, and where it was
    /// where there was none.
    pub proof fn lemma_a_book_is_where_the_last_word_left_it(self, words: Seq<Word>, row: int)
        requires
            0 <= row < self.books.len(),
        ensures
            ({
                let next = self.applied_all(words);
                &&& next.books.len() == self.books.len()
                &&& next.batch == self.batch
                &&& next.books[row].plan == self.books[row].plan
                &&& (forall|i: int| 0 <= i < words.len() ==> !self.is_about(#[trigger] words[i], row))
                    ==> next.books[row] == self.books[row]
                &&& forall|i: int|
                    0 <= i < words.len() && #[trigger] self.is_about(words[i], row) && (forall|j: int|
                        i < j < words.len() ==> !self.is_about(#[trigger] words[j], row))
                        ==> next.books[row].stage == words[i]->About_1
            }),
        decreases words.len(),
    {
        if words.len() > 0 {
            let less = words.drop_last();
            let last = words.len() - 1;
            self.lemma_a_book_is_where_the_last_word_left_it(less, row);
            let before = self.applied_all(less);
            before.lemma_what_one_word_does(words.last(), row);
            let next = self.applied_all(words);
            assert(words[last] == words.last());
            if forall|i: int| 0 <= i < words.len() ==> !self.is_about(#[trigger] words[i], row) {
                assert forall|i: int| 0 <= i < less.len() implies !self.is_about(
                    #[trigger] less[i],
                    row,
                ) by {
                    assert(words[i] == less[i]);
                }
                assert(!self.is_about(words[last], row));
                assert(next.books[row] == before.books[row]);
            }
            assert forall|i: int|
                0 <= i < words.len() && #[trigger] self.is_about(words[i], row) && (forall|j: int|
                    i < j < words.len() ==> !self.is_about(#[trigger] words[j], row)) implies
                next.books[row].stage == words[i]->About_1 by {
                if i < last {
                    assert(less[i] == words[i]);
                    assert(!self.is_about(words[last], row));
                    assert forall|j: int| i < j < less.len() implies !self.is_about(
                        #[trigger] less[j],
                        row,
                    ) by {
                        assert(words[j] == less[j]);
                    }
                }
            }
        }
    }

    /// What the self-test leaves behind: a book that was converted, one that was not and one that was
    /// stopped, behind the books there were, which are as they were; no batch running; and one more file in
    /// the panel.
    #[verifier::rlimit(60)]
    pub proof fn lemma_what_the_self_test_leaves(self, directory: Seq<char>)
        requires
            self.books.len() + 3 <= usize::MAX,
        ensures
            ({
                let next = self.drilled(directory);
                let first = self.books.len() as int;
                &&& next.books.len() == first + 3
                &&& next.books[first].stage is Done
                &&& next.books[first + 1].stage is Failed
                &&& next.books[first + 2].stage is Cancelled
                &&& forall|row: int|
                    0 <= row < first ==> #[trigger] next.books[row] == self.books[row]
                &&& !next.converting
                &&& next.panel.files.len() == self.panel.files.len() + 1
                &&& next.panel.files.drop_last() == self.panel.files
                &&& next.lengths == self.lengths.push(None)
            }),
    {
        let first = self.books.len() as int;
        let queued = self.drill_queued(directory);
        let words = drill_words(directory);
        let run = queued.applied_all(words);
        queued.lemma_a_book_is_where_the_last_word_left_it(words, first);
        queued.lemma_a_book_is_where_the_last_word_left_it(words, first + 1);
        queued.lemma_a_book_is_where_the_last_word_left_it(words, first + 2);
        assert(queued.is_about(words[4], first));
        assert(queued.is_about(words[6], first + 1));
        assert(queued.is_about(words[7], first + 2));
        assert forall|row: int| 0 <= row < first implies #[trigger] run.books[row]
            == self.books[row] by {
            queued.lemma_a_book_is_where_the_last_word_left_it(words, row);
            assert forall|i: int| 0 <= i < words.len() implies !queued.is_about(
                #[trigger] words[i],
                row,
            ) by {}
            assert(queued.books[row] == self.books[row]);
        }
        queued.lemma_words_leave_the_panel(words);
        let before = queued.applied_all(words.drop_last());
        assert(words.last() is Done);
        assert(run == before.applied(words.last()));
        let next = self.drilled(directory);
        assert(next.books == run.books);
        assert(next.panel.files.drop_last() =~= self.panel.files);
    }

    proof fn lemma_words_leave_the_panel(self, words: Seq<Word>)
        ensures
            self.applied_all(words).panel == self.panel,
            self.applied_all(words).lengths == self.lengths,
        decreases words.len(),
    {
        if words.len() > 0 {
            self.lemma_words_leave_the_panel(words.drop_last());
        }
    }

    /// Whether `word` is about the book in `row`.
    pub open spec fn is_about(self, word: Word, row: int) -> bool {
        word matches Word::About(job, _stage) && job < self.batch.len() && self.batch[job as int] == row
    }

    /// What can be reopened is a book that waits, while no batch runs: it leaves the queue, everything else
    /// in which stays, and what was typed for it is in the panel.
    pub proof fn lemma_what_reopening_does(self, index: i32, lengths: Seq<Option<Duration>>)
        ensures
            ({
                let next = self.reopened(index, lengths);
                let can = !self.converting && 0 <= index < self.books.len()
                    && self.books[index as int].stage is Ready;
                &&& !can ==> next == self
                &&& can ==> {
                    &&& next.panel == self.books[index as int].plan.panel
                    &&& next.lengths == lengths
                    &&& next.books.len() == self.books.len() - 1
                    &&& next.books.insert(index as int, self.books[index as int]) == self.books
                    &&& !next.converting && next.batch == self.batch
                }
            }),
    {
        if self.can_reopen(index) {
            let next = self.reopened(index, lengths);
            assert(next.books.insert(index as int, self.books[index as int]) =~= self.books);
        }
    }
}

/// What an event says: a job that begins has put nothing in, one that goes on as much as it says, and one
/// that is over what it came to. The last one is about no job.
pub proof fn lemma_what_an_event_says(event: Event)
    ensures
        event matches Event::Started { index } ==> word_of(event) == Word::About(
            index,
            Stage::Converting(0),
        ),
        event matches Event::Progress { index, samples_done } ==> word_of(event) == Word::About(
            index,
            Stage::Converting(samples_done),
        ),
        event matches Event::Finished { index, result } ==> (word_of(event) matches Word::About(
            job,
            stage,
        ) && job == index && (stage is Done <==> result is Ok) && (stage is Cancelled <==> (
        result matches Err(BookFailure::Cancelled)))),
        event is BatchDone <==> word_of(event) is Done,
{
}

/// The line a piece of text is.
pub open spec fn line_of(pieces: Seq<Seq<char>>, at: int) -> Seq<char> {
    if at + 1 < pieces.len() && pieces[at].len() > 0 && pieces[at].last() == '\r' {
        pieces[at].drop_last()
    } else {
        pieces[at]
    }
}

/// The lines of a text are told apart: of pieces with a line feed between them, every one that holds
/// anything is a line, in order, without the carriage return it ends with in front of a line feed, and
/// nothing else is.
pub proof fn lemma_lines_are_told_apart(pieces: Seq<Seq<char>>)
    requires
        pieces.len() > 0,
        forall|i: int| 0 <= i < pieces.len() ==> !#[trigger] pieces[i].contains('\n'),
    ensures
        lines_in(crate::text::joined(pieces, '\n')) == Seq::new(
            pieces.len(),
            |i: int| line_of(pieces, i),
        ).filter(|line: Seq<char>| line.len() > 0),
{
    crate::text::lemma_joined_pieces_are_cut_apart(pieces, '\n');
    lemma_full_lines(pieces, pieces.len());
}

proof fn lemma_full_lines(pieces: Seq<Seq<char>>, count: nat)
    requires
        count <= pieces.len(),
    ensures
        full_lines(pieces, count) == Seq::new(count, |i: int| line_of(pieces, i)).filter(
            |line: Seq<char>| line.len() > 0,
        ),
    decreases count,
{
    reveal(Seq::filter);
    let all = Seq::new(count, |i: int| line_of(pieces, i));
    if count > 0 {
        lemma_full_lines(pieces, (count - 1) as nat);
        assert(all.drop_last() =~= Seq::new((count - 1) as nat, |i: int| line_of(pieces, i)));
        assert(all.last() == line_of(pieces, count - 1));
    }
}

} // verus!
