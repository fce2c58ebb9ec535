use taffle::cli::ConvertArgs;
use taffle::convert_cmd::{after, before, in_clock_time, job, ProgressLine};
use taffle::duration::{Duration, Seconds};
use taffle::id::{AudioId, BlockIndex};
use taffle::job::{
    ChapterError, ChapterMode, ChapterOut, ConversionReport, ConvertError, JobError, JobOutcome,
    Progress,
};

/// The chapters a Toniebox plays, which is what a longer list is warned about.
const MAX_CHAPTERS: usize = 99;

/// The duration `text` states.
fn seconds(text: &str) -> Seconds {
    text.parse().expect("a duration")
}

/// A command line naming `inputs` and nothing else.
fn args(inputs: &[&str]) -> ConvertArgs {
    ConvertArgs {
        inputs: inputs.iter().map(|path| path.to_string()).collect(),
        output: None,
        skip_leading: seconds("0"),
        trim_pause_leading: false,
        trim_pause_each_chapter: false,
        add_pause_leading: seconds("0"),
        add_pause_each_chapter: seconds("0"),
        chapters: None,
        no_cover: false,
    }
}

/// A chapter list of `count` offsets a tenth of a second apart, beginning `from` tenths into the
/// audio.
fn offsets(from: usize, count: usize) -> Vec<Seconds> {
    (from..from + count)
        .map(|at| seconds(&format!("{}.{}", at / 10, at % 10)))
        .collect()
}

/// What a run says about `chapters` being more of them than a box plays.
fn over_limit(chapters: usize) -> String {
    format!("warning: {chapters} chapters is more than the {MAX_CHAPTERS} a Toniebox plays")
}

/// What a conversion came to.
fn outcome(path: &str, secs: u64, chapters: usize) -> JobOutcome {
    JobOutcome {
        taf_path: path.to_owned(),
        cover_path: None,
        cover_error: None,
        report: ConversionReport {
            chapters: (0..chapters)
                .map(|at| ChapterOut {
                    page: BlockIndex::new(u32::try_from(at).expect("a block")),
                    start: Duration::from_secs(0),
                    title: None,
                })
                .collect(),
            duration: Duration::from_secs(secs),
            cover: None,
            audio_id: AudioId::new(1),
        },
    }
}

#[test]
fn the_file_a_run_writes_is_the_one_it_was_told_to_write() {
    let mut typed = args(&["/x/book.wav"]);
    typed.output = Some("/x/custom.taf".to_owned());
    let job = job(typed).expect("a job");

    assert_eq!(job.output.as_deref(), Some("/x/custom.taf"));
    assert!(before(&job.options.chapter_mode).is_empty());

    let mut line = ProgressLine::new();
    assert!(!line.finish());
    assert_eq!(line.show(Progress::Decoding { input_index: 0 }), None);
    assert_eq!(
        line.show(Progress::Encoded { samples_done: 2_880 }).as_deref(),
        Some("\r0s encoded")
    );
    assert_eq!(line.show(Progress::Encoded { samples_done: 5_760 }), None);
    assert_eq!(
        line.show(Progress::Encoded { samples_done: 48_960 }).as_deref(),
        Some("\r1s encoded")
    );
    assert_eq!(line.show(Progress::Finalizing), None);
    assert!(line.finish());

    let said = after(false, Ok(outcome("/x/custom.taf", 2, 1))).expect("it converted");
    assert_eq!(said.answer, ["wrote /x/custom.taf (0:02, 1 chapter)"]);
    assert!(said.ahead.is_empty() && said.aside.is_empty());
}

#[test]
fn a_book_converts_into_a_taf_beside_it_with_the_cover_it_came_with() {
    let job = job(args(&["/x/tiny.m4b"])).expect("a job");
    assert_eq!(job.output.as_deref(), Some("/x/tiny.taf"));
    assert!(job.write_cover);

    let mut came_to = outcome("/x/tiny.taf", 10, 2);
    came_to.cover_path = Some("/x/tiny.png".to_owned());
    let said = after(false, Ok(came_to)).expect("it converted");
    assert_eq!(
        said.answer,
        ["wrote /x/tiny.taf (0:10, 2 chapters)", "wrote /x/tiny.png"]
    );
}

#[test]
fn a_run_told_to_leave_the_cover_alone_writes_the_book_and_nothing_else() {
    let mut typed = args(&["/x/tiny.m4b"]);
    typed.no_cover = true;

    assert!(!job(typed).expect("a job").write_cover);
}

#[test]
fn a_cover_that_could_not_be_written_is_said_and_the_book_still_stands() {
    let mut came_to = outcome("/x/Book.png", 10, 2);
    came_to.cover_error = Some("its place is taken".to_owned());
    let said = after(false, Ok(came_to)).expect("it converted");

    assert_eq!(said.answer, ["wrote /x/Book.png (0:10, 2 chapters)"]);
    assert_eq!(
        said.aside,
        ["warning: no cover was written: its place is taken"]
    );
}

#[test]
fn an_input_that_is_not_there_fails_the_run_under_the_name_it_was_given() {
    let layers = after(
        false,
        Err(JobError::OpenInput {
            path: "/x/nowhere.m4b".to_owned(),
            source: "No such file or directory".to_owned(),
        }),
    )
    .expect_err("a file that is not there");

    assert_eq!(
        layers,
        ["cannot open input /x/nowhere.m4b", "No such file or directory"]
    );
}

#[test]
fn the_chapters_a_run_was_given_are_the_chapters_the_file_holds() {
    let mut typed = args(&["book.wav"]);
    typed.chapters = Some(vec![seconds("0:00"), seconds("0:01")]);

    assert_eq!(
        job(typed).expect("a job").options.chapter_mode,
        ChapterMode::Explicit(vec![0, 48_000])
    );
}

#[test]
fn a_chapter_list_longer_than_a_box_plays_is_a_warning_and_the_file_is_still_written() {
    let mut typed = args(&["book.wav"]);
    typed.chapters = Some(offsets(0, MAX_CHAPTERS + 1));
    let job = job(typed).expect("a job");

    assert_eq!(
        before(&job.options.chapter_mode),
        [over_limit(MAX_CHAPTERS + 1)]
    );
    // What was said in front of the audio is not said again behind it.
    let said = after(true, Ok(outcome("book.taf", 11, MAX_CHAPTERS + 1))).expect("it converted");
    assert!(said.ahead.is_empty() && said.aside.is_empty());
}

#[test]
fn the_chapter_a_file_opens_with_counts_towards_what_a_box_plays() {
    let mut typed = args(&["book.wav"]);
    typed.chapters = Some(offsets(1, MAX_CHAPTERS));

    assert_eq!(
        before(&job(typed).expect("a job").options.chapter_mode),
        [over_limit(MAX_CHAPTERS + 1)]
    );
}

#[test]
fn a_chapter_list_of_what_a_box_plays_is_no_warning_at_all() {
    let mut typed = args(&["book.wav"]);
    typed.chapters = Some(offsets(0, MAX_CHAPTERS));

    assert!(before(&job(typed).expect("a job").options.chapter_mode).is_empty());
}

#[test]
fn more_files_than_a_box_plays_chapters_is_warned_about_once_the_file_is_written() {
    let said = after(false, Ok(outcome("000.taf", 20, MAX_CHAPTERS + 1))).expect("it converted");

    assert_eq!(said.ahead, [over_limit(MAX_CHAPTERS + 1)]);
    assert!(said.aside.is_empty());
}

#[test]
fn a_run_whose_output_is_one_of_its_inputs_is_refused_before_a_file_is_opened() {
    let mut typed = args(&["/x/a.wav", "/x/book.wav"]);
    typed.output = Some("/x/book.wav".to_owned());
    let error = job(typed).expect_err("it would write over itself");

    assert_eq!(
        error.message(),
        "the output /x/book.wav is one of the inputs: converting it would write over the audio being read"
    );
}

#[test]
fn a_taf_converted_where_it_lies_would_be_its_own_output_and_is_refused() {
    // What a run over `*.taf` comes to: the name the output is derived from is the input's own.
    let error = job(args(&["/x/book.taf"])).expect_err("it would write over itself");

    assert_eq!(error.output(), "/x/book.taf");
}

#[test]
fn the_pauses_a_run_puts_in_front_of_chapter_one_are_added_to_each_other() {
    let mut typed = args(&["book.wav"]);
    typed.add_pause_leading = seconds("1");
    typed.add_pause_each_chapter = seconds("1");
    let silence = job(typed).expect("a job").options.silence;

    // Each of them states what it puts in, and neither takes the other's place.
    assert_eq!(silence.add_pause_leading, 48_000);
    assert_eq!(silence.add_pause_each_chapter, 48_000);
}

#[test]
fn what_a_run_skips_and_trims_off_the_front_is_gone_from_the_file() {
    let mut typed = args(&["book.wav"]);
    typed.skip_leading = seconds("1.0");
    typed.trim_pause_leading = true;
    typed.trim_pause_each_chapter = true;
    let silence = job(typed).expect("a job").options.silence;

    assert_eq!(silence.skip_leading, 48_000);
    assert!(silence.trim_leading);
    assert!(silence.trim_each_chapter);
}

#[test]
fn a_chapter_past_the_end_is_said_in_the_clock_it_was_typed_in() {
    let error = JobError::Convert(ConvertError::Chapters(ChapterError::OutOfRange {
        offset: 960_000,
        total: 96_000,
    }));

    assert_eq!(
        in_clock_time(&error),
        [
            "the chapter at 0:20 is past the end of the audio, which runs 0:02",
            "explicit chapter at 960000 beyond total length 96000"
        ]
    );
    assert_eq!(
        in_clock_time(&JobError::Convert(ConvertError::Cancelled)),
        ["the conversion was cancelled"]
    );
}
