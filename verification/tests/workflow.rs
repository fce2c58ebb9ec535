use taffle::collision::{refuse_collisions, CollisionError};
use taffle::convert::{beside, clock_audio_id, extension, unwritten, JobRun, Step};
use taffle::duration::Duration;
use taffle::id::{AudioId, BlockIndex};
use taffle::job::{
    chain, planned_chapters, ChapterError, ChapterMode, ChapterOut, Conversion, ConversionReport,
    ConvertError, ConvertJob, Cover, JobError,
};
use taffle::path::{default_output_path, file_stem, joined, slashed};

/// A job reading `inputs` and writing where `output` says, or where its first input leads.
fn job(inputs: &[&str], output: Option<&str>) -> ConvertJob {
    ConvertJob {
        inputs: inputs.iter().map(|path| path.to_string()).collect(),
        output: output.map(str::to_owned),
        options: Conversion::default(),
        write_cover: true,
    }
}

/// A cover of `mime`, with bytes nothing here reads.
fn cover(mime: &str) -> Cover {
    Cover {
        bytes: vec![1, 2, 3],
        mime: mime.to_owned(),
    }
}

/// What a conversion of a book carrying `cover` came to.
fn report(cover: Option<Cover>) -> ConversionReport {
    ConversionReport {
        chapters: (0..2)
            .map(|at| ChapterOut {
                page: BlockIndex::new(at),
                start: Duration::from_secs(0),
                title: None,
            })
            .collect(),
        duration: Duration::from_secs(10),
        cover,
        audio_id: AudioId::new(1),
    }
}

#[test]
fn an_output_that_is_an_input_is_refused() {
    let job = job(&["a.mp3", "b.mp3"], Some("a.mp3"));
    let error = refuse_collisions(std::slice::from_ref(&job)).expect_err("a collision");
    assert_eq!(
        error.message(),
        "the output a.mp3 is one of the inputs: converting it would write over the audio being read"
    );
}

#[test]
fn two_jobs_writing_one_output_are_refused() {
    // The second job states no output, so its collision is with the first job's *derived* name.
    let jobs = [
        job(&["x/book.m4b"], Some("x/book.taf")),
        job(&["x/book.m4b"], None),
    ];
    let error = refuse_collisions(&jobs).expect_err("a collision");
    assert_eq!(
        error.message(),
        "the output x/book.taf is stated by more than one conversion: they would write over each other"
    );
}

#[test]
fn distinct_jobs_pass() {
    let jobs = [job(&["a.mp3"], None), job(&["b.mp3"], None)];
    assert!(refuse_collisions(&jobs).is_ok());
}

#[test]
fn an_output_another_job_reads_is_refused_before_one_two_jobs_write() {
    let jobs = [
        job(&["a.mp3"], Some("out.taf")),
        job(&["b.mp3"], Some("out.taf")),
        job(&["c.mp3"], Some("b.mp3")),
    ];
    let error = refuse_collisions(&jobs).expect_err("a collision");
    assert!(matches!(&error, CollisionError::OutputIsInput { .. }));
    assert_eq!(error.output(), "b.mp3");
}

#[test]
fn a_plan_that_skips_the_start_gains_the_opening_chapter() {
    assert_eq!(
        planned_chapters(&ChapterMode::Explicit(vec![0, 100])),
        Some(2)
    );
    assert_eq!(planned_chapters(&ChapterMode::Explicit(vec![100])), Some(2));
    assert_eq!(planned_chapters(&ChapterMode::Auto), None);
}

#[test]
fn a_conversion_is_named_after_its_first_input_with_the_format_in_the_place_of_its_extension() {
    assert_eq!(default_output_path("/x/Book Name.m4b"), "/x/Book Name.taf");
}

#[test]
fn a_name_with_no_extension_keeps_all_of_itself_and_the_format_is_added_to_it() {
    // Which is what `.taf` in the place of the extension means where there is none to replace, and
    // the only thing that keeps two files called `Book` and `Book.m4b` apart on the way out.
    assert_eq!(default_output_path("/x/Book Name"), "/x/Book Name.taf");
    // A name of several dots keeps every one of them but the last: only the extension goes.
    assert_eq!(
        default_output_path("/x/Book Name.Teil 2.m4b"),
        "/x/Book Name.Teil 2.taf"
    );
    // And a file named without a directory stays where it was named, which is beside itself.
    assert_eq!(default_output_path("Book Name.m4b"), "Book Name.taf");
}

#[test]
fn a_name_is_what_lies_behind_the_last_separator() {
    assert_eq!(file_stem("/x.y/Book.m4b"), "Book");
    assert_eq!(file_stem("/x.y/.hidden"), ".hidden");
    assert_eq!(default_output_path("/x.y/Book"), "/x.y/Book.taf");
    assert_eq!(joined("/x", "a.taf"), "/x/a.taf");
}

#[test]
fn a_jpeg_cover_is_written_beside_the_file_under_the_file_s_own_name() {
    assert_eq!(
        beside("/x/Book Name.taf", &cover("image/jpeg")),
        Ok("/x/Book Name.jpg".to_owned())
    );
}

#[test]
fn a_png_cover_is_written_as_a_png() {
    assert_eq!(
        beside("/x/Book Name.taf", &cover("image/png")),
        Ok("/x/Book Name.png".to_owned())
    );
    assert_eq!(extension("image/png"), Some("png"));
}

#[test]
fn a_cover_of_any_other_type_is_left_out_and_says_which_type_that_was() {
    let why = beside("/x/Book Name.taf", &cover("image/webp")).expect_err("nothing writes a webp");

    assert!(why.contains("image/webp"), "{why}");
    assert_eq!(extension("image/webp"), None);
}

#[test]
fn a_cover_that_cannot_be_written_says_where_it_was_going_and_what_stopped_it() {
    let why = unwritten("/x/Book Name.png", "Is a directory");

    assert!(why.contains("Book Name.png"), "{why}");
    assert_eq!(why, "cannot write cover /x/Book Name.png: Is a directory");
}

#[test]
fn a_book_converts_into_a_taf_beside_it_carrying_the_cover_it_came_with() {
    let mut run = JobRun::new(job(&["/x/tiny.m4b"], None)).expect("a job of one input");

    assert_eq!(run.step(), Step::Open("/x/tiny.m4b".to_owned()));
    run.did(Ok(())).expect("it opened");
    assert_eq!(run.step(), Step::Create("/x/tiny.taf".to_owned()));
    run.did(Ok(())).expect("it was created");
    assert_eq!(run.step(), Step::Convert);

    let report = report(Some(cover("image/png")));
    let place = run.cover(&report).expect("a cover is due");
    assert_eq!(place, Ok("/x/tiny.png".to_owned()));

    let outcome = run.finish(report, Some(place));
    assert_eq!(outcome.taf_path, "/x/tiny.taf");
    assert_eq!(outcome.cover_path.as_deref(), Some("/x/tiny.png"));
    assert_eq!(outcome.cover_error, None);
}

#[test]
fn a_cover_that_cannot_be_written_is_reported_and_the_conversion_still_stands() {
    let run = JobRun::new(job(&["tiny.m4b"], Some("/x/Book.taf"))).expect("a job of one input");
    let report = report(Some(cover("image/png")));
    let place = run.cover(&report).expect("a cover is due").expect("a place");

    let outcome = run.finish(report, Some(Err(unwritten(&place, "Permission denied"))));
    assert_eq!(outcome.cover_path, None);
    let why = outcome
        .cover_error
        .expect("the cover says why it is not there");
    assert!(
        why.contains("/x/Book.png"),
        "the cover failure names no file: {why}"
    );
    assert_eq!(outcome.report.chapters.len(), 2);
}

#[test]
fn a_conversion_named_like_its_own_cover_keeps_the_book_and_leaves_the_picture_out() {
    // The output the caller named, which is where the cover of a book carrying a PNG would go.
    let run = JobRun::new(job(&["tiny.m4b"], Some("/x/Book.png"))).expect("a job of one input");
    let report = report(Some(cover("image/png")));
    let due = run.cover(&report);

    let outcome = run.finish(report, due);
    assert_eq!(outcome.taf_path, "/x/Book.png");
    assert_eq!(outcome.cover_path, None);
    let why = outcome
        .cover_error
        .expect("the cover says why it is not there");
    assert!(
        why.contains("/x/Book.png"),
        "the cover failure names no file: {why}"
    );
}

#[test]
fn a_conversion_told_to_leave_the_cover_alone_writes_no_cover_at_all() {
    let run = JobRun::new(ConvertJob {
        write_cover: false,
        ..job(&["tiny.m4b"], Some("/x/Book.taf"))
    })
    .expect("a job of one input");
    let report = report(Some(cover("image/png")));
    let due = run.cover(&report);

    // Nothing was written and nothing went wrong: a cover that was never asked for is not a
    // failure to report.
    assert_eq!(due, None);
    let outcome = run.finish(report, due);
    assert_eq!(outcome.cover_path, None);
    assert_eq!(outcome.cover_error, None);
}

#[test]
fn an_input_that_is_not_there_is_refused_before_anything_is_written() {
    let mut run = JobRun::new(job(&["a.m4b", "/x/nowhere.m4b"], Some("/x/Book.taf")))
        .expect("a job of two inputs");

    run.did(Ok(())).expect("the first of them is there");
    assert_eq!(run.step(), Step::Open("/x/nowhere.m4b".to_owned()));
    let error = run
        .did(Err("not found".to_owned()))
        .expect_err("a file that is not there is no input");
    match &error {
        JobError::OpenInput { path, source } => {
            assert_eq!(path, "/x/nowhere.m4b");
            assert_eq!(source, "not found");
        }
        other => panic!("{other:?}"),
    }
    assert_eq!(error.messages()[0], "cannot open input /x/nowhere.m4b");
}

#[test]
fn an_output_that_cannot_be_made_is_refused_under_the_name_it_was_given() {
    let mut run =
        JobRun::new(job(&["a.m4b"], Some("/x/nowhere/Book.taf"))).expect("a job of one input");

    run.did(Ok(())).expect("the input is there");
    let error = run
        .did(Err("not found".to_owned()))
        .expect_err("there is nowhere to write the file");
    match &error {
        JobError::CreateOutput { path, source } => {
            assert_eq!(path, "/x/nowhere/Book.taf");
            assert_eq!(source, "not found");
        }
        other => panic!("{other:?}"),
    }
    assert_eq!(error.messages()[0], "cannot create output /x/nowhere/Book.taf");
}

#[test]
fn a_job_of_no_inputs_is_the_engine_s_own_refusal_and_no_file_is_made_for_it() {
    let error = JobRun::new(job(&[], Some("/x/Book.taf"))).expect_err("there is nothing to convert");

    assert!(
        matches!(
            error,
            JobError::Convert(ConvertError::Chapters(ChapterError::Empty))
        ),
        "{error:?}"
    );
    assert_eq!(error.messages(), ["no inputs"]);
}

#[test]
fn every_layer_of_a_failure_is_on_one_line() {
    let error = JobError::Convert(ConvertError::Failed(vec![
        "input 'a.mp3' failed".to_owned(),
        "no audio".to_owned(),
        "boom".to_owned(),
    ]));

    assert_eq!(chain(&error.messages()), "input 'a.mp3' failed: no audio: boom");
    assert_eq!(
        chain(&JobError::Convert(ConvertError::Cancelled).messages()),
        "the conversion was cancelled"
    );
    assert_eq!(chain(&Vec::new()), "");
}

#[test]
fn the_audio_id_is_as_much_of_the_time_as_its_field_holds() {
    assert_eq!(clock_audio_id(1_787_235_111).get(), 1_787_235_111);
    assert_eq!(clock_audio_id(0x1_0000_0001).get(), 1);
}

#[test]
fn a_path_means_what_the_system_it_comes_from_means_by_it() {
    assert_eq!(slashed(r"C:\a.b\Book", '\\'), "C:/a.b/Book");
    assert_eq!(default_output_path(&slashed(r"C:\a.b\Book", '\\')), "C:/a.b/Book.taf");
    assert_eq!(file_stem(&slashed(r"C:\a.b\Book.m4b", '\\')), "Book");

    // Where names are parted by a slash, everything else is part of a name.
    assert_eq!(slashed(r"/a/b\c.m4b", '/'), r"/a/b\c.m4b");
    assert_eq!(default_output_path(r"/a/b\c.m4b"), r"/a/b\c.taf");
}
