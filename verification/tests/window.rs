use taffle::boot::Cli;
use taffle::collision::refuse_collisions;
use taffle::duration::Duration;
use taffle::id::{AudioId, BlockIndex};
use taffle::job::{ChapterOut, ConversionReport, JobOutcome};
use taffle::plan::{capture, Panel};
use taffle::queue::{collision_refusal, stated_length, Bar, Book, BookState};
use taffle::window::{named_files, TaffleApp};
use taffle::worker::{BookFailure, Event};

/// A queued book of `files`, stating the length `probed` says it plays.
fn book(files: &[&str], probed: Option<Duration>) -> Book {
    let panel = Panel {
        files: files.iter().map(|path| path.to_string()).collect(),
        ..Panel::default()
    };
    Book {
        plan: capture(&panel).expect("a plan"),
        probed,
        state: BookState::Ready,
    }
}

/// Puts a book of the one file `file` into the queue of `app`.
fn queue(app: &mut TaffleApp, file: &str, length: Option<Duration>) {
    app.add_files(vec![file.to_owned()], vec![length]);
    assert!(app.add_to_batch(), "{}", app.panel_error());
}

/// A window with the book of the one file `a.mp3` in its queue, converting.
fn converting() -> TaffleApp {
    let mut app = TaffleApp::new(false);
    queue(&mut app, "a.mp3", None);
    assert!(app.convert().is_some());
    app
}

/// What a conversion came to: `chapters` marks over `duration` of audio, and no cover.
fn outcome(chapters: usize, duration: Duration) -> JobOutcome {
    JobOutcome {
        taf_path: "out/book.taf".to_owned(),
        cover_path: None,
        cover_error: None,
        report: ConversionReport {
            chapters: (0..chapters)
                .map(|at| ChapterOut {
                    page: BlockIndex::new(u32::try_from(at).expect("a block index")),
                    start: Duration::from_secs(0),
                    title: None,
                })
                .collect(),
            duration,
            cover: None,
            audio_id: AudioId::new(1),
        },
    }
}

#[test]
fn what_the_batch_says_lands_on_the_row_the_job_belongs_to() {
    // A book that has already converted stays in the queue, so the one job of this batch is
    // the second row — which is the whole reason a job's index is looked up and not used.
    let mut app = converting();
    let mut written = outcome(1, Duration::from_secs(30));
    written.taf_path = "a.taf".to_owned();
    app.apply(Event::Finished {
        index: 0,
        result: Ok(written),
    });
    app.apply(Event::BatchDone);
    queue(&mut app, "b.mp3", None);
    assert_eq!(app.convert().map(|jobs| jobs.len()), Some(1));

    app.adopt(Event::Started { index: 0 });
    assert_eq!(app.book_result(1), "0:00 encoded");
    assert_eq!(app.book_state_name(1), "converting");

    app.adopt(Event::Progress {
        index: 0,
        samples_done: 96_000,
    });
    assert_eq!(app.book_result(1), "0:02 encoded");
    // The row that already converted is nobody's job, and says what it always said.
    assert_eq!(app.book_result(0), "wrote a.taf (0:30, 1 chapter)");
}

#[test]
fn a_book_that_converted_says_what_the_command_line_says_about_it() {
    let mut app = converting();
    app.adopt(Event::Finished {
        index: 0,
        result: Ok(outcome(16, Duration::from_secs(3852))),
    });
    assert_eq!(app.book_state_name(0), "done");
    assert_eq!(
        app.book_result(0),
        "wrote out/book.taf (1:04:12, 16 chapters)"
    );
}

#[test]
fn the_cover_beside_the_book_is_a_line_of_its_own() {
    let mut written = outcome(1, Duration::from_secs(30));
    written.cover_path = Some("out/book.png".to_owned());
    let mut with_cover = converting();
    with_cover.adopt(Event::Finished {
        index: 0,
        result: Ok(written),
    });
    assert_eq!(
        with_cover.book_result(0),
        "wrote out/book.taf (0:30, 1 chapter)\nwrote out/book.png"
    );

    let mut refused = outcome(1, Duration::from_secs(30));
    refused.cover_error = Some("the picture is a WEBP, which nothing here writes".to_owned());
    let mut without_cover = converting();
    without_cover.adopt(Event::Finished {
        index: 0,
        result: Ok(refused),
    });
    // A cover that could not be written is a note beside a book that converted, never a
    // failure of it.
    assert_eq!(
        without_cover.book_result(0),
        "wrote out/book.taf (0:30, 1 chapter)\nno cover was written: the picture is a WEBP, which nothing here writes"
    );
    assert_eq!(without_cover.book_state_name(0), "done");
}

#[test]
fn a_book_that_failed_says_why_and_that_nothing_half_written_was_left_behind() {
    let mut app = converting();
    app.adopt(Event::Finished {
        index: 0,
        result: Err(BookFailure::Failed(
            "cannot open input a.mp3: no such file or directory".to_owned(),
        )),
    });
    assert_eq!(app.book_state_name(0), "failed");
    assert_eq!(
        app.book_result(0),
        "cannot open input a.mp3: no such file or directory; the unfinished file was removed"
    );
}

#[test]
fn a_book_that_was_stopped_is_cancelled_rather_than_failed() {
    let mut app = converting();
    app.adopt(Event::Finished {
        index: 0,
        result: Err(BookFailure::Cancelled),
    });
    assert_eq!(app.book_state_name(0), "cancelled");
    assert_eq!(
        app.book_result(0),
        "the conversion was stopped; the unfinished file was removed"
    );
}

#[test]
fn a_word_about_a_job_this_batch_does_not_hold_changes_nothing() {
    let mut app = converting();
    app.adopt(Event::Started { index: 7 });
    // The last word of a batch is about the run and not about a row.
    app.adopt(Event::BatchDone);
    assert_eq!(app.book_state_name(0), "ready");
    assert_eq!(app.book_result(0), "");
}

#[test]
fn the_bar_counts_the_audio_that_is_in_against_the_length_the_files_state() {
    let mut converting = book(&["a.mp3"], Some(Duration::from_secs(100)));
    converting.state = BookState::Converting {
        samples_done: 50 * 48_000,
    };
    match converting.progress() {
        Bar::Part { done, of } => assert_eq!(done * 2, of),
        other => panic!("{other:?}"),
    }

    // A conversion writes more audio than its inputs stated wherever it adds a pause, and a
    // book is not converted until it says so — so the bar stops short of full.
    converting.state = BookState::Converting {
        samples_done: 200 * 48_000,
    };
    assert_eq!(converting.progress(), Bar::NearlyDone);

    // Every way a probe can come to nothing is one answer here: no length to count against,
    // which a row shows as a stripe rather than a percent.
    assert_eq!(book(&["a.mp3"], None).progress(), Bar::Striped);
    assert_eq!(
        book(&["a.mp3"], Some(Duration::from_secs(0))).progress(),
        Bar::Striped
    );
}

#[test]
fn a_converting_row_says_how_much_audio_is_in() {
    let mut converting = book(&["a.mp3"], None);
    converting.state = BookState::Converting {
        samples_done: 96_500,
    };
    // The seconds are counted the way the command line counts them: the one being encoded is
    // not counted until it has been.
    assert_eq!(converting.result(), "0:02 encoded");
}

#[test]
fn a_row_says_how_many_files_it_holds_and_how_long_they_play() {
    assert_eq!(
        book(&["a.mp3"], Some(Duration::from_secs(3852))).meta(),
        "1 file · 1:04:12"
    );
    // A book nothing could be read off states no length, and says the files alone.
    assert_eq!(book(&["a.mp3", "b.mp3"], None).meta(), "2 files");
}

#[test]
fn a_book_states_a_length_only_where_every_one_of_its_files_does() {
    let ten = Some(Duration::from_secs(10));
    assert_eq!(
        stated_length(&[ten, Some(Duration::from_secs(20))]),
        Some(Duration::from_secs(30))
    );
    // A sum that is missing a file is not how long the book plays, and a row showing it would
    // be stating a length that is wrong.
    assert_eq!(stated_length(&[ten, None]), None);
}

#[test]
fn a_refused_set_of_conversions_names_the_book_it_is_about() {
    let over_itself = Panel {
        files: vec!["a/01.mp3".to_owned()],
        output_text: "a/01.mp3".to_owned(),
        ..Panel::default()
    };
    let plan = capture(&over_itself).expect("a plan");
    let error = refuse_collisions(std::slice::from_ref(&plan.job)).expect_err("a collision");

    assert_eq!(
        collision_refusal(&[&plan], &error),
        "01: the output a/01.mp3 is one of the inputs: converting it would write over the audio being read"
    );
}

#[test]
fn the_only_arguments_a_run_takes_are_smoke_and_help() {
    let args = |list: &[&str]| Cli::parse(&list.iter().map(|arg| arg.to_string()).collect());

    assert_eq!(args(&[]).unwrap(), Cli::default());
    assert!(args(&["--smoke"]).unwrap().smoke);
    assert!(args(&["--help"]).unwrap().help);
    assert!(args(&["-h"]).unwrap().help);
    assert!(args(&["--frobnicate"]).is_err(), "unknown flag");
    assert_eq!(
        args(&["--smoke", "-x", "-y"]).unwrap_err(),
        "unknown argument -x (try --help)"
    );
}

#[test]
fn files_come_in_one_to_a_line() {
    assert_eq!(named_files("a.mp3\nb.mp3\n"), ["a.mp3", "b.mp3"]);
    assert_eq!(named_files(""), [] as [String; 0]);
}

#[test]
fn a_book_that_is_reopened_is_back_exactly_as_it_was_typed() {
    let mut app = TaffleApp::new(false);
    app.add_files(
        vec!["a.mp3".to_owned(), "b.mp3".to_owned()],
        vec![None, Some(Duration::from_secs(3))],
    );
    app.set_chapters("0:00,0:05");
    app.set_skip_leading("4.4");
    app.set_trim_leading(true);
    app.set_extract_cover(false);
    assert!(app.add_to_batch());
    assert_eq!(app.file_count(), 0);
    assert_eq!(app.chapters_text(), "");
    assert!(app.extract_cover());

    assert_eq!(
        app.reopenable(0),
        Some(vec!["a.mp3".to_owned(), "b.mp3".to_owned()])
    );
    app.reopen_row(0, vec![None, Some(Duration::from_secs(3))]);

    assert_eq!(app.book_count(), 0);
    assert_eq!(app.file_count(), 2);
    assert_eq!(app.file_at(1), "b.mp3");
    assert_eq!(app.chapters_text(), "0:00,0:05");
    assert_eq!(app.skip_leading_text(), "4.4");
    assert!(app.trim_leading());
    assert!(!app.extract_cover());
}

#[test]
fn a_queue_takes_only_what_can_run_together() {
    let mut app = TaffleApp::new(false);
    queue(&mut app, "x/a.mp3", None);
    app.add_files(vec!["y/b.mp3".to_owned()], vec![None]);
    app.set_output("x/a.taf");

    assert!(!app.add_to_batch());
    assert_eq!(
        app.panel_error(),
        "a: the output x/a.taf is stated by more than one conversion: they would write over each other"
    );
    // What was typed is still there to be mended.
    assert_eq!(app.file_count(), 1);
    app.set_output("y/b.taf");
    assert!(app.add_to_batch());
    assert_eq!(app.book_count(), 2);
}

#[test]
fn a_queue_does_not_move_under_a_running_batch() {
    let mut app = converting();
    assert!(app.converting());

    app.remove_row(0);
    app.clear_all();
    assert_eq!(app.reopenable(0), None);
    assert_eq!(app.book_count(), 1);
    assert!(app.convert().is_none());

    assert!(!app.is_cancelled());
    app.cancel();
    assert!(app.is_cancelled());
    app.apply(Event::BatchDone);
    assert!(!app.converting());
}

#[test]
fn the_book_being_edited_converts_with_the_rest() {
    let mut app = TaffleApp::new(false);
    queue(&mut app, "a.mp3", None);
    app.add_files(vec!["b.mp3".to_owned()], vec![None]);

    let jobs = app.convert().expect("two books to convert");
    assert_eq!(jobs.len(), 2);
    assert_eq!(jobs[1].inputs, ["b.mp3"]);
    assert_eq!(app.book_title(1), "b");
    assert_eq!(app.file_count(), 0);
}

#[test]
fn files_move_past_each_other() {
    let mut app = TaffleApp::new(false);
    app.add_files(
        vec!["a".to_owned(), "b".to_owned(), "c".to_owned()],
        vec![None, None, None],
    );
    app.move_file(0, 2);
    assert_eq!(app.file_at(0), "b");
    assert_eq!(app.file_at(2), "a");
    app.remove_file(1);
    assert_eq!(app.file_count(), 2);
    assert_eq!(app.file_at(7), "");
}

#[test]
fn what_is_typed_wrong_is_said_as_it_is_typed() {
    let mut app = TaffleApp::new(false);
    // A panel nobody has put a file in is no mistake.
    app.set_skip_leading("abc");
    assert_eq!(app.panel_error(), "");
    app.add_files(vec!["a.mp3".to_owned()], vec![None]);
    assert_eq!(
        app.panel_error(),
        "the skip leading time 'abc' is no duration"
    );
    app.set_skip_leading("");
    assert_eq!(app.panel_error(), "");
}

#[test]
fn the_self_test_goes_through_every_state_a_row_has() {
    let mut app = TaffleApp::new(true);
    app.smoke_drill("/tmp");

    assert!(app.smoke_mode());
    assert!(app.book_count() > 0);
}
