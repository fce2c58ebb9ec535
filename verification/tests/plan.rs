use taffle::job::{ChapterMode, Conversion, MAX_CHAPTERS};
use taffle::plan::{capture, chapter_warning, derived_output, CaptureError, Panel};

/// A panel holding `files` and nothing typed into any of its fields.
fn panel(files: &[&str]) -> Panel {
    Panel {
        files: files.iter().map(|path| path.to_string()).collect(),
        ..Panel::default()
    }
}

#[test]
fn an_empty_panel_with_files_is_the_engine_defaults() {
    let plan = capture(&panel(&["a/01.mp3", "a/02.mp3"])).expect("a plan");
    assert_eq!(plan.title, "01");
    assert_eq!(plan.job.inputs, ["a/01.mp3", "a/02.mp3"]);
    assert_eq!(plan.job.options, Conversion::default());
    assert!(plan.job.write_cover);
    assert_eq!(plan.job.output.as_deref(), Some("a/01.taf"));
}

#[test]
fn every_typed_field_lands_in_the_job() {
    let mut p = panel(&["b.m4b"]);
    p.output_text = "out/b.taf".into();
    p.chapters_text = "0:00,12:34".into();
    p.skip_leading_text = "4.4".into();
    p.trim_leading = true;
    p.add_pause_each_text = "1".into();
    p.extract_cover = false;
    let plan = capture(&p).expect("a plan");
    assert_eq!(plan.job.output.as_deref(), Some("out/b.taf"));
    assert_eq!(
        plan.job.options.chapter_mode,
        ChapterMode::Explicit(vec![0, 754 * 48_000])
    );
    assert_eq!(plan.job.options.silence.skip_leading, 211_200);
    assert!(plan.job.options.silence.trim_leading);
    assert_eq!(plan.job.options.silence.add_pause_each_chapter, 48_000);
    assert!(!plan.job.write_cover);
    // What was typed is kept beside what it was read as, so opening the book again shows the
    // times rather than the frames they came to.
    assert_eq!(plan.panel, p);
}

#[test]
fn what_is_no_duration_names_its_field() {
    let mut p = panel(&["b.m4b"]);
    p.skip_leading_text = "abc".into();
    let error = capture(&p).expect_err("no duration");
    assert!(matches!(
        error,
        CaptureError::BadDuration {
            field: "skip leading",
            ..
        }
    ));
    assert_eq!(
        error.message(),
        "the skip leading time 'abc' is no duration"
    );
}

#[test]
fn a_chapter_that_is_no_time_is_named_as_it_was_typed() {
    let mut p = panel(&["b.m4b"]);
    p.chapters_text = "0:00,twelve".into();
    let error = capture(&p).expect_err("no chapter list");
    assert_eq!(
        error.message(),
        "the chapter list holds 'twelve', which is no duration"
    );
}

#[test]
fn no_files_is_no_plan() {
    assert!(matches!(capture(&panel(&[])), Err(CaptureError::NoFiles)));
}

#[test]
fn a_fresh_panel_extracts_the_cover() {
    // The command line writes the cover unless --no-cover says otherwise, and a panel starts
    // where the command line does — including every panel reset back to this one.
    assert!(Panel::default().extract_cover);
}

#[test]
fn a_plan_longer_than_a_box_plays_says_so_the_way_the_command_line_does() {
    let marks = |count: u64| ChapterMode::Explicit((0..count).map(|at| at * 48_000).collect());

    // A plan nobody typed is the conversion's own, and there is nothing to count in front of
    // it; a plan that fits has nothing to say either.
    assert_eq!(chapter_warning(&ChapterMode::Auto), None);
    assert_eq!(chapter_warning(&marks(MAX_CHAPTERS as u64)), None);
    assert_eq!(
        chapter_warning(&marks(MAX_CHAPTERS as u64 + 1)).as_deref(),
        Some("100 chapters is more than the 99 a Toniebox plays")
    );
}

#[test]
fn a_panel_shows_where_its_book_will_land_while_nothing_else_is_typed() {
    assert_eq!(derived_output(&panel(&[])), None);
    assert_eq!(
        derived_output(&panel(&["a/01.mp3", "b/02.mp3"])).as_deref(),
        Some("a/01.taf")
    );
}

#[test]
fn every_duration_field_is_named_by_what_the_panel_calls_it() {
    let mut p = panel(&["b.m4b"]);
    p.add_pause_leading_text = "x".into();
    assert_eq!(
        capture(&p).expect_err("no duration").message(),
        "the add pause leading time 'x' is no duration"
    );
    let mut p = panel(&["b.m4b"]);
    p.add_pause_each_text = "1:60".into();
    assert_eq!(
        capture(&p).expect_err("no duration").message(),
        "the add pause each chapter time '1:60' is no duration"
    );
}
