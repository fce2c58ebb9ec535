use taffle::duration::Duration;
use taffle::id::AudioId;
use taffle::job::{
    Conversion, ConversionReport, ConvertError, ConvertJob, JobError, JobOutcome, Progress,
};
use taffle::worker::{
    classify, concurrency_cap, workers, Batch, BookFailure, Conversing, Event,
};

/// A job naming `input` and `output` — resolved output, engine defaults, no cover.
fn job(input: &str, output: &str) -> ConvertJob {
    ConvertJob {
        inputs: vec![input.into()],
        output: Some(output.into()),
        options: Conversion::default(),
        write_cover: false,
    }
}

/// The outcome of a job that "converted": every field is public, none read from a disk.
fn ok_outcome(job: &ConvertJob) -> JobOutcome {
    JobOutcome {
        taf_path: job.output.clone().expect("resolved output"),
        cover_path: None,
        cover_error: None,
        report: ConversionReport {
            chapters: vec![],
            duration: Duration::from_secs(0),
            cover: None,
            audio_id: AudioId::new(1),
        },
    }
}

#[test]
fn a_batch_is_parallel_on_any_machine() {
    // A single core, and a machine that will not say how many it has, still convert two books
    // at once: the floor is what makes a batch a batch rather than a queue.
    assert!(concurrency_cap(Some(1)) >= 2, "{} at once", concurrency_cap(Some(1)));
    assert!(concurrency_cap(None) >= 2, "{} at once", concurrency_cap(None));
    assert_eq!(concurrency_cap(Some(16)), 4);
}

#[test]
fn no_more_than_cap_run_at_once_and_every_job_finishes() {
    let jobs: Vec<ConvertJob> = (0..6)
        .map(|at| job(&format!("in{at}.mp3"), &format!("out{at}.taf")))
        .collect();
    let mut batch = Batch::new(jobs.len());
    let mut events = Vec::new();

    assert_eq!(workers(2, jobs.len()), 2);
    assert_eq!(workers(8, jobs.len()), 6);

    while let Some(at) = batch.take() {
        let (begun, event) = Conversing::begin(at, false);
        events.push(event);
        let (removed, event) = begun
            .expect("a job nobody stopped begins")
            .end(&jobs[at], Ok(ok_outcome(&jobs[at])));
        assert_eq!(removed, None);
        events.push(event);
    }

    let all = (0..6).collect::<Vec<_>>();
    let started: Vec<usize> = events
        .iter()
        .filter_map(|event| match event {
            Event::Started { index } => Some(*index),
            _ => None,
        })
        .collect();
    let finished: Vec<usize> = events
        .iter()
        .filter_map(|event| match event {
            Event::Finished { index, result } => {
                assert!(result.is_ok());
                Some(*index)
            }
            _ => None,
        })
        .collect();
    assert_eq!(started, all, "every job says which one of them started");
    assert_eq!(finished, all);
    assert_eq!(batch.take(), None);
}

#[test]
fn progress_is_forwarded_on_whole_second_changes_only() {
    let (begun, _) = Conversing::begin(0, false);
    let mut running = begun.expect("a job nobody stopped begins");
    let mut seen = Vec::new();

    for samples_done in [100, 47_999, 48_000, 48_500, 96_000] {
        let (event, goes_on) = running.hear(Progress::Encoded { samples_done }, false);
        assert!(goes_on);
        if let Some(Event::Progress {
            index,
            samples_done,
        }) = event
        {
            // What is said is said about the job it happened to, so the bar it moves is
            // that job's row and no other.
            assert_eq!(index, 0, "the one job of this batch");
            seen.push(samples_done);
        }
    }

    // Second 0 is shown once, the way the CLI's own line shows it, then only whole-second
    // changes pass.
    assert_eq!(seen, [100, 48_000, 96_000]);
}

#[test]
fn cancel_stops_the_running_and_the_waiting() {
    let jobs = [job("a.mp3", "/x/a.taf"), job("b.mp3", "/x/b.taf")];
    let mut cancelled = Vec::new();

    let (begun, _) = Conversing::begin(0, false);
    let mut running = begun.expect("a job nobody stopped begins");
    // The next report finds the flag raised and is told to stop, the way a real
    // conversion is between chunks.
    let (event, goes_on) = running.hear(Progress::Finalizing, true);
    assert!(event.is_none());
    assert!(!goes_on);
    let (removed, event) = running.end(&jobs[0], Err(JobError::Convert(ConvertError::Cancelled)));
    assert_eq!(removed.as_deref(), Some("/x/a.taf"));
    if let Event::Finished {
        index,
        result: Err(BookFailure::Cancelled),
    } = event
    {
        cancelled.push(index);
    }

    let (begun, event) = Conversing::begin(1, true);
    assert!(begun.is_none(), "the waiting job must never start");
    if let Event::Finished {
        index,
        result: Err(BookFailure::Cancelled),
    } = event
    {
        cancelled.push(index);
    }

    assert_eq!(cancelled, [0, 1]);
}

#[test]
fn the_partial_file_of_a_failed_job_is_removed() {
    let job = job("a.mp3", "/x/book.taf");
    let (begun, _) = Conversing::begin(0, false);
    let (removed, event) = begun.expect("a job nobody stopped begins").end(
        &job,
        Err(JobError::Convert(ConvertError::Failed(vec![
            "boom".to_owned()
        ]))),
    );

    assert_eq!(
        removed.as_deref(),
        Some("/x/book.taf"),
        "the unfinished file must not stay behind"
    );
    assert!(
        matches!(event,
            Event::Finished { result: Err(BookFailure::Failed(message)), .. }
                if message.contains("boom")),
        "the rendered chain must reach the row"
    );
}

#[test]
fn what_a_row_shows_is_every_layer_of_a_failure() {
    let error = JobError::OpenInput {
        path: "a.mp3".to_owned(),
        source: "no such file or directory".to_owned(),
    };

    assert!(matches!(
        classify(&error),
        BookFailure::Failed(line) if line == "cannot open input a.mp3: no such file or directory"
    ));
}
