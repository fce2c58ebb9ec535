//! The batch as it runs: which book is converted next, what a book says while it is, and what is left
//! to tidy up when one of them does not make it.
//!
//! The threads and the channel between them are the caller's. What is decided here is what a worker
//! does next and what it says.

use crate::job::{chain, ConvertError, ConvertJob, JobError, JobOutcome, Progress};
use vstd::prelude::*;

verus! {

/// What the batch says while it runs; an index is the job's position in the batch.
#[derive(Debug)]
pub enum Event {
    /// The job has begun converting.
    Started {
        /// Which job.
        index: usize,
    },
    /// Audio has gone into the file, and a new second of it has begun.
    Progress {
        /// Which job.
        index: usize,
        /// How much audio has gone into the file, in frames of one channel at 48 kHz.
        samples_done: u64,
    },
    /// The job is over, one way or the other.
    Finished {
        /// Which job.
        index: usize,
        /// What it came to.
        result: Result<JobOutcome, BookFailure>,
    },
    /// Every job of the batch has been reported.
    BatchDone,
}

/// How a book did not make it.
#[derive(Debug)]
pub enum BookFailure {
    /// The run was cancelled before or during this book.
    Cancelled,
    /// What went wrong, every layer of it on one line.
    Failed(String),
}

/// How many books convert at once on a machine of `cores` cores, where it says how many it has: a
/// quarter of them, and two at the least.
pub fn concurrency_cap(cores: Option<usize>) -> (cap: usize)
    ensures
        cap == (match cores {
            Some(cores) => if cores / 4 > 2 {
                cores / 4
            } else {
                2
            },
            None => 2,
        }),
        cap >= 2,
        cores matches Some(cores) ==> (cores >= 8 ==> 4 * cap <= cores < 4 * cap + 4) && (cores < 12
            ==> cap == 2),
        cores is None ==> cap == 2,
{
    match cores {
        None => 2,
        Some(cores) => {
            if cores / 4 > 2 {
                cores / 4
            } else {
                2
            }
        },
    }
}

/// How many workers `jobs` jobs are given where `cap` of them run at once: no more than there are
/// jobs.
pub fn workers(cap: usize, jobs: usize) -> (workers: usize)
    ensures
        workers == (if cap < jobs {
            cap
        } else {
            jobs
        }),
        workers <= cap && workers <= jobs,
        workers == cap || workers == jobs,
{
    if cap < jobs {
        cap
    } else {
        jobs
    }
}

/// The jobs of a batch, handed out one by one.
pub struct Batch {
    next: usize,
    jobs: usize,
}

impl Batch {
    /// The job that is handed out next.
    pub closed spec fn next(&self) -> nat {
        self.next as nat
    }

    /// How many jobs there are.
    pub closed spec fn jobs(&self) -> nat {
        self.jobs as nat
    }

    /// A batch of `jobs` jobs, none of which has been handed out.
    pub fn new(jobs: usize) -> (batch: Self)
        ensures
            batch.next() == 0,
            batch.jobs() == jobs,
    {
        Batch { next: 0, jobs }
    }

    /// Hands out the next job, where there is one left. Every job is handed out once and in order, and
    /// nothing is once they all have been.
    pub fn take(&mut self) -> (job: Option<usize>)
        ensures
            final(self).jobs() == old(self).jobs(),
            old(self).next() < old(self).jobs() ==> job is Some && job->0 == old(self).next()
                && final(self).next() == old(self).next() + 1,
            old(self).next() >= old(self).jobs() ==> job is None && final(self).next() == old(
                self,
            ).next(),
    {
        if self.next < self.jobs {
            let job: usize = self.next;
            self.next += 1;
            Some(job)
        } else {
            None
        }
    }
}

/// What a job that was stopped is reported as.
pub open spec fn is_cancelled(event: Event, index: usize) -> bool {
    event matches Event::Finished { index: about, result: Err(BookFailure::Cancelled) } && about
        == index
}

/// A job being converted, and the second of it that was last reported.
pub struct Conversing {
    index: usize,
    reported: Option<u64>,
}

impl Conversing {
    /// The job.
    pub closed spec fn index(&self) -> usize {
        self.index
    }

    /// The second that was last reported.
    pub closed spec fn reported(&self) -> Option<u64> {
        self.reported
    }

    /// Begins the job `index` and says so, or says that it was stopped where `cancelled`, in front of
    /// which it is never begun.
    pub fn begin(index: usize, cancelled: bool) -> (begun: (Option<Self>, Event))
        ensures
            cancelled ==> begun.0 is None && is_cancelled(begun.1, index),
            !cancelled ==> begun.0 is Some && begun.0->0.index() == index && begun.0->0.reported()
                is None && begun.1 == (Event::Started { index }),
    {
        if cancelled {
            (None, Event::Finished { index, result: Err(BookFailure::Cancelled) })
        } else {
            (Some(Conversing { index, reported: None }), Event::Started { index })
        }
    }

    /// What there is to say about `report`: how much audio is in, where another second of it has
    /// begun than was last reported. And whether the conversion goes on, which it does until it is
    /// `cancelled`.
    pub fn hear(&mut self, report: Progress, cancelled: bool) -> (heard: (Option<Event>, bool))
        ensures
            final(self).index() == old(self).index(),
            match report {
                Progress::Encoded { samples_done } => {
                    let second = samples_done / 48_000;
                    &&& old(self).reported() == Some(second) ==> heard.0 is None
                    &&& old(self).reported() != Some(second) ==> heard.0 == Some(
                        Event::Progress { index: old(self).index(), samples_done },
                    )
                    &&& final(self).reported() == Some(second)
                },
                _ => heard.0 is None && final(self).reported() == old(self).reported(),
            },
            heard.1 == !cancelled,
            report matches Progress::Encoded { samples_done } ==> {
                let second = final(self).reported()->0;
                &&& final(self).reported() is Some
                &&& second * 48_000 <= samples_done < second * 48_000 + 48_000
                &&& heard.0 is Some <==> (old(self).reported() matches Some(reported) ==> samples_done
                    < reported * 48_000 || samples_done >= reported * 48_000 + 48_000)
            },
            heard.0 is Some ==> report is Encoded,
    {
        (self.progress(report), !cancelled)
    }

    /// What there is to say about `report`.
    fn progress(&mut self, report: Progress) -> (event: Option<Event>)
        ensures
            final(self).index() == old(self).index(),
            match report {
                Progress::Encoded { samples_done } => {
                    let second = samples_done / 48_000;
                    &&& old(self).reported() == Some(second) ==> event is None
                    &&& old(self).reported() != Some(second) ==> event == Some(
                        Event::Progress { index: old(self).index(), samples_done },
                    )
                    &&& final(self).reported() == Some(second)
                },
                _ => event is None && final(self).reported() == old(self).reported(),
            },
    {
        match report {
            Progress::Encoded { samples_done } => {
                let second: u64 = samples_done / 48_000;
                let stale: bool = match self.reported {
                    Some(reported) => reported == second,
                    None => false,
                };
                if stale {
                    return None;
                }
                self.reported = Some(second);
                Some(Event::Progress { index: self.index, samples_done })
            },
            _ => None,
        }
    }

    /// What there is to say about what the conversion of `job` came to, and the file that is to be
    /// removed before it is said: what a conversion that did not make it had half written.
    pub fn end(self, job: &ConvertJob, outcome: Result<JobOutcome, JobError>) -> (ended: (
        Option<String>,
        Event,
    ))
        ensures
            ended.1 matches Event::Finished { index, result } && index == self.index() && (match (
                outcome,
                result,
            ) {
                (Ok(made), Ok(said)) => made == said,
                (Err(error), Err(failure)) => is_classified(error, failure),
                _ => false,
            }),
            outcome is Ok ==> ended.0 is None,
            outcome is Err ==> crate::job::text_of(ended.0) == job@.output,
    {
        match outcome {
            Ok(made) => (None, Event::Finished { index: self.index, result: Ok(made) }),
            Err(error) => {
                let left: Option<String> = match &job.output {
                    Some(output) => Some(output.clone()),
                    None => None,
                };
                (left, Event::Finished { index: self.index, result: Err(classify(&error)) })
            },
        }
    }
}

/// Whether `failure` is what a row shows for `error`: being stopped is told apart, and everything else
/// is said with every layer of it on one line.
pub open spec fn is_classified(error: JobError, failure: BookFailure) -> bool {
    match error {
        JobError::Convert(ConvertError::Cancelled) => failure is Cancelled,
        _ => failure matches BookFailure::Failed(line) && line@ == crate::job::on_one_line(
            error.layers(),
        ),
    }
}

/// What a row shows for a job that did not make it.
pub fn classify(error: &JobError) -> (failure: BookFailure)
    ensures
        is_classified(*error, failure),
        failure is Cancelled <==> (*error matches JobError::Convert(ConvertError::Cancelled)),
        failure matches BookFailure::Failed(line) ==> line@ == crate::job::on_one_line(error.layers()),
{
    match error {
        JobError::Convert(ConvertError::Cancelled) => BookFailure::Cancelled,
        _ => BookFailure::Failed(chain(&error.messages())),
    }
}

} // verus!
