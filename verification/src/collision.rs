//! The two ways a set of conversions would write over audio somebody wanted kept: a job writing into a
//! file that is read, and two jobs writing into one file.

use crate::job::{ConvertJob, Job};
use vstd::prelude::*;
use vstd::string::StringExecFns;

verus! {

/// Why a set of jobs cannot all run.
#[derive(Debug)]
#[non_exhaustive]
pub enum CollisionError {
    /// A job would write into a file that is read.
    OutputIsInput {
        /// The file that is both read and written, as it was named.
        output: String,
    },
    /// Two jobs would write the same file.
    DuplicateOutput {
        /// The file more than one job would write, as it was named or derived.
        output: String,
    },
}

impl CollisionError {
    /// The file it is about, as it was named or derived.
    pub fn output(&self) -> (output: String)
        ensures
            output@ == self@.about(),
    {
        match self {
            CollisionError::OutputIsInput { output } => output.clone(),
            CollisionError::DuplicateOutput { output } => output.clone(),
        }
    }

    /// What went wrong, in words.
    pub fn message(&self) -> (text: String)
        ensures
            text@ == self@.said(),
    {
        let mut text: String = String::from_str("the output ");
        match self {
            CollisionError::OutputIsInput { output } => {
                text.append(output.as_str());
                text.append(
                    " is one of the inputs: converting it would write over the audio being read",
                );
            },
            CollisionError::DuplicateOutput { output } => {
                text.append(output.as_str());
                text.append(
                    " is stated by more than one conversion: they would write over each other",
                );
            },
        }
        text
    }
}

/// What `jobs` state.
pub open spec fn stated(jobs: Seq<ConvertJob>) -> Seq<Job> {
    jobs.map_values(|job: ConvertJob| job@)
}

/// Where `jobs` write, in order. A job of no inputs that states no output writes nowhere.
pub open spec fn outputs(jobs: Seq<Job>) -> Seq<Seq<char>>
    decreases jobs.len(),
{
    if jobs.len() == 0 {
        Seq::empty()
    } else {
        match jobs.last().resolved() {
            Some(output) => outputs(jobs.drop_last()).push(output),
            None => outputs(jobs.drop_last()),
        }
    }
}

/// Whether any of `jobs` reads `path`.
pub open spec fn is_read(jobs: Seq<Job>, path: Seq<char>) -> bool {
    exists|i: int| 0 <= i < jobs.len() && #[trigger] jobs[i].inputs.contains(path)
}

/// The first of `outputs` from `at` on that one of `jobs` reads.
pub open spec fn first_read(jobs: Seq<Job>, outputs: Seq<Seq<char>>, at: int) -> Option<Seq<char>>
    decreases outputs.len() - at,
{
    if at >= outputs.len() {
        None
    } else if is_read(jobs, outputs[at]) {
        Some(outputs[at])
    } else {
        first_read(jobs, outputs, at + 1)
    }
}

/// The first of `outputs` from `at` on that is one of those in front of it.
pub open spec fn first_repeat(outputs: Seq<Seq<char>>, at: int) -> Option<Seq<char>>
    decreases outputs.len() - at,
{
    if at >= outputs.len() {
        None
    } else if outputs.take(at).contains(outputs[at]) {
        Some(outputs[at])
    } else {
        first_repeat(outputs, at + 1)
    }
}

/// What is wrong with a set of jobs.
#[verifier::ext_equal]
pub enum Collision {
    /// This file is both read and written.
    Read(Seq<char>),
    /// This file is written more than once.
    Twice(Seq<char>),
}

impl Collision {
    /// The file it is about.
    pub open spec fn about(self) -> Seq<char> {
        match self {
            Collision::Read(path) => path,
            Collision::Twice(path) => path,
        }
    }

    /// What there is to say about it.
    pub open spec fn said(self) -> Seq<char> {
        match self {
            Collision::Read(path) => "the output "@ + path
                + " is one of the inputs: converting it would write over the audio being read"@,
            Collision::Twice(path) => "the output "@ + path
                + " is stated by more than one conversion: they would write over each other"@,
        }
    }
}

/// What is wrong with `jobs`: an output that is read comes before one that is written twice, and
/// either of them as the first there is.
pub open spec fn collision(jobs: Seq<Job>) -> Option<Collision> {
    let written = outputs(jobs);
    match (first_read(jobs, written, 0), first_repeat(written, 0)) {
        (Some(path), _) => Some(Collision::Read(path)),
        (None, Some(path)) => Some(Collision::Twice(path)),
        (None, None) => None,
    }
}

impl View for CollisionError {
    type V = Collision;

    open spec fn view(&self) -> Collision {
        match self {
            CollisionError::OutputIsInput { output } => Collision::Read(output@),
            CollisionError::DuplicateOutput { output } => Collision::Twice(output@),
        }
    }
}

/// Refuses jobs that would write over what is read, or over each other. Paths are compared as they
/// were typed: two names for one file are two names here.
pub fn refuse_collisions(jobs: &[ConvertJob]) -> (result: Result<(), CollisionError>)
    ensures
        match result {
            Ok(()) => collision(stated(jobs@)) is None,
            Err(error) => collision(stated(jobs@)) == Some(error@),
        },
        result is Ok <==> run_together(stated(jobs@)),
{
    proof {
        lemma_what_runs_together(stated(jobs@));
    }
    let ghost all = stated(jobs@);
    let written: Vec<String> = resolved(jobs);
    let ghost paths = crate::job::texts(written@);
    let mut at: usize = 0;
    while at < written.len()
        invariant
            at <= written@.len(),
            all == stated(jobs@),
            collision(all) is None <==> run_together(all),
            paths == crate::job::texts(written@),
            paths == outputs(all),
            first_read(all, paths, 0) == first_read(all, paths, at as int),
        decreases written@.len() - at,
    {
        assert(paths[at as int] == written@[at as int]@);
        if reads(jobs, &written[at]) {
            return Err(CollisionError::OutputIsInput { output: written[at].clone() });
        }
        at += 1;
    }
    let mut at: usize = 0;
    while at < written.len()
        invariant
            at <= written@.len(),
            all == stated(jobs@),
            collision(all) is None <==> run_together(all),
            paths == crate::job::texts(written@),
            paths == outputs(all),
            first_read(all, paths, 0) is None,
            first_repeat(paths, 0) == first_repeat(paths, at as int),
        decreases written@.len() - at,
    {
        assert(paths[at as int] == written@[at as int]@);
        if holds(&written, at, &written[at]) {
            return Err(CollisionError::DuplicateOutput { output: written[at].clone() });
        }
        at += 1;
    }
    Ok(())
}

/// Where `jobs` write, in order.
fn resolved(jobs: &[ConvertJob]) -> (written: Vec<String>)
    ensures
        crate::job::texts(written@) == outputs(stated(jobs@)),
{
    let ghost all = stated(jobs@);
    let mut written: Vec<String> = Vec::new();
    let mut at: usize = 0;
    assert(crate::job::texts(written@) =~= outputs(all.take(0)));
    while at < jobs.len()
        invariant
            at <= jobs@.len(),
            all == stated(jobs@),
            crate::job::texts(written@) == outputs(all.take(at as int)),
        decreases jobs@.len() - at,
    {
        assert(all.take(at + 1).drop_last() =~= all.take(at as int));
        assert(all[at as int] == jobs@[at as int]@);
        if let Some(output) = jobs[at].resolved_output() {
            let ghost before = written@;
            written.push(output);
            assert(crate::job::texts(written@) =~= crate::job::texts(before).push(output@));
        }
        at += 1;
    }
    assert(all.take(at as int) =~= all);
    written
}

/// Whether any of `jobs` reads `path`.
fn reads(jobs: &[ConvertJob], path: &String) -> (are: bool)
    ensures
        are == is_read(stated(jobs@), path@),
{
    let ghost all = stated(jobs@);
    let mut at: usize = 0;
    while at < jobs.len()
        invariant
            at <= jobs@.len(),
            all == stated(jobs@),
            forall|i: int| 0 <= i < at ==> !#[trigger] all[i].inputs.contains(path@),
        decreases jobs@.len() - at,
    {
        assert(all[at as int] == jobs@[at as int]@);
        let len: usize = jobs[at].inputs.len();
        if holds(&jobs[at].inputs, len, path) {
            assert(jobs@[at as int].inputs@.take(len as int) =~= jobs@[at as int].inputs@);
            assert(all[at as int].inputs.contains(path@));
            return true;
        }
        assert(jobs@[at as int].inputs@.take(len as int) =~= jobs@[at as int].inputs@);
        at += 1;
    }
    false
}

/// Whether the first `count` of `paths` hold `path`.
fn holds(paths: &Vec<String>, count: usize, path: &String) -> (are: bool)
    requires
        count <= paths@.len(),
    ensures
        are == crate::job::texts(paths@.take(count as int)).contains(path@),
        are == crate::job::texts(paths@).take(count as int).contains(path@),
{
    let ghost front = crate::job::texts(paths@).take(count as int);
    assert(crate::job::texts(paths@.take(count as int)) =~= front);
    let mut at: usize = 0;
    while at < count
        invariant
            at <= count <= paths@.len(),
            front == crate::job::texts(paths@).take(count as int),
            front == crate::job::texts(paths@.take(count as int)),
            forall|i: int| 0 <= i < at ==> front[i] != path@,
        decreases count - at,
    {
        assert(front[at as int] == paths@[at as int]@);
        if paths[at] == *path {
            return true;
        }
        at += 1;
    }
    false
}

/// Whether `jobs` can all run: no two of them write one file, whichever two they are, and none writes a
/// file that any of them reads.
pub open spec fn run_together(jobs: Seq<Job>) -> bool {
    &&& forall|i: int, j: int|
        0 <= i < j < jobs.len() && #[trigger] jobs[i].resolved() is Some ==> #[trigger] jobs[j].resolved()
            != jobs[i].resolved()
    &&& forall|i: int, j: int|
        0 <= i < jobs.len() && 0 <= j < jobs.len() && #[trigger] jobs[i].resolved() is Some
            ==> !(#[trigger] jobs[j].inputs).contains(jobs[i].resolved()->0)
}

proof fn lemma_outputs_hold(jobs: Seq<Job>, path: Seq<char>)
    ensures
        outputs(jobs).contains(path) <==> exists|i: int|
            0 <= i < jobs.len() && #[trigger] jobs[i].resolved() == Some(path),
    decreases jobs.len(),
{
    if jobs.len() > 0 {
        let less = jobs.drop_last();
        lemma_outputs_hold(less, path);
        let all = outputs(jobs);
        let front = outputs(less);
        if all.contains(path) {
            let at = choose|at: int| 0 <= at < all.len() && all[at] == path;
            if at < front.len() {
                assert(front.contains(front[at]));
                let i = choose|i: int|
                    0 <= i < less.len() && #[trigger] less[i].resolved() == Some(path);
                assert(jobs[i].resolved() == Some(path));
            } else {
                assert(jobs[jobs.len() - 1].resolved() == Some(path));
            }
        }
        if exists|i: int| 0 <= i < jobs.len() && #[trigger] jobs[i].resolved() == Some(path) {
            let i = choose|i: int|
                0 <= i < jobs.len() && #[trigger] jobs[i].resolved() == Some(path);
            if i < less.len() {
                assert(less[i].resolved() == Some(path));
                let at = choose|at: int| 0 <= at < front.len() && front[at] == path;
                assert(all[at] == path);
            } else {
                assert(all[all.len() - 1] == path);
            }
        }
    }
}

proof fn lemma_outputs_differ(jobs: Seq<Job>)
    ensures
        outputs(jobs).no_duplicates() <==> forall|i: int, j: int|
            0 <= i < j < jobs.len() && #[trigger] jobs[i].resolved() is Some
                ==> #[trigger] jobs[j].resolved() != jobs[i].resolved(),
    decreases jobs.len(),
{
    if jobs.len() > 0 {
        let less = jobs.drop_last();
        let last = jobs.last();
        let all = outputs(jobs);
        let front = outputs(less);
        lemma_outputs_differ(less);
        if last.resolved() is Some {
            lemma_outputs_hold(less, last.resolved()->0);
        }
        if all.no_duplicates() {
            assert forall|a: int, b: int| 0 <= a < front.len() && 0 <= b < front.len() && a != b implies front[a]
                != front[b] by {
                assert(all[a] == front[a] && all[b] == front[b]);
            }
            assert forall|i: int, j: int|
                0 <= i < j < jobs.len() && #[trigger] jobs[i].resolved() is Some implies #[trigger] jobs[j].resolved()
                != jobs[i].resolved() by {
                assert(less[i] == jobs[i]);
                if j < less.len() {
                    assert(less[j].resolved() != less[i].resolved());
                } else if jobs[j].resolved() == jobs[i].resolved() {
                    assert(less[i].resolved() == Some(last.resolved()->0));
                    let at = choose|at: int|
                        0 <= at < front.len() && front[at] == last.resolved()->0;
                    assert(all[at] == all[all.len() - 1]);
                }
            }
        }
        if forall|i: int, j: int|
            0 <= i < j < jobs.len() && #[trigger] jobs[i].resolved() is Some
                ==> #[trigger] jobs[j].resolved() != jobs[i].resolved() {
            assert forall|i: int, j: int|
                0 <= i < j < less.len() && #[trigger] less[i].resolved() is Some implies #[trigger] less[j].resolved()
                != less[i].resolved() by {
                assert(jobs[j].resolved() != jobs[i].resolved());
            }
            assert forall|a: int, b: int| 0 <= a < all.len() && 0 <= b < all.len() && a != b implies all[a]
                != all[b] by {
                if a < front.len() && b < front.len() {
                    assert(front[a] != front[b]);
                } else if all[a] == all[b] {
                    let path = last.resolved()->0;
                    assert(front.contains(path)) by {
                        if a < front.len() {
                            assert(front[a] == path);
                        } else {
                            assert(front[b] == path);
                        }
                    }
                    let i = choose|i: int|
                        0 <= i < less.len() && #[trigger] less[i].resolved() == Some(path);
                    assert(jobs[jobs.len() - 1].resolved() != jobs[i].resolved());
                }
            }
        }
    }
}

proof fn lemma_no_repeat(outputs: Seq<Seq<char>>, at: int)
    requires
        0 <= at <= outputs.len(),
    ensures
        first_repeat(outputs, at) is None <==> forall|i: int, j: int|
            0 <= i < j < outputs.len() && at <= j ==> outputs[i] != outputs[j],
        first_repeat(outputs, at) matches Some(path) ==> exists|i: int, j: int|
            0 <= i < j < outputs.len() && #[trigger] outputs[i] == path && #[trigger] outputs[j] == path,
    decreases outputs.len() - at,
{
    if at < outputs.len() {
        lemma_no_repeat(outputs, at + 1);
        let front = outputs.take(at);
        if front.contains(outputs[at]) {
            let i = choose|i: int| 0 <= i < front.len() && front[i] == outputs[at];
            assert(outputs[i] == outputs[at]);
        } else {
            assert forall|i: int| 0 <= i < at implies outputs[i] != outputs[at] by {
                assert(front[i] == outputs[i]);
            }
        }
    }
}

proof fn lemma_none_read(jobs: Seq<Job>, outputs: Seq<Seq<char>>, at: int)
    requires
        0 <= at <= outputs.len(),
    ensures
        first_read(jobs, outputs, at) is None <==> forall|i: int|
            at <= i < outputs.len() ==> !is_read(jobs, #[trigger] outputs[i]),
        first_read(jobs, outputs, at) matches Some(path) ==> outputs.contains(path) && is_read(
            jobs,
            path,
        ),
    decreases outputs.len() - at,
{
    if at < outputs.len() {
        lemma_none_read(jobs, outputs, at + 1);
    }
}

/// Jobs are refused exactly where they cannot all run, and what is named is what is wrong: a file that
/// one of them writes and one of them reads, or, where there is none, one that two of them write.
pub proof fn lemma_what_runs_together(jobs: Seq<Job>)
    ensures
        collision(jobs) is None <==> run_together(jobs),
        collision(jobs) is None ==> forall|i: int, j: int|
            0 <= i < jobs.len() && 0 <= j < jobs.len() && #[trigger] jobs[i].resolved() is Some
                ==> !(#[trigger] jobs[j].inputs).contains(jobs[i].resolved()->0),
        collision(jobs) is None ==> forall|i: int, j: int|
            0 <= i < j < jobs.len() && #[trigger] jobs[i].resolved() is Some
                ==> #[trigger] jobs[j].resolved() != jobs[i].resolved(),
        collision(jobs) matches Some(Collision::Read(path)) ==> exists|i: int, j: int|
            0 <= i < jobs.len() && 0 <= j < jobs.len() && #[trigger] jobs[i].resolved() == Some(path)
                && (#[trigger] jobs[j].inputs).contains(path),
        collision(jobs) matches Some(Collision::Twice(path)) ==> {
            &&& exists|i: int, j: int|
                0 <= i < j < jobs.len() && #[trigger] jobs[i].resolved() == Some(path)
                    && #[trigger] jobs[j].resolved() == Some(path)
            &&& forall|i: int, j: int|
                0 <= i < jobs.len() && 0 <= j < jobs.len() && #[trigger] jobs[i].resolved() is Some
                    ==> !(#[trigger] jobs[j].inputs).contains(jobs[i].resolved()->0)
        },
{
    let written = outputs(jobs);
    lemma_outputs_differ(jobs);
    lemma_no_repeat(written, 0);
    lemma_none_read(jobs, written, 0);
    if first_read(jobs, written, 0) is None {
        assert forall|i: int, j: int|
            0 <= i < jobs.len() && 0 <= j < jobs.len() && #[trigger] jobs[i].resolved() is Some implies !(
        #[trigger] jobs[j].inputs).contains(jobs[i].resolved()->0) by {
            let path = jobs[i].resolved()->0;
            lemma_outputs_hold(jobs, path);
            let at = choose|at: int| 0 <= at < written.len() && written[at] == path;
            assert(!is_read(jobs, written[at]));
        }
        if first_repeat(written, 0) is None {
            assert(written.no_duplicates());
        } else {
            let path = first_repeat(written, 0)->0;
            let (a, b) = choose|a: int, b: int|
                0 <= a < b < written.len() && #[trigger] written[a] == path && #[trigger] written[b]
                    == path;
            assert(!written.no_duplicates());
            lemma_written_twice(jobs, path, a, b);
        }
    } else {
        let path = first_read(jobs, written, 0)->0;
        lemma_outputs_hold(jobs, path);
        let i = choose|i: int| 0 <= i < jobs.len() && #[trigger] jobs[i].resolved() == Some(path);
        let j = choose|j: int| 0 <= j < jobs.len() && #[trigger] jobs[j].inputs.contains(path);
        assert(jobs[i].resolved() is Some && jobs[j].inputs.contains(jobs[i].resolved()->0));
    }
}

proof fn lemma_written_twice(jobs: Seq<Job>, path: Seq<char>, a: int, b: int)
    requires
        0 <= a < b < outputs(jobs).len(),
        outputs(jobs)[a] == path,
        outputs(jobs)[b] == path,
    ensures
        exists|i: int, j: int|
            0 <= i < j < jobs.len() && #[trigger] jobs[i].resolved() == Some(path)
                && #[trigger] jobs[j].resolved() == Some(path),
    decreases jobs.len(),
{
    let less = jobs.drop_last();
    let front = outputs(less);
    if b < front.len() {
        lemma_written_twice(less, path, a, b);
        let (i, j) = choose|i: int, j: int|
            0 <= i < j < less.len() && #[trigger] less[i].resolved() == Some(path)
                && #[trigger] less[j].resolved() == Some(path);
        assert(jobs[i].resolved() == Some(path) && jobs[j].resolved() == Some(path));
    } else {
        assert(front.contains(front[a]));
        lemma_outputs_hold(less, path);
        let i = choose|i: int| 0 <= i < less.len() && #[trigger] less[i].resolved() == Some(path);
        assert(jobs[i].resolved() == Some(path) && jobs[jobs.len() - 1].resolved() == Some(path));
    }
}

/// The first of `outputs` from `at` on that is read is one that is, and none in front of it is.
proof fn lemma_first_read(jobs: Seq<Job>, outputs: Seq<Seq<char>>, at: int) -> (found: int)
    requires
        0 <= at <= outputs.len(),
        first_read(jobs, outputs, at) is Some,
    ensures
        at <= found < outputs.len(),
        first_read(jobs, outputs, at) == Some(outputs[found]),
        is_read(jobs, outputs[found]),
        forall|i: int| at <= i < found ==> !is_read(jobs, #[trigger] outputs[i]),
    decreases outputs.len() - at,
{
    if is_read(jobs, outputs[at]) {
        at
    } else {
        lemma_first_read(jobs, outputs, at + 1)
    }
}

/// The first of `outputs` from `at` on that is one of those in front of it is one, and none in front of it
/// is.
proof fn lemma_first_repeat(outputs: Seq<Seq<char>>, at: int) -> (found: int)
    requires
        0 <= at <= outputs.len(),
        first_repeat(outputs, at) is Some,
    ensures
        at <= found < outputs.len(),
        first_repeat(outputs, at) == Some(outputs[found]),
        outputs.take(found).contains(outputs[found]),
        forall|i: int| at <= i < found ==> !(#[trigger] outputs.take(i)).contains(outputs[i]),
    decreases outputs.len() - at,
{
    if outputs.take(at).contains(outputs[at]) {
        at
    } else {
        lemma_first_repeat(outputs, at + 1)
    }
}

/// What a job writes is behind what the jobs in front of it write.
proof fn lemma_place_of(jobs: Seq<Job>, at: int)
    requires
        0 <= at < jobs.len(),
        jobs[at].resolved() is Some,
    ensures
        outputs(jobs.take(at)).len() < outputs(jobs).len(),
        outputs(jobs)[outputs(jobs.take(at)).len() as int] == jobs[at].resolved()->0,
    decreases jobs.len(),
{
    let less = jobs.drop_last();
    if at < less.len() {
        lemma_place_of(less, at);
        assert(less.take(at) =~= jobs.take(at));
    } else {
        assert(jobs.take(at) =~= less);
    }
}

/// Every output is one of a job, behind what the jobs in front of that write.
proof fn lemma_job_of(jobs: Seq<Job>, place: int) -> (at: int)
    requires
        0 <= place < outputs(jobs).len(),
    ensures
        0 <= at < jobs.len(),
        jobs[at].resolved() == Some(outputs(jobs)[place]),
        outputs(jobs.take(at)).len() == place,
    decreases jobs.len(),
{
    let less = jobs.drop_last();
    if place < outputs(less).len() {
        let at = lemma_job_of(less, place);
        assert(less.take(at) =~= jobs.take(at));
        at
    } else {
        assert(jobs.take(jobs.len() - 1) =~= less);
        jobs.len() - 1
    }
}

proof fn lemma_place_in_front(jobs: Seq<Job>, earlier: int, later: int)
    requires
        0 <= earlier < later <= jobs.len(),
        jobs[earlier].resolved() is Some,
    ensures
        outputs(jobs.take(earlier)).len() < outputs(jobs.take(later)).len(),
{
    let front = jobs.take(later);
    lemma_place_of(front, earlier);
    assert(front.take(earlier) =~= jobs.take(earlier));
}

/// What is named is the first file that is in the way: of the files that are written, in the order of the
/// jobs, the first that is read, and where none is, the first that a job in front writes too.
pub proof fn lemma_the_first_file_in_the_way_is_named(jobs: Seq<Job>)
    ensures
        collision(jobs) matches Some(Collision::Read(path)) ==> exists|at: int|
            0 <= at < jobs.len() && #[trigger] jobs[at].resolved() == Some(path) && is_read(jobs, path)
                && (forall|i: int|
                0 <= i < at && #[trigger] jobs[i].resolved() is Some ==> !is_read(
                    jobs,
                    jobs[i].resolved()->0,
                )),
        collision(jobs) matches Some(Collision::Twice(path)) ==> exists|at: int|
            0 <= at < jobs.len() && #[trigger] jobs[at].resolved() == Some(path) && (exists|i: int|
                0 <= i < at && #[trigger] jobs[i].resolved() == Some(path)) && (forall|i: int, j: int|
                0 <= i < j < at && #[trigger] jobs[i].resolved() is Some
                    ==> #[trigger] jobs[j].resolved() != jobs[i].resolved()),
{
    let written = outputs(jobs);
    if first_read(jobs, written, 0) is Some {
        let place = lemma_first_read(jobs, written, 0);
        let at = lemma_job_of(jobs, place);
        assert forall|i: int| 0 <= i < at && #[trigger] jobs[i].resolved() is Some implies !is_read(
            jobs,
            jobs[i].resolved()->0,
        ) by {
            lemma_place_of(jobs, i);
            lemma_place_in_front(jobs, i, at);
            assert(!is_read(jobs, written[outputs(jobs.take(i)).len() as int]));
        }
        assert(jobs[at].resolved() == Some(written[place]));
    } else if first_repeat(written, 0) is Some {
        let place = lemma_first_repeat(written, 0);
        let at = lemma_job_of(jobs, place);
        let other = written.take(place).index_of(written[place]);
        assert(written[other] == written[place]);
        let i = lemma_job_of(jobs, other);
        if i >= at {
            if i > at {
                lemma_place_in_front(jobs, at, i);
            }
        }
        assert(jobs[i].resolved() == Some(written[place]));
        assert forall|i: int, j: int|
            0 <= i < j < at && #[trigger] jobs[i].resolved() is Some implies #[trigger] jobs[j].resolved()
            != jobs[i].resolved() by {
            if jobs[j].resolved() == jobs[i].resolved() {
                lemma_place_of(jobs, i);
                lemma_place_of(jobs, j);
                lemma_place_in_front(jobs, i, j);
                lemma_place_in_front(jobs, j, at);
                let a = outputs(jobs.take(i)).len() as int;
                let b = outputs(jobs.take(j)).len() as int;
                assert(written.take(b)[a] == written[b]);
                assert(written.take(b).contains(written[b]));
            }
        }
        assert(jobs[at].resolved() == Some(written[place]));
    }
}

/// A collision is about the file it names, and says which.
pub proof fn lemma_a_collision_names_its_file(path: Seq<char>)
    ensures
        Collision::Read(path).about() == path,
        Collision::Twice(path).about() == path,
        ("the output "@ + path).is_prefix_of(Collision::Read(path).said()),
        ("the output "@ + path).is_prefix_of(Collision::Twice(path).said()),
        Collision::Read(path).said() == "the output "@ + path
            + " is one of the inputs: converting it would write over the audio being read"@,
        Collision::Twice(path).said() == "the output "@ + path
            + " is stated by more than one conversion: they would write over each other"@,
{
    let named = "the output "@ + path;
    assert(Collision::Read(path).said().take(named.len() as int) =~= named);
    assert(Collision::Twice(path).said().take(named.len() as int) =~= named);
}

} // verus!
