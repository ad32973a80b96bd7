//! Running a deletion plan.
//!
//! [`DeleteCacheStrategy::execute`] starts an [`Execution`], which names one
//! removal after the other and is told how each of them went. It decides what
//! is tolerated, what is reported and when to stop; the removals themselves are
//! made by the caller.

use crate::deletion::DeleteCacheStrategy;
use crate::path::CachePath;
use crate::path_set::PathSet;
use vstd::prelude::*;

verus! {

/// Which phase of a run a path belongs to. The phases follow each other as
/// `repos → snapshots → refs → blobs → locks`.
#[derive(Debug, Clone, Copy, PartialEq, Eq, Hash, Structural)]
pub enum PathKind {
    Repo,
    Snapshot,
    Ref,
    Blob,
    Locks,
}

/// How a removal can fail, as far as a run tells failures apart.
#[derive(Debug, Clone, Copy, PartialEq, Eq, Hash, Structural)]
pub enum IoErrorKind {
    NotFound,
    PermissionDenied,
    Other,
}

/// A failed removal: its kind, and the error as the caller got it.
#[derive(Debug)]
pub struct IoError<E> {
    pub kind: IoErrorKind,
    pub source: E,
}

/// A tolerated failure during a run.
#[derive(Debug)]
pub struct Failure<E> {
    pub path: CachePath,
    pub kind: PathKind,
    pub error: IoError<E>,
}

/// Outcome of a run that was not aborted. Successful removals leave no entry.
#[derive(Debug)]
pub struct ExecuteResult<E> {
    pub failures: Vec<Failure<E>>,
}

/// One removal that a run asks for.
#[derive(Debug)]
pub struct Removal {
    pub path: CachePath,
    pub kind: PathKind,
}

/// Which call removes a path.
#[derive(Debug, Clone, Copy, PartialEq, Eq, Structural)]
pub enum RemovalCall {
    /// Remove a directory and all below it.
    RemoveDirAll,
    /// Remove a single file.
    RemoveFile,
}

/// A failure as contracts speak of it.
pub struct FailureModel<E> {
    pub path: Seq<u8>,
    pub kind: PathKind,
    pub error: IoError<E>,
}

impl View for Removal {
    type V = (Seq<u8>, PathKind);

    open spec fn view(&self) -> (Seq<u8>, PathKind) {
        (self.path@, self.kind)
    }
}

impl<E> View for Failure<E> {
    type V = FailureModel<E>;

    open spec fn view(&self) -> FailureModel<E> {
        FailureModel { path: self.path@, kind: self.kind, error: self.error }
    }
}

/// What a list of failures holds.
pub open spec fn reports_of<E>(failures: Seq<Failure<E>>) -> Seq<FailureModel<E>> {
    failures.map_values(|failure: Failure<E>| failure@)
}

/// Whether a run goes on after a failure of this kind.
pub open spec fn tolerates(kind: IoErrorKind) -> bool {
    kind == IoErrorKind::NotFound || kind == IoErrorKind::PermissionDenied
}

/// What a run reports after the first `outcomes.len()` removals of `steps`, or
/// the error that aborted it.
pub open spec fn run<E>(
    steps: Seq<(Seq<u8>, PathKind)>,
    outcomes: Seq<Result<(), IoError<E>>>,
) -> Result<Seq<FailureModel<E>>, IoError<E>>
    decreases outcomes.len(),
{
    if outcomes.len() == 0 {
        Ok(Seq::empty())
    } else {
        match run(steps, outcomes.drop_last()) {
            Err(error) => Err(error),
            Ok(reports) => match outcomes.last() {
                Ok(_) => Ok(reports),
                Err(error) => if tolerates(error.kind) {
                    let (path, kind) = steps[outcomes.len() - 1];
                    Ok(reports.push(FailureModel { path, kind, error }))
                } else {
                    Err(error)
                },
            },
        }
    }
}

/// The paths of one phase.
pub open spec fn phase(paths: Seq<Seq<u8>>, kind: PathKind) -> Seq<(Seq<u8>, PathKind)> {
    paths.map_values(|path: Seq<u8>| (path, kind))
}

impl DeleteCacheStrategy {
    /// All removals of this plan in the order in which a run makes them.
    pub open spec fn removals(self) -> Seq<(Seq<u8>, PathKind)> {
        phase(self.repos.spellings(), PathKind::Repo) + phase(
            self.snapshots.spellings(),
            PathKind::Snapshot,
        ) + phase(self.refs.spellings(), PathKind::Ref) + phase(
            self.blobs.spellings(),
            PathKind::Blob,
        ) + phase(self.locks.spellings(), PathKind::Locks)
    }
}

/// Whether a failure of this kind leaves the run going.
pub fn is_tolerated(kind: IoErrorKind) -> (tolerated: bool)
    ensures
        tolerated == tolerates(kind),
{
    match kind {
        IoErrorKind::NotFound => true,
        IoErrorKind::PermissionDenied => true,
        IoErrorKind::Other => false,
    }
}

/// The call that removes a path, given whether a directory stands there.
pub fn removal_call(is_dir: bool) -> (call: RemovalCall)
    ensures
        call == if is_dir {
            RemovalCall::RemoveDirAll
        } else {
            RemovalCall::RemoveFile
        },
{
    if is_dir {
        RemovalCall::RemoveDirAll
    } else {
        RemovalCall::RemoveFile
    }
}

/// Takes the outcome of one removal: a tolerated failure is added to
/// `failures`, any other is handed back.
pub fn remove_with_tolerance<E>(
    path: &CachePath,
    kind: PathKind,
    outcome: Result<(), IoError<E>>,
    failures: &mut Vec<Failure<E>>,
) -> (result: Result<(), IoError<E>>)
    ensures
        match outcome {
            Ok(_) => result is Ok && final(failures)@ == old(failures)@,
            Err(error) => if tolerates(error.kind) {
                result is Ok && reports_of(final(failures)@) == reports_of(old(failures)@).push(
                    FailureModel { path: path@, kind, error },
                )
            } else {
                result == Err::<(), IoError<E>>(error) && final(failures)@ == old(failures)@
            },
        },
{
    match outcome {
        Ok(_) => Ok(()),
        Err(error) => {
            if is_tolerated(error.kind) {
                failures.push(Failure { path: path.clone(), kind, error });
                proof {
                    assert(reports_of(failures@) =~= reports_of(old(failures)@).push(
                        FailureModel { path: path@, kind, error },
                    ));
                }
                Ok(())
            } else {
                Err(error)
            }
        },
    }
}

/// A run in progress.
pub struct Execution<E> {
    steps: Vec<Removal>,
    position: usize,
    failures: Vec<Failure<E>>,
    outcomes: Ghost<Seq<Result<(), IoError<E>>>>,
}

impl<E> Execution<E> {
    /// All removals of the run.
    pub closed spec fn steps(self) -> Seq<(Seq<u8>, PathKind)> {
        self.steps@.map_values(|step: Removal| step@)
    }

    /// How the removals made so far went.
    pub closed spec fn history(self) -> Seq<Result<(), IoError<E>>> {
        self.outcomes@
    }

    /// The failures on record are those that the history calls for.
    #[verifier::type_invariant]
    spec fn wf(self) -> bool {
        &&& self.position == self.outcomes@.len()
        &&& self.position <= self.steps@.len()
        &&& run(self.steps(), self.outcomes@) == Ok::<Seq<FailureModel<E>>, IoError<E>>(
            reports_of(self.failures@),
        )
    }

    /// The removal to make next, or `None` at the end of the run.
    pub fn next_removal(&self) -> (removal: Option<&Removal>)
        ensures
            self.history().len() <= self.steps().len(),
            match removal {
                Some(step) => self.history().len() < self.steps().len() && step@
                    == self.steps()[self.history().len() as int],
                None => self.history().len() == self.steps().len(),
            },
    {
        proof {
            use_type_invariant(self);
        }
        if self.position < self.steps.len() {
            Some(&self.steps[self.position])
        } else {
            None
        }
    }

    /// Takes the outcome of the removal that was asked for. A failure that is
    /// not tolerated ends the run and is handed back.
    pub fn record(self, outcome: Result<(), IoError<E>>) -> (next: Result<
        Execution<E>,
        IoError<E>,
    >)
        requires
            self.history().len() < self.steps().len(),
        ensures
            match next {
                Ok(going) => {
                    &&& going.steps() == self.steps()
                    &&& going.history() == self.history().push(outcome)
                    &&& run(self.steps(), self.history().push(outcome)) is Ok
                },
                Err(error) => {
                    &&& outcome == Err::<(), IoError<E>>(error)
                    &&& !tolerates(error.kind)
                    &&& run(self.steps(), self.history().push(outcome)) == Err::<
                        Seq<FailureModel<E>>,
                        IoError<E>,
                    >(error)
                },
            },
    {
        proof {
            use_type_invariant(&self);
            assert(self.outcomes@.push(outcome).drop_last() =~= self.outcomes@);
        }
        let ghost all_steps = self.steps();
        let ghost outcomes = self.outcomes@.push(outcome);
        let Execution { steps, position, failures, outcomes: _ } = self;
        let mut failures: Vec<Failure<E>> = failures;
        assert(position < steps.len());
        assert(steps@[position as int]@ == all_steps[position as int]);
        match remove_with_tolerance(
            &steps[position].path,
            steps[position].kind,
            outcome,
            &mut failures,
        ) {
            Ok(_) => Ok(
                Execution { steps, position: position + 1, failures, outcomes: Ghost(outcomes) },
            ),
            Err(error) => Err(error),
        }
    }

    /// The result of a run that has come to its end.
    pub fn finish(self) -> (result: ExecuteResult<E>)
        requires
            self.history().len() == self.steps().len(),
        ensures
            run(self.steps(), self.history()) == Ok::<Seq<FailureModel<E>>, IoError<E>>(
                reports_of(result.failures@),
            ),
    {
        proof {
            use_type_invariant(&self);
        }
        ExecuteResult { failures: self.failures }
    }
}

/// Appends the members of `paths` to `steps`.
fn append_phase(steps: &mut Vec<Removal>, paths: &PathSet, kind: PathKind)
    ensures
        final(steps)@.map_values(|step: Removal| step@) == old(steps)@.map_values(
            |step: Removal| step@,
        ) + phase(paths.spellings(), kind),
{
    let ghost before = steps@.map_values(|step: Removal| step@);
    let count: usize = paths.len();
    let mut i: usize = 0;
    assert(steps@.map_values(|step: Removal| step@) =~= before + phase(
        paths.spellings(),
        kind,
    ).take(0));
    while i < count
        invariant
            i <= count,
            count == paths.spellings().len(),
            steps@.map_values(|step: Removal| step@) == before + phase(
                paths.spellings(),
                kind,
            ).take(i as int),
        decreases count - i,
    {
        let ghost shown = steps@;
        let step = Removal { path: paths.get(i).clone(), kind };
        let ghost new = step@;
        steps.push(step);
        proof {
            assert(steps@.map_values(|step: Removal| step@) =~= shown.map_values(
                |step: Removal| step@,
            ).push(new));
            assert(phase(paths.spellings(), kind).take(i + 1) =~= phase(
                paths.spellings(),
                kind,
            ).take(i as int).push(new));
            assert(steps@.map_values(|step: Removal| step@) =~= before + phase(
                paths.spellings(),
                kind,
            ).take(i + 1));
        }
        i += 1;
    }
    assert(phase(paths.spellings(), kind).take(i as int) =~= phase(paths.spellings(), kind));
}

impl DeleteCacheStrategy {
    /// Starts a run of this plan.
    ///
    /// The references, snapshots and refs, go before the blobs that they point
    /// at: a run that is cut short leaves blobs too many, not snapshots that
    /// point nowhere. A tolerated failure does not stop the run, so that one
    /// stale path cannot leave the cache half deleted.
    pub fn execute<E>(&self) -> (execution: Execution<E>)
        ensures
            execution.steps() == self.removals(),
            execution.history().len() == 0,
    {
        let mut steps: Vec<Removal> = Vec::new();
        assert(steps@.map_values(|step: Removal| step@) =~= Seq::empty());
        append_phase(&mut steps, &self.repos, PathKind::Repo);
        append_phase(&mut steps, &self.snapshots, PathKind::Snapshot);
        append_phase(&mut steps, &self.refs, PathKind::Ref);
        append_phase(&mut steps, &self.blobs, PathKind::Blob);
        append_phase(&mut steps, &self.locks, PathKind::Locks);
        assert(steps@.map_values(|step: Removal| step@) =~= self.removals());
        let failures: Vec<Failure<E>> = Vec::new();
        assert(reports_of(failures@) =~= Seq::empty());
        Execution { steps, position: 0, failures, outcomes: Ghost(Seq::empty()) }
    }
}

} // verus!
