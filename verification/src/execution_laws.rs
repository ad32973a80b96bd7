//! What holds of every run of a deletion plan.

use crate::deletion::DeleteCacheStrategy;
#[allow(unused_imports)]
use crate::execution::{reports_of, run, tolerates};
use crate::execution::{Failure, FailureModel, IoError, IoErrorKind, PathKind, Removal};
use crate::path::PathKey;
use vstd::prelude::*;

verus! {

/// The place of a phase in a run.
pub open spec fn rank(kind: PathKind) -> int {
    match kind {
        PathKind::Repo => 0,
        PathKind::Snapshot => 1,
        PathKind::Ref => 2,
        PathKind::Blob => 3,
        PathKind::Locks => 4,
    }
}

/// A run goes through its phases in order.
pub proof fn phases_follow_each_other(plan: DeleteCacheStrategy, i: int, j: int)
    requires
        0 <= i <= j < plan.removals().len(),
    ensures
        rank(plan.removals()[i].1) <= rank(plan.removals()[j].1),
{
}

/// However far a run has come, once it has come to a blob it has been through
/// every snapshot and every ref. A run that is cut short therefore leaves blobs
/// too many, and no reference that it has not dealt with.
pub proof fn references_go_before_blobs(
    plan: DeleteCacheStrategy,
    done: int,
    blob: int,
    reference: int,
)
    requires
        0 <= blob < done <= plan.removals().len(),
        plan.removals()[blob].1 == PathKind::Blob,
        0 <= reference < plan.removals().len(),
        plan.removals()[reference].1 == PathKind::Snapshot || plan.removals()[reference].1
            == PathKind::Ref,
    ensures
        reference < done,
{
    if blob <= reference {
        phases_follow_each_other(plan, blob, reference);
    }
}

/// The paths that the plan lists for one phase.
pub open spec fn planned(plan: DeleteCacheStrategy, kind: PathKind) -> Set<PathKey> {
    match kind {
        PathKind::Repo => plan.repos@,
        PathKind::Snapshot => plan.snapshots@,
        PathKind::Ref => plan.refs@,
        PathKind::Blob => plan.blobs@,
        PathKind::Locks => plan.locks@,
    }
}

/// A run removes all that the plan lists, and nothing else.
pub proof fn runs_remove_what_is_planned(plan: DeleteCacheStrategy, kind: PathKind, key: PathKey)
    ensures
        planned(plan, kind).contains(key) <==> exists|i: int|
            0 <= i < plan.removals().len() && (#[trigger] plan.removals()[i]).1 == kind
                && crate::path::path_key(plan.removals()[i].0) == key,
{
    let paths = match kind {
        PathKind::Repo => plan.repos,
        PathKind::Snapshot => plan.snapshots,
        PathKind::Ref => plan.refs,
        PathKind::Blob => plan.blobs,
        PathKind::Locks => plan.locks,
    };
    let a = plan.repos.spellings().len() as int;
    let b = a + plan.snapshots.spellings().len();
    let c = b + plan.refs.spellings().len();
    let d = c + plan.blobs.spellings().len();
    let start = match kind {
        PathKind::Repo => 0,
        PathKind::Snapshot => a,
        PathKind::Ref => b,
        PathKind::Blob => c,
        PathKind::Locks => d,
    };
    if planned(plan, kind).contains(key) {
        let n = choose|n: int| 0 <= n < paths.keys().len() && paths.keys()[n] == key;
        assert(plan.removals()[start + n] == (paths.spellings()[n], kind));
    }
    if exists|i: int|
        0 <= i < plan.removals().len() && (#[trigger] plan.removals()[i]).1 == kind
            && crate::path::path_key(plan.removals()[i].0) == key {
        let i = choose|i: int|
            0 <= i < plan.removals().len() && (#[trigger] plan.removals()[i]).1 == kind
                && crate::path::path_key(plan.removals()[i].0) == key;
        assert(plan.removals()[i].0 == paths.spellings()[i - start]);
        assert(paths.keys()[i - start] == key);
        assert(paths.keys().contains(key));
    }
}

/// Whether a removal went well or failed in a way that is tolerated.
pub open spec fn lets_go_on<E>(outcome: Result<(), IoError<E>>) -> bool {
    match outcome {
        Ok(_) => true,
        Err(error) => tolerates(error.kind),
    }
}

/// A run is aborted by the first failure that is not tolerated, and by nothing
/// else; it then ends with that very error.
pub proof fn runs_abort_only_on_untolerated_errors<E>(
    steps: Seq<(Seq<u8>, PathKind)>,
    outcomes: Seq<Result<(), IoError<E>>>,
)
    ensures
        match run(steps, outcomes) {
            Ok(_) => forall|i: int| 0 <= i < outcomes.len() ==> lets_go_on(#[trigger] outcomes[i]),
            Err(error) => exists|i: int|
                0 <= i < outcomes.len() && #[trigger] outcomes[i] == Err::<(), IoError<E>>(error)
                    && !lets_go_on(outcomes[i]) && (forall|j: int|
                    0 <= j < i ==> lets_go_on(#[trigger] outcomes[j])),
        },
    decreases outcomes.len(),
{
    if outcomes.len() > 0 {
        let before = outcomes.drop_last();
        let n = before.len() as int;
        runs_abort_only_on_untolerated_errors(steps, before);
        assert forall|i: int| 0 <= i < n implies before[i] == outcomes[i] by {}
        match run(steps, before) {
            Ok(_) => {
                assert forall|i: int| 0 <= i < n implies lets_go_on(#[trigger] outcomes[i]) by {
                    assert(lets_go_on(before[i]));
                }
                assert(outcomes.last() == outcomes[n]);
            },
            Err(error) => {
                let i = choose|i: int|
                    0 <= i < n && #[trigger] before[i] == Err::<(), IoError<E>>(error)
                        && !lets_go_on(before[i]) && (forall|j: int|
                        0 <= j < i ==> lets_go_on(#[trigger] before[j]));
                assert(outcomes[i] == before[i]);
                assert forall|j: int| 0 <= j < i implies lets_go_on(#[trigger] outcomes[j]) by {
                    assert(lets_go_on(before[j]));
                }
            },
        }
    }
}

/// A run in which every removal succeeds reports nothing.
pub proof fn clean_runs_report_nothing<E>(
    steps: Seq<(Seq<u8>, PathKind)>,
    outcomes: Seq<Result<(), IoError<E>>>,
)
    requires
        forall|i: int| 0 <= i < outcomes.len() ==> (#[trigger] outcomes[i]) is Ok,
    ensures
        run(steps, outcomes) == Ok::<Seq<FailureModel<E>>, IoError<E>>(
            Seq::empty(),
        ),
    decreases outcomes.len(),
{
    if outcomes.len() > 0 {
        let before = outcomes.drop_last();
        assert forall|i: int| 0 <= i < before.len() implies (#[trigger] before[i]) is Ok by {
            assert(outcomes[i] is Ok);
        }
        clean_runs_report_nothing(steps, before);
        assert(outcomes[outcomes.len() - 1] is Ok);
    }
}

/// Running a plan whose paths are all gone reports each of them, in order, as
/// not found. More generally, failures that are tolerated throughout are each
/// reported with their path, their phase and their error.
pub proof fn repeated_runs_report_every_path<E>(
    steps: Seq<(Seq<u8>, PathKind)>,
    outcomes: Seq<Result<(), IoError<E>>>,
)
    requires
        forall|i: int|
            0 <= i < outcomes.len() ==> (#[trigger] outcomes[i]) is Err && lets_go_on(outcomes[i]),
    ensures
        run(steps, outcomes) == Ok::<Seq<FailureModel<E>>, IoError<E>>(
            Seq::new(
                outcomes.len(),
                |i: int|
                    FailureModel { path: steps[i].0, kind: steps[i].1, error: outcomes[i]->Err_0 },
            ),
        ),
    decreases outcomes.len(),
{
    let all = Seq::new(
        outcomes.len(),
        |i: int| FailureModel { path: steps[i].0, kind: steps[i].1, error: outcomes[i]->Err_0 },
    );
    if outcomes.len() > 0 {
        let before = outcomes.drop_last();
        let n = before.len() as int;
        assert forall|i: int| 0 <= i < n implies (#[trigger] before[i]) is Err && lets_go_on(
            before[i],
        ) by {
            assert(outcomes[i] is Err);
        }
        repeated_runs_report_every_path(steps, before);
        assert(outcomes[n] is Err && lets_go_on(outcomes[n]));
        assert(all =~= run(steps, before)->Ok_0.push(all[n]));
    } else {
        assert(all =~= Seq::empty());
    }
}

/// Whatever a run reports was asked for, failed and was tolerated.
pub proof fn reports_are_tolerated_failures<E>(
    steps: Seq<(Seq<u8>, PathKind)>,
    outcomes: Seq<Result<(), IoError<E>>>,
    n: int,
)
    requires
        run(steps, outcomes) is Ok,
        0 <= n < run(steps, outcomes)->Ok_0.len(),
    ensures
        exists|i: int|
            0 <= i < outcomes.len() && #[trigger] outcomes[i] == Err::<(), IoError<E>>(
                run(steps, outcomes)->Ok_0[n].error,
            ) && lets_go_on(outcomes[i]) && steps[i] == (
                run(steps, outcomes)->Ok_0[n].path,
                run(steps, outcomes)->Ok_0[n].kind,
            ),
    decreases outcomes.len(),
{
    let before = outcomes.drop_last();
    let last = before.len() as int;
    let earlier = run(steps, before)->Ok_0;
    if n < earlier.len() {
        reports_are_tolerated_failures(steps, before, n);
        let i = choose|i: int|
            0 <= i < before.len() && #[trigger] before[i] == Err::<(), IoError<E>>(
                earlier[n].error,
            ) && lets_go_on(before[i]) && steps[i] == (earlier[n].path, earlier[n].kind);
        assert(outcomes[i] == before[i]);
    } else {
        assert(outcomes[last] == outcomes.last());
    }
}

/// A run goes on after what is not found or not permitted, and after nothing
/// else.
pub proof fn missing_and_forbidden_paths_are_tolerated(kind: IoErrorKind)
    ensures
        tolerates(kind) <==> kind == IoErrorKind::NotFound || kind == IoErrorKind::PermissionDenied,
{
}

/// A removal shows its path and its phase; a failure also shows its error.
pub proof fn removals_and_failures_show_their_fields<E>(removal: Removal, failure: Failure<E>)
    ensures
        removal@.0 == removal.path.bytes@,
        removal@.1 == removal.kind,
        failure@.path == failure.path.bytes@,
        failure@.kind == failure.kind,
        failure@.error == failure.error,
{
}

/// Before its first removal a run has nothing to report.
pub proof fn runs_begin_without_reports<E>(steps: Seq<(Seq<u8>, PathKind)>)
    ensures
        run(steps, Seq::<Result<(), IoError<E>>>::empty()) == Ok::<
            Seq<FailureModel<E>>,
            IoError<E>,
        >(Seq::empty()),
{
}

/// One more success leaves the reports as they are.
pub proof fn a_success_changes_no_report<E>(
    steps: Seq<(Seq<u8>, PathKind)>,
    outcomes: Seq<Result<(), IoError<E>>>,
)
    ensures
        run(steps, outcomes.push(Ok(()))) == run(steps, outcomes),
{
    assert(outcomes.push(Ok(())).drop_last() =~= outcomes);
}

/// One more failure is reported behind the others, with the path and the phase
/// of its removal, if nothing was found or permission was denied; any other
/// error aborts the run. An aborted run stays aborted.
pub proof fn a_failure_is_reported_or_aborts<E>(
    steps: Seq<(Seq<u8>, PathKind)>,
    outcomes: Seq<Result<(), IoError<E>>>,
    error: IoError<E>,
)
    ensures
        match run(steps, outcomes) {
            Err(earlier) => run(steps, outcomes.push(Err(error))) == Err::<
                Seq<FailureModel<E>>,
                IoError<E>,
            >(earlier),
            Ok(reports) => if error.kind == IoErrorKind::NotFound || error.kind
                == IoErrorKind::PermissionDenied {
                run(steps, outcomes.push(Err(error))) == Ok::<Seq<FailureModel<E>>, IoError<E>>(
                    reports.push(
                        FailureModel {
                            path: steps[outcomes.len() as int].0,
                            kind: steps[outcomes.len() as int].1,
                            error,
                        },
                    ),
                )
            } else {
                run(steps, outcomes.push(Err(error))) == Err::<Seq<FailureModel<E>>, IoError<E>>(
                    error,
                )
            },
        },
{
    assert(outcomes.push(Err(error)).drop_last() =~= outcomes);
}

/// How many of the first `n` removals failed.
pub open spec fn failed_among<E>(outcomes: Seq<Result<(), IoError<E>>>, n: int) -> int {
    outcomes.take(n).filter(|outcome: Result<(), IoError<E>>| outcome is Err).len() as int
}

proof fn lemma_failed_step<E>(outcomes: Seq<Result<(), IoError<E>>>, n: int)
    requires
        0 <= n < outcomes.len(),
    ensures
        failed_among(outcomes, n + 1) == failed_among(outcomes, n) + if outcomes[n] is Err {
            1int
        } else {
            0
        },
{
    reveal(Seq::filter);
    assert(outcomes.take(n + 1).drop_last() =~= outcomes.take(n));
    assert(outcomes.take(n + 1).last() == outcomes[n]);
}

/// The reports of a run that was not aborted, as its result lists them, are one
/// for every removal that failed and none for any other, in the order of the
/// removals, each with the path and the phase of its removal and the very error;
/// whatever the other outcomes are.
pub proof fn every_failure_has_its_report<E>(
    steps: Seq<(Seq<u8>, PathKind)>,
    outcomes: Seq<Result<(), IoError<E>>>,
    failures: Seq<Failure<E>>,
)
    requires
        run(steps, outcomes) == Ok::<Seq<FailureModel<E>>, IoError<E>>(reports_of(failures)),
    ensures
        failures.len() == failed_among(outcomes, outcomes.len() as int),
        forall|i: int|
            0 <= i < outcomes.len() ==> ((#[trigger] outcomes[i]) matches Err(error) ==> {
                let n = failed_among(outcomes, i);
                &&& error.kind == IoErrorKind::NotFound || error.kind
                    == IoErrorKind::PermissionDenied
                &&& 0 <= n < failures.len()
                &&& failures[n].path.bytes@ == steps[i].0
                &&& failures[n].kind == steps[i].1
                &&& failures[n].error == error
            }),
{
    lemma_reports_in_order(steps, outcomes, outcomes.len() as int);
    let reports = reports_of(failures);
    assert(outcomes.take(outcomes.len() as int) =~= outcomes);
    assert(reports.len() == failures.len());
    assert forall|i: int| 0 <= i < outcomes.len() implies ((
    #[trigger] outcomes[i]) matches Err(error) ==> {
        let n = failed_among(outcomes, i);
        &&& error.kind == IoErrorKind::NotFound || error.kind == IoErrorKind::PermissionDenied
        &&& 0 <= n < failures.len()
        &&& failures[n].path.bytes@ == steps[i].0
        &&& failures[n].kind == steps[i].1
        &&& failures[n].error == error
    }) by {
        if outcomes[i] is Err {
            let n = failed_among(outcomes, i);
            assert(reports[n] == failures[n]@);
        }
    }
}

proof fn lemma_reports_in_order<E>(
    steps: Seq<(Seq<u8>, PathKind)>,
    outcomes: Seq<Result<(), IoError<E>>>,
    m: int,
)
    requires
        0 <= m <= outcomes.len(),
        run(steps, outcomes.take(m)) is Ok,
    ensures
        run(steps, outcomes.take(m))->Ok_0.len() == failed_among(outcomes, m),
        forall|i: int|
            0 <= i < m ==> ((#[trigger] outcomes[i]) matches Err(error) ==> {
                let n = failed_among(outcomes, i);
                &&& error.kind == IoErrorKind::NotFound || error.kind
                    == IoErrorKind::PermissionDenied
                &&& 0 <= n < failed_among(outcomes, m)
                &&& run(steps, outcomes.take(m))->Ok_0[n] == (FailureModel {
                    path: steps[i].0,
                    kind: steps[i].1,
                    error,
                })
            }),
    decreases m,
{
    if m > 0 {
        assert(outcomes.take(m).drop_last() =~= outcomes.take(m - 1));
        assert(outcomes.take(m).last() == outcomes[m - 1]);
        lemma_reports_in_order(steps, outcomes, m - 1);
        lemma_failed_step(outcomes, m - 1);
    } else {
        reveal(Seq::filter);
        assert(outcomes.take(0) =~= Seq::empty());
    }
}

/// A run is aborted exactly if some removal failed otherwise than by finding
/// nothing or lacking permission.
pub proof fn only_other_errors_abort<E>(
    steps: Seq<(Seq<u8>, PathKind)>,
    outcomes: Seq<Result<(), IoError<E>>>,
)
    ensures
        run(steps, outcomes) is Err <==> exists|i: int|
            0 <= i < outcomes.len() && ((#[trigger] outcomes[i]) matches Err(error) && error.kind
                == IoErrorKind::Other),
        run(steps, outcomes) matches Err(error) ==> exists|i: int|
            0 <= i < outcomes.len() && #[trigger] outcomes[i] == Err::<(), IoError<E>>(error)
                && error.kind == IoErrorKind::Other && (forall|j: int|
                0 <= j < i ==> !((#[trigger] outcomes[j]) matches Err(earlier) && earlier.kind
                    == IoErrorKind::Other)),
{
    runs_abort_only_on_untolerated_errors(steps, outcomes);
    match run(steps, outcomes) {
        Ok(_) => {
            assert forall|i: int| 0 <= i < outcomes.len() implies !((
            #[trigger] outcomes[i]) matches Err(error) && error.kind == IoErrorKind::Other) by {
                assert(lets_go_on(outcomes[i]));
            }
        },
        Err(error) => {
            let i = choose|i: int|
                0 <= i < outcomes.len() && #[trigger] outcomes[i] == Err::<(), IoError<E>>(error)
                    && !lets_go_on(outcomes[i]) && (forall|j: int|
                    0 <= j < i ==> lets_go_on(#[trigger] outcomes[j]));
            assert(outcomes[i] == Err::<(), IoError<E>>(error));
            assert forall|j: int| 0 <= j < i implies !((
            #[trigger] outcomes[j]) matches Err(earlier) && earlier.kind
                == IoErrorKind::Other) by {
                assert(lets_go_on(outcomes[j]));
            }
        },
    }
}

/// The removals of a plan are, one behind the other and each list in its own
/// order, its repositories, snapshots, refs, blobs and lock directories.
pub proof fn runs_go_through_the_lists_of_the_plan(plan: DeleteCacheStrategy)
    ensures
        ({
            let a = plan.repos.spellings().len() as int;
            let b = a + plan.snapshots.spellings().len();
            let c = b + plan.refs.spellings().len();
            let d = c + plan.blobs.spellings().len();
            let e = d + plan.locks.spellings().len();
            &&& plan.removals().len() == e
            &&& forall|n: int|
                0 <= n < e ==> #[trigger] plan.removals()[n] == if n < a {
                    (plan.repos.spellings()[n], PathKind::Repo)
                } else if n < b {
                    (plan.snapshots.spellings()[n - a], PathKind::Snapshot)
                } else if n < c {
                    (plan.refs.spellings()[n - b], PathKind::Ref)
                } else if n < d {
                    (plan.blobs.spellings()[n - c], PathKind::Blob)
                } else {
                    (plan.locks.spellings()[n - d], PathKind::Locks)
                }
        }),
{
}

} // verus!
