//! Fallible steps, one after the other: the first failure ends the sequence,
//! and what was reported up to then stays reported.
use vstd::prelude::*;

use crate::error::ErrorView;

verus! {

/// One step: the decryption outcomes it reports, each as a share's id and
/// whether it succeeded, and what it comes to.
#[verifier::ext_equal]
pub ghost struct Step<A> {
    pub events: Seq<(u8, bool)>,
    pub result: Result<A, ErrorView>,
}

/// A sequence of steps that was run: everything that was reported, and the
/// results of all the steps or the first failure.
#[verifier::ext_equal]
pub ghost struct Run<A> {
    pub events: Seq<(u8, bool)>,
    pub result: Result<Seq<A>, ErrorView>,
}

/// A step that reports nothing.
pub open spec fn silent<A>(result: Result<A, ErrorView>) -> Step<A> {
    Step { events: Seq::empty(), result }
}

/// Runs the steps up to the first failure.
pub open spec fn run<A>(steps: Seq<Step<A>>) -> Run<A>
    decreases steps.len(),
{
    if steps.len() == 0 {
        Run { events: Seq::empty(), result: Ok(Seq::empty()) }
    } else {
        let before = run(steps.drop_last());
        match before.result {
            Err(_) => before,
            Ok(results) => Run {
                events: before.events + steps.last().events,
                result: match steps.last().result {
                    Ok(a) => Ok(results.push(a)),
                    Err(e) => Err(e),
                },
            },
        }
    }
}

/// Once the steps up to `i` have run, so has the next.
pub proof fn lemma_run_next<A>(steps: Seq<Step<A>>, i: int)
    requires
        0 <= i < steps.len(),
        run(steps.take(i)).result is Ok,
    ensures
        run(steps.take(i + 1)) == (Run {
            events: run(steps.take(i)).events + steps[i].events,
            result: match steps[i].result {
                Ok(a) => Ok(run(steps.take(i)).result->Ok_0.push(a)),
                Err(e) => Err(e),
            },
        }),
{
    assert(steps.take(i + 1).drop_last() =~= steps.take(i));
}

/// A failure ends the run.
pub proof fn lemma_run_failed<A>(steps: Seq<Step<A>>, i: int)
    requires
        0 <= i <= steps.len(),
        run(steps.take(i)).result is Err,
    ensures
        run(steps) == run(steps.take(i)),
    decreases steps.len(),
{
    if i == steps.len() {
        assert(steps.take(i) =~= steps);
    } else {
        assert(steps.drop_last().take(i) =~= steps.take(i));
        lemma_run_failed(steps.drop_last(), i);
    }
}

/// A run of steps that all succeed gives their results and everything they
/// report.
pub proof fn lemma_run_all<A>(steps: Seq<Step<A>>, results: Seq<A>)
    requires
        steps.len() == results.len(),
        forall|i: int|
            0 <= i < steps.len() ==> (#[trigger] steps[i]).result == Ok::<A, ErrorView>(
                results[i],
            ),
    ensures
        run(steps).result == Ok::<Seq<A>, ErrorView>(results),
    decreases steps.len(),
{
    if steps.len() > 0 {
        lemma_run_all(steps.drop_last(), results.drop_last());
        assert(results.drop_last().push(results.last()) =~= results);
        assert(steps.last() == steps[steps.len() - 1]);
    } else {
        assert(results =~= Seq::empty());
    }
}

/// The first step that fails is the failure of the run: the steps before it ran,
/// and none behind it did.
pub proof fn first_failure_ends_the_run<A>(steps: Seq<Step<A>>, k: int)
    requires
        0 <= k < steps.len(),
        forall|i: int| 0 <= i < k ==> (#[trigger] steps[i]).result is Ok,
        steps[k].result is Err,
    ensures
        run(steps).result == Err::<Seq<A>, ErrorView>(steps[k].result->Err_0),
        run(steps).events == run(steps.take(k + 1)).events,
{
    lemma_run_prefix(steps, k);
    lemma_run_next(steps, k);
    lemma_run_failed(steps, k + 1);
}

/// Steps that succeed make a run that does.
pub proof fn lemma_run_prefix<A>(steps: Seq<Step<A>>, k: int)
    requires
        0 <= k <= steps.len(),
        forall|i: int| 0 <= i < k ==> (#[trigger] steps[i]).result is Ok,
    ensures
        run(steps.take(k)).result is Ok,
    decreases k,
{
    if k > 0 {
        lemma_run_prefix(steps, k - 1);
        lemma_run_next(steps, k - 1);
    }
}

/// Steps that report one outcome each are all reported, in their order, as far
/// as they ran.
pub proof fn run_reports_its_steps<A>(steps: Seq<Step<A>>, k: int)
    requires
        0 <= k <= steps.len(),
        forall|i: int| 0 <= i < k ==> (#[trigger] steps[i]).events.len() == 1,
        forall|i: int| 0 <= i < k - 1 ==> (#[trigger] steps[i]).result is Ok,
    ensures
        run(steps.take(k)).events.len() == k,
        forall|i: int|
            0 <= i < k ==> #[trigger] run(steps.take(k)).events[i] == steps[i].events[0],
    decreases k,
{
    if k > 0 {
        run_reports_its_steps(steps, k - 1);
        lemma_run_prefix(steps, k - 1);
        lemma_run_next(steps, k - 1);
        assert forall|i: int| 0 <= i < k implies #[trigger] run(steps.take(k)).events[i]
            == steps[i].events[0] by {
            if i < k - 1 {
                assert(run(steps.take(k)).events[i] == run(steps.take(k - 1)).events[i]);
            }
        }
    }
}

/// In a run that succeeds every step succeeds, with one result each.
pub proof fn lemma_run_ok<A>(steps: Seq<Step<A>>)
    ensures
        run(steps).result matches Ok(results) ==> results.len() == steps.len() && forall|i: int|
            0 <= i < steps.len() ==> (#[trigger] steps[i]).result == Ok::<A, ErrorView>(
                results[i],
            ),
    decreases steps.len(),
{
    if steps.len() > 0 {
        let fewer = steps.drop_last();
        lemma_run_ok(fewer);
        if let Ok(results) = run(steps).result {
            assert forall|i: int| 0 <= i < steps.len() implies (#[trigger] steps[i]).result
                == Ok::<A, ErrorView>(results[i]) by {
                if i < steps.len() - 1 {
                    assert(fewer[i] == steps[i]);
                }
            }
        }
    }
}

/// A run that fails has a first step that does.
pub proof fn first_failure<A>(steps: Seq<Step<A>>) -> (k: int)
    requires
        run(steps).result is Err,
    ensures
        0 <= k < steps.len(),
        forall|i: int| 0 <= i < k ==> (#[trigger] steps[i]).result is Ok,
        steps[k].result is Err,
    decreases steps.len(),
{
    let fewer = steps.drop_last();
    if run(fewer).result is Err {
        let k = first_failure(fewer);
        assert(fewer[k] == steps[k]);
        assert forall|i: int| 0 <= i < k implies (#[trigger] steps[i]).result is Ok by {
            assert(fewer[i] == steps[i]);
        }
        k
    } else {
        lemma_run_ok(fewer);
        assert forall|i: int| 0 <= i < fewer.len() implies (#[trigger] steps[i]).result is Ok by {
            assert(fewer[i] == steps[i]);
        }
        steps.len() - 1
    }
}

} // verus!
