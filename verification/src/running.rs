//! What a sweep, and a run of sweeps, comes to.

use vstd::prelude::*;
use crate::activation::{
    did, fused_run, fused_stops, given_at, is_fused_sweep, outcomes, queue_run, queue_stops, ran,
    since, stage_run, stage_stops, task_plan, task_popped, task_share, task_unwaiting, Activation,
    Crew, Failure, FusedPlan,
};
use crate::delivery::{with_flagged_woken, with_listed_woken};
use crate::error::{with_worker, Error, Result};
use crate::executor::{
    busy_sweeps, goes_on, is_delivered, listed_at, notes, ready_at, same_progress, Course,
    DataflowExecutor, History, News, PollOutcome,
};
use crate::frontier::{covers, NotificatorView};
use crate::order::Timestamp;
use crate::progress::{expects, frontier_changes, is_frontier, TrackerView};
use crate::schedulable::{comes_of, ActivationOutcome, BoxedOperator, PanicPayload};
use crate::schedule::ScheduleView;
use crate::telling::{
    frontiers_tell_what_may_come, is_at_or_after_one, lemma_filter_keeps, sits_at, still_comes,
};
use crate::verdict::SweepOutcome;
use crate::waking::{
    activations_are_counted, lemma_flagged_lines_up, lemma_listed_lines_up, moves_on,
    those_who_have_news_are_woken, those_who_have_waited_are_woken,
};

verus! {

/// An operator whose frontier has changed is among those that are told of it.
proof fn lemma_told_if_changed<T: Timestamp>(
    b: TrackerView<T>,
    a: TrackerView<T>,
    op: usize,
) -> (i: int)
    requires
        b.operators.contains(op),
        frontier_changes(b.links, b.outstanding, a.outstanding, op),
    ensures
        0 <= i < b.changed(a.outstanding).len(),
        b.changed(a.outstanding)[i] == op,
{
    let changes = |x: usize| frontier_changes(b.links, b.outstanding, a.outstanding, x);
    let k = choose|k: int| 0 <= k < b.operators.len() && b.operators[k] == op;
    lemma_filter_keeps(b.operators, changes, k);
    let listed = b.changed(a.outstanding);
    choose|i: int| 0 <= i < listed.len() && listed[i] == op
}

/// What waits for notifications at an operator knows, after progress was propagated, which times may
/// still come to the operator, if it knew before; and it waits for the same times as before.
pub proof fn notificators_know_their_frontier<T: Timestamp>(
    before: DataflowExecutor<T>,
    after: DataflowExecutor<T>,
    news: News<T>,
    woke: bool,
    op: usize,
    p: int,
    n: NotificatorView<T>,
    t: T,
)
    requires
        before.delivers(&after, news, woke),
        before.progress_tracker is Some,
        0 <= p < before.notificators@.len(),
        sits_at(before.index_to_pos@, op, p),
        before.tracker_view()->0.operators.contains(op),
        notes(before.notificators@)[p] == Some(n),
        is_frontier(
            before.tracker_view()->0.links,
            before.tracker_view()->0.outstanding,
            op,
            n.frontier,
        ),
    ensures
        after.notificators@.len() == before.notificators@.len(),
        notes(after.notificators@)[p] matches Some(a) && a.pending == n.pending && (
        is_at_or_after_one(a.frontier, t) <==> still_comes(
            after.tracker_view()->0.links,
            after.tracker_view()->0.outstanding,
            op,
            t,
        )),
{
    let b = before.tracker_view()->0;
    let a = after.tracker_view()->0;
    let map = before.index_to_pos@;
    let listed = b.changed(a.outstanding);
    let old_notes = notes(before.notificators@);
    let new_notes = notes(after.notificators@);
    assert(is_delivered(a, map, listed, p, old_notes[p], new_notes[p]));
    assert(new_notes[p] is Some);
    let f = new_notes[p]->0.frontier;
    if exists|i: int| #[trigger] listed_at(map, listed, i, p) {
        let i = choose|i: int| #[trigger]
            listed_at(map, listed, i, p) && is_frontier(a.links, a.outstanding, listed[i], f);
        assert(listed[i] == op);
    } else {
        if frontier_changes(b.links, b.outstanding, a.outstanding, op) {
            let i = lemma_told_if_changed(b, a, op);
            assert(listed_at(map, listed, i, p));
        }
        assert forall|x: T| #[trigger] covers(f, x) <==> expects(
            a.links,
            a.outstanding,
            op,
            x,
        ) by {
            assert(expects(b.links, b.outstanding, op, x) == expects(
                b.links,
                a.outstanding,
                op,
                x,
            ));
        }
    }
    frontiers_tell_what_may_come(a.links, a.outstanding, op, f, t);
}

/// After progress was propagated every operator that is told of a new frontier, or whose notification can
/// be delivered, has its turn in the next sweep, unless it has finished.
pub proof fn those_concerned_have_their_turn<T: Timestamp>(
    before: DataflowExecutor<T>,
    after: DataflowExecutor<T>,
    news: News<T>,
    woke: bool,
    op: usize,
    p: int,
)
    requires
        before.delivers(&after, news, woke),
        before.progress_tracker is Some,
        before.schedule@.tasks.len() == 0,
        0 <= p < before.crew.operators@.len() <= usize::MAX,
        p < before.schedule@.in_queue.len(),
        !before.schedule@.done[p],
    ensures
        after.crew.operators@[p].notifying() ==> after.schedule@.in_queue[p],
        p < after.notificators@.len() && (notes(after.notificators@)[p] matches Some(n) && exists|
            i: int,
        |
            0 <= i < n.pending.len() && !is_at_or_after_one(n.frontier, #[trigger] n.pending[i]))
            ==> after.schedule@.in_queue[p],
        before.tracker_view()->0.operators.contains(op) && sits_at(before.index_to_pos@, op, p)
            && frontier_changes(
            before.tracker_view()->0.links,
            before.tracker_view()->0.outstanding,
            after.tracker_view()->0.outstanding,
            op,
        ) ==> after.schedule@.in_queue[p],
        before.schedule@.in_queue[p] ==> after.schedule@.in_queue[p],
        after.schedule@.done == before.schedule@.done,
{
    let b = before.tracker_view()->0;
    let a = after.tracker_view()->0;
    let map = before.index_to_pos@;
    let listed = b.changed(a.outstanding);
    let n = before.crew.operators@.len();
    let flags = Seq::new(
        n,
        |q: int| after.crew.operators@[q].notifying() || ready_at(notes(after.notificators@), q),
    );
    let s = before.schedule@;
    let mid = with_listed_woken(s, map, listed, listed.len());
    lemma_listed_lines_up(s, map, listed, listed.len());
    lemma_flagged_lines_up(mid, flags, n);
    assert(after.schedule@ == with_flagged_woken(mid, flags, n));
    if p < after.notificators@.len() && (notes(after.notificators@)[p] matches Some(x) && exists|
        i: int,
    |
        0 <= i < x.pending.len() && !is_at_or_after_one(x.frontier, #[trigger] x.pending[i])) {
        let x = notes(after.notificators@)[p]->0;
        let i = choose|i: int|
            0 <= i < x.pending.len() && !is_at_or_after_one(x.frontier, #[trigger] x.pending[i]);
        assert(!covers(x.frontier, x.pending[i]));
        assert(ready_at(notes(after.notificators@), p));
    }
    if flags[p] {
        those_who_have_waited_are_woken(mid, flags, n, p);
    }
    if b.operators.contains(op) && sits_at(map, op, p) && frontier_changes(
        b.links,
        b.outstanding,
        a.outstanding,
        op,
    ) {
        let i = lemma_told_if_changed(b, a, op);
        those_who_have_news_are_woken(s, map, listed, listed.len(), i);
        assert(mid.in_queue[p]);
    }
    if s.in_queue[p] {
        assert(mid.in_queue[p]);
    }
}

/// A sweep of a dataflow whose operators have all finished, or that is to stop, activates nothing; a
/// request to stop is answered with the error about it.
pub proof fn sweeps_end_where_nothing_is_left<T: Timestamp>(
    before: DataflowExecutor<T>,
    after: DataflowExecutor<T>,
    c: Course<T>,
    r: Result<SweepOutcome>,
)
    requires
        before.sweeps_by(&after, c, r),
    ensures
        c.cancelled && !before.draining && before.config.drain_timeout is None
            ==> r == Err::<SweepOutcome, Error>(Error::Cancelled { reason: None }),
        c.cancelled && before.draining && c.expired ==> r == Err::<SweepOutcome, Error>(
            Error::Cancelled { reason: None },
        ),
        c.cancelled && !before.draining && before.config.drain_timeout is Some
            ==> after.draining,
        !c.cancelled ==> after.draining == before.draining,
        !c.cancelled && (forall|p: int|
            0 <= p < before.schedule@.done.len() ==> #[trigger] before.schedule@.done[p])
            ==> r == Ok::<SweepOutcome, Error>(SweepOutcome::Completed) && after.crew
            == before.crew && after.schedule == before.schedule,
        !c.cancelled && c.progress is Ok && (exists|p: int|
            0 <= p < before.schedule@.done.len() && !#[trigger] before.schedule@.done[p])
            ==> r is Ok,
        !c.cancelled && (exists|p: int|
            0 <= p < before.schedule@.done.len() && !#[trigger] before.schedule@.done[p]) && (
        c.progress matches Err(e)) ==> r is Err && r->Err_0 == c.progress->Err_0,
{
}

/// When a dataflow is closed, every operator that has not finished is told that nothing more comes, and
/// all count as finished; as long as it is not, nothing changes.
pub proof fn closing_tells_everyone<T: Timestamp>(
    before: DataflowExecutor<T>,
    after: DataflowExecutor<T>,
    progress: bool,
    inputs_open: bool,
    outcome: SweepOutcome,
    p: int,
)
    requires
        before.concludes(&after, progress, inputs_open, outcome),
        0 <= p < before.crew.operators@.len(),
        before.crew.operators@.len() == before.schedule@.done.len(),
    ensures
        !(outcome is Completed) ==> after.crew.operators@ == before.crew.operators@
            && after.schedule@ == before.schedule@,
        after.schedule@.done[p] && !before.schedule@.done[p]
            ==> after.crew.operators@[p].dismissed(),
        before.schedule@.done[p] ==> after.schedule@.done[p] && after.crew.operators@[p]
            == before.crew.operators@[p],
        outcome is Idle || outcome is MadeProgress ==> after.schedule@ == before.schedule@,
        after.crew.operators@.len() == before.crew.operators@.len(),
{
    let v = before.standing(progress, inputs_open).verdict();
    if v.close {
        assert(after.schedule@.done[p]);
        assert(before.schedule@.done[p] ==> after.crew.operators@[p] == before.crew.operators@[p]);
    }
}

/// A run goes on as long as there is something to do, and tells how it ended: that everything was
/// processed, that nothing more can come of it, or what went wrong.
pub proof fn runs_tell_how_they_ended<T: Timestamp>(
    before: DataflowExecutor<T>,
    after: DataflowExecutor<T>,
    r: Result<bool>,
    h: History<T>,
    i: int,
)
    requires
        before.runs_by(&after, r, h),
    ensures
        h.outcomes.len() > 0,
        0 <= i < h.outcomes.len() - 1 ==> (h.outcomes[i] matches Ok(o) && (o is MadeProgress
            || o is Idle || o is WaitingForInput)),
        r == Ok::<bool, Error>(true) <==> h.outcomes.last() == Ok::<SweepOutcome, Error>(
            SweepOutcome::Completed,
        ),
        r == Ok::<bool, Error>(false) <==> h.outcomes.last() == Ok::<SweepOutcome, Error>(
            SweepOutcome::Quiescent,
        ),
        h.outcomes.last() matches Err(e) ==> r is Err && r->Err_0 == h.outcomes.last()->Err_0,
        r is Ok ==> h.outcomes.last() is Ok,
        after.schedule == h.states.last().schedule,
        after.crew.operators == h.states.last().crew.operators,
{
    if 0 <= i < h.outcomes.len() - 1 {
        assert(goes_on(h.outcomes[i]));
    }
}

/// A poll that is not through has either come to wait for input or used up its sweeps; one that is
/// through has ended as a run does.
pub proof fn polls_end_for_a_reason<T: Timestamp>(
    before: DataflowExecutor<T>,
    after: DataflowExecutor<T>,
    p: PollOutcome,
    h: History<T>,
)
    requires
        before.polls_by(&after, p, h),
    ensures
        p is Pending && h.outcomes.last() != Ok::<SweepOutcome, Error>(
            SweepOutcome::WaitingForInput,
        ) ==> before.config.max_sweeps_per_poll > 0 && h.outcomes.filter(
            |o: Result<SweepOutcome>| o != Ok::<SweepOutcome, Error>(SweepOutcome::WaitingForInput),
        ).len() == before.config.max_sweeps_per_poll,
        p matches PollOutcome::Ready(r) ==> (r == Ok::<bool, Error>(true) <==> h.outcomes.last()
            == Ok::<SweepOutcome, Error>(SweepOutcome::Completed)),
        p is Pending ==> (h.outcomes.last() matches Ok(o) && !(o is Completed) && !(
        o is Quiescent)),
{
    lemma_busy(h.outcomes);
    if p is Pending {
        assert(goes_on(h.outcomes[h.outcomes.len() - 1]));
    }
}

proof fn lemma_busy(outcomes: Seq<Result<SweepOutcome>>)
    ensures
        busy_sweeps(outcomes) == outcomes.filter(
            |o: Result<SweepOutcome>| o != Ok::<SweepOutcome, Error>(SweepOutcome::WaitingForInput),
        ).len(),
    decreases outcomes.len(),
{
    reveal(Seq::filter);
    if outcomes.len() > 0 {
        lemma_busy(outcomes.drop_last());
    }
}

/// An error is that of an operator that was activated on a worker: what the operator answered, with the
/// worker filled in where none was named, or what it panicked with, under its name.
pub open spec fn is_fault_of<T: Timestamp>(op: BoxedOperator<T>, worker: usize, e: Error) -> bool {
    match op.answers().last() {
        Ok(Ok(_)) => false,
        Ok(Err(found)) => match (found, e) {
            (
                Error::Operator { operator: a, worker_index: None, message: m },
                Error::Operator { operator: b, worker_index: w, message: n },
            ) => a == b && w == Some(worker) && m == n,
            (
                Error::OperatorPanic { operator: a, worker_index: None, message: m },
                Error::OperatorPanic { operator: b, worker_index: w, message: n },
            ) => a == b && w == Some(worker) && m == n,
            _ => e == found,
        },
        Err(payload) => e matches Error::OperatorPanic { operator, worker_index, message } && operator@
            == op.label() && worker_index == Some(worker) && message@ == match payload {
            PanicPayload::Text(s) => s@,
            PanicPayload::Owned(s) => s@,
            PanicPayload::Other => "unknown panic payload"@,
        },
    }
}

proof fn lemma_fault<T: Timestamp>(before: Crew<T>, after: Crew<T>, f: Failure)
    requires
        ran(before, after, Some(f)),
    ensures
        f.pos < after.operators@.len(),
        is_fault_of(after.operators@[f.pos as int], after.worker_index, f.error),
{
    let op = after.operators@[f.pos as int];
    let answer = op.answers().last();
    let e0 = choose|e0: Error|
        comes_of(op.label(), answer, Err::<ActivationOutcome, Error>(e0)) && f.error
            == #[trigger] with_worker(e0, after.worker_index);
    assert(comes_of(op.label(), answer, Err::<ActivationOutcome, Error>(e0)));
}

/// If a sweep fails, it fails with the error of an operator that was activated in it.
pub proof fn sweeps_fail_as_an_operator_did<T: Timestamp>(
    before: DataflowExecutor<T>,
    after: DataflowExecutor<T>,
    e: Error,
) -> (p: int)
    requires
        before.activates(&after, Err::<bool, Error>(e)),
    ensures
        0 <= p < after.crew.operators@.len(),
        is_fault_of(after.crew.operators@[p], after.crew.worker_index, e),
{
    let r = Err::<bool, Error>(e);
    let max = before.config.max_activations_per_step;
    let b = (before.crew, before.schedule@);
    let a = (after.crew, after.schedule@);
    if before.schedule@.tasks.len() > 0 {
        let start = b.1.refilled_tasks();
        let (k, m) = choose|k: nat, m: nat|
            k < start.ready.len() && #[trigger] stage_stops(b.0, start, a, max as nat, k, m, e);
        let run = since(b.0, a.0);
        let mid = stage_run(start, k, max as nat, outcomes(run));
        let t = mid.s.ready[0] as int;
        let taken = task_popped(mid.s);
        let plan = task_plan(taken, t, task_share(max as nat, mid.productive));
        let end = fused_run(
            plan,
            task_unwaiting(taken, t),
            m,
            outcomes(run).skip(mid.used as int),
        );
        let f = Failure { pos: plan.order[end.at], error: e };
        lemma_fault(b.0, a.0, f);
        f.pos as int
    } else {
        match before.fused_order {
            Some(order) => {
                let plan = FusedPlan { order: order.positions@, budget: max as nat, wakes: true };
                let from = (before.crew, before.schedule@.emptied());
                let q = choose|q: Result<(bool, usize)>| #[trigger]
                    is_fused_sweep(plan, from, a, q) && same_progress(q, r);
                assert(q == Err::<(bool, usize), Error>(e));
                let m = choose|m: nat| #[trigger] fused_stops(plan, from, a, m, e);
                let end = fused_run(plan, from.1, m, outcomes(since(from.0, a.0)));
                let f = Failure { pos: plan.order[end.at], error: e };
                lemma_fault(from.0, a.0, f);
                f.pos as int
            },
            None => {
                let start = b.1.refilled();
                let n = if start.ready.len() <= max {
                    start.ready.len()
                } else {
                    max as nat
                };
                let j = choose|j: nat| j < n && #[trigger] queue_stops(b.0, start, a, j, e);
                let end = queue_run(start, j, outcomes(since(b.0, a.0)));
                let f = Failure { pos: end.s.ready[0], error: e };
                lemma_fault(b.0, a.0, f);
                f.pos as int
            },
        }
    }
}

/// Sweeps without progress are counted, and progress begins the count anew.
pub proof fn idle_sweeps_are_counted<T: Timestamp>(
    before: DataflowExecutor<T>,
    after: DataflowExecutor<T>,
    progress: bool,
)
    requires
        before.activates(&after, Ok::<bool, Error>(progress)),
        before.consecutive_idle < usize::MAX,
    ensures
        progress ==> after.consecutive_idle == 0,
        !progress ==> after.consecutive_idle == before.consecutive_idle + 1,
{
}

/// A dataflow is through only after enough sweeps without progress, when no operator awaits results,
/// no input is open, or the dataflow is drained, and nothing is outstanding that it keeps track of.
pub proof fn dataflows_end_when_nothing_is_outstanding<T: Timestamp>(
    before: DataflowExecutor<T>,
    after: DataflowExecutor<T>,
    progress: bool,
    inputs_open: bool,
    outcome: SweepOutcome,
)
    requires
        before.concludes(&after, progress, inputs_open, outcome),
    ensures
        outcome is Completed || outcome is Quiescent ==> {
            &&& before.consecutive_idle >= before.config.max_idle_sweeps
            &&& forall|p: int|
                0 <= p < before.schedule@.waiting.len() ==> !#[trigger] before.schedule@.waiting[p]
            &&& !inputs_open || before.draining
            &&& before.progress_tracker matches Some(t) ==> t@.outstanding.len() == 0
        },
        outcome is Quiescent ==> before.progress_tracker is None,
        before.consecutive_idle < before.config.max_idle_sweeps ==> (outcome is MadeProgress
            <==> progress),
        before.consecutive_idle >= before.config.max_idle_sweeps && (exists|p: int|
            0 <= p < before.schedule@.waiting.len() && #[trigger] before.schedule@.waiting[p])
            ==> outcome is WaitingForInput,
{
    let s = before.standing(progress, inputs_open);
    if !s.waiting {
        assert forall|p: int|
            0 <= p < before.schedule@.waiting.len() implies !#[trigger] before.schedule@.waiting[p] by {}
    }
}

/// What is counted of an operator is how often it was activated, and what it has answered are just the
/// outcomes of those activations.
pub proof fn metrics_count_what_ran<T: Timestamp>(before: Crew<T>, after: Crew<T>, p: usize)
    requires
        ran(before, after, None),
        p < before.operators@.len(),
    ensures
        ({
            let own = after.trace@.skip(before.trace@.len() as int).filter(
                |a: Activation| a.pos == p,
            );
            &&& after.operators@[p as int].answers().len()
                == before.operators@[p as int].answers().len() + own.len()
            &&& forall|i: int|
                0 <= i < own.len()
                    ==> after.operators@[p as int].answers()[before.operators@[p as int].answers().len()
                    + i] == Ok::<Result<ActivationOutcome>, PanicPayload>(
                    Ok((#[trigger] own[i]).outcome),
                )
            &&& before.metrics is Some <==> after.metrics is Some
            &&& before.metrics matches Some(b) ==> (after.metrics matches Some(a) && a@.operators
                == b@.operators && (p < b@.activations.len() && b@.activations[p as int] + own.len()
                <= u64::MAX ==> a@.activations[p as int] == b@.activations[p as int] + own.len()))
        }),
{
    let run = since(before, after);
    activations_are_counted(run, p);
    let old_op = before.operators@[p as int];
    let new_op = after.operators@[p as int];
    assert(did(old_op, new_op, given_at(run, p as int), None, p as int));
    assert(new_op.answers() == old_op.answers() + given_at(run, p as int));
}

proof fn lemma_queue_progress(s: ScheduleView, k: nat, given: Seq<ActivationOutcome>)
    ensures
        ({
            let end = queue_run(s, k, given);
            &&& end.used == end.order.len()
            &&& end.progress <==> exists|i: int|
                0 <= i < end.used && moves_on(#[trigger] given[i])
        }),
    decreases k,
{
    if k > 0 {
        lemma_queue_progress(s, (k - 1) as nat, given);
        let before = queue_run(s, (k - 1) as nat, given);
        let end = queue_run(s, k, given);
        if end.used > before.used {
            let outcome = given[before.used as int];
            if before.progress {
                let i = choose|i: int| 0 <= i < before.used && moves_on(#[trigger] given[i]);
                assert(0 <= i < end.used && moves_on(given[i]));
            }
            assert(outcome.productive() <==> moves_on(outcome));
        }
    }
}

/// A sweep over the queue has made progress just if one of its activations has.
pub proof fn progress_is_made_by_activations<T: Timestamp>(
    before: DataflowExecutor<T>,
    after: DataflowExecutor<T>,
    progress: bool,
)
    requires
        before.activates(&after, Ok::<bool, Error>(progress)),
        before.schedule@.tasks.len() == 0,
        before.fused_order is None,
    ensures
        ({
            let run = after.crew.trace@.skip(before.crew.trace@.len() as int);
            progress <==> exists|i: int|
                0 <= i < run.len() && moves_on((#[trigger] run[i]).outcome)
        }),
{
    let run = since(before.crew, after.crew);
    let start = before.schedule@.refilled();
    let max = before.config.max_activations_per_step;
    let k = if start.ready.len() <= max {
        start.ready.len()
    } else {
        max as nat
    };
    let given = outcomes(run);
    lemma_queue_progress(start, k, given);
    let end = queue_run(start, k, given);
    assert(end.order.len() == run.len());
    if progress {
        let i = choose|i: int| 0 <= i < end.used && moves_on(#[trigger] given[i]);
        assert(moves_on(run[i].outcome));
    }
    if exists|i: int| 0 <= i < run.len() && moves_on((#[trigger] run[i]).outcome) {
        let i = choose|i: int| 0 <= i < run.len() && moves_on((#[trigger] run[i]).outcome);
        assert(moves_on(given[i]));
    }
}

} // verus!
