//! What holds of all sweeps.

use vstd::prelude::*;
use crate::activation::{
    fused_end, fused_end_is_unique, fused_run, is_fused_sweep, outcomes, queue_run, since, stage_run, task_plan,
    task_popped, task_share, task_unwaiting, FusedPlan,
};
use crate::delivery::{with_flagged_woken, with_listed_woken};
use crate::error::Result;
use crate::executor::{Course, DataflowExecutor, History, PollOutcome};
use crate::order::Timestamp;
use crate::schedulable::ActivationOutcome;
use crate::schedule::{count_true, ScheduleView};
use crate::verdict::SweepOutcome;

verus! {

/// What has finished stays finished.
pub open spec fn keeps_finished(a: ScheduleView, b: ScheduleView) -> bool {
    &&& b.done.len() == a.done.len()
    &&& forall|p: int| 0 <= p < a.done.len() && a.done[p] ==> #[trigger] b.done[p]
}

/// None of the listed operators has finished.
pub open spec fn all_unfinished(s: ScheduleView, order: Seq<usize>) -> bool {
    forall|i: int|
        0 <= i < order.len() ==> !(0 <= (#[trigger] order[i]) < s.done.len()
            && s.done[order[i] as int])
}

/// All queued operators exist, where operators are queued one by one.
pub open spec fn queue_in_range(s: ScheduleView) -> bool {
    &&& s.tasks.len() == 0
    &&& forall|i: int| 0 <= i < s.ready.len() ==> #[trigger] s.ready[i] < s.done.len()
}

/// All queued stage tasks exist, and so do all their operators.
pub open spec fn tasks_in_range(s: ScheduleView) -> bool {
    &&& forall|i: int| 0 <= i < s.ready.len() ==> #[trigger] s.ready[i] < s.tasks.len()
    &&& forall|t: int, i: int|
        0 <= t < s.tasks.len() && 0 <= i < s.tasks[t].len() ==> #[trigger] s.tasks[t][i]
            < s.done.len()
}

/// All operators of a fused sweep exist.
pub open spec fn plan_in_range(plan: FusedPlan, s: ScheduleView) -> bool {
    forall|i: int| 0 <= i < plan.order.len() ==> #[trigger] plan.order[i] < s.done.len()
}

proof fn lemma_successors_woken(s: ScheduleView, p: int, k: nat)
    ensures
        s.with_successors_woken(p, k).done == s.done,
        s.with_successors_woken(p, k).tasks == s.tasks,
        queue_in_range(s) ==> queue_in_range(s.with_successors_woken(p, k)),
    decreases k,
{
    if k > 0 {
        lemma_successors_woken(s, p, (k - 1) as nat);
        let before = s.with_successors_woken(p, (k - 1) as nat);
        let q = s.successors[p][k - 1];
        if queue_in_range(s) {
            let after = s.with_successors_woken(p, k);
            assert forall|i: int| 0 <= i < after.ready.len() implies #[trigger] after.ready[i]
                < after.done.len() by {
                if i < before.ready.len() {
                    assert(after.ready[i] == before.ready[i]);
                }
            }
        }
    }
}

proof fn lemma_finish(s: ScheduleView, p: usize)
    requires
        p < s.done.len(),
    ensures
        ({
            let finished = ScheduleView {
                done: s.done.update(p as int, true),
                waiting: s.waiting.update(p as int, false),
                ..s
            };
            &&& keeps_finished(s, finished.with_completion(p as int))
            &&& queue_in_range(s) ==> queue_in_range(finished.with_completion(p as int))
        }),
{
    let finished = ScheduleView {
        done: s.done.update(p as int, true),
        waiting: s.waiting.update(p as int, false),
        ..s
    };
    if (p as int) < finished.successors.len() {
        lemma_successors_woken(finished, p as int, finished.successors[p as int].len());
    }
}

proof fn lemma_after(s: ScheduleView, p: usize, outcome: ActivationOutcome, wakes: bool)
    requires
        p < s.done.len(),
    ensures
        keeps_finished(s, s.after(p, outcome)),
        queue_in_range(s) ==> queue_in_range(s.after(p, outcome)),
        keeps_finished(s, s.after_fused(p, outcome, wakes)),
        !wakes ==> s.after_fused(p, outcome, wakes).ready == s.ready,
        !wakes ==> s.after_fused(p, outcome, wakes).tasks == s.tasks,
{
    lemma_finish(s, p);
}

/// A sweep over the queue keeps what has finished, activates nothing that has, and makes at most as
/// many activations as it takes entries out of the queue.
pub proof fn queue_sweeps_spare_the_finished(
    s: ScheduleView,
    k: nat,
    given: Seq<ActivationOutcome>,
)
    requires
        queue_in_range(s),
    ensures
        keeps_finished(s, queue_run(s, k, given).s),
        all_unfinished(s, queue_run(s, k, given).order),
        queue_run(s, k, given).order.len() <= k,
        queue_in_range(queue_run(s, k, given).s),
    decreases k,
{
    if k > 0 {
        queue_sweeps_spare_the_finished(s, (k - 1) as nat, given);
        let before = queue_run(s, (k - 1) as nat, given);
        if before.s.ready.len() > 0 {
            let p = before.s.ready[0];
            let taken = before.s.popped();
            assert(queue_in_range(taken)) by {
                assert forall|i: int| 0 <= i < taken.ready.len() implies #[trigger] taken.ready[i]
                    < taken.done.len() by {
                    assert(taken.ready[i] == before.s.ready[i + 1]);
                }
            }
            if !taken.done[p as int] {
                let outcome = given[before.used as int];
                lemma_after(taken, p, outcome, false);
                let order = before.order.push(p);
                assert forall|i: int| 0 <= i < order.len() implies !(0 <= (
                #[trigger] order[i]) < s.done.len() && s.done[order[i] as int]) by {
                    if i < before.order.len() {
                        assert(order[i] == before.order[i]);
                    }
                }
            }
        }
    }
}

/// A fused sweep keeps what has finished, activates nothing that has, and makes at most as many
/// productive activations as its budget allows.
pub proof fn fused_sweeps_spare_the_finished(
    plan: FusedPlan,
    s: ScheduleView,
    m: nat,
    given: Seq<ActivationOutcome>,
)
    requires
        plan_in_range(plan, s),
    ensures
        keeps_finished(s, fused_run(plan, s, m, given).s),
        all_unfinished(s, fused_run(plan, s, m, given).order),
        fused_run(plan, s, m, given).productive <= plan.budget,
        !plan.wakes ==> fused_run(plan, s, m, given).s.ready == s.ready,
        !plan.wakes ==> fused_run(plan, s, m, given).s.tasks == s.tasks,
    decreases m,
{
    lemma_place(plan, s, m, given);
    if m > 0 {
        fused_sweeps_spare_the_finished(plan, s, (m - 1) as nat, given);
        lemma_place(plan, s, (m - 1) as nat, given);
        let run = fused_run(plan, s, (m - 1) as nat, given);
        if !run.over && run.at < plan.order.len() {
            let p = plan.order[run.at];
            if !run.s.done[p as int] && run.productive < plan.budget {
                let outcome = given[run.used as int];
                lemma_after(run.s, p, outcome, plan.wakes);
                let order = run.order.push(p);
                assert forall|i: int| 0 <= i < order.len() implies !(0 <= (
                #[trigger] order[i]) < s.done.len() && s.done[order[i] as int]) by {
                    if i < run.order.len() {
                        assert(order[i] == run.order[i]);
                    }
                }
            }
        }
    }
}

proof fn lemma_place(plan: FusedPlan, s: ScheduleView, m: nat, given: Seq<ActivationOutcome>)
    ensures
        fused_run(plan, s, m, given).at >= 0,
    decreases m,
{
    if m > 0 {
        lemma_place(plan, s, (m - 1) as nat, given);
    }
}

/// A sweep over stage tasks keeps what has finished, activates nothing that has, and makes at most
/// as many productive activations as its budget allows, and one more for each task.
pub proof fn stage_sweeps_spare_the_finished(
    s: ScheduleView,
    k: nat,
    budget: nat,
    given: Seq<ActivationOutcome>,
)
    requires
        tasks_in_range(s),
    ensures
        keeps_finished(s, stage_run(s, k, budget, given).s),
        all_unfinished(s, stage_run(s, k, budget, given).order),
        stage_run(s, k, budget, given).productive <= budget + k,
        tasks_in_range(stage_run(s, k, budget, given).s),
    decreases k,
{
    if k > 0 {
        stage_sweeps_spare_the_finished(s, (k - 1) as nat, budget, given);
        let before = stage_run(s, (k - 1) as nat, budget, given);
        if before.s.ready.len() > 0 {
            let t = before.s.ready[0] as int;
            let taken = task_popped(before.s);
            assert(tasks_in_range(taken)) by {
                assert forall|i: int| 0 <= i < taken.ready.len() implies #[trigger] taken.ready[i]
                    < taken.tasks.len() by {
                    assert(taken.ready[i] == before.s.ready[i + 1]);
                }
            }
            if !taken.task_done(t) {
                let rest = given.skip(before.used as int);
                let plan = task_plan(taken, t, task_share(budget, before.productive));
                let from = task_unwaiting(taken, t);
                let end = fused_end(plan, from, rest);
                let m = choose|m: nat| #[trigger] fused_run(plan, from, m, rest).over;
                fused_sweeps_spare_the_finished(plan, from, m, rest);
                let order = before.order + end.order;
                assert forall|i: int| 0 <= i < order.len() implies !(0 <= (
                #[trigger] order[i]) < s.done.len() && s.done[order[i] as int]) by {
                    if i < before.order.len() {
                        assert(order[i] == before.order[i]);
                    } else {
                        assert(order[i] == end.order[i - before.order.len()]);
                    }
                }
            }
        }
    }
}

/// Operators that are idle spend no budget: a fused sweep in which all activations are idle visits
/// each operator once, in order, ends after one pass, and makes no progress.
pub proof fn idle_operators_spend_no_budget(
    plan: FusedPlan,
    s: ScheduleView,
    given: Seq<ActivationOutcome>,
)
    requires
        plan_in_range(plan, s),
        plan.budget > 0,
        forall|i: int| 0 <= i < plan.order.len() ==> !s.done[(#[trigger] plan.order[i]) as int],
        forall|i: int| 0 <= i < plan.order.len() ==> #[trigger] given[i] is Idle,
    ensures
        fused_end(plan, s, given).over,
        fused_end(plan, s, given).order == plan.order,
        fused_end(plan, s, given).productive == 0,
{
    let n = plan.order.len();
    lemma_idle_steps(plan, s, n, given);
    let run = fused_run(plan, s, n, given);
    assert(fused_run(plan, s, n + 1, given).over);
    fused_end_is_unique(plan, s, n + 1, given);
    assert(plan.order.take(n as int) =~= plan.order);
}

proof fn lemma_idle_steps(
    plan: FusedPlan,
    s: ScheduleView,
    m: nat,
    given: Seq<ActivationOutcome>,
)
    requires
        m <= plan.order.len(),
        plan_in_range(plan, s),
        plan.budget > 0,
        forall|i: int| 0 <= i < plan.order.len() ==> !s.done[(#[trigger] plan.order[i]) as int],
        forall|i: int| 0 <= i < plan.order.len() ==> #[trigger] given[i] is Idle,
    ensures
        ({
            let run = fused_run(plan, s, m, given);
            &&& run.at == m
            &&& run.used == m
            &&& run.order == plan.order.take(m as int)
            &&& run.productive == 0
            &&& !run.again
            &&& !run.over
            &&& run.s.done == s.done
        }),
    decreases m,
{
    if m > 0 {
        lemma_idle_steps(plan, s, (m - 1) as nat, given);
        assert(given[m - 1] is Idle);
        assert(!s.done[plan.order[m - 1] as int]);
        assert(plan.order.take(m as int) =~= plan.order.take(m - 1).push(plan.order[m - 1]));
    } else {
        assert(plan.order.take(0) =~= Seq::<usize>::empty());
    }
}

/// A fused sweep leaves the queue of stage tasks alone.
proof fn lemma_fused_queue(plan: FusedPlan, s: ScheduleView, m: nat, given: Seq<ActivationOutcome>)
    requires
        !plan.wakes,
    ensures
        fused_run(plan, s, m, given).s.ready == s.ready,
        fused_run(plan, s, m, given).s.tasks == s.tasks,
    decreases m,
{
    if m > 0 {
        lemma_fused_queue(plan, s, (m - 1) as nat, given);
    }
}

/// As long as nothing was activated, all operators that were visited have finished.
proof fn lemma_fused_visits(
    plan: FusedPlan,
    s: ScheduleView,
    m: nat,
    given: Seq<ActivationOutcome>,
)
    requires
        plan.budget > 0,
    ensures
        ({
            let run = fused_run(plan, s, m, given);
            &&& run.at >= 0
            &&& run.order.len() == 0 ==> {
                &&& run.s == s
                &&& !run.again
                &&& run.productive == 0
                &&& forall|i: int|
                    0 <= i < run.at && i < plan.order.len() ==> s.done[(
                    #[trigger] plan.order[i]) as int]
                &&& run.over ==> run.at >= plan.order.len()
            }
            &&& forall|i: int|
                0 <= i < run.order.len() ==> plan.order.contains(#[trigger] run.order[i])
        }),
    decreases m,
{
    if m > 0 {
        lemma_fused_visits(plan, s, (m - 1) as nat, given);
        let before = fused_run(plan, s, (m - 1) as nat, given);
        let run = fused_run(plan, s, m, given);
        if run.order.len() > before.order.len() {
            assert forall|i: int| 0 <= i < run.order.len() implies plan.order.contains(
                #[trigger] run.order[i],
            ) by {
                if i < before.order.len() {
                    assert(run.order[i] == before.order[i]);
                } else {
                    assert(plan.order[before.at] == run.order[i]);
                }
            }
        }
    }
}

/// The stage tasks leave the queue one after the other.
proof fn lemma_stage_queue(s: ScheduleView, k: nat, budget: nat, given: Seq<ActivationOutcome>)
    requires
        k <= s.ready.len(),
    ensures
        stage_run(s, k, budget, given).s.ready == s.ready.skip(k as int),
        stage_run(s, k, budget, given).s.tasks == s.tasks,
    decreases k,
{
    if k > 0 {
        lemma_stage_queue(s, (k - 1) as nat, budget, given);
        let before = stage_run(s, (k - 1) as nat, budget, given);
        let t = before.s.ready[0] as int;
        let taken = task_popped(before.s);
        assert(taken.ready =~= s.ready.skip(k as int));
        if !taken.task_done(t) {
            let rest = given.skip(before.used as int);
            let plan = task_plan(taken, t, task_share(budget, before.productive));
            let from = task_unwaiting(taken, t);
            let m = choose|m: nat| #[trigger] fused_run(plan, from, m, rest).over;
            lemma_fused_queue(plan, from, m, rest);
        }
    } else {
        assert(s.ready.skip(0) =~= s.ready);
    }
}

proof fn lemma_stage_order(
    s: ScheduleView,
    j: nat,
    k: nat,
    budget: nat,
    given: Seq<ActivationOutcome>,
    p: usize,
)
    requires
        j <= k,
        stage_run(s, j, budget, given).order.contains(p),
    ensures
        stage_run(s, k, budget, given).order.contains(p),
    decreases k,
{
    if j < k {
        lemma_stage_order(s, j, (k - 1) as nat, budget, given, p);
        let before = stage_run(s, (k - 1) as nat, budget, given).order;
        let after = stage_run(s, k, budget, given).order;
        let i = choose|i: int| 0 <= i < before.len() && before[i] == p;
        assert(after[i] == p);
    }
}

/// In a sweep over stage tasks, each queued task has an operator activated, whatever the tasks in
/// front of it do, unless all its operators have finished when its turn comes.
pub proof fn stage_sweeps_starve_nobody(
    s: ScheduleView,
    j: nat,
    budget: nat,
    given: Seq<ActivationOutcome>,
)
    requires
        j < s.ready.len(),
        stage_run(s, s.ready.len(), budget, given).sound,
        !stage_run(s, j, budget, given).s.task_done(s.ready[j as int] as int),
    ensures
        exists|p: usize| #[trigger]
            stage_run(s, s.ready.len(), budget, given).order.contains(p)
                && s.tasks[s.ready[j as int] as int].contains(p),
{
    let k = (j + 1) as nat;
    lemma_stage_queue(s, j, budget, given);
    lemma_stage_sound(s, k, s.ready.len(), budget, given);
    let before = stage_run(s, j, budget, given);
    let t = before.s.ready[0] as int;
    let taken = task_popped(before.s);
    assert(t == s.ready[j as int]);
    if taken.task_done(t) {
        assert forall|i: int| 0 <= i < before.s.tasks[t].len() implies before.s.done[(
        #[trigger] before.s.tasks[t][i]) as int] by {
            assert(taken.done[taken.tasks[t][i] as int]);
        }
        assert(before.s.task_done(t));
    }
    let rest = given.skip(before.used as int);
    let plan = task_plan(taken, t, task_share(budget, before.productive));
    let from = task_unwaiting(taken, t);
    let m = choose|m: nat| #[trigger] fused_run(plan, from, m, rest).over;
    let end = fused_run(plan, from, m, rest);
    assert(end == fused_end(plan, from, rest));
    assert(end.over);
    lemma_fused_visits(plan, from, m, rest);
    if end.order.len() == 0 {
        assert forall|i: int| 0 <= i < s.tasks[t].len() implies taken.done[(
        #[trigger] s.tasks[t][i]) as int] by {
            assert(plan.order[i] == s.tasks[t][i]);
        }
        assert(taken.task_done(t));
    }
    let p = end.order[0];
    assert(plan.order.contains(p));
    let order = stage_run(s, k, budget, given).order;
    assert(order[before.order.len() as int] == p);
    lemma_stage_order(s, k, s.ready.len(), budget, given, p);
}

proof fn lemma_stage_sound(
    s: ScheduleView,
    j: nat,
    k: nat,
    budget: nat,
    given: Seq<ActivationOutcome>,
)
    requires
        j <= k,
        stage_run(s, k, budget, given).sound,
    ensures
        stage_run(s, j, budget, given).sound,
    decreases k,
{
    if j < k {
        lemma_stage_sound(s, j, (k - 1) as nat, budget, given);
    }
}

proof fn lemma_listed_woken(s: ScheduleView, map: Seq<usize>, listed: Seq<usize>, k: nat)
    ensures
        with_listed_woken(s, map, listed, k).done == s.done,
    decreases k,
{
    if k > 0 {
        lemma_listed_woken(s, map, listed, (k - 1) as nat);
    }
}

proof fn lemma_flagged_woken(s: ScheduleView, flags: Seq<bool>, k: nat)
    ensures
        with_flagged_woken(s, flags, k).done == s.done,
    decreases k,
{
    if k > 0 {
        lemma_flagged_woken(s, flags, (k - 1) as nat);
    }
}

proof fn lemma_joined(s: ScheduleView, n: nat)
    requires
        s.fits(s.done.len()),
        s.tasks.len() == 0,
        n <= s.done.len(),
        s.done.len() <= usize::MAX,
    ensures
        forall|i: int|
            0 <= i < s.with_joined(n).len() ==> #[trigger] s.with_joined(n)[i] < s.done.len(),
    decreases n,
{
    if n > 0 {
        lemma_joined(s, (n - 1) as nat);
        let before = s.with_joined((n - 1) as nat);
        assert forall|i: int| 0 <= i < s.with_joined(n).len() implies #[trigger] s.with_joined(n)[i]
            < s.done.len() by {
            if i < before.len() {
                assert(s.with_joined(n)[i] == before[i]);
            }
        }
    } else {
        assert forall|i: int| 0 <= i < s.ready.len() implies #[trigger] s.ready[i]
            < s.done.len() by {
            assert(s.ready.contains(s.ready[i]));
        }
    }
}

proof fn lemma_pending(s: ScheduleView, n: nat)
    requires
        s.fits(s.done.len()),
        s.tasks.len() > 0,
        n <= s.tasks.len(),
        s.tasks.len() <= usize::MAX,
    ensures
        forall|i: int|
            0 <= i < s.pending_tasks(n).len() ==> #[trigger] s.pending_tasks(n)[i] < s.tasks.len(),
    decreases n,
{
    if n > 0 {
        lemma_pending(s, (n - 1) as nat);
        let before = s.pending_tasks((n - 1) as nat);
        assert forall|i: int| 0 <= i < s.pending_tasks(n).len() implies #[trigger] s.pending_tasks(
            n,
        )[i] < s.tasks.len() by {
            if i < before.len() {
                assert(s.pending_tasks(n)[i] == before[i]);
            }
        }
    } else {
        assert forall|i: int| 0 <= i < s.ready.len() implies #[trigger] s.ready[i]
            < s.tasks.len() by {
            assert(s.ready.contains(s.ready[i]));
        }
    }
}

proof fn lemma_activates<T: Timestamp>(
    a: DataflowExecutor<T>,
    b: DataflowExecutor<T>,
    r: Result<bool>,
)
    requires
        a.wf(),
        a.activates(&b, r),
    ensures
        keeps_finished(a.schedule@, b.schedule@),
{
    let s = a.schedule@;
    let given = outcomes(since(a.crew, b.crew));
    let max = a.config.max_activations_per_step;
    if s.tasks.len() > 0 {
        let start = s.refilled_tasks();
        assert(a.schedule.stage_tasks.len() == s.tasks.len());
        lemma_pending(s, s.tasks.len());
        match r {
            Ok(_) => {
                stage_sweeps_spare_the_finished(start, start.ready.len(), max as nat, given);
            },
            Err(e) => {
                let (k, m) = choose|k: nat, m: nat|
                    k < start.ready.len() && #[trigger] crate::activation::stage_stops(
                        a.crew,
                        start,
                        (b.crew, b.schedule@),
                        max as nat,
                        k,
                        m,
                        e,
                    );
                stage_sweeps_spare_the_finished(start, k, max as nat, given);
                let before = stage_run(start, k, max as nat, given);
                let t = before.s.ready[0] as int;
                let taken = task_popped(before.s);
                let plan = task_plan(taken, t, task_share(max as nat, before.productive));
                fused_sweeps_spare_the_finished(
                    plan,
                    task_unwaiting(taken, t),
                    m,
                    given.skip(before.used as int),
                );
            },
        }
    } else {
        match a.fused_order {
            Some(order) => {
                let plan = FusedPlan { order: order.positions@, budget: max as nat, wakes: true };
                let start = s.emptied();
                let q = choose|q: Result<(bool, usize)>| #[trigger]
                    is_fused_sweep(plan, (a.crew, start), (b.crew, b.schedule@), q)
                        && crate::executor::same_progress(q, r);
                match q {
                    Ok(_) => {
                        let m = choose|m: nat| #[trigger] fused_run(plan, start, m, given).over;
                        fused_sweeps_spare_the_finished(plan, start, m, given);
                    },
                    Err(e) => {
                        let m = choose|m: nat| #[trigger]
                            crate::activation::fused_stops(
                                plan,
                                (a.crew, start),
                                (b.crew, b.schedule@),
                                m,
                                e,
                            );
                        fused_sweeps_spare_the_finished(plan, start, m, given);
                    },
                }
            },
            None => {
                let start = s.refilled();
                assert(a.schedule.done.len() == s.done.len());
                lemma_joined(s, s.done.len());
                match r {
                    Ok(_) => {
                        let k = if start.ready.len() <= max {
                            start.ready.len()
                        } else {
                            max as nat
                        };
                        queue_sweeps_spare_the_finished(start, k, given);
                    },
                    Err(e) => {
                        let j = choose|j: nat| #[trigger]
                            crate::activation::queue_stops(
                                a.crew,
                                start,
                                (b.crew, b.schedule@),
                                j,
                                e,
                            );
                        queue_sweeps_spare_the_finished(start, j, given);
                    },
                }
            },
        }
    }
}

/// An operator that has finished stays finished in every sweep.
pub proof fn sweeps_keep_the_finished<T: Timestamp>(
    before: DataflowExecutor<T>,
    after: DataflowExecutor<T>,
    r: Result<SweepOutcome>,
)
    requires
        before.wf(),
        before.sweeps(&after, r),
    ensures
        keeps_finished(before.schedule@, after.schedule@),
{
    let c = choose|c: Course<T>| #[trigger] before.sweeps_by(&after, c, r);
    if c.over == Ok::<bool, crate::error::Error>(false) {
        lemma_activates(c.begun, c.activated, c.progress);
        if c.progress is Ok {
            let a = c.activated;
            match (a.tracker_view(), c.delivered.tracker_view()) {
                (Some(b), Some(d)) => {
                    let listed = b.changed(d.outstanding);
                    let n = a.crew.operators@.len();
                    let s1 = with_listed_woken(
                        a.schedule@,
                        a.index_to_pos@,
                        listed,
                        listed.len(),
                    );
                    let flags = Seq::new(
                        n,
                        |p: int|
                            c.delivered.crew.operators@[p].notifying() || crate::executor::ready_at(
                                crate::executor::notes(c.delivered.notificators@),
                                p,
                            ),
                    );
                    lemma_listed_woken(a.schedule@, a.index_to_pos@, listed, listed.len());
                    lemma_flagged_woken(s1, flags, n);
                },
                _ => {},
            }
        }
    }
}

/// An operator that has finished stays finished for the rest of a run.
pub proof fn runs_keep_the_finished<T: Timestamp>(
    before: DataflowExecutor<T>,
    last: DataflowExecutor<T>,
    h: History<T>,
    i: int,
    j: int,
)
    requires
        before.passes(&last, h),
        0 <= i <= j < h.states.len(),
    ensures
        keeps_finished(h.states[i].schedule@, h.states[j].schedule@),
    decreases j - i,
{
    if i < j {
        runs_keep_the_finished(before, last, h, i, j - 1);
        assert(h.states[j - 1].sweeps(&h.states[j], h.outcomes[j - 1]));
        sweeps_keep_the_finished(h.states[j - 1], h.states[j], h.outcomes[j - 1]);
    }
}

proof fn lemma_count_grows(a: Seq<bool>, b: Seq<bool>)
    requires
        b.len() == a.len(),
        forall|p: int| 0 <= p < a.len() && a[p] ==> #[trigger] b[p],
    ensures
        count_true(a) <= count_true(b),
    decreases a.len(),
{
    if a.len() > 0 {
        assert forall|p: int| 0 <= p < a.len() - 1 && a.drop_last()[p] implies #[trigger] b.drop_last()[p] by {
            assert(b[p]);
        }
        lemma_count_grows(a.drop_last(), b.drop_last());
    }
}

/// The number of operators that have finished never becomes smaller in a run.
pub proof fn completed_count_never_falls<T: Timestamp>(
    before: DataflowExecutor<T>,
    last: DataflowExecutor<T>,
    h: History<T>,
    i: int,
    j: int,
)
    requires
        before.passes(&last, h),
        0 <= i <= j < h.states.len(),
    ensures
        count_true(h.states[i].schedule@.done) <= count_true(h.states[j].schedule@.done),
{
    runs_keep_the_finished(before, last, h, i, j);
    lemma_count_grows(h.states[i].schedule@.done, h.states[j].schedule@.done);
}

/// Where what has finished stays finished, the number of operators that have finished never becomes
/// smaller.
pub proof fn count_follows_the_finished(a: ScheduleView, b: ScheduleView)
    requires
        keeps_finished(a, b),
    ensures
        count_true(a.done) <= count_true(b.done),
{
    lemma_count_grows(a.done, b.done);
}

/// What had finished before a run has finished after it, and the number of operators that have is no
/// smaller.
pub proof fn whole_runs_keep_the_finished<T: Timestamp>(
    before: DataflowExecutor<T>,
    after: DataflowExecutor<T>,
    r: Result<bool>,
    h: History<T>,
)
    requires
        before.runs_by(&after, r, h),
    ensures
        keeps_finished(before.schedule@, after.schedule@),
        count_true(before.schedule@.done) <= count_true(after.schedule@.done),
{
    let n = h.states.len() - 1;
    runs_keep_the_finished(before, h.states.last(), h, 0, n);
    count_follows_the_finished(before.schedule@, after.schedule@);
}

/// What had finished before a poll has finished after it, and the number of operators that have is no
/// smaller.
pub proof fn polls_keep_the_finished<T: Timestamp>(
    before: DataflowExecutor<T>,
    after: DataflowExecutor<T>,
    p: PollOutcome,
    h: History<T>,
)
    requires
        before.polls_by(&after, p, h),
    ensures
        keeps_finished(before.schedule@, after.schedule@),
        count_true(before.schedule@.done) <= count_true(after.schedule@.done),
{
    let n = h.states.len() - 1;
    runs_keep_the_finished(before, h.states.last(), h, 0, n);
    count_follows_the_finished(before.schedule@, after.schedule@);
}

} // verus!
