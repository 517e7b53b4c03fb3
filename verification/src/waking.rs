//! Whose turn it is, and what is made of a sweep.

use vstd::prelude::*;
use crate::activation::{
    count_at, fused_run, given_at, queue_run, task_share, Activation, FusedPlan,
};
use crate::delivery::{placed, with_flagged_woken, with_listed_woken};
use crate::metrics::{counted, tallied, total, MetricsView};
use crate::schedulable::{ActivationOutcome, Answer};
use crate::schedule::{mirrors, ScheduleView};
use crate::verdict::{cancel_step, Standing, SweepOutcome};

verus! {

/// Nobody who was queued loses their place, and no one has finished meanwhile.
pub open spec fn lines_up(a: ScheduleView, b: ScheduleView) -> bool {
    &&& a.ready.len() <= b.ready.len()
    &&& forall|i: int| 0 <= i < a.ready.len() ==> #[trigger] b.ready[i] == a.ready[i]
    &&& b.tasks == a.tasks
    &&& b.task_of == a.task_of
    &&& b.successors == a.successors
    &&& b.predecessors == a.predecessors
    &&& b.in_queue.len() == a.in_queue.len()
    &&& b.task_in_queue.len() == a.task_in_queue.len()
    &&& forall|p: int| 0 <= p < a.in_queue.len() && a.in_queue[p] ==> #[trigger] b.in_queue[p]
    &&& forall|t: int|
        0 <= t < a.task_in_queue.len() && a.task_in_queue[t] ==> #[trigger] b.task_in_queue[t]
}

/// Who is woken is queued, or their stage is, and nobody loses their place.
pub proof fn the_woken_are_queued(s: ScheduleView, p: usize)
    ensures
        lines_up(s, s.with_woken(p)),
        s.with_woken(p).done == s.done,
        s.with_woken(p).waiting == s.waiting,
        s.tasks.len() == 0 && p < s.in_queue.len() ==> s.with_woken(p).in_queue[p as int],
        s.tasks.len() == 0 && p < s.in_queue.len() && mirrors(s.ready, s.in_queue)
            ==> s.with_woken(p).ready.contains(p),
        s.tasks.len() > 0 && p < s.task_of.len() && s.task_of[p as int] < s.task_in_queue.len()
            ==> s.with_woken(p).task_in_queue[s.task_of[p as int] as int],
        s.tasks.len() > 0 && p < s.task_of.len() && s.task_of[p as int] < s.task_in_queue.len()
            && mirrors(s.ready, s.task_in_queue) ==> s.with_woken(p).ready.contains(
            s.task_of[p as int],
        ),
        s.with_woken(p).ready.len() <= s.ready.len() + 1,
{
    let after = s.with_woken(p);
    if s.tasks.len() == 0 && p < s.in_queue.len() {
        if !s.in_queue[p as int] {
            assert(after.ready[s.ready.len() as int] == p);
        } else if mirrors(s.ready, s.in_queue) {
            assert(s.ready.contains(p));
        }
    }
    if s.tasks.len() > 0 && p < s.task_of.len() && s.task_of[p as int] < s.task_in_queue.len() {
        let t = s.task_of[p as int];
        if !s.task_in_queue[t as int] {
            assert(after.ready[s.ready.len() as int] == t);
        } else if mirrors(s.ready, s.task_in_queue) {
            assert(s.ready.contains(t));
        }
    }
}

proof fn lemma_lines_up_on(a: ScheduleView, b: ScheduleView, c: ScheduleView)
    requires
        lines_up(a, b),
        lines_up(b, c),
    ensures
        lines_up(a, c),
{
    assert forall|i: int| 0 <= i < a.ready.len() implies #[trigger] c.ready[i] == a.ready[i] by {
        assert(b.ready[i] == a.ready[i]);
    }
    assert forall|p: int| 0 <= p < a.in_queue.len() && a.in_queue[p] implies #[trigger] c.in_queue[p] by {
        assert(b.in_queue[p]);
    }
    assert forall|t: int|
        0 <= t < a.task_in_queue.len() && a.task_in_queue[t] implies #[trigger] c.task_in_queue[t] by {
        assert(b.task_in_queue[t]);
    }
}

/// When an operator has finished, each operator behind it that has not, and whose inputs all have, is
/// queued; so no operator sleeps although everything in front of it is through.
pub proof fn those_behind_are_woken(s: ScheduleView, p: int, k: nat, j: int)
    requires
        s.tasks.len() == 0,
        s.in_queue.len() == s.done.len(),
        0 <= p < s.successors.len(),
        k <= s.successors[p].len(),
        0 <= j < k,
    ensures
        lines_up(s, s.with_successors_woken(p, k)),
        s.with_successors_woken(p, k).done == s.done,
        s.with_successors_woken(p, k).waiting == s.waiting,
        ({
            let x = s.successors[p][j];
            x < s.done.len() && !s.done[x as int] && (x < s.predecessors.len() && forall|i: int|
                0 <= i < s.predecessors[x as int].len() ==> #[trigger] s.predecessors[x as int][i]
                    < s.done.len() && s.done[s.predecessors[x as int][i] as int])
                ==> s.with_successors_woken(p, k).in_queue[x as int]
        }),
    decreases k,
{
    let before = s.with_successors_woken(p, (k - 1) as nat);
    let last = s.successors[p][k - 1];
    if k > 1 {
        those_behind_are_woken(s, p, (k - 1) as nat, if j < k - 1 {
            j
        } else {
            0
        });
    }
    the_woken_are_queued(before, last);
    lemma_lines_up_on(s, before, before.with_woken(last));
}

/// What an activation makes of an operator: progress and waiting for room call for another turn, an
/// idle operator sleeps, one that awaits tasks is noted, and one that is through has finished. The
/// others stay as they are.
pub proof fn outcomes_decide_about_operators(
    s: ScheduleView,
    p: usize,
    outcome: ActivationOutcome,
    q: int,
)
    requires
        s.tasks.len() == 0,
        s.in_queue.len() == s.done.len(),
        s.waiting.len() == s.done.len(),
        p < s.done.len(),
        0 <= q < s.done.len(),
    ensures
        outcome is MadeProgress || outcome is BlockedOnBackpressure ==> s.after(
            p,
            outcome,
        ).ready.last() == p && s.after(p, outcome).in_queue[p as int],
        s.after(p, outcome).done[p as int] == (s.done[p as int] || outcome is Done),
        outcome is WaitingForAsync ==> s.after(p, outcome).waiting[p as int],
        outcome is Idle || outcome is Done ==> !s.after(p, outcome).waiting[p as int],
        outcome is Idle || outcome is WaitingForAsync ==> s.after(p, outcome).ready == s.ready,
        q != p ==> s.after(p, outcome).done[q] == s.done[q] && s.after(p, outcome).waiting[q]
            == s.waiting[q],
        lines_up(s, s.after(p, outcome)),
{
    if outcome is Done {
        let finished = ScheduleView {
            done: s.done.update(p as int, true),
            waiting: s.waiting.update(p as int, false),
            ..s
        };
        assert(lines_up(s, finished));
        if (p as int) < finished.successors.len() && finished.successors[p as int].len() > 0 {
            those_behind_are_woken(
                finished,
                p as int,
                finished.successors[p as int].len(),
                0,
            );
            lemma_lines_up_on(s, finished, finished.with_completion(p as int));
        }
    }
}

/// When an operator has finished, each operator behind it that has not, and whose inputs all have, is
/// queued.
pub proof fn finishing_wakes_those_behind(s: ScheduleView, p: usize, j: int)
    requires
        s.tasks.len() == 0,
        s.in_queue.len() == s.done.len(),
        s.waiting.len() == s.done.len(),
        p < s.done.len(),
        p < s.successors.len(),
        0 <= j < s.successors[p as int].len(),
    ensures
        ({
            let after = s.after(p, ActivationOutcome::Done);
            let x = s.successors[p as int][j];
            x < s.done.len() && x < s.predecessors.len() && !after.done[x as int] && (forall|i: int|
                0 <= i < s.predecessors[x as int].len() ==> #[trigger] s.predecessors[x as int][i]
                    < s.done.len() && after.done[s.predecessors[x as int][i] as int])
                ==> after.in_queue[x as int]
        }),
{
    let finished = ScheduleView {
        done: s.done.update(p as int, true),
        waiting: s.waiting.update(p as int, false),
        ..s
    };
    those_behind_are_woken(finished, p as int, finished.successors[p as int].len(), j);
}

proof fn lemma_joined(s: ScheduleView, n: nat, p: int)
    requires
        n <= usize::MAX,
    ensures
        s.ready.len() <= s.with_joined(n).len(),
        forall|i: int|
            0 <= i < s.ready.len() ==> #[trigger] s.with_joined(n)[i] == s.ready[i],
        0 <= p < n && s.joins(p) ==> s.with_joined(n).contains(p as usize),
        forall|i: int|
            s.ready.len() <= i < s.with_joined(n).len() ==> s.joins(
                #[trigger] s.with_joined(n)[i] as int,
            ) && s.with_joined(n)[i] < n,
        forall|i: int, j: int|
            s.ready.len() <= i < j < s.with_joined(n).len() ==> #[trigger] s.with_joined(n)[i]
                < #[trigger] s.with_joined(n)[j],
    decreases n,
{
    if n > 0 {
        let m = (n - 1) as nat;
        lemma_joined(s, m, p);
        let before = s.with_joined(m);
        let all = s.with_joined(n);
        if p == n - 1 && s.joins(p) {
            assert(all[all.len() - 1] == p as usize);
        } else if 0 <= p < n - 1 && s.joins(p) {
            let i = choose|i: int| 0 <= i < before.len() && before[i] == p as usize;
            assert(all[i] == p as usize);
        }
        assert forall|i: int| s.ready.len() <= i < all.len() implies s.joins(
            #[trigger] all[i] as int,
        ) && all[i] < n by {
            if i < before.len() {
                assert(all[i] == before[i]);
            }
        }
        assert forall|i: int, j: int| s.ready.len() <= i < j < all.len() implies #[trigger] all[i]
            < #[trigger] all[j] by {
            assert(all[i] == before[i]);
            if j < before.len() {
                assert(all[j] == before[j]);
            }
        }
    }
}

/// A sweep begins with those who are queued, in their order. If nobody is, all who have not finished
/// get a turn; else those do as well who await tasks and have not finished. Nobody who has finished is
/// added.
pub proof fn sweeps_give_turns(s: ScheduleView, p: int)
    requires
        s.in_queue.len() == s.done.len(),
        s.waiting.len() == s.done.len(),
        s.done.len() <= usize::MAX,
        mirrors(s.ready, s.in_queue),
        0 <= p < s.done.len(),
    ensures
        forall|i: int| 0 <= i < s.ready.len() ==> #[trigger] s.refilled().ready[i] == s.ready[i],
        s.ready.len() == 0 && !s.done[p] ==> s.refilled().ready.contains(p as usize)
            && s.refilled().in_queue[p],
        s.waiting[p] && !s.done[p] ==> s.refilled().ready.contains(p as usize)
            && s.refilled().in_queue[p],
        s.in_queue[p] ==> s.refilled().ready.contains(p as usize) && s.refilled().in_queue[p],
        s.refilled().ready.contains(p as usize) && !s.in_queue[p] ==> !s.done[p],
        s.refilled().done == s.done,
        s.refilled().waiting == s.waiting,
{
    let n = s.done.len();
    lemma_joined(s, n, p);
    let all = s.refilled().ready;
    if s.in_queue[p] {
        assert(s.ready.contains(p as usize));
        let i = choose|i: int| 0 <= i < s.ready.len() && s.ready[i] == p as usize;
        assert(all[i] == p as usize);
    }
    if all.contains(p as usize) && !s.in_queue[p] {
        let i = choose|i: int| 0 <= i < all.len() && all[i] == p as usize;
        if i < s.ready.len() {
            assert(s.ready.contains(p as usize));
        } else {
            assert(s.joins(all[i] as int));
        }
    }
}

/// All stages get a turn that have an operator that has not finished, in the order of their numbers.
pub proof fn sweeps_give_turns_to_stages(s: ScheduleView, t: int, i: int)
    requires
        s.tasks.len() <= usize::MAX,
        0 <= t < s.tasks.len(),
        0 <= i < s.tasks[t].len(),
        s.tasks[t][i] < s.done.len(),
        !s.done[s.tasks[t][i] as int],
    ensures
        s.refilled_tasks().ready.contains(t as usize),
        s.refilled_tasks().task_in_queue[t],
        s.refilled_tasks().done == s.done,
{
    assert(!s.task_done(t)) by {
        if s.task_done(t) {
            assert(s.done[s.tasks[t][i] as int]);
        }
    }
    lemma_pending(s, s.tasks.len(), t);
}

proof fn lemma_pending(s: ScheduleView, n: nat, t: int)
    requires
        0 <= t < n <= usize::MAX,
        s.task_pending(t),
    ensures
        s.pending_tasks(n).contains(t as usize),
    decreases n,
{
    let all = s.pending_tasks(n);
    if t == n - 1 {
        assert(all[all.len() - 1] == t as usize);
    } else {
        lemma_pending(s, (n - 1) as nat, t);
        let before = s.pending_tasks((n - 1) as nat);
        let i = choose|i: int| 0 <= i < before.len() && before[i] == t as usize;
        assert(all[i] == t as usize);
    }
}

proof fn lemma_after_lines_up(s: ScheduleView, p: usize, outcome: ActivationOutcome)
    requires
        s.tasks.len() == 0,
        s.in_queue.len() == s.done.len(),
        s.waiting.len() == s.done.len(),
        p < s.done.len(),
    ensures
        lines_up(s, s.after(p, outcome)),
        s.after(p, outcome).done.len() == s.done.len(),
        s.after(p, outcome).waiting.len() == s.waiting.len(),
        forall|q: int| 0 <= q < s.done.len() && q != p ==> s.after(p, outcome).done[q]
            == #[trigger] s.done[q],
{
    assert forall|q: int| 0 <= q < s.done.len() && q != p implies s.after(p, outcome).done[q]
        == #[trigger] s.done[q] by {
        outcomes_decide_about_operators(s, p, outcome, q);
    }
    outcomes_decide_about_operators(s, p, outcome, p as int);
    if outcome is Done {
        let finished = ScheduleView {
            done: s.done.update(p as int, true),
            waiting: s.waiting.update(p as int, false),
            ..s
        };
        if (p as int) < finished.successors.len() && finished.successors[p as int].len() > 0 {
            those_behind_are_woken(
                finished,
                p as int,
                finished.successors[p as int].len(),
                0,
            );
        }
    }
}

/// An activation that is neither idle nor waits for tasks moves the dataflow on.
pub open spec fn moves_on(outcome: ActivationOutcome) -> bool {
    !(outcome is Idle) && !(outcome is WaitingForAsync)
}

/// The queued operators are activated one after the other, each once, in the order of the queue, and
/// none of the first `k` is passed over.
pub proof fn queues_are_worked_off_in_order(
    s: ScheduleView,
    k: nat,
    given: Seq<ActivationOutcome>,
)
    requires
        s.tasks.len() == 0,
        s.in_queue.len() == s.done.len(),
        s.waiting.len() == s.done.len(),
        s.ready.no_duplicates(),
        k <= s.ready.len(),
        k <= given.len(),
        forall|i: int|
            0 <= i < s.ready.len() ==> (#[trigger] s.ready[i]) < s.done.len()
                && !s.done[s.ready[i] as int],
    ensures
        ({
            let run = queue_run(s, k, given);
            &&& run.order == s.ready.take(k as int)
            &&& run.used == k
            &&& run.progress == exists|i: int|
                0 <= i < k && moves_on(#[trigger] given[i])
            &&& run.s.tasks.len() == 0
            &&& run.s.in_queue.len() == s.done.len()
            &&& run.s.waiting.len() == s.done.len()
            &&& run.s.done.len() == s.done.len()
            &&& run.s.ready.len() >= s.ready.len() - k
            &&& forall|i: int|
                k <= i < s.ready.len() ==> #[trigger] s.ready[i] == run.s.ready[i - k]
                    && !run.s.done[s.ready[i] as int]
        }),
    decreases k,
{
    if k == 0 {
        assert(s.ready.take(0) =~= Seq::<usize>::empty());
    } else {
        let m = (k - 1) as nat;
        queues_are_worked_off_in_order(s, m, given);
        let before = queue_run(s, m, given);
        assert(s.ready[k - 1] == before.s.ready[0]);
        let p = before.s.ready[0];
        let popped = before.s.popped();
        let outcome = given[m as int];
        lemma_after_lines_up(popped, p, outcome);
        let run = queue_run(s, k, given);
        assert(run.order =~= s.ready.take(k as int));
        assert forall|i: int| k <= i < s.ready.len() implies #[trigger] s.ready[i] == run.s.ready[i
            - k] && !run.s.done[s.ready[i] as int] by {
            assert(s.ready[i] == before.s.ready[i - m]);
            assert(popped.ready[i - k] == before.s.ready[i - m]);
            assert(run.s.ready[i - k] == popped.ready[i - k]);
            assert(s.ready[i] != s.ready[k - 1]);
            let q = s.ready[i] as int;
            assert(popped.done[q] == run.s.done[q]);
        }
        if run.progress {
            if before.progress {
                let i = choose|i: int|
                    0 <= i < m && moves_on(#[trigger] given[i]);
                assert(moves_on(given[i]));
            } else {
                assert(moves_on(given[m as int]));
            }
        }
    }
}

pub(crate) proof fn lemma_listed_lines_up(s: ScheduleView, map: Seq<usize>, listed: Seq<usize>, k: nat)
    ensures
        lines_up(s, with_listed_woken(s, map, listed, k)),
        with_listed_woken(s, map, listed, k).done == s.done,
    decreases k,
{
    if k > 0 {
        lemma_listed_lines_up(s, map, listed, (k - 1) as nat);
        let before = with_listed_woken(s, map, listed, (k - 1) as nat);
        let op = listed[k - 1];
        if placed(map, op) && !s.done[map[op as int] as int] {
            the_woken_are_queued(before, map[op as int]);
            lemma_lines_up_on(s, before, before.with_woken(map[op as int]));
        }
    }
}

/// Each operator whose frontier has changed, and that has not finished, is queued.
pub proof fn those_who_have_news_are_woken(
    s: ScheduleView,
    map: Seq<usize>,
    listed: Seq<usize>,
    k: nat,
    i: int,
)
    requires
        s.tasks.len() == 0,
        0 <= i < k,
        placed(map, listed[i]),
        map[listed[i] as int] < s.in_queue.len(),
        !s.done[map[listed[i] as int] as int],
    ensures
        with_listed_woken(s, map, listed, k).in_queue[map[listed[i] as int] as int],
        lines_up(s, with_listed_woken(s, map, listed, k)),
    decreases k,
{
    lemma_listed_lines_up(s, map, listed, k);
    let before = with_listed_woken(s, map, listed, (k - 1) as nat);
    let op = listed[k - 1];
    lemma_listed_lines_up(s, map, listed, (k - 1) as nat);
    if i < k - 1 {
        those_who_have_news_are_woken(s, map, listed, (k - 1) as nat, i);
        if placed(map, op) && !s.done[map[op as int] as int] {
            the_woken_are_queued(before, map[op as int]);
        }
    } else {
        the_woken_are_queued(before, map[op as int]);
    }
}

pub(crate) proof fn lemma_flagged_lines_up(s: ScheduleView, flags: Seq<bool>, k: nat)
    ensures
        lines_up(s, with_flagged_woken(s, flags, k)),
        with_flagged_woken(s, flags, k).done == s.done,
    decreases k,
{
    if k > 0 {
        lemma_flagged_lines_up(s, flags, (k - 1) as nat);
        let before = with_flagged_woken(s, flags, (k - 1) as nat);
        if flags[k - 1] && !s.done[k - 1] {
            the_woken_are_queued(before, (k - 1) as usize);
            lemma_lines_up_on(s, before, before.with_woken((k - 1) as usize));
        }
    }
}

/// Each operator for which a time is complete, and that has not finished, is queued.
pub proof fn those_who_have_waited_are_woken(s: ScheduleView, flags: Seq<bool>, k: nat, p: int)
    requires
        s.tasks.len() == 0,
        k <= usize::MAX,
        0 <= p < k,
        p < s.in_queue.len(),
        flags[p],
        !s.done[p],
    ensures
        with_flagged_woken(s, flags, k).in_queue[p],
        lines_up(s, with_flagged_woken(s, flags, k)),
    decreases k,
{
    lemma_flagged_lines_up(s, flags, k);
    let before = with_flagged_woken(s, flags, (k - 1) as nat);
    lemma_flagged_lines_up(s, flags, (k - 1) as nat);
    if p < k - 1 {
        those_who_have_waited_are_woken(s, flags, (k - 1) as nat, p);
        if flags[k - 1] && !s.done[k - 1] {
            the_woken_are_queued(before, (k - 1) as usize);
        }
    } else {
        the_woken_are_queued(before, p as usize);
    }
}

/// A request to stop is obeyed at once where draining is not allowed, or when the time for it is up.
/// Without a request nothing stops, and draining begins once.
pub proof fn requests_to_stop_are_obeyed(
    cancelled: bool,
    draining: bool,
    may_drain: bool,
    expired: bool,
)
    ensures
        ({
            let step = cancel_step(cancelled, draining, may_drain, expired);
            &&& !cancelled ==> step is Proceed
            &&& cancelled && !draining && !may_drain ==> step is Stop
            &&& cancelled && draining && expired ==> step is Stop
            &&& cancelled && draining && !expired ==> step is Proceed
            &&& cancelled && !draining && may_drain ==> step is StartDraining
        }),
{
}

/// What is made of the end of a sweep, for all that it depends on.
pub proof fn sweeps_are_judged(s: Standing)
    ensures
        s.idle < s.max_idle ==> s.verdict().outcome == if s.progress {
            SweepOutcome::MadeProgress
        } else {
            SweepOutcome::Idle
        },
        s.idle < s.max_idle ==> !s.verdict().close && !s.verdict().restart,
        s.idle >= s.max_idle && s.waiting ==> s.verdict().outcome is WaitingForInput,
        s.idle >= s.max_idle && s.inputs_open && !s.draining
            ==> s.verdict().outcome is WaitingForInput,
        s.idle >= s.max_idle && !s.draining && (s.tracker matches Some(t) && !(t.completed
            && t.synced && !t.pending)) ==> s.verdict().outcome is WaitingForInput,
        s.idle >= s.max_idle && !s.waiting && (!s.inputs_open || s.draining) && (
        s.tracker matches Some(t) && t.completed && t.synced && !t.pending)
            ==> s.verdict().outcome is Completed && s.verdict().close,
        s.idle >= s.max_idle && !s.waiting && !s.inputs_open && !s.draining && s.tracker is None
            ==> s.verdict().outcome is Quiescent,
        s.idle >= s.max_idle && !s.waiting && s.draining && s.tracker is None
            ==> s.verdict().outcome is Completed,
        s.idle >= s.max_idle && !s.waiting && s.draining && (s.tracker matches Some(t)
            && !t.completed) ==> s.verdict().outcome is Idle && s.verdict().restart,
        s.verdict().close ==> s.verdict().outcome is Completed,
{
}

/// How often an operator was activated is how many of the activations were its own.
pub proof fn activations_are_counted(run: Seq<Activation>, p: usize)
    ensures
        count_at(run, p as int) == run.filter(|a: Activation| a.pos == p).len(),
        given_at(run, p as int) == run.filter(|a: Activation| a.pos == p).map_values(
            |a: Activation| -> Answer { Ok(Ok(a.outcome)) },
        ),
    decreases run.len(),
{
    reveal(Seq::filter);
    let own = |a: Activation| a.pos == p;
    let answer = |a: Activation| -> Answer { Ok(Ok(a.outcome)) };
    if run.len() > 0 {
        activations_are_counted(run.drop_last(), p);
        assert(given_at(run, p as int) =~= run.filter(own).map_values(answer));
    } else {
        assert(given_at(run, p as int) =~= run.filter(own).map_values(answer));
    }
}

/// Counters count up by what is added, and stay at the largest number if that would be too much.
pub proof fn counters_count_up(n: u64, k: nat, v: MetricsView, pos: int, nanos: u64, q: int)
    requires
        v.cpu_nanos.len() == v.activations.len(),
        0 <= q < v.activations.len(),
    ensures
        counted(n) == if n < u64::MAX {
            n + 1
        } else {
            n as int
        },
        n + k <= u64::MAX ==> tallied(n, k as int) == n + k,
        n + k > u64::MAX ==> tallied(n, k as int) == u64::MAX,
        q != pos ==> v.recorded(pos, nanos).activations[q] == v.activations[q] && v.recorded(
            pos,
            nanos,
        ).cpu_nanos[q] == v.cpu_nanos[q],
        q == pos && v.activations[q] < u64::MAX ==> v.recorded(pos, nanos).activations[q]
            == v.activations[q] + 1,
        q == pos && v.cpu_nanos[q] + nanos <= u64::MAX ==> v.recorded(pos, nanos).cpu_nanos[q]
            == v.cpu_nanos[q] + nanos,
        v.recorded(pos, nanos).wall_nanos == v.wall_nanos,
{
}

/// The sum of counters, as long as it can be counted, is that of all of them.
pub proof fn totals_are_sums(a: Seq<u64>, b: u64)
    ensures
        total(a) + b <= u64::MAX ==> total(a.push(b)) == total(a) + b,
        total(a) + b > u64::MAX ==> total(a.push(b)) == u64::MAX,
        total(Seq::<u64>::empty()) == 0,
{
    assert(a.push(b).drop_last() =~= a);
}

/// In a fused sweep an activation notes what became of the operator: whether it has finished, and
/// whether it awaits tasks. The others stay as they are.
pub proof fn fused_outcomes_decide_about_operators(
    s: ScheduleView,
    p: usize,
    outcome: ActivationOutcome,
    wakes: bool,
    q: int,
)
    requires
        s.waiting.len() == s.done.len(),
        s.in_queue.len() == s.done.len(),
        wakes ==> s.tasks.len() == 0,
        p < s.done.len(),
        0 <= q < s.done.len(),
    ensures
        ({
            let after = s.after_fused(p, outcome, wakes);
            &&& after.done.len() == s.done.len()
            &&& after.waiting.len() == s.waiting.len()
            &&& after.in_queue.len() == s.in_queue.len()
            &&& after.tasks == s.tasks
            &&& after.done[p as int] == (s.done[p as int] || outcome is Done)
            &&& outcome is WaitingForAsync ==> after.waiting[p as int]
            &&& outcome is Idle || outcome is Done ==> !after.waiting[p as int]
            &&& q != p ==> after.done[q] == s.done[q] && after.waiting[q] == s.waiting[q]
            &&& outcome is Idle || outcome is MadeProgress || outcome is BlockedOnBackpressure
                || outcome is WaitingForAsync ==> after.ready == s.ready
        }),
{
    if outcome is Done && wakes {
        let finished = ScheduleView {
            done: s.done.update(p as int, true),
            waiting: s.waiting.update(p as int, false),
            ..s
        };
        if (p as int) < finished.successors.len() && finished.successors[p as int].len() > 0 {
            those_behind_are_woken(
                finished,
                p as int,
                finished.successors[p as int].len(),
                0,
            );
        }
    }
}

proof fn lemma_fused_passes(
    plan: FusedPlan,
    s: ScheduleView,
    m: nat,
    given: Seq<ActivationOutcome>,
)
    requires
        s.waiting.len() == s.done.len(),
        s.in_queue.len() == s.done.len(),
        plan.wakes ==> s.tasks.len() == 0,
        forall|i: int| 0 <= i < plan.order.len() ==> #[trigger] plan.order[i] < s.done.len(),
    ensures
        ({
            let run = fused_run(plan, s, m, given);
            &&& run.s.done.len() == s.done.len()
            &&& run.s.waiting.len() == s.done.len()
            &&& run.s.in_queue.len() == s.done.len()
            &&& run.s.tasks == s.tasks
            &&& 0 <= run.at
            &&& run.productive <= plan.budget
            &&& run.order.len() == run.used
            &&& run.over ==> run.productive >= plan.budget || (run.at >= plan.order.len()
                && !run.again)
            &&& forall|i: int|
                0 <= i < run.at && i < plan.order.len() ==> run.s.done[(
                #[trigger] plan.order[i]) as int] || run.order.contains(plan.order[i])
            &&& forall|q: int| 0 <= q < s.done.len() && s.done[q] ==> #[trigger] run.s.done[q]
        }),
    decreases m,
{
    if m > 0 {
        lemma_fused_passes(plan, s, (m - 1) as nat, given);
        let before = fused_run(plan, s, (m - 1) as nat, given);
        let run = fused_run(plan, s, m, given);
        if !before.over && before.at < plan.order.len() && !before.s.done[plan.order[before.at] as int]
            && before.productive < plan.budget {
            let p = plan.order[before.at];
            let outcome = given[before.used as int];
            fused_outcomes_decide_about_operators(before.s, p, outcome, plan.wakes, p as int);
            assert forall|q: int| 0 <= q < s.done.len() && before.s.done[q] implies #[trigger] run.s.done[q] by {
                fused_outcomes_decide_about_operators(before.s, p, outcome, plan.wakes, q);
            }
            assert forall|i: int|
                0 <= i < run.at && i < plan.order.len() implies run.s.done[(
            #[trigger] plan.order[i]) as int] || run.order.contains(plan.order[i]) by {
                if i == before.at {
                    assert(run.order[run.order.len() - 1] == p);
                } else if before.order.contains(plan.order[i]) {
                    let k = choose|k: int|
                        0 <= k < before.order.len() && before.order[k] == plan.order[i];
                    assert(run.order[k] == plan.order[i]);
                }
            }
            assert forall|q: int| 0 <= q < s.done.len() && s.done[q] implies #[trigger] run.s.done[q] by {
                assert(before.s.done[q]);
            }
        }
    }
}

/// A fused sweep keeps within its budget. If it ends with some of that left, every operator of the
/// order has had a turn or has finished, and nobody made progress in the last pass.
pub proof fn fused_sweeps_visit_everyone(
    plan: FusedPlan,
    s: ScheduleView,
    m: nat,
    given: Seq<ActivationOutcome>,
    i: int,
)
    requires
        s.waiting.len() == s.done.len(),
        s.in_queue.len() == s.done.len(),
        plan.wakes ==> s.tasks.len() == 0,
        forall|k: int| 0 <= k < plan.order.len() ==> #[trigger] plan.order[k] < s.done.len(),
        fused_run(plan, s, m, given).over,
        0 <= i < plan.order.len(),
    ensures
        fused_run(plan, s, m, given).productive <= plan.budget,
        fused_run(plan, s, m, given).productive < plan.budget ==> !fused_run(
            plan,
            s,
            m,
            given,
        ).again && (fused_run(plan, s, m, given).s.done[plan.order[i] as int] || fused_run(
            plan,
            s,
            m,
            given,
        ).order.contains(plan.order[i])),
{
    lemma_fused_passes(plan, s, m, given);
    let p = plan.order[i];
}

/// A stage gets what is left of the budget, and at least one activation.
pub proof fn stages_share_the_budget(budget: nat, productive: nat)
    ensures
        task_share(budget, productive) >= 1,
        productive < budget ==> task_share(budget, productive) + productive == budget,
{
}

} // verus!
