//! What leaves an operator, and what an activation says of itself.

use vstd::prelude::*;
use crate::channel::ChannelView;
use crate::error::{Error, Result};
use crate::handles::batches;
use crate::schedulable::ActivationOutcome;
use crate::wired::ends::{sink_steps, SourceView};
use crate::wired::joins::{JoinCourse, JoinState, MergeCourse, MergeView};
use crate::wired::outbox::{is_copy, received, same_or_cloned, sends};
use crate::wired::tasks::{TaskCourse, TaskResult, TaskView};
use crate::wired::tickets::{
    results_come_at_the_time_of_their_batch, the_oldest_are_started, tickets_differ,
};

verus! {

/// The first `k` of the batches stand in the channel behind what it held, with their times and their
/// records in their order, each record as it is or cloned.
pub open spec fn stands_behind<T, D: Clone>(
    sent: Seq<(T, Seq<D>)>,
    k: int,
    before: ChannelView<T, D>,
    after: ChannelView<T, D>,
) -> bool {
    let n = before.batches.len() as int;
    &&& after.batches.len() == n + k
    &&& forall|i: int| 0 <= i < n ==> #[trigger] after.batches[i] == before.batches[i]
    &&& forall|i: int|
        0 <= i < k ==> (#[trigger] sent[i]).0 == after.batches[n + i].0 && sent[i].1.len()
            == after.batches[n + i].1.len()
    &&& forall|i: int, r: int|
        0 <= i < k && 0 <= r < sent[i].1.len() ==> ({
            ||| after.batches[n + i].1[r] == #[trigger] sent[i].1[r]
            ||| cloned(sent[i].1[r], after.batches[n + i].1[r])
        })
}

/// A channel takes nothing now: it is closed, or it is full and still read.
pub open spec fn takes_nothing<T, D>(c: ChannelView<T, D>) -> bool {
    c.closed || (!c.abandoned && c.batches.len() >= c.capacity)
}

proof fn lemma_received<T, D: Clone>(
    sent: Seq<(T, Seq<D>)>,
    k: int,
    before: ChannelView<T, D>,
    after: ChannelView<T, D>,
)
    requires
        0 <= k <= sent.len(),
        received(before, after, sent.take(k)),
        !before.abandoned,
    ensures
        stands_behind(sent, k, before, after),
{
    let n = before.batches.len() as int;
    let part = sent.take(k);
    let behind = after.batches.skip(n);
    assert forall|i: int| 0 <= i < n implies #[trigger] after.batches[i] == before.batches[i] by {
        assert(after.batches.take(n)[i] == after.batches[i]);
    }
    assert forall|i: int| 0 <= i < k implies (#[trigger] sent[i]).0 == after.batches[n + i].0
        && sent[i].1.len() == after.batches[n + i].1.len() by {
        assert(is_copy(part[i], behind[i]));
        assert(behind[i] == after.batches[n + i]);
    }
    assert forall|i: int, r: int| 0 <= i < k && 0 <= r < sent[i].1.len() implies ({
        ||| after.batches[n + i].1[r] == #[trigger] sent[i].1[r]
        ||| cloned(sent[i].1[r], after.batches[n + i].1[r])
    }) by {
        assert(is_copy(part[i], behind[i]));
        assert(behind[i] == after.batches[n + i]);
        assert(same_or_cloned(part[i].1[r], behind[i].1[r]));
    }
}

/// What waits to be sent goes, from the oldest on, to every channel that is still read; what does not
/// fit goes on waiting, in its order, and then some channel takes nothing more. Nothing goes to a
/// channel that nobody reads, and nothing is closed.
pub proof fn batches_leave_in_order<T, D: Clone>(
    pending: Seq<(T, Seq<D>)>,
    before: Seq<ChannelView<T, D>>,
    left: Seq<(T, Seq<D>)>,
    after: Seq<ChannelView<T, D>>,
    j: int,
)
    requires
        sends(pending, before, left, after),
        0 <= j < before.len(),
    ensures
        left.len() <= pending.len(),
        forall|i: int|
            0 <= i < left.len() ==> #[trigger] left[i] == pending[pending.len() - left.len() + i],
        !before[j].abandoned ==> stands_behind(
            pending,
            pending.len() - left.len(),
            before[j],
            after[j],
        ),
        before[j].abandoned ==> after[j] == before[j],
        after[j].closed == before[j].closed,
        after[j].capacity == before[j].capacity,
        left.len() > 0 ==> exists|i: int|
            0 <= i < after.len() && takes_nothing(#[trigger] after[i]),
{
    let k = pending.len() - left.len();
    assert(received(before[j], after[j], pending.take(k)));
    if !before[j].abandoned {
        lemma_received(pending, k, before[j], after[j]);
    }
    if left.len() > 0 {
        let i = choose|i: int| 0 <= i < after.len() && !(#[trigger] after[i]).has_room();
        assert(takes_nothing(after[i]));
    }
}

/// A source sends its batches in their order, and is through, with its channel closed, just when all
/// are sent.
pub proof fn sources_send_in_order<T, D: Clone>(
    before: SourceView<T, D>,
    after: SourceView<T, D>,
    from: ChannelView<T, D>,
    to: ChannelView<T, D>,
    outcome: ActivationOutcome,
)
    requires
        before.steps(after, seq![from], seq![to], outcome),
        !before.done,
        !from.abandoned,
    ensures
        stands_behind(before.pending, before.pending.len() - after.pending.len(), from, to),
        forall|i: int|
            0 <= i < after.pending.len() ==> #[trigger] after.pending[i]
                == before.pending[before.pending.len() - after.pending.len() + i],
        after.done <==> after.pending.len() == 0,
        outcome is Done <==> after.pending.len() == 0,
        after.done ==> to.closed,
        !after.done ==> to.closed == from.closed && takes_nothing(to),
        outcome is BlockedOnBackpressure <==> after.pending.len() > 0 && to.batches.len()
            == from.batches.len(),
{
    let mid = choose|mid: Seq<ChannelView<T, D>>| #[trigger]
        before.steps_by(after, seq![from], seq![to], mid, outcome);
    assert(seq![from][0] == from);
    assert(seq![to][0] == to);
    batches_leave_in_order(before.pending, seq![from], after.pending, mid, 0);
    assert(mid.len() == 1);
}

/// A sink takes all that is there and is through when its input ends.
pub proof fn sinks_end_with_their_input<T, D>(
    done: (bool, bool),
    input: (ChannelView<T, D>, ChannelView<T, D>),
    outcome: ActivationOutcome,
)
    requires
        sink_steps(done, input, outcome),
    ensures
        outcome is Done <==> done.1,
        !done.0 ==> (done.1 <==> input.0.closed) && input.1.batches.len() == 0,
        done.0 ==> done.1 && input.1 == input.0,
        outcome is Idle ==> input.0.batches.len() == 0,
        !done.1 && input.0.batches.len() > 0 ==> outcome is MadeProgress,
        input.1.closed == input.0.closed,
{
}

/// What an activation of an operator that merges streams tells: it is through just when all inputs
/// have ended and everything is sent; it waits for room just when something waits to be sent; it is
/// idle only if there was nothing to do.
pub proof fn merges_tell_what_happened<T, D: Clone>(
    before: MergeView<T, D>,
    after: MergeView<T, D>,
    inputs: (Seq<ChannelView<T, D>>, Seq<ChannelView<T, D>>),
    outputs: (Seq<ChannelView<T, D>>, Seq<ChannelView<T, D>>),
    outcome: ActivationOutcome,
    j: int,
)
    requires
        before.steps(after, inputs, outputs, outcome),
        !before.done,
        0 <= j < inputs.0.len(),
    ensures
        outcome is Done <==> after.done,
        after.done ==> inputs.0[j].closed && inputs.1[j].batches.len() == 0 && after.pending.len()
            == 0,
        after.pending.len() == 0 && (forall|i: int|
            0 <= i < inputs.0.len() ==> (#[trigger] inputs.0[i]).closed) ==> after.done,
        outcome is BlockedOnBackpressure <==> after.pending.len() > 0,
        outcome is Idle ==> inputs.0[j].batches.len() == 0 && before.pending.len() == 0,
        inputs.1[j].batches.len() == 0 || inputs.1[j] == inputs.0[j],
        inputs.1[j].batches.len() > 0 ==> after.pending.len() > 0,
        forall|i: int|
            0 <= i < outputs.0.len() && after.done ==> (#[trigger] outputs.1[i]).closed,
{
    let c = choose|c: MergeCourse<T, D>| #[trigger]
        before.steps_by(after, inputs, outputs, c, outcome);
}

/// What an activation of an operator with two inputs tells.
pub proof fn joins_tell_what_happened<T, D1, D2, D3: Clone, L>(
    before: JoinState<T, D1, D2, D3, L>,
    after: JoinState<T, D1, D2, D3, L>,
    left: (ChannelView<T, D1>, ChannelView<T, D1>),
    right: (ChannelView<T, D2>, ChannelView<T, D2>),
    outputs: (Seq<ChannelView<T, D3>>, Seq<ChannelView<T, D3>>),
    outcome: ActivationOutcome,
)
    requires
        before.steps(&after, left, right, outputs, Ok::<ActivationOutcome, Error>(outcome)),
        !before.done,
    ensures
        outcome is Done <==> after.done,
        after.done ==> after.outbox@.len() == 0 && after.left@.pending.len() == 0
            && after.left@.exhausted && after.right@.pending.len() == 0 && after.right@.exhausted,
        outcome is BlockedOnBackpressure <==> after.outbox@.len() > 0,
        outcome is Idle ==> left.0.batches.len() == 0 && right.0.batches.len() == 0
            && before.outbox@.len() == 0,
        left.1.batches.len() > 0 || right.1.batches.len() > 0 ==> left.1 == left.0 && right.1
            == right.0 && after.left@ == before.left@ && after.right@ == before.right@
            && after.outbox@.len() > 0,
        forall|i: int|
            0 <= i < outputs.0.len() && after.done ==> (#[trigger] outputs.1[i]).closed,
{
    let r = Ok::<ActivationOutcome, Error>(outcome);
    let c = choose|c: JoinCourse<T, D3>| #[trigger]
        before.steps_by(&after, left, right, outputs, c, r);
    assert(batches(after.outbox@).len() == after.outbox@.len());
    assert(batches(before.outbox@).len() == before.outbox@.len());
}

/// As long as there is nothing new on either side, what was offered before goes on waiting.
pub proof fn joins_keep_what_waits<T, D1, D2, D3: Clone, L>(
    before: JoinState<T, D1, D2, D3, L>,
    after: JoinState<T, D1, D2, D3, L>,
    left: (ChannelView<T, D1>, ChannelView<T, D1>),
    right: (ChannelView<T, D2>, ChannelView<T, D2>),
    outputs: (Seq<ChannelView<T, D3>>, Seq<ChannelView<T, D3>>),
    r: Result<ActivationOutcome>,
)
    requires
        before.steps(&after, left, right, outputs, r),
        before.left@.pending.len() == 0,
        before.right@.pending.len() == 0,
        left.0.batches.len() == 0,
        right.0.batches.len() == 0,
        left.0.closed ==> before.left@.exhausted,
        right.0.closed ==> before.right@.exhausted,
    ensures
        r is Ok,
        after.left@.pending.len() == 0,
        after.right@.pending.len() == 0,
        after.left@.exhausted == before.left@.exhausted,
        after.right@.exhausted == before.right@.exhausted,
        after.outbox@.len() <= before.outbox@.len(),
{
    let c = choose|c: JoinCourse<T, D3>| #[trigger]
        before.steps_by(&after, left, right, outputs, c, r);
    assert(batches(after.outbox@).len() == after.outbox@.len());
    assert(batches(before.outbox@).len() == before.outbox@.len());
}

proof fn lemma_settled<T, D, D2>(v: TaskView<T, D, D2>, results: Seq<TaskResult<D2>>)
    requires
        tickets_differ(v),
    ensures
        ({
            let s = v.settled_all(results);
            &&& tickets_differ(s)
            &&& s.waiting == v.waiting
            &&& s.max == v.max
            &&& s.next == v.next
            &&& s.exhausted == v.exhausted
            &&& s.done == v.done
            &&& s.running.len() <= v.running.len()
            &&& s.running.len() >= v.running.len() - results.len()
            &&& s.outbox.len() >= v.outbox.len()
        }),
    decreases results.len(),
{
    if results.len() > 0 {
        lemma_settled(v, results.drop_last());
        let mid = v.settled_all(results.drop_last());
        let r = results.last();
        if exists|i: int| 0 <= i < mid.running.len() && (#[trigger] mid.running[i]).0 == r.ticket {
            let i = choose|i: int|
                0 <= i < mid.running.len() && (#[trigger] mid.running[i]).0 == r.ticket;
            results_come_at_the_time_of_their_batch(mid, r, i);
        }
    }
}

/// Every batch that comes in waits, is being processed or was started, from the oldest on; as many are
/// processed as may be. An operator with tasks is through just when its input has ended and it has
/// nothing left to wait for, and it waits for tasks only while some are being processed.
pub proof fn tasks_are_started_in_order<T, D, D2: Clone>(
    before: TaskView<T, D, D2>,
    after: TaskView<T, D, D2>,
    results: Seq<TaskResult<D2>>,
    input: (ChannelView<T, D>, ChannelView<T, D>),
    outputs: (Seq<ChannelView<T, D2>>, Seq<ChannelView<T, D2>>),
    outcome: ActivationOutcome,
)
    requires
        before.steps(after, results, input, outputs, outcome),
        !before.done,
        tickets_differ(before),
        before.next + before.waiting.len() + input.0.batches.len() < u64::MAX,
    ensures
        input.1.batches.len() == 0,
        ({
            let all = before.waiting + input.0.batches;
            let n = all.len() - after.waiting.len();
            let r = after.running.len() - n;
            &&& n >= 0
            &&& r >= 0
            &&& after.waiting == all.skip(n)
            &&& before.running.len() - results.len() <= r <= before.running.len()
            &&& forall|i: int|
                0 <= i < n ==> #[trigger] after.running[r + i] == (
                    (before.next + i) as u64,
                    all[i].0,
                )
        }),
        after.waiting.len() > 0 ==> after.running.len() >= before.max,
        tickets_differ(after),
        outcome is Done <==> after.done,
        after.done <==> (before.exhausted || input.0.closed) && after.waiting.len() == 0
            && after.running.len() == 0 && after.outbox.len() == 0,
        !after.done ==> (outcome is BlockedOnBackpressure <==> after.outbox.len() > 0),
        outcome is WaitingForAsync ==> after.running.len() > 0,
        outcome is Idle ==> after.running.len() == 0 && after.waiting.len() == 0 || before.max == 0,
        forall|i: int|
            0 <= i < outputs.0.len() && after.done ==> (#[trigger] outputs.1[i]).closed,
{
    let c = choose|c: TaskCourse<T, D, D2>| #[trigger]
        before.steps_by(after, results, input, outputs, c, outcome);
    lemma_settled(before, results);
    assert(tickets_differ(c.informed));
    the_oldest_are_started(c.informed);
    let all = before.waiting + input.0.batches;
    let n = all.len() - after.waiting.len();
    let s = before.settled_all(results);
    assert(after.running.len() == s.running.len() + n);
    assert(after.waiting =~= all.skip(n));
    let v = c.informed;
    assert forall|i: int| 0 <= i < n implies #[trigger] after.running[s.running.len() + i] == (
        (before.next + i) as u64,
        all[i].0,
    ) by {
        assert(v.started(v.startable()).running[v.running.len() + i] == (
            (v.next + i) as u64,
            v.waiting[i].0,
        ));
    }
    assert(tickets_differ(v.started(v.startable())));
}

} // verus!
