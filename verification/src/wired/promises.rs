//! Operators send at the times that they have told of.

use vstd::prelude::*;
use crate::channel::ChannelView;
use crate::error::{Error, Result};
use crate::handles::{batches, InputHandle, InputView, OutputHandle};
use crate::order::{Product, Timestamp};
use crate::schedulable::{ActivationOutcome, SchedulableOperator};
use crate::strand::{ChannelCell, Log, LogView};
use crate::telling::is_at_or_after_one;
use crate::wired::gathering::{
    emitted, gathers_by, lemma_draining, lemma_parts_sound, Assign, Finish, GatherCourse,
    StashLogic, Waiting,
};
use crate::wired::joins::MergeCourse;
use crate::wired::logic::{flattened, BatchLogic};
use crate::wired::operator::{
    can_hold, AsIs, InputCore, JoinCore, LogReceipt, LoopOperator, MergeCore, MergeTraffic,
    NotifyCore, RelayCore, SourceCore, TaskCore, Traffic, WiredCore,
};
use crate::wired::outbox::{is_copy, received};
use crate::wired::passage::{lemma_activation, lemma_batches_tell, taken, turns};
use crate::wired::relay::{
    applies_all, made_batches, Batched, RelayCourse, RelayLogic, RelayState,
};

verus! {

/// What was added to a log.
pub open spec fn added<T, D>(wrote: LogReceipt<T, D>) -> Seq<(T, Seq<D>)> {
    wrote.after()@.written().skip(wrote.before()@.written().len() as int)
}

/// Some batch of the list has the time `t`.
pub open spec fn has_time<T, D>(list: Seq<(T, Seq<D>)>, t: T) -> bool {
    exists|i: int| 0 <= i < list.len() && (#[trigger] list[i]).0 == t
}

/// What came into a channel, or nothing if it was abandoned, are batches that were sent.
proof fn lemma_received_times<T, D: Clone>(
    from: ChannelView<T, D>,
    to: ChannelView<T, D>,
    sent: Seq<(T, Seq<D>)>,
    k: int,
)
    requires
        received(from, to, sent),
        from.batches.len() <= k < to.batches.len(),
    ensures
        has_time(sent, to.batches[k].0),
{
    let n = from.batches.len() as int;
    if !from.abandoned {
        assert(is_copy(sent[k - n], to.batches.skip(n)[k - n]));
        assert(sent[k - n].0 == to.batches[k].0);
    }
}

/// The batches that were added to a log are those that came into its channel.
proof fn lemma_added<T, D>(wrote: LogReceipt<T, D>, k: int)
    requires
        wrote.after()@ == (LogView {
            channel: wrote.after()@.channel,
            ..wrote.before()@
        }),
        wrote.before()@.channel.batches.len() <= wrote.after()@.channel.batches.len(),
        0 <= k < added(wrote).len(),
    ensures
        ({
            let n = wrote.before()@.channel.batches.len();
            let to = wrote.after()@.channel.batches;
            n + k < to.len() && added(wrote)[k] == to[n + k]
        }),
{
}

/// An input that has not ended tells of times at which it may still send something, and any time is at
/// or after one of them.
pub proof fn open_inputs_hold_every_time<T: Timestamp, D: Clone>(core: InputCore<T, D>, t: T)
    requires
        !core.merge.done,
    ensures
        is_at_or_after_one(core.holding(), t),
        !core.ended(),
{
    t.least_is_below();
    assert(core.holding()[0].le(&t));
}

/// Whatever an input sends is at or after a time that it told of before.
pub proof fn inputs_send_what_they_told_of<T: Timestamp, D: Clone>(
    core: InputCore<T, D>,
    after: InputCore<T, D>,
    r: Result<ActivationOutcome>,
    t: MergeTraffic<T, D>,
    trace: (LogReceipt<T, D>, LogReceipt<T, D>),
    k: int,
)
    requires
        core.works_by(&after, r, t, trace),
        0 <= k < added(trace.1).len(),
    ensures
        is_at_or_after_one(core.holding(), added(trace.1)[k].0),
        !core.ended(),
{
    let c = choose|c: MergeCourse<T, D>| #[trigger]
        core.merge@.steps_by(after.merge@, t.inputs, t.outputs, c, r->Ok_0);
    if core.merge.done {
        assert(t.outputs.0[0] == t.outputs.1[0]);
        lemma_added(trace.1, k);
    }
    open_inputs_hold_every_time(core, added(trace.1)[k].0);
}

/// An input ends only when no more can come from outside, everything that came was taken, and
/// everything was sent. Then one input less is open.
pub proof fn inputs_end_with_what_is_outside<T: Timestamp, D: Clone>(
    core: InputCore<T, D>,
    after: InputCore<T, D>,
    r: Result<ActivationOutcome>,
    t: MergeTraffic<T, D>,
    trace: (LogReceipt<T, D>, LogReceipt<T, D>),
)
    requires
        core.works_by(&after, r, t, trace),
        !core.ended(),
        after.ended(),
    ensures
        trace.0.before()@.channel.closed,
        after.external.cursor() == trace.0.before()@.written().len(),
        after.merge.outbox@.len() == 0,
        exists|n: usize, m: usize| #[trigger]
            core.open_inputs.turned(n, m) && (n > 0 ==> m == n - 1) && (n == 0 ==> m == 0),
{
    let c = choose|c: MergeCourse<T, D>| #[trigger]
        core.merge@.steps_by(after.merge@, t.inputs, t.outputs, c, r->Ok_0);
    assert(t.inputs.0[0].closed);
    assert(t.inputs.1[0].batches.len() == 0);
    assert(batches(after.merge.outbox@).len() == after.merge.outbox@.len());
}

/// Whatever a source sends is at a time that it told of before.
pub proof fn sources_send_what_they_told_of<T: Timestamp, D: Clone>(
    core: SourceCore<T, D>,
    after: SourceCore<T, D>,
    r: Result<ActivationOutcome>,
    from: Seq<ChannelView<T, D>>,
    to: Seq<ChannelView<T, D>>,
    trace: LogReceipt<T, D>,
    k: int,
)
    requires
        core.works_by(&after, r, from, to, trace),
        0 <= k < added(trace).len(),
    ensures
        core.holding().contains(added(trace)[k].0),
{
    let a = core.state@;
    let b = after.state@;
    let mid = choose|mid: Seq<ChannelView<T, D>>| #[trigger]
        a.steps_by(b, from, to, mid, r->Ok_0);
    assert(from[0] == trace.before()@.channel);
    assert(to[0] == trace.after()@.channel);
    let n = trace.before()@.channel.batches.len() as int;
    if !a.done {
        let m = a.pending.len() - b.pending.len();
        let sent = a.pending.take(m);
        assert(received(from[0], mid[0], sent));
        assert(to[0].batches == mid[0].batches);
        lemma_added(trace, k);
        lemma_received_times(from[0], mid[0], sent, n + k);
        let i = choose|i: int|
            0 <= i < sent.len() && (#[trigger] sent[i]).0 == added(trace)[k].0;
        assert(core.holding()[i] == core.state.outbox@[i].0);
        assert(a.pending[i].0 == core.state.outbox@[i].0);
    } else {
        lemma_added(trace, k);
    }
}

/// A source tells of all the times at which it will send something.
pub proof fn sources_tell_of_everything<T: Timestamp, D: Clone>(core: SourceCore<T, D>, i: int)
    requires
        0 <= i < core.state.outbox@.len(),
    ensures
        core.holding().contains(core.state.outbox@[i].0),
{
    assert(core.holding()[i] == core.state.outbox@[i].0);
}

proof fn lemma_made_times<T, D, D2>(given: Seq<(T, Seq<D>)>, made: Seq<Seq<D2>>, k: int)
    requires
        given.len() <= made.len(),
        0 <= k < made_batches(given, made).len(),
    ensures
        has_time(given, made_batches(given, made)[k].0),
    decreases given.len(),
{
    let less = given.drop_last();
    let before = made_batches(less, made);
    if k < before.len() {
        lemma_made_times(less, made, k);
        let i = choose|i: int| 0 <= i < less.len() && (#[trigger] less[i]).0 == before[k].0;
        assert(given[i].0 == before[k].0);
    } else {
        assert(given[given.len() - 1].0 == made_batches(given, made)[k].0);
    }
}

/// Whatever an operator that works batch by batch sends is at a time that it told of before, or at the
/// time of a batch that waited at its input.
pub proof fn operators_send_what_they_told_of<
    T: Timestamp,
    D: Clone,
    D2: Clone,
    B: BatchLogic<T, D, D2>,
>(
    core: RelayCore<T, D, T, D2, Batched<B>, AsIs, AsIs>,
    after: RelayCore<T, D, T, D2, Batched<B>, AsIs, AsIs>,
    r: Result<ActivationOutcome>,
    t: Traffic<T, D, T, D2>,
    trace: (LogReceipt<T, D>, LogReceipt<T, D2>),
    k: int,
)
    requires
        core.works_by(&after, r, t, trace),
        !t.wants,
        core.state.input@.pending.len() == 0,
        !trace.1.before()@.channel.abandoned,
        0 <= k < added(trace.1).len(),
    ensures
        WiredCore::<T>::holding(&core).contains(added(trace.1)[k].0) || has_time(
            t.input.0.batches,
            added(trace.1)[k].0,
        ),
{
    let from = trace.1.before()@.channel;
    let to = trace.1.after()@.channel;
    let makes = lemma_batches_tell::<T, D, D2, B>();
    let (out, sent) = lemma_activation(makes, core.state, after.state, t.input, from, to, r);
    let n = from.batches.len() as int;
    lemma_added(trace.1, k);
    lemma_received_times(from, ChannelView { closed: from.closed, ..to }, sent, n + k);
    let time = added(trace.1)[k].0;
    let i = choose|i: int| 0 <= i < sent.len() && (#[trigger] sent[i]).0 == time;
    let waiting = batches(core.state.outbox@);
    let all = waiting + out;
    assert(all == sent + batches(after.state.outbox@));
    assert(i < all.len());
    assert(all[i] == (sent + batches(after.state.outbox@))[i]);
    assert(all[i].0 == time);
    if i < waiting.len() {
        assert(WiredCore::<T>::holding(&core)[i] == core.state.outbox@[i].0);
    } else {
        let j = i - waiting.len();
        assert(turns(core.state.logic.logic, after.state.logic.logic, taken(t.input), out));
        let (states, made) = choose|states: Seq<B>, made: Seq<Seq<D2>>| #[trigger]
            applies_all(states, taken(t.input), made) && states[0] == core.state.logic.logic
                && states.last() == after.state.logic.logic && out == made_batches(
                taken(t.input),
                made,
            );
        assert(all[i] == out[j]);
        lemma_made_times(taken(t.input), made, j);
        let m = choose|m: int|
            0 <= m < taken(t.input).len() && (#[trigger] taken(t.input)[m]).0 == time;
        assert(t.input.0.batches[m].0 == time);
    }
}

/// What is sent for complete times is at these times.
proof fn lemma_emitted_at<T, D2>(times: Seq<T>, outs: Seq<Seq<D2>>, k: int)
    requires
        times.len() <= outs.len(),
        0 <= k < emitted(times, outs).len(),
    ensures
        times.contains(emitted(times, outs)[k].0),
    decreases times.len(),
{
    let less = times.drop_last();
    let before = emitted(less, outs);
    if k < before.len() {
        lemma_emitted_at(less, outs, k);
        let i = choose|i: int| 0 <= i < less.len() && less[i] == before[k].0;
        assert(times[i] == before[k].0);
    } else {
        assert(times[times.len() - 1] == emitted(times, outs)[k].0);
    }
}

proof fn lemma_requests_of_parts<T, D>(w: Waiting<T, D>, parts: Seq<(T, Seq<D>)>, t: T)
    requires
        w.with_parts(parts).requests.contains(t),
    ensures
        w.requests.contains(t) || has_time(parts, t),
    decreases parts.len(),
{
    if parts.len() > 0 {
        let less = parts.drop_last();
        let mid = w.with_parts(less);
        let n = parts.len() - 1;
        if parts[n].0 == t {
            assert(has_time(parts, t));
        } else {
            assert(mid.requests.contains(t)) by {
                let all = w.with_parts(parts).requests;
                let i = choose|i: int| 0 <= i < all.len() && all[i] == t;
                assert(mid.requests[i] == t);
            }
            lemma_requests_of_parts(w, less, t);
            if has_time(less, t) {
                let i = choose|i: int| 0 <= i < less.len() && (#[trigger] less[i]).0 == t;
                assert(parts[i].0 == t);
            }
        }
    }
}

/// Whatever is sent of records that were held back is at a time that was requested before, or at one
/// under which the records of a batch that has just come are kept.
pub proof fn gathering_sends_what_it_told_of<
    T: Timestamp,
    D,
    D2,
    A: Assign<T, D>,
    K: Finish<D, D2>,
>(
    before: StashLogic<T, D, A, K>,
    after: StashLogic<T, D, A, K>,
    input: InputView<T, D>,
    rest: InputView<T, D>,
    out: Seq<(T, Seq<D2>)>,
    c: GatherCourse<T, D, D2>,
    k: int,
)
    requires
        before.waiting().sound(),
        gathers_by(&before, &after, input, rest, out, c),
        0 <= k < out.len(),
    ensures
        before.context@.pending.contains(out[k].0) || has_time(flattened(c.parts), out[k].0),
{
    lemma_emitted_at(c.times, c.outs, k);
    let w = before.waiting();
    let parts = flattened(c.parts);
    lemma_parts_sound(w, parts);
    lemma_draining(c.states, c.times, c.times.len() as int);
    let j = choose|j: int| 0 <= j < c.times.len() && c.times[j] == out[k].0;
    assert(c.states[0].pending.contains(c.times[j]));
    lemma_requests_of_parts(w, parts, out[k].0);
}

/// An operator with tasks tells of the times of all batches that wait, that are being processed, and
/// whose results wait to be sent.
pub proof fn task_times_are_complete<T: Timestamp, D: Clone, D2: Clone>(
    core: TaskCore<T, D, D2>,
    t: T,
)
    requires
        !core.given_up,
        has_time(core.state@.waiting, t) || has_time(core.state@.outbox, t) || exists|i: int|
            0 <= i < core.state@.running.len() && (#[trigger] core.state@.running[i]).1 == t,
    ensures
        core.holding().contains(t),
{
    let v = core.state@;
    let a = v.waiting.map_values(|b: (T, Seq<D>)| b.0);
    let b = v.running.map_values(|r: (u64, T)| r.1);
    let all = core.holding();
    if has_time(v.waiting, t) {
        let i = choose|i: int| 0 <= i < v.waiting.len() && (#[trigger] v.waiting[i]).0 == t;
        assert(all[i] == t);
    } else if has_time(v.outbox, t) {
        let i = choose|i: int| 0 <= i < v.outbox.len() && (#[trigger] v.outbox[i]).0 == t;
        assert(all[a.len() + b.len() + i] == t);
    } else {
        let i = choose|i: int| 0 <= i < v.running.len() && (#[trigger] v.running[i]).1 == t;
        assert(all[a.len() + i] == t);
    }
}

/// What a reader has told of its input are the times of the next batches in the log, as many as it sees
/// at a time, in their order.
pub proof fn readers_tell_of_what_is_next<T, D: Clone>(cell: ChannelCell<T, D>, times: Seq<T>)
    requires
        can_hold(cell, times),
    ensures
        exists|log: Log<T, D>, at: int| #[trigger]
            starts_at(cell, log, at) && cell.strand().log().turned(log, log) && times.len()
                <= cell.limit() && at + times.len() <= log@.written().len() && (times.len()
                < cell.limit() && at + times.len() < usize::MAX ==> at + times.len()
                == log@.written().len()) && forall|i: int|
                0 <= i < times.len() ==> #[trigger] times[i] == log@.written()[at + i].0,
{
    let (log, at, c) = choose|log: Log<T, D>, at: int, c: ChannelView<T, D>| #[trigger]
        log@.shows(cell.cursor() as int, cell.limit() as int, at, c)
            && cell.strand().log().turned(log, log) && times == c.batches.map_values(
            |b: (T, Seq<D>)| b.0,
        );
    assert(starts_at(cell, log, at));
    let rest = log@.written().skip(at);
    let n = times.len() as int;
    assert forall|i: int| 0 <= i < times.len() implies #[trigger] times[i] == log@.written()[at
        + i].0 by {
        assert(is_copy(rest.take(n)[i], c.batches[i]));
    }
}

/// The place in a log where a reader goes on: where it left off, or where the log begins if what it has
/// not read was forgotten, or at the end if it has read more than there is.
pub open spec fn starts_at<T, D>(cell: ChannelCell<T, D>, log: Log<T, D>, at: int) -> bool {
    &&& log@.past.len() <= at <= log@.written().len()
    &&& log@.past.len() <= cell.cursor() <= log@.written().len() ==> at == cell.cursor()
}

/// What waits to be sent by an operator that waits for complete times is told of, and so are the times
/// that it waits for.
pub proof fn waiting_operators_tell_of_everything<
    T: Timestamp,
    D: Clone,
    D2: Clone,
    A: Assign<T, D>,
    K: Finish<D, D2>,
>(core: NotifyCore<T, D, D2, StashLogic<T, D, A, K>>, t: T)
    requires
        core.sound(),
        has_time(batches(core.relay.state.outbox@), t)
            || core.relay.state.logic.stash@.dom().contains(t),
    ensures
        core.holding().contains(t) || (core.notices() matches Some(n) && n.pending.contains(t)),
{
    let logic = core.relay.state.logic;
    if logic.stash@.dom().contains(t) {
        assert(logic.waiting().sound());
        assert(logic.waiting().held.dom().contains(t));
        assert(logic.waiting().requests.contains(t));
    } else {
        let out = batches(core.relay.state.outbox@);
        let i = choose|i: int| 0 <= i < out.len() && (#[trigger] out[i]).0 == t;
        assert(core.holding()[i] == core.relay.state.outbox@[i].0);
    }
}

/// What waits to be sent by an operator that merges streams is told of.
pub proof fn merging_operators_tell_of_everything<T: Timestamp, D: Clone>(
    core: MergeCore<T, D, AsIs>,
    t: T,
)
    requires
        has_time(batches(core.state.outbox@), t),
    ensures
        WiredCore::<T>::holding(&core).contains(t),
{
    let out = batches(core.state.outbox@);
    let i = choose|i: int| 0 <= i < out.len() && (#[trigger] out[i]).0 == t;
    assert(WiredCore::<T>::holding(&core)[i] == core.state.outbox@[i].0);
}

/// What waits to be sent by an operator with two inputs is told of.
pub proof fn joining_operators_tell_of_everything<
    T: Timestamp,
    D1: Clone,
    D2: Clone,
    D3: Clone,
    L: FnMut(&mut InputHandle<T, D1>, &mut InputHandle<T, D2>, &mut OutputHandle<T, D3>) -> Result<
        (),
    >,
>(core: JoinCore<T, D1, D2, D3, L>, t: T)
    requires
        has_time(batches(core.state.outbox@), t),
    ensures
        core.holding().contains(t),
{
    let out = batches(core.state.outbox@);
    let i = choose|i: int| 0 <= i < out.len() && (#[trigger] out[i]).0 == t;
    assert(core.holding()[i] == core.state.outbox@[i].0);
}

/// What an operator inside a loop tells of is told of outside, at the time outside.
pub proof fn loops_tell_of_everything<T: Timestamp, TInner: Timestamp>(
    op: LoopOperator<T, TInner>,
    t: Product<T, TInner>,
)
    ensures
        op.op.holding().contains(t) ==> op.holding().contains(t.outer),
        op.holding().len() == op.op.holding().len(),
{
    if op.op.holding().contains(t) {
        let i = choose|i: int| 0 <= i < op.op.holding().len() && op.op.holding()[i] == t;
        assert(op.holding()[i] == t.outer);
    }
}

/// An activation tells what has happened: an operator is through just if it says so; it waits for room
/// just if something waits to be sent; and it is idle only if it has neither read nor sent anything.
pub proof fn outcomes_tell_what_happened<
    T1,
    D1,
    T2,
    D2: Clone,
    L: RelayLogic<T1, D1, T2, D2>,
>(
    before: RelayState<T1, D1, T2, D2, L>,
    after: RelayState<T1, D1, T2, D2, L>,
    input: (ChannelView<T1, D1>, ChannelView<T1, D1>),
    from: ChannelView<T2, D2>,
    to: ChannelView<T2, D2>,
    wants: bool,
    outcome: ActivationOutcome,
)
    requires
        before.steps(
            &after,
            input,
            (seq![from], seq![to]),
            wants,
            Ok::<ActivationOutcome, Error>(outcome),
        ),
    ensures
        outcome is Done <==> after.done,
        !after.done ==> (outcome is BlockedOnBackpressure <==> after.outbox@.len() > 0),
        outcome is Idle ==> input.1.batches == input.0.batches && to.batches == from.batches
            && before.outbox@.len() == 0,
        !(outcome is WaitingForAsync),
        after.done && !before.done ==> to.closed,
        !after.done ==> to.closed == from.closed,
        before.outbox@.len() > 0 && !before.done && input.0.batches.len() > 0 && input.1.batches
            == input.0.batches ==> outcome is BlockedOnBackpressure,
{
    let r = Ok::<ActivationOutcome, Error>(outcome);
    let c = choose|c: RelayCourse<T2, D2>| #[trigger]
        before.steps_by(&after, input, (seq![from], seq![to]), wants, c, r);
    assert(seq![from][0] == from);
    assert(seq![to][0] == to);
    assert(batches(after.outbox@).len() == after.outbox@.len());
    assert(batches(before.outbox@).len() == before.outbox@.len());
    if !before.done {
        let waiting = batches(before.outbox@);
        let k = waiting.len() - c.left.len();
        assert(received(seq![from][0], c.mid[0], waiting.take(k)));
        if c.left.len() == 0 && c.answer is Ok {
            let m = c.out.len() - after.outbox@.len();
            assert(received(c.mid[0], c.end[0], c.out.take(m)));
            if outcome is Idle {
                assert(c.mid[0].batches =~= from.batches) by {
                    if !from.abandoned {
                        assert(c.mid[0].batches.take(from.batches.len() as int)
                            =~= c.mid[0].batches);
                    }
                }
                assert(to.batches =~= from.batches) by {
                    if !c.mid[0].abandoned {
                        assert(c.end[0].batches.take(c.mid[0].batches.len() as int)
                            =~= c.end[0].batches);
                    }
                }
                assert(input.1.batches =~= input.0.batches);
            }
        }
    }
}

} // verus!
