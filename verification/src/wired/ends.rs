//! Where streams begin and end.

use std::collections::VecDeque;
use vstd::prelude::*;
use crate::channel::{Channel, ChannelView};
use crate::handles::batches;
use crate::order::Timestamp;
use crate::schedulable::ActivationOutcome;
use crate::wired::logic::saw_batch;
use crate::wired::outbox::{all_same_bounds, contents, send_batches, sends};
use crate::wired::relay::{all_closed, close_all};

verus! {

/// What a source has left to send, and whether it has finished.
pub struct SourceView<T, D> {
    pub pending: Seq<(T, Seq<D>)>,
    pub done: bool,
}

impl<T, D: Clone> SourceView<T, D> {
    /// An activation: as many batches as possible are sent, so that the channels hold `mid`; they
    /// are closed when all are sent. A source that has finished does nothing.
    pub open spec fn steps_by(
        self,
        after: SourceView<T, D>,
        from: Seq<ChannelView<T, D>>,
        to: Seq<ChannelView<T, D>>,
        mid: Seq<ChannelView<T, D>>,
        outcome: ActivationOutcome,
    ) -> bool {
        if self.done {
            after == self && to == from && outcome is Done
        } else {
            &&& sends(self.pending, from, after.pending, mid)
            &&& after.done == (after.pending.len() == 0)
            &&& if after.done {
                all_closed(mid, to) && outcome is Done
            } else {
                to == mid && outcome == if after.pending.len() < self.pending.len() {
                    ActivationOutcome::MadeProgress
                } else {
                    ActivationOutcome::BlockedOnBackpressure
                }
            }
        }
    }

    /// An activation.
    pub open spec fn steps(
        self,
        after: SourceView<T, D>,
        from: Seq<ChannelView<T, D>>,
        to: Seq<ChannelView<T, D>>,
        outcome: ActivationOutcome,
    ) -> bool {
        exists|mid: Seq<ChannelView<T, D>>| #[trigger]
            self.steps_by(after, from, to, mid, outcome)
    }
}

/// Batches that are sent one after the other.
pub struct SourceState<T, D> {
    pub outbox: VecDeque<(T, Vec<D>)>,
    pub done: bool,
}

impl<T, D> View for SourceState<T, D> {
    type V = SourceView<T, D>;

    open spec fn view(&self) -> SourceView<T, D> {
        SourceView { pending: batches(self.outbox@), done: self.done }
    }
}

/// Activates a source.
pub fn source_step<T: Timestamp, D: Clone>(
    source: &mut SourceState<T, D>,
    outputs: &mut Vec<Channel<T, D>>,
) -> (outcome: ActivationOutcome)
    ensures
        old(source)@.steps(
            final(source)@,
            contents(old(outputs)@),
            contents(final(outputs)@),
            outcome,
        ),
        final(outputs)@.len() == old(outputs)@.len(),
        all_same_bounds(contents(old(outputs)@), contents(final(outputs)@)),
{
    let ghost from = contents(outputs@);
    if source.done {
        assert(old(source)@.steps_by(source@, from, from, from, ActivationOutcome::Done));
        return ActivationOutcome::Done;
    }
    let sent = send_batches(&mut source.outbox, outputs);
    let ghost mid = contents(outputs@);
    let outcome = if source.outbox.len() == 0 {
        close_all(outputs);
        source.done = true;
        ActivationOutcome::Done
    } else if sent {
        ActivationOutcome::MadeProgress
    } else {
        ActivationOutcome::BlockedOnBackpressure
    };
    assert(old(source)@.steps_by(source@, from, contents(outputs@), mid, outcome));
    outcome
}

/// What activating a sink comes to: all batches are taken, and the end of the channel is the end of
/// the sink.
pub open spec fn sink_steps<T, D>(
    done: (bool, bool),
    input: (ChannelView<T, D>, ChannelView<T, D>),
    outcome: ActivationOutcome,
) -> bool {
    if done.0 {
        done.1 && input.1 == input.0 && outcome is Done
    } else {
        &&& input.1 == (ChannelView { batches: Seq::<(T, Seq<D>)>::empty(), ..input.0 })
        &&& done.1 == input.0.closed
        &&& outcome == if input.0.closed {
            ActivationOutcome::Done
        } else if input.0.batches.len() > 0 {
            ActivationOutcome::MadeProgress
        } else {
            ActivationOutcome::Idle
        }
    }
}

/// Takes all batches of a channel.
fn pull_batches<T, D>(input: &mut Channel<T, D>, taken: &mut Vec<(T, Vec<D>)>)
    ensures
        final(input)@ == (ChannelView { batches: Seq::<(T, Seq<D>)>::empty(), ..old(input)@ }),
        batches(final(taken)@) == batches(old(taken)@) + old(input)@.batches,
{
    let ghost given = input@.batches;
    let ghost first = batches(taken@);
    let ghost mut k: int = 0;
    let mut more = true;
    assert(given.skip(0) =~= given);
    assert(first + given.take(0) =~= first);
    while more
        invariant
            0 <= k <= given.len(),
            given == old(input)@.batches,
            input@ == (ChannelView { batches: given.skip(k), ..old(input)@ }),
            batches(taken@) == first + given.take(k),
            !more ==> k == given.len(),
        decreases
                given.len() - k,
                (if more {
                    1int
                } else {
                    0int
                }),
    {
        match input.pull() {
            Some(b) => {
                let ghost batch = (b.0, b.1@);
                let ghost before = taken@;
                taken.push(b);
                proof {
                    assert(batch == given[k]);
                    assert(batches(taken@) =~= batches(before).push(batch));
                    assert(first + given.take(k + 1) =~= (first + given.take(k)).push(batch));
                    assert(given.skip(k).drop_first() =~= given.skip(k + 1));
                    k = k + 1;
                }
            },
            None => {
                more = false;
            },
        }
    }
    assert(given.take(k) =~= given);
    assert(input@.batches =~= Seq::<(T, Seq<D>)>::empty());
}

fn sink_outcome(closed: bool, took: bool) -> (outcome: ActivationOutcome)
    ensures
        outcome == if closed {
            ActivationOutcome::Done
        } else if took {
            ActivationOutcome::MadeProgress
        } else {
            ActivationOutcome::Idle
        },
{
    if closed {
        ActivationOutcome::Done
    } else if took {
        ActivationOutcome::MadeProgress
    } else {
        ActivationOutcome::Idle
    }
}

/// Activates a sink that collects batches.
pub fn collect_step<T, D>(
    input: &mut Channel<T, D>,
    done: &mut bool,
    collected: &mut Vec<(T, Vec<D>)>,
) -> (outcome: ActivationOutcome)
    ensures
        sink_steps((*old(done), *final(done)), (old(input)@, final(input)@), outcome),
        batches(final(collected)@) == batches(old(collected)@) + if *old(done) {
            Seq::<(T, Seq<D>)>::empty()
        } else {
            old(input)@.batches
        },
{
    if *done {
        assert(batches(collected@) + Seq::<(T, Seq<D>)>::empty() =~= batches(collected@));
        return ActivationOutcome::Done;
    }
    let took = input.len() > 0;
    pull_batches(input, collected);
    let closed = input.is_closed();
    *done = closed;
    sink_outcome(closed, took)
}

/// Activates a sink that shows batches to a closure.
pub fn for_each_step<T, D, F: FnMut(&T, &[D])>(
    input: &mut Channel<T, D>,
    done: &mut bool,
    logic: &mut F,
) -> (outcome: ActivationOutcome)
    requires
        forall|t: &T, b: &[D]| #[trigger] call_requires(*old(logic), (t, b)),
    ensures
        sink_steps((*old(done), *final(done)), (old(input)@, final(input)@), outcome),
        *final(logic) == *old(logic),
        !*old(done) ==> forall|i: int|
            0 <= i < old(input)@.batches.len() ==> saw_batch(
                *old(logic),
                (#[trigger] old(input)@.batches[i]).0,
                old(input)@.batches[i].1,
            ),
{
    if *done {
        return ActivationOutcome::Done;
    }
    let took = input.len() > 0;
    let mut taken: Vec<(T, Vec<D>)> = Vec::new();
    let ghost given = input@.batches;
    pull_batches(input, &mut taken);
    assert(batches(taken@) =~= given);
    let mut i: usize = 0;
    while i < taken.len()
        invariant
            i <= taken@.len(),
            *logic == *old(logic),
            forall|t: &T, b: &[D]| #[trigger] call_requires(*old(logic), (t, b)),
            batches(taken@) == given,
            forall|k: int|
                0 <= k < i ==> saw_batch(*old(logic), (#[trigger] given[k]).0, given[k].1),
        decreases taken@.len() - i,
    {
        assert(given[i as int] == (taken@[i as int].0, taken@[i as int].1@));
        logic(&taken[i].0, taken[i].1.as_slice());
        i = i + 1;
    }
    let closed = input.is_closed();
    *done = closed;
    sink_outcome(closed, took)
}

} // verus!
