//! Operators with several inputs.

use std::collections::VecDeque;
use vstd::prelude::*;
use crate::channel::{Channel, ChannelView};
use crate::error::{Error, Result};
use crate::handles::{batches, with_batch, without_empty, InputHandle, InputView, OutputHandle};
use crate::operators::concat::merged;
use crate::order::Timestamp;
use crate::schedulable::ActivationOutcome;
use crate::wired::outbox::{all_same_bounds, contents, send_batches, sends};
use crate::wired::relay::{all_closed, close_all, into_queue, pull_all};

verus! {

/// The batches in channels.
pub open spec fn queued<T, D>(channels: Seq<ChannelView<T, D>>) -> Seq<Seq<(T, Seq<D>)>> {
    channels.map_values(|c: ChannelView<T, D>| c.batches)
}

/// No channel will get any more batches.
pub open spec fn all_ended<T, D>(channels: Seq<ChannelView<T, D>>) -> bool {
    forall|j: int| 0 <= j < channels.len() ==> (#[trigger] channels[j]).closed
}

/// All batches were taken out of the channels.
pub open spec fn all_taken<T, D>(
    before: Seq<ChannelView<T, D>>,
    after: Seq<ChannelView<T, D>>,
) -> bool {
    &&& after.len() == before.len()
    &&& forall|j: int|
        0 <= j < before.len() ==> #[trigger] after[j] == (ChannelView {
            batches: Seq::<(T, Seq<D>)>::empty(),
            ..before[j]
        })
}

/// Some channel holds a batch.
pub open spec fn any_queued<T, D>(channels: Seq<ChannelView<T, D>>) -> bool {
    exists|j: int| 0 <= j < channels.len() && (#[trigger] channels[j]).batches.len() > 0
}

/// What a merging operator has left to send, and whether it has finished.
pub struct MergeView<T, D> {
    pub pending: Seq<(T, Seq<D>)>,
    pub done: bool,
}

/// The course of an activation of a merging operator.
pub struct MergeCourse<T, D> {
    /// What was left over of earlier batches after they were sent first thing.
    pub left: Seq<(T, Seq<D>)>,
    /// What the channels behind the operator held then.
    pub mid: Seq<ChannelView<T, D>>,
    /// What the channels behind the operator held after the new batches were sent.
    pub end: Seq<ChannelView<T, D>>,
}

impl<T, D: Clone> MergeView<T, D> {
    /// An activation that took the given course: what waits for room is sent first; as long as some
    /// of it has to wait, no input is read. Then all batches of the inputs are sent on, input after
    /// input. When all inputs have ended and everything is sent, the operator closes its channels.
    pub open spec fn steps_by(
        self,
        after: MergeView<T, D>,
        inputs: (Seq<ChannelView<T, D>>, Seq<ChannelView<T, D>>),
        outputs: (Seq<ChannelView<T, D>>, Seq<ChannelView<T, D>>),
        c: MergeCourse<T, D>,
        outcome: ActivationOutcome,
    ) -> bool {
        if self.done {
            after == self && inputs.1 == inputs.0 && outputs.1 == outputs.0 && outcome is Done
        } else {
            &&& sends(self.pending, outputs.0, c.left, c.mid)
            &&& if c.left.len() > 0 {
                &&& outcome is BlockedOnBackpressure
                &&& after.pending == c.left
                &&& !after.done
                &&& inputs.1 == inputs.0
                &&& outputs.1 == c.mid
            } else {
                let fresh = merged(Seq::<(T, Seq<D>)>::empty(), queued(inputs.0));
                &&& all_taken(inputs.0, inputs.1)
                &&& sends(fresh, c.mid, after.pending, c.end)
                &&& after.done == (all_ended(inputs.0) && after.pending.len() == 0)
                &&& if after.done {
                    all_closed(c.end, outputs.1) && outcome is Done
                } else {
                    outputs.1 == c.end && outcome == if after.pending.len() > 0 {
                        ActivationOutcome::BlockedOnBackpressure
                    } else if self.pending.len() > 0 || any_queued(inputs.0) {
                        ActivationOutcome::MadeProgress
                    } else {
                        ActivationOutcome::Idle
                    }
                }
            }
        }
    }

    /// An activation.
    pub open spec fn steps(
        self,
        after: MergeView<T, D>,
        inputs: (Seq<ChannelView<T, D>>, Seq<ChannelView<T, D>>),
        outputs: (Seq<ChannelView<T, D>>, Seq<ChannelView<T, D>>),
        outcome: ActivationOutcome,
    ) -> bool {
        exists|c: MergeCourse<T, D>| #[trigger] self.steps_by(after, inputs, outputs, c, outcome)
    }
}

/// The inner state of a merging operator.
pub struct MergeState<T, D> {
    pub outbox: VecDeque<(T, Vec<D>)>,
    pub done: bool,
}

impl<T, D> View for MergeState<T, D> {
    type V = MergeView<T, D>;

    open spec fn view(&self) -> MergeView<T, D> {
        MergeView { pending: batches(self.outbox@), done: self.done }
    }
}

proof fn lemma_without_empty_push<T, D>(s: Seq<(T, Seq<D>)>, b: (T, Seq<D>))
    ensures
        without_empty(s.push(b)) == with_batch(without_empty(s), b.0, b.1),
{
    reveal(Seq::filter);
    assert(s.push(b).drop_last() =~= s);
}

/// Takes all batches of a channel, but for empty ones.
fn take_batches<T, D>(channel: &mut Channel<T, D>, out: &mut OutputHandle<T, D>)
    ensures
        final(channel)@ == (ChannelView {
            batches: Seq::<(T, Seq<D>)>::empty(),
            ..old(channel)@
        }),
        final(out)@ == old(out)@ + without_empty(old(channel)@.batches),
{
    let ghost given = channel@.batches;
    let ghost first = out@;
    let ghost mut k: int = 0;
    let mut more = true;
    proof {
        reveal(Seq::filter);
        assert(given.skip(0) =~= given);
        assert(given.take(0) =~= Seq::<(T, Seq<D>)>::empty());
        assert(first + without_empty(given.take(0)) =~= first);
    }
    while more
        invariant
            0 <= k <= given.len(),
            given == old(channel)@.batches,
            channel@ == (ChannelView { batches: given.skip(k), ..old(channel)@ }),
            out@ == first + without_empty(given.take(k)),
            !more ==> k == given.len(),
        decreases
                given.len() - k,
                (if more {
                    1int
                } else {
                    0int
                }),
    {
        match channel.pull() {
            Some((time, data)) => {
                let ghost batch = (time, data@);
                let ghost before = out@;
                out.push_vec(time, data);
                proof {
                    assert(batch == given[k]);
                    assert(given.take(k + 1) =~= given.take(k).push(batch));
                    lemma_without_empty_push(given.take(k), batch);
                    assert(out@ =~= first + without_empty(given.take(k + 1)));
                    assert(given.skip(k).drop_first() =~= given.skip(k + 1));
                    k = k + 1;
                }
            },
            None => {
                more = false;
            },
        }
    }
    assert(given.take(k) =~= given);
    assert(channel@.batches =~= Seq::<(T, Seq<D>)>::empty());
}

/// Takes all batches of the channels, but for empty ones. Returns whether there was a batch and
/// whether all channels have ended.
fn take_from_all<T, D>(inputs: &mut Vec<Channel<T, D>>, out: &mut OutputHandle<T, D>) -> (r: (
    bool,
    bool,
))
    requires
        old(out)@.len() == 0,
    ensures
        all_taken(contents(old(inputs)@), contents(final(inputs)@)),
        final(out)@ == merged(Seq::<(T, Seq<D>)>::empty(), queued(contents(old(inputs)@))),
        r.0 == any_queued(contents(old(inputs)@)),
        r.1 == all_ended(contents(old(inputs)@)),
        final(inputs)@.len() == old(inputs)@.len(),
{
    let ghost before = contents(inputs@);
    let ghost lists = queued(before);
    let mut any = false;
    let mut ended = true;
    let mut j: usize = 0;
    assert(lists.take(0) =~= Seq::<Seq<(T, Seq<D>)>>::empty());
    assert(out@ =~= Seq::<(T, Seq<D>)>::empty());
    while j < inputs.len()
        invariant
            j <= inputs@.len(),
            inputs@.len() == before.len(),
            lists == queued(before),
            out@ == merged(Seq::<(T, Seq<D>)>::empty(), lists.take(j as int)),
            any == exists|i: int| 0 <= i < j && (#[trigger] before[i]).batches.len() > 0,
            ended == forall|i: int| 0 <= i < j ==> (#[trigger] before[i]).closed,
            forall|i: int|
                0 <= i < j ==> #[trigger] contents(inputs@)[i] == (ChannelView {
                    batches: Seq::<(T, Seq<D>)>::empty(),
                    ..before[i]
                }),
            forall|i: int| j <= i < before.len() ==> #[trigger] contents(inputs@)[i] == before[i],
        decreases inputs@.len() - j,
    {
        let ghost mid = contents(inputs@);
        assert(mid[j as int] == before[j as int]);
        let holds = inputs[j].len() > 0;
        let closed = inputs[j].is_closed();
        take_batches(&mut inputs[j], out);
        proof {
            assert(contents(inputs@)[j as int] == (ChannelView {
                batches: Seq::<(T, Seq<D>)>::empty(),
                ..mid[j as int]
            }));
            assert forall|i: int| 0 <= i < before.len() && i != j implies #[trigger] contents(
                inputs@,
            )[i] == mid[i] by {}
            let upto = lists.take(j + 1);
            assert(upto.drop_last() =~= lists.take(j as int));
            assert(upto.last() == before[j as int].batches);
            if holds {
                assert(before[j as int].batches.len() > 0);
            }
            if !closed {
                assert(!before[j as int].closed);
            }
        }
        any = any || holds;
        ended = ended && closed;
        j = j + 1;
    }
    assert(lists.take(j as int) =~= lists);
    (any, ended)
}

/// Activates a merging operator.
pub fn merge_step<T: Timestamp, D: Clone>(
    state: &mut MergeState<T, D>,
    inputs: &mut Vec<Channel<T, D>>,
    outputs: &mut Vec<Channel<T, D>>,
) -> (outcome: ActivationOutcome)
    ensures
        old(state)@.steps(
            final(state)@,
            (contents(old(inputs)@), contents(final(inputs)@)),
            (contents(old(outputs)@), contents(final(outputs)@)),
            outcome,
        ),
        final(inputs)@.len() == old(inputs)@.len(),
        final(outputs)@.len() == old(outputs)@.len(),
        forall|i: int|
            0 <= i < old(inputs)@.len() ==> (#[trigger] contents(final(inputs)@)[i]).batches.len()
                <= contents(old(inputs)@)[i].batches.len(),
        all_same_bounds(contents(old(outputs)@), contents(final(outputs)@)),
{
    let ghost ins0 = contents(inputs@);
    let ghost outs0 = contents(outputs@);
    if state.done {
        let outcome = ActivationOutcome::Done;
        proof {
            let c = arbitrary();
            assert(old(state)@.steps_by(state@, (ins0, ins0), (outs0, outs0), c, outcome));
        }
        return outcome;
    }
    let had_outbox = state.outbox.len() > 0;
    let _ = send_batches(&mut state.outbox, outputs);
    let ghost left = batches(state.outbox@);
    let ghost mid = contents(outputs@);
    if state.outbox.len() > 0 {
        let outcome = ActivationOutcome::BlockedOnBackpressure;
        proof {
            let c = MergeCourse { left, mid, end: mid };
            assert(old(state)@.steps_by(state@, (ins0, ins0), (outs0, mid), c, outcome));
        }
        return outcome;
    }
    let mut out: OutputHandle<T, D> = OutputHandle::new(String::new());
    let (any, ended) = take_from_all(inputs, &mut out);
    let drained = out.drain();
    state.outbox = into_queue(drained);
    let _ = send_batches(&mut state.outbox, outputs);
    let ghost end = contents(outputs@);
    let outcome = if ended && state.outbox.len() == 0 {
        close_all(outputs);
        state.done = true;
        ActivationOutcome::Done
    } else if state.outbox.len() > 0 {
        ActivationOutcome::BlockedOnBackpressure
    } else if had_outbox || any {
        ActivationOutcome::MadeProgress
    } else {
        ActivationOutcome::Idle
    };
    proof {
        let c = MergeCourse { left, mid, end };
        assert(old(state)@.steps_by(
            state@,
            (ins0, contents(inputs@)),
            (outs0, contents(outputs@)),
            c,
            outcome,
        ));
    }
    outcome
}

/// The inner state of an operator with two inputs.
pub struct JoinState<T, D1, D2, D3, L> {
    pub left: InputHandle<T, D1>,
    pub right: InputHandle<T, D2>,
    pub output: OutputHandle<T, D3>,
    pub outbox: VecDeque<(T, Vec<D3>)>,
    pub logic: L,
    pub done: bool,
}

/// The course of an activation of an operator with two inputs.
pub struct JoinCourse<T, D3> {
    /// What was left over of earlier output after it was sent first thing.
    pub left_over: Seq<(T, Seq<D3>)>,
    /// What the channels behind the operator held then.
    pub mid: Seq<ChannelView<T, D3>>,
    /// What the logic wrote.
    pub out: Seq<(T, Seq<D3>)>,
    /// What the logic answered.
    pub answer: Result<()>,
    /// What the channels behind the operator held after the new output was sent.
    pub end: Seq<ChannelView<T, D3>>,
}

/// What an input handle holds after everything was moved to it out of a channel.
pub open spec fn offered<T, D>(input: InputView<T, D>, channel: ChannelView<T, D>) -> InputView<
    T,
    D,
> {
    InputView {
        pending: input.pending + channel.batches,
        exhausted: input.exhausted || channel.closed,
    }
}

/// An input has something new: batches, or its end.
pub open spec fn has_news<T, D>(input: InputView<T, D>, channel: ChannelView<T, D>) -> bool {
    let o = offered(input, channel);
    o.pending.len() > 0 || (o.exhausted && !input.exhausted)
}

impl<T, D1, D2, D3: Clone, L> JoinState<T, D1, D2, D3, L> {
    /// An activation that took the given course: what waits for room is sent first; as long as some
    /// of it has to wait, no input is read. Then all input is read, the logic runs if there is
    /// something new, and what it wrote is sent. When both inputs are used up and everything is
    /// sent, the operator closes its channels. What the logic does with the handles is up to it.
    pub open spec fn steps_by(
        &self,
        after: &Self,
        left: (ChannelView<T, D1>, ChannelView<T, D1>),
        right: (ChannelView<T, D2>, ChannelView<T, D2>),
        outputs: (Seq<ChannelView<T, D3>>, Seq<ChannelView<T, D3>>),
        c: JoinCourse<T, D3>,
        r: Result<ActivationOutcome>,
    ) -> bool {
        if self.done {
            &&& r == Ok::<ActivationOutcome, Error>(ActivationOutcome::Done)
            &&& *after == *self
            &&& left.1 == left.0
            &&& right.1 == right.0
            &&& outputs.1 == outputs.0
        } else {
            &&& sends(batches(self.outbox@), outputs.0, c.left_over, c.mid)
            &&& after.logic == self.logic
            &&& if c.left_over.len() > 0 {
                &&& r == Ok::<ActivationOutcome, Error>(ActivationOutcome::BlockedOnBackpressure)
                &&& batches(after.outbox@) == c.left_over
                &&& after.left@ == self.left@
                &&& after.right@ == self.right@
                &&& !after.done
                &&& left.1 == left.0
                &&& right.1 == right.0
                &&& outputs.1 == c.mid
            } else {
                &&& left.1 == (ChannelView {
                    batches: Seq::<(T, Seq<D1>)>::empty(),
                    ..left.0
                })
                &&& right.1 == (ChannelView {
                    batches: Seq::<(T, Seq<D2>)>::empty(),
                    ..right.0
                })
                &&& !has_news(self.left@, left.0) && !has_news(self.right@, right.0) ==> {
                    &&& after.left@ == offered(self.left@, left.0)
                    &&& after.right@ == offered(self.right@, right.0)
                    &&& c.out.len() == 0
                    &&& c.answer is Ok
                }
                &&& match c.answer {
                    Err(e) => {
                        &&& r == Err::<ActivationOutcome, Error>(e)
                        &&& !after.done
                        &&& outputs.1 == c.mid
                    },
                    Ok(_) => {
                        &&& sends(c.out, c.mid, batches(after.outbox@), c.end)
                        &&& after.done == (after.left@.done() && after.right@.done()
                            && after.outbox@.len() == 0)
                        &&& if after.done {
                            &&& r == Ok::<ActivationOutcome, Error>(ActivationOutcome::Done)
                            &&& all_closed(c.end, outputs.1)
                        } else {
                            &&& outputs.1 == c.end
                            &&& r == Ok::<ActivationOutcome, Error>(
                                if after.outbox@.len() > 0 {
                                    ActivationOutcome::BlockedOnBackpressure
                                } else if self.outbox@.len() > 0 || left.0.batches.len() > 0
                                    || right.0.batches.len() > 0 || c.out.len() > 0 {
                                    ActivationOutcome::MadeProgress
                                } else {
                                    ActivationOutcome::Idle
                                },
                            )
                        }
                    },
                }
            }
        }
    }

    /// In an activation that takes the given course, the logic runs.
    pub open spec fn consults(
        &self,
        left: ChannelView<T, D1>,
        right: ChannelView<T, D2>,
        c: JoinCourse<T, D3>,
    ) -> bool {
        &&& !self.done
        &&& c.left_over.len() == 0
        &&& has_news(self.left@, left) || has_news(self.right@, right)
    }

    /// An activation.
    pub open spec fn steps(
        &self,
        after: &Self,
        left: (ChannelView<T, D1>, ChannelView<T, D1>),
        right: (ChannelView<T, D2>, ChannelView<T, D2>),
        outputs: (Seq<ChannelView<T, D3>>, Seq<ChannelView<T, D3>>),
        r: Result<ActivationOutcome>,
    ) -> bool {
        exists|c: JoinCourse<T, D3>| #[trigger] self.steps_by(after, left, right, outputs, c, r)
    }
}

/// Activates an operator with two inputs.
pub fn join_step<
    T: Timestamp,
    D1,
    D2,
    D3: Clone,
    L: FnMut(&mut InputHandle<T, D1>, &mut InputHandle<T, D2>, &mut OutputHandle<T, D3>) -> Result<
        (),
    >,
>(
    state: &mut JoinState<T, D1, D2, D3, L>,
    left: &mut Channel<T, D1>,
    right: &mut Channel<T, D2>,
    outputs: &mut Vec<Channel<T, D3>>,
) -> (r: Result<ActivationOutcome>)
    requires
        old(state).output@.len() == 0,
        forall|
            a: &mut InputHandle<T, D1>,
            b: &mut InputHandle<T, D2>,
            o: &mut OutputHandle<T, D3>,
        | #[trigger]
            call_requires(old(state).logic, (a, b, o)),
    ensures
        final(state).output@.len() == 0,
        final(state).logic == old(state).logic,
        final(outputs)@.len() == old(outputs)@.len(),
        final(left)@.batches.len() <= old(left)@.batches.len(),
        final(right)@.batches.len() <= old(right)@.batches.len(),
        all_same_bounds(contents(old(outputs)@), contents(final(outputs)@)),
        exists|c: JoinCourse<T, D3>|
            {
                &&& #[trigger] old(state).steps_by(
                    final(state),
                    (old(left)@, final(left)@),
                    (old(right)@, final(right)@),
                    (contents(old(outputs)@), contents(final(outputs)@)),
                    c,
                    r,
                )
                &&& old(state).consults(old(left)@, old(right)@, c) ==> exists|
                    a: &mut InputHandle<T, D1>,
                    b: &mut InputHandle<T, D2>,
                    o: &mut OutputHandle<T, D3>,
                |
                    {
                        &&& #[trigger] call_ensures(old(state).logic, (a, b, o), c.answer)
                        &&& (*a)@ == offered(old(state).left@, old(left)@)
                        &&& (*final(a))@ == final(state).left@
                        &&& (*b)@ == offered(old(state).right@, old(right)@)
                        &&& (*final(b))@ == final(state).right@
                        &&& (*o)@.len() == 0
                        &&& (*final(o))@ == c.out
                    }
            },
{
    let ghost outs0 = contents(outputs@);
    let ghost l0 = left@;
    let ghost r0 = right@;
    if state.done {
        let r = Ok(ActivationOutcome::Done);
        proof {
            let c = arbitrary();
            assert(old(state).steps_by(state, (l0, l0), (r0, r0), (outs0, outs0), c, r));
        }
        return r;
    }
    let had_outbox = state.outbox.len() > 0;
    let _ = send_batches(&mut state.outbox, outputs);
    let ghost left_over = batches(state.outbox@);
    let ghost mid = contents(outputs@);
    if state.outbox.len() > 0 {
        let r = Ok(ActivationOutcome::BlockedOnBackpressure);
        proof {
            let c = JoinCourse {
                left_over,
                mid,
                out: Seq::empty(),
                answer: Ok(()),
                end: mid,
            };
            assert(old(state).steps_by(state, (l0, l0), (r0, r0), (outs0, mid), c, r));
        }
        return r;
    }
    let was_left = state.left.is_exhausted();
    let was_right = state.right.is_exhausted();
    let had_input = left.len() > 0 || right.len() > 0;
    pull_all(left, &mut state.left);
    pull_all(right, &mut state.right);
    let left_news = state.left.pending_count() > 0 || (state.left.is_exhausted() && !was_left);
    let right_news = state.right.pending_count() > 0 || (state.right.is_exhausted()
        && !was_right);
    let mut answer: Result<()> = Ok(());
    if left_news || right_news {
        answer = (state.logic)(&mut state.left, &mut state.right, &mut state.output);
    }
    let ghost out = state.output@;
    match answer {
        Err(e) => {
            let _ = state.output.drain();
            let r = Err(e);
            proof {
                let c = JoinCourse { left_over, mid, out, answer, end: mid };
                assert(old(state).steps_by(state, (l0, left@), (r0, right@), (outs0, mid), c, r));
            }
            r
        },
        Ok(_) => {
            let wrote = state.output.buffered_count() > 0;
            let drained = state.output.drain();
            state.outbox = into_queue(drained);
            let _ = send_batches(&mut state.outbox, outputs);
            let ghost end = contents(outputs@);
            let outcome = if state.left.is_done() && state.right.is_done() && state.outbox.len()
                == 0 {
                close_all(outputs);
                state.done = true;
                ActivationOutcome::Done
            } else if state.outbox.len() > 0 {
                ActivationOutcome::BlockedOnBackpressure
            } else if had_outbox || had_input || wrote {
                ActivationOutcome::MadeProgress
            } else {
                ActivationOutcome::Idle
            };
            let r = Ok(outcome);
            proof {
                let c = JoinCourse { left_over, mid, out, answer, end };
                assert(old(state).steps_by(
                    state,
                    (l0, left@),
                    (r0, right@),
                    (outs0, contents(outputs@)),
                    c,
                    r,
                ));
            }
            r
        },
    }
}

} // verus!
