//! Operators with one input and one output.

use std::collections::VecDeque;
use vstd::prelude::*;
use crate::channel::{Channel, ChannelView};
use crate::error::{Error, Result};
use crate::handles::{batches, with_batch, InputHandle, InputView, OutputHandle};
use crate::order::Timestamp;
use crate::role::Role;
use crate::schedulable::ActivationOutcome;
use crate::wired::logic::BatchLogic;
use crate::wired::outbox::{all_same_bounds, contents, send_batches, sends};

verus! {

/// What an operator makes of its input as a whole.
pub trait RelayLogic<T1, D1, T2, D2> {
    /// What an operator with this logic is there for.
    spec fn role(&self) -> Role;

    /// Input can be processed.
    spec fn ready(&self) -> bool;

    /// A run turns the logic into `after` and the input into `rest`, and writes `out`.
    spec fn runs(
        &self,
        after: &Self,
        input: InputView<T1, D1>,
        rest: InputView<T1, D1>,
        out: Seq<(T2, Seq<D2>)>,
        r: Result<()>,
    ) -> bool;

    /// Nothing will ever come of any more input.
    spec fn sated(&self) -> bool;

    /// Something may come even without any more input.
    spec fn owing(&self) -> bool;

    /// Processes input.
    fn run(&mut self, input: &mut InputHandle<T1, D1>, output: &mut OutputHandle<T2, D2>) -> (r:
        Result<()>)
        requires
            old(self).ready(),
            old(output)@.len() == 0,
        ensures
            final(self).ready(),
            old(self).runs(final(self), old(input)@, final(input)@, final(output)@, r),
    ;

    /// Whether nothing will ever come of any more input.
    fn is_sated(&self) -> (b: bool)
        ensures
            b == self.sated(),
    ;

    /// Whether something may come even without any more input.
    fn is_owing(&self) -> (b: bool)
        ensures
            b == self.owing(),
    ;
}

/// Processes batch after batch.
pub struct Batched<B> {
    pub logic: B,
}

/// The course of processing batch after batch: the states of the logic and what it made of each
/// batch.
pub open spec fn applies_all<T, D, D2, B: BatchLogic<T, D, D2>>(
    states: Seq<B>,
    given: Seq<(T, Seq<D>)>,
    made: Seq<Seq<D2>>,
) -> bool {
    &&& states.len() == given.len() + 1
    &&& made.len() == given.len()
    &&& forall|i: int| 0 <= i < given.len() ==> #[trigger] applies_at(states, given, made, i)
}

/// The logic makes of batch `i` what is said.
pub open spec fn applies_at<T, D, D2, B: BatchLogic<T, D, D2>>(
    states: Seq<B>,
    given: Seq<(T, Seq<D>)>,
    made: Seq<Seq<D2>>,
    i: int,
) -> bool {
    states[i].applies(&states[i + 1], given[i].0, given[i].1, made[i])
}

/// The batches that were made, without empty ones.
pub open spec fn made_batches<T, D, D2>(given: Seq<(T, Seq<D>)>, made: Seq<Seq<D2>>) -> Seq<
    (T, Seq<D2>),
>
    decreases given.len(),
{
    if given.len() == 0 {
        Seq::empty()
    } else {
        with_batch(
            made_batches(given.drop_last(), made),
            given.last().0,
            made[given.len() - 1],
        )
    }
}

proof fn lemma_made_prefix<T, D, D2>(given: Seq<(T, Seq<D>)>, a: Seq<Seq<D2>>, b: Seq<Seq<D2>>)
    requires
        given.len() <= a.len(),
        given.len() <= b.len(),
        forall|i: int| 0 <= i < given.len() ==> a[i] == b[i],
    ensures
        made_batches(given, a) == made_batches(given, b),
    decreases given.len(),
{
    if given.len() > 0 {
        lemma_made_prefix(given.drop_last(), a, b);
    }
}

impl<T: Timestamp, D, D2, B: BatchLogic<T, D, D2>> RelayLogic<T, D, T, D2> for Batched<B> {
    open spec fn role(&self) -> Role {
        self.logic.role()
    }

    open spec fn ready(&self) -> bool {
        self.logic.ready()
    }

    open spec fn runs(
        &self,
        after: &Self,
        input: InputView<T, D>,
        rest: InputView<T, D>,
        out: Seq<(T, Seq<D2>)>,
        r: Result<()>,
    ) -> bool {
        &&& r == Ok::<(), Error>(())
        &&& rest == (InputView { pending: Seq::<(T, Seq<D>)>::empty(), ..input })
        &&& exists|states: Seq<B>, made: Seq<Seq<D2>>| #[trigger]
            applies_all(states, input.pending, made) && states[0] == self.logic && states.last()
                == after.logic && out == made_batches(input.pending, made)
    }

    open spec fn sated(&self) -> bool {
        self.logic.sated()
    }

    open spec fn owing(&self) -> bool {
        false
    }

    fn run(&mut self, input: &mut InputHandle<T, D>, output: &mut OutputHandle<T, D2>) -> (r:
        Result<()>) {
        let ghost given = input@.pending;
        let ghost mut states = seq![self.logic];
        let ghost mut made = Seq::<Seq<D2>>::empty();
        let ghost mut k: int = 0;
        proof {
            assert(given.take(0) =~= Seq::<(T, Seq<D>)>::empty());
            assert(given.skip(0) =~= given);
            assert(output@ =~= made_batches(given.take(0), made));
        }
        let mut more = true;
        while more
            invariant
                self.logic.ready(),
                0 <= k <= given.len(),
                input@.exhausted == old(input)@.exhausted,
                input@.pending == given.skip(k),
                applies_all(states, given.take(k), made),
                states[0] == old(self).logic,
                states.last() == self.logic,
                output@ == made_batches(given.take(k), made),
                !more ==> k == given.len(),
            decreases
                    given.len() - k,
                    (if more {
                        1int
                    } else {
                        0int
                    }),
        {
            let ghost before = self.logic;
            match input.next() {
                Some((time, data)) => {
                    let ghost read = data@;
                    assert((time, read) == given[k]);
                    let out = self.logic.apply(&time, data);
                    let ghost written = out@;
                    output.push_vec(time, out);
                    proof {
                        let longer = states.push(self.logic);
                        let grown = made.push(written);
                        let upto = given.take(k + 1);
                        assert(upto.drop_last() =~= given.take(k));
                        lemma_made_prefix(given.take(k), made, grown);
                        assert forall|i: int| 0 <= i < k + 1 implies #[trigger] applies_at(
                            longer,
                            upto,
                            grown,
                            i,
                        ) by {
                            if i < k {
                                assert(applies_at(states, given.take(k), made, i));
                            }
                        }
                        states = longer;
                        made = grown;
                        assert(given.skip(k).drop_first() =~= given.skip(k + 1));
                        k = k + 1;
                    }
                },
                None => {
                    more = false;
                },
            }
        }
        assert(given.take(k) =~= given);
        assert(input@.pending =~= Seq::<(T, Seq<D>)>::empty());
        Ok(())
    }

    fn is_sated(&self) -> (b: bool) {
        self.logic.is_sated()
    }

    fn is_owing(&self) -> (b: bool) {
        false
    }
}

/// The inner state of an operator with one input and one output.
pub struct RelayState<T1, D1, T2, D2, L> {
    pub input: InputHandle<T1, D1>,
    pub output: OutputHandle<T2, D2>,
    /// What waits for room in the channels behind the operator.
    pub outbox: VecDeque<(T2, Vec<D2>)>,
    pub logic: L,
    pub done: bool,
}

/// What an activation went through.
pub struct RelayCourse<T2, D2> {
    /// What was left over of earlier output after it was sent first thing.
    pub left: Seq<(T2, Seq<D2>)>,
    /// What the channels behind the operator held then.
    pub mid: Seq<ChannelView<T2, D2>>,
    /// What the logic wrote.
    pub out: Seq<(T2, Seq<D2>)>,
    /// What the logic answered.
    pub answer: Result<()>,
    /// What the channels behind the operator held after the new output was sent.
    pub end: Seq<ChannelView<T2, D2>>,
}

/// All channels are closed.
pub open spec fn all_closed<T, D>(
    before: Seq<ChannelView<T, D>>,
    after: Seq<ChannelView<T, D>>,
) -> bool {
    &&& after.len() == before.len()
    &&& forall|j: int|
        0 <= j < before.len() ==> #[trigger] after[j] == (ChannelView { closed: true, ..before[j] })
}

impl<T1, D1, T2, D2: Clone, L: RelayLogic<T1, D1, T2, D2>> RelayState<T1, D1, T2, D2, L> {
    /// What the logic is given.
    pub open spec fn offered(&self, input: ChannelView<T1, D1>) -> InputView<T1, D1> {
        InputView {
            pending: self.input@.pending + input.batches,
            exhausted: self.input@.exhausted || input.closed,
        }
    }

    /// There is something for the logic to do: input, the end of the input, or what `wants` says.
    pub open spec fn has_work(&self, input: ChannelView<T1, D1>, wants: bool) -> bool {
        let offered = self.offered(input);
        offered.pending.len() > 0 || (offered.exhausted && !self.input@.exhausted) || wants
    }

    /// The operator has nothing more to do.
    pub open spec fn finished(&self) -> bool {
        &&& self.input@.done() || self.logic.sated()
        &&& !self.logic.owing()
        &&& self.outbox@.len() == 0
    }

    /// An activation that took the given course. A finished operator does nothing. What waits for
    /// room is sent first; as long as some of it has to wait, no input is read. Then all input is
    /// read and processed, and the output is sent. An operator that has nothing more to do closes
    /// its channels.
    pub open spec fn steps_by(
        &self,
        after: &Self,
        input: (ChannelView<T1, D1>, ChannelView<T1, D1>),
        outputs: (Seq<ChannelView<T2, D2>>, Seq<ChannelView<T2, D2>>),
        wants: bool,
        c: RelayCourse<T2, D2>,
        r: Result<ActivationOutcome>,
    ) -> bool {
        if self.done {
            &&& r == Ok::<ActivationOutcome, Error>(ActivationOutcome::Done)
            &&& *after == *self
            &&& input.1 == input.0
            &&& outputs.1 == outputs.0
        } else {
            &&& sends(batches(self.outbox@), outputs.0, c.left, c.mid)
            &&& if c.left.len() > 0 {
                &&& r == Ok::<ActivationOutcome, Error>(ActivationOutcome::BlockedOnBackpressure)
                &&& batches(after.outbox@) == c.left
                &&& after.input@ == self.input@
                &&& after.logic == self.logic
                &&& !after.done
                &&& input.1 == input.0
                &&& outputs.1 == c.mid
            } else {
                &&& if self.has_work(input.0, wants) {
                    self.logic.runs(
                        &after.logic,
                        self.offered(input.0),
                        after.input@,
                        c.out,
                        c.answer,
                    )
                } else {
                    &&& after.logic == self.logic
                    &&& after.input@ == self.offered(input.0)
                    &&& c.out.len() == 0
                    &&& c.answer is Ok
                }
                &&& match c.answer {
                    Err(e) => {
                        &&& r == Err::<ActivationOutcome, Error>(e)
                        &&& !after.done
                        &&& outputs.1 == c.mid
                        &&& input.1 == (ChannelView {
                            batches: Seq::<(T1, Seq<D1>)>::empty(),
                            ..input.0
                        })
                    },
                    Ok(_) => {
                        &&& sends(c.out, c.mid, batches(after.outbox@), c.end)
                        &&& after.done == after.finished()
                        &&& input.1 == (ChannelView {
                            batches: Seq::<(T1, Seq<D1>)>::empty(),
                            abandoned: input.0.abandoned || after.done,
                            ..input.0
                        })
                        &&& if after.done {
                            &&& r == Ok::<ActivationOutcome, Error>(ActivationOutcome::Done)
                            &&& all_closed(c.end, outputs.1)
                        } else {
                            &&& outputs.1 == c.end
                            &&& r == Ok::<ActivationOutcome, Error>(
                                if after.outbox@.len() > 0 {
                                    ActivationOutcome::BlockedOnBackpressure
                                } else if self.outbox@.len() > 0 || input.0.batches.len() > 0
                                    || c.out.len() > 0 {
                                    ActivationOutcome::MadeProgress
                                } else {
                                    ActivationOutcome::Idle
                                },
                            )
                        }
                    },
                }
            }
        }
    }

    /// An activation.
    pub open spec fn steps(
        &self,
        after: &Self,
        input: (ChannelView<T1, D1>, ChannelView<T1, D1>),
        outputs: (Seq<ChannelView<T2, D2>>, Seq<ChannelView<T2, D2>>),
        wants: bool,
        r: Result<ActivationOutcome>,
    ) -> bool {
        exists|c: RelayCourse<T2, D2>| #[trigger]
            self.steps_by(after, input, outputs, wants, c, r)
    }
}

/// Moves all batches of a channel to an input handle. The end of the channel is the end of the
/// input.
pub fn pull_all<T, D>(channel: &mut Channel<T, D>, input: &mut InputHandle<T, D>)
    ensures
        final(channel)@ == (ChannelView {
            batches: Seq::<(T, Seq<D>)>::empty(),
            ..old(channel)@
        }),
        final(input)@ == (InputView {
            pending: old(input)@.pending + old(channel)@.batches,
            exhausted: old(input)@.exhausted || old(channel)@.closed,
        }),
        final(input).label() == old(input).label(),
{
    let ghost given = channel@.batches;
    let ghost mut k: int = 0;
    let mut more = true;
    assert(given.skip(0) =~= given);
    assert(input@.pending =~= old(input)@.pending + given.take(0));
    while more
        invariant
            0 <= k <= given.len(),
            given == old(channel)@.batches,
            channel@ == (ChannelView { batches: given.skip(k), ..old(channel)@ }),
            input@.exhausted == old(input)@.exhausted,
            input@.pending == old(input)@.pending + given.take(k),
            input.label() == old(input).label(),
            !more ==> k == given.len(),
        decreases
                given.len() - k,
                (if more {
                    1int
                } else {
                    0int
                }),
    {
        match channel.pull() {
            Some((time, data)) => {
                let ghost batch = (time, data@);
                input.push_vec(time, data);
                proof {
                    assert(batch == given[k]);
                    assert(given.take(k + 1) =~= given.take(k).push(batch));
                    assert(input@.pending =~= old(input)@.pending + given.take(k + 1));
                    assert(given.skip(k).drop_first() =~= given.skip(k + 1));
                    k = k + 1;
                }
            },
            None => {
                more = false;
            },
        }
    }
    assert(given.take(k) =~= given);
    assert(channel@.batches =~= Seq::<(T, Seq<D>)>::empty());
    if channel.is_closed() {
        input.mark_exhausted();
    }
}

/// Closes all channels.
pub fn close_all<T, D>(outputs: &mut Vec<Channel<T, D>>)
    ensures
        all_closed(contents(old(outputs)@), contents(final(outputs)@)),
        final(outputs)@.len() == old(outputs)@.len(),
        all_same_bounds(contents(old(outputs)@), contents(final(outputs)@)),
{
    let ghost before = contents(outputs@);
    let mut j: usize = 0;
    while j < outputs.len()
        invariant
            j <= outputs@.len(),
            outputs@.len() == before.len(),
            forall|i: int|
                0 <= i < j ==> #[trigger] contents(outputs@)[i] == (ChannelView {
                    closed: true,
                    ..before[i]
                }),
            forall|i: int| j <= i < before.len() ==> #[trigger] contents(outputs@)[i] == before[i],
        decreases outputs@.len() - j,
    {
        let ghost mid = contents(outputs@);
        outputs[j].close();
        proof {
            assert(mid[j as int] == before[j as int]);
            assert(contents(outputs@)[j as int] == (ChannelView {
                closed: true,
                ..mid[j as int]
            }));
            assert forall|i: int| 0 <= i < before.len() && i != j implies #[trigger] contents(
                outputs@,
            )[i] == mid[i] by {}
        }
        j = j + 1;
    }
}

/// Batches in a queue.
pub fn into_queue<T, D>(out: Vec<(T, Vec<D>)>) -> (queue: VecDeque<(T, Vec<D>)>)
    ensures
        queue@ == out@,
{
    let ghost given = out@;
    let mut queue: VecDeque<(T, Vec<D>)> = VecDeque::new();
    for b in it: out
        invariant
            it.seq() == given,
            queue@ == given.take(it.index() as int),
    {
        queue.push_back(b);
        assert(queue@ =~= given.take(it.index() + 1));
    }
    assert(queue@ =~= given);
    queue
}

/// Activates an operator with one input and one output.
pub fn relay_step<T1, D1, T2: Timestamp, D2: Clone, L: RelayLogic<T1, D1, T2, D2>>(
    state: &mut RelayState<T1, D1, T2, D2, L>,
    input: &mut Channel<T1, D1>,
    outputs: &mut Vec<Channel<T2, D2>>,
    wants: bool,
) -> (r: Result<ActivationOutcome>)
    requires
        old(state).logic.ready(),
        old(state).output@.len() == 0,
    ensures
        final(state).logic.ready(),
        r is Ok ==> final(state).output@.len() == 0,
        final(outputs)@.len() == old(outputs)@.len(),
        final(input)@.batches.len() <= old(input)@.batches.len(),
        all_same_bounds(contents(old(outputs)@), contents(final(outputs)@)),
        old(state).steps(
            final(state),
            (old(input)@, final(input)@),
            (contents(old(outputs)@), contents(final(outputs)@)),
            wants,
            r,
        ),
{
    let ghost outs0 = contents(outputs@);
    let ghost in0 = input@;
    if state.done {
        let r = Ok(ActivationOutcome::Done);
        proof {
            let c = arbitrary();
            assert(old(state).steps_by(state, (in0, in0), (outs0, outs0), wants, c, r));
        }
        return r;
    }
    let had_outbox = state.outbox.len() > 0;
    let _ = send_batches(&mut state.outbox, outputs);
    let ghost left = batches(state.outbox@);
    let ghost mid = contents(outputs@);
    if state.outbox.len() > 0 {
        let r = Ok(ActivationOutcome::BlockedOnBackpressure);
        proof {
            let c = RelayCourse {
                left,
                mid,
                out: Seq::empty(),
                answer: Ok(()),
                end: mid,
            };
            assert(old(state).steps_by(state, (in0, in0), (outs0, mid), wants, c, r));
        }
        return r;
    }
    let was_exhausted = state.input.is_exhausted();
    let had_input = input.len() > 0;
    pull_all(input, &mut state.input);
    let ended = state.input.is_exhausted() && !was_exhausted;
    let mut answer: Result<()> = Ok(());
    if state.input.pending_count() > 0 || ended || wants {
        answer = state.logic.run(&mut state.input, &mut state.output);
    }
    let ghost out = state.output@;
    match answer {
        Err(e) => {
            let r = Err(e);
            proof {
                let c = RelayCourse { left, mid, out, answer, end: mid };
                assert(old(state).steps_by(state, (in0, input@), (outs0, mid), wants, c, r));
            }
            r
        },
        Ok(_) => {
            let wrote = state.output.buffered_count() > 0;
            let drained = state.output.drain();
            state.outbox = into_queue(drained);
            let _ = send_batches(&mut state.outbox, outputs);
            let ghost end = contents(outputs@);
            let over = (state.input.is_done() || state.logic.is_sated())
                && !state.logic.is_owing() && state.outbox.len() == 0;
            let outcome = if over {
                close_all(outputs);
                input.abandon();
                state.done = true;
                ActivationOutcome::Done
            } else if state.outbox.len() > 0 {
                ActivationOutcome::BlockedOnBackpressure
            } else if had_outbox || had_input || wrote {
                ActivationOutcome::MadeProgress
            } else {
                ActivationOutcome::Idle
            };
            let r = Ok(outcome);
            proof {
                let c = RelayCourse { left, mid, out, answer, end };
                assert(old(state).steps_by(
                    state,
                    (in0, input@),
                    (outs0, contents(outputs@)),
                    wants,
                    c,
                    r,
                ));
            }
            r
        },
    }
}

} // verus!
