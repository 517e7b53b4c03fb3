//! Chaining operators.

use vstd::prelude::*;
use crate::builder::{channel_factory, taps, BuilderView, DataflowBuilder, NewOperator};
use crate::error::{Error, Result};
use crate::graph::ChannelKind;
use crate::handles::{InputHandle, NotifyContext, OutputHandle};
use crate::order::Timestamp;
use crate::role::{Duty, Ending, Keeping, Line, Role};
use crate::schedulable::BoxedChannelFactory;
use crate::shared::Mark;
use crate::strand::{ChannelCell, Outlets, Strand};
use crate::stream::Slot;
use crate::wake::WakeHandle;
use crate::wired::distinct::DistinctFinish;
use crate::wired::gathering::{
    Assign, CountFinish, Delay, DelayBatch, Finish, FoldFinish, KeepFinish, KeepTime, ReduceFinish,
    StashLogic,
};
use crate::wired::logic::{
    FilterLogic, FlatMapLogic, InspectBatchLogic, InspectLogic, MapBatchLogic, MapLogic,
    TakeLogic, TakeWhileLogic,
};
use crate::wired::operator::{runs, AsIs, FrontierLogic, NotifyCore, RelayCore};
use crate::wired::relay::{Batched, RelayLogic};
use crate::wired::streams::{HandleLogic, NotifyLogic};

verus! {

/// A stream of batches in a dataflow in the making: an output of an operator.
pub struct Pipe<T, D> {
    operator_index: usize,
    output_slot: usize,
    capacity_override: Option<usize>,
    seal: Mark,
    outlets: Outlets<T, D>,
}

impl<T, D> Pipe<T, D> {
    #[verifier::type_invariant]
    closed spec fn inv(&self) -> bool {
        self.outlets.strand().calls() is None
    }

    /// The port that the batches come from.
    pub closed spec fn source(&self) -> Slot {
        Slot { operator_index: self.operator_index, slot_index: self.output_slot }
    }

    /// The capacity that was chosen for the next channel.
    pub closed spec fn chosen(&self) -> Option<usize> {
        self.capacity_override
    }

    /// What the pipe shares with its builder.
    pub closed spec fn seal(&self) -> Mark {
        self.seal
    }

    /// The capacity of the next channel: the chosen one, or else the usual one.
    pub open spec fn limit(&self, b: BuilderView) -> usize {
        match self.chosen() {
            Some(c) => c,
            None => b.capacity,
        }
    }

    /// The outlets that the batches come from.
    pub closed spec fn outlets(&self) -> Outlets<T, D> {
        self.outlets
    }

    /// The strand that the batches come through.
    pub open spec fn strand(&self) -> Strand<T, D> {
        self.outlets().strand()
    }

    /// The mark of the outlets that the batches come from.
    pub open spec fn mark(&self) -> Mark {
        self.outlets().mark()
    }

    /// An operator that reads this pipe and writes to the given outlets.
    pub open spec fn reader(
        &self,
        b: BuilderView,
        name: Seq<char>,
        role: Role,
        writes: Seq<Mark>,
        outputs: usize,
    ) -> NewOperator {
        reading(
            self.source(),
            Line { capacity: self.limit(b), mark: self.mark() },
            name,
            role,
            writes,
            outputs,
        )
    }

    /// Whether two pipes belong to the same builder.
    pub(crate) fn shares_builder<D2>(&self, other: &Pipe<T, D2>) -> (b: bool)
        ensures
            b == (self.seal() == other.seal()),
    {
        self.seal.is_same(&other.seal)
    }

    /// The operator that the batches come from.
    pub(crate) fn origin(&self) -> (index: usize)
        ensures
            index == self.source().operator_index,
    {
        self.operator_index
    }

    /// Chooses the capacity of the next channel, which must not be 0.
    pub fn with_capacity(self, capacity: usize) -> (r: Result<Self>)
        ensures
            r is Ok <==> capacity > 0,
            r matches Ok(p) ==> p.source() == self.source() && p.seal() == self.seal() && p.outlets()
                == self.outlets() && p.chosen()
                == Some(capacity),
            r matches Err(e) ==> (e matches Error::InvalidConfig(m) && m@
                == "channel capacity must be > 0"@),
    {
        if capacity == 0 {
            return Err(Error::InvalidConfig("channel capacity must be > 0".to_owned()));
        }
        proof {
            use_type_invariant(&self);
        }
        Ok(Pipe { capacity_override: Some(capacity), ..self })
    }
}

impl<T, D> Clone for Pipe<T, D> {
    /// The same stream once more. The choice of a capacity is not copied.
    fn clone(&self) -> (p: Self)
        ensures
            p.source() == self.source(),
            p.seal() == self.seal(),
            p.outlets() == self.outlets(),
            p.chosen() is None,
    {
        proof {
            use_type_invariant(self);
        }
        Pipe {
            operator_index: self.operator_index,
            output_slot: self.output_slot,
            capacity_override: None,
            seal: self.seal.share(),
            outlets: self.outlets.share(),
        }
    }
}

/// An operator that reads a port through a channel, and writes to the given outlets.
pub open spec fn reading(
    source: Slot,
    line: Line,
    name: Seq<char>,
    role: Role,
    writes: Seq<Mark>,
    outputs: usize,
) -> NewOperator {
    NewOperator {
        name,
        duty: Duty { role, reads: seq![line.mark], writes },
        inputs: seq![(source, line)],
        outputs,
        kind: ChannelKind::Pipeline,
        width: None,
    }
}

/// A list with one item.
pub(crate) fn one<X>(x: X) -> (list: Vec<X>)
    ensures
        list@ == seq![x],
{
    let mut list: Vec<X> = Vec::new();
    list.push(x);
    assert(list@ =~= seq![x]);
    list
}

impl<T: Timestamp + 'static, D: Clone + 'static> Pipe<T, D> {
    /// The first output of the operator with the given index, in a builder.
    pub open spec fn heads(&self, b: DataflowBuilder<T>, index: usize) -> bool {
        &&& self.seal() == b.seal()
        &&& self.source() == (Slot { operator_index: index, slot_index: 0 })
        &&& self.outlets().owner() == Some(index as int)
        &&& self.chosen() is None
    }

    /// The pipe belongs to the builder, which has room for one more operator.
    pub open spec fn fits(&self, b: DataflowBuilder<T>) -> bool {
        &&& self.seal() == b.seal()
        &&& b.has_room(1)
    }

    /// The first output of an operator.
    pub(crate) fn first_output(
        b: &DataflowBuilder<T>,
        operator_index: usize,
        outlets: Outlets<T, D>,
    ) -> (p: Self)
        requires
            outlets.owner() == Some(operator_index as int),
            outlets.strand().calls() is None,
        ensures
            p.heads(*b, operator_index),
            p.outlets() == outlets,
    {
        Pipe {
            operator_index,
            output_slot: 0,
            capacity_override: None,
            seal: b.share_seal(),
            outlets,
        }
    }

    /// The capacity of the next channel.
    pub(crate) fn resolve(&self, b: &DataflowBuilder<T>) -> (capacity: usize)
        ensures
            capacity == self.limit(b@),
    {
        match self.capacity_override {
            Some(c) => c,
            None => b.usual_capacity(),
        }
    }

    /// A reader of the pipe for the input at `port`: the reader, the port that it reads from, and the
    /// factory of the channel between them.
    pub(crate) fn tap(self, b: &DataflowBuilder<T>, port: Slot) -> (t: (
        ChannelCell<T, D>,
        Slot,
        BoxedChannelFactory,
    ))
        ensures
            t.0.strand() == self.strand(),
            t.0.cursor() == 0,
            t.0.limit() == self.limit(b@),
            t.0.port() == port,
            t.1 == self.source(),
            t.2.ready(),
            t.2.line() == (Line { capacity: self.limit(b@), mark: self.mark() }),
            forall|w: WakeHandle| #[trigger]
                t.2.opened(w) == self.strand().opened(port, self.limit(b@), w),
    {
        proof {
            use_type_invariant(&self);
        }
        let capacity: usize = self.resolve(b);
        let cell = self.outlets.reader(port, capacity);
        let factory = channel_factory(
            cell.share_strand(),
            port,
            capacity,
            b.usual_preallocation(),
        );
        (cell, Slot::new(self.operator_index, self.output_slot), factory)
    }

    /// The operator that was added to a builder last turns batches of this pipe into batches of
    /// `out` by the given logic, and sees up to `limit` batches at a time.
    pub open spec fn leads_with<D2: Clone + 'static, L: RelayLogic<T, D, T, D2> + 'static>(
        &self,
        b: DataflowBuilder<T>,
        out: Pipe<T, D2>,
        logic: L,
        limit: usize,
    ) -> bool {
        exists|core: RelayCore<T, D, T, D2, L, AsIs, AsIs>| #[trigger]
            runs(b.latest(), core) && core.state.logic == logic && core.is_fresh(
                self.strand(),
                out.outlets(),
            ) && core.input.limit() == limit
    }

    /// The operator that was added to a builder last turns batches of this pipe into batches of
    /// `out` by the given logic, and sees as many at a time as the channel between them holds.
    pub open spec fn leads_by<D2: Clone + 'static, L: RelayLogic<T, D, T, D2> + 'static>(
        &self,
        b: DataflowBuilder<T>,
        out: Pipe<T, D2>,
        logic: L,
    ) -> bool {
        self.leads_with(b, out, logic, self.limit(b@))
    }

    /// The operator that was added to a builder last waits for complete times with the given logic.
    pub open spec fn awaits_by<D2: Clone + 'static, L: FrontierLogic<T, D, D2> + 'static>(
        &self,
        b: DataflowBuilder<T>,
        out: Pipe<T, D2>,
        logic: L,
    ) -> bool {
        exists|core: NotifyCore<T, D, D2, L>| #[trigger]
            runs(b.latest(), core) && core.relay.state.logic == logic && core.relay.is_fresh(
                self.strand(),
                out.outlets(),
            ) && core.relay.input.limit() == self.limit(b@)
    }

    /// The operator that was added to a builder last holds records under times as `assigner` says,
    /// and sends what `finisher` makes of them when their time is complete.
    pub open spec fn gathers_by<
        D2: Clone + 'static,
        A: Assign<T, D> + 'static,
        K: Finish<D, D2> + 'static,
    >(&self, b: DataflowBuilder<T>, out: Pipe<T, D2>, assigner: A, finisher: K) -> bool {
        exists|logic: StashLogic<T, D, A, K>| #[trigger]
            self.awaits_by(b, out, logic) && logic.is_fresh() && logic.assigner == assigner
                && logic.finisher == finisher
    }

    /// Adds an operator with one input and one output.
    pub(crate) fn relay<D2: Clone + 'static, L: RelayLogic<T, D, T, D2> + 'static>(
        self,
        b: &mut DataflowBuilder<T>,
        name: &str,
        logic: L,
    ) -> (out: Pipe<T, D2>)
        requires
            self.fits(*old(b)),
            logic.ready(),
        ensures
            old(b).grows(
                *final(b),
                self.reader(
                    old(b)@,
                    name@,
                    logic.role(),
                    seq![out.mark()],
                    1,
                ),
            ),
            self.leads_by(*final(b), out, logic),
            out.heads(*final(b), old(b)@.next),
    {
        let (cell, from, factory) = self.tap(b, Slot::new(b.upcoming(), 0));
        let outlets: Outlets<T, D2> = Outlets::new(b.upcoming());
        let core: RelayCore<T, D, T, D2, L, AsIs, AsIs> = RelayCore::new(
            logic,
            cell,
            outlets.share(),
        );
        let ghost line = factory.line();
        let inputs = one((from, factory));
        proof {
            assert(taps(inputs@) =~= seq![(self.source(), line)]);
        }
        let index: usize = b.attach_core(name, inputs, 1, core);
        let out = Pipe::first_output(b, index, outlets);
        assert(runs(b.latest(), core));
        out
    }

    /// Adds an operator that waits for complete times.
    fn await_times<D2: Clone + 'static, L: FrontierLogic<T, D, D2> + 'static>(
        self,
        b: &mut DataflowBuilder<T>,
        name: &str,
        logic: L,
    ) -> (out: Pipe<T, D2>)
        requires
            self.fits(*old(b)),
            logic.ready(),
        ensures
            old(b).grows(
                *final(b),
                self.reader(
                    old(b)@,
                    name@,
                    logic.role(),
                    seq![out.mark()],
                    1,
                ),
            ),
            self.awaits_by(*final(b), out, logic),
            out.heads(*final(b), old(b)@.next),
    {
        let (cell, from, factory) = self.tap(b, Slot::new(b.upcoming(), 0));
        let outlets: Outlets<T, D2> = Outlets::new(b.upcoming());
        let core = NotifyCore { relay: RelayCore::new(logic, cell, outlets.share()) };
        let ghost line = factory.line();
        let inputs = one((from, factory));
        proof {
            assert(taps(inputs@) =~= seq![(self.source(), line)]);
        }
        let index: usize = b.attach_core(name, inputs, 1, core);
        let out = Pipe::first_output(b, index, outlets);
        assert(runs(b.latest(), core));
        out
    }

    /// Turns each record into another.
    pub fn map<D2: Clone + 'static, F: FnMut(&T, D) -> D2 + 'static>(
        self,
        b: &mut DataflowBuilder<T>,
        name: &str,
        logic: F,
    ) -> (out: Pipe<T, D2>)
        requires
            self.fits(*old(b)),
            forall|t: &T, x: D| #[trigger] call_requires(logic, (t, x)),
        ensures
            old(b).grows(
                *final(b),
                self.reader(
                    old(b)@,
                    name@,
                    Role::MapEach,
                    seq![out.mark()],
                    1,
                ),
            ),
            self.leads_by(*final(b), out, (Batched { logic: MapLogic { logic } })),
            out.heads(*final(b), old(b)@.next),
    {
        self.relay(b, name, Batched { logic: MapLogic { logic } })
    }

    /// Keeps the records for which the predicate holds.
    pub fn filter<F: FnMut(&T, &D) -> bool + 'static>(
        self,
        b: &mut DataflowBuilder<T>,
        name: &str,
        predicate: F,
    ) -> (out: Pipe<T, D>)
        requires
            self.fits(*old(b)),
            forall|t: &T, x: &D| #[trigger] call_requires(predicate, (t, x)),
        ensures
            old(b).grows(
                *final(b),
                self.reader(
                    old(b)@,
                    name@,
                    Role::Filter,
                    seq![out.mark()],
                    1,
                ),
            ),
            self.leads_by(*final(b), out, (Batched { logic: FilterLogic { predicate } })),
            out.heads(*final(b), old(b)@.next),
    {
        self.relay(b, name, Batched { logic: FilterLogic { predicate } })
    }

    /// Shows each record to a closure.
    pub fn inspect<F: FnMut(&T, &D) + 'static>(
        self,
        b: &mut DataflowBuilder<T>,
        name: &str,
        logic: F,
    ) -> (out: Pipe<T, D>)
        requires
            self.fits(*old(b)),
            forall|t: &T, x: &D| #[trigger] call_requires(logic, (t, x)),
        ensures
            old(b).grows(
                *final(b),
                self.reader(
                    old(b)@,
                    name@,
                    Role::Inspect,
                    seq![out.mark()],
                    1,
                ),
            ),
            self.leads_by(*final(b), out, (Batched { logic: InspectLogic { logic } })),
            out.heads(*final(b), old(b)@.next),
    {
        self.relay(b, name, Batched { logic: InspectLogic { logic } })
    }

    /// Shows each batch to a closure.
    pub fn inspect_batch<F: FnMut(&T, &[D]) + 'static>(
        self,
        b: &mut DataflowBuilder<T>,
        name: &str,
        logic: F,
    ) -> (out: Pipe<T, D>)
        requires
            self.fits(*old(b)),
            forall|t: &T, x: &[D]| #[trigger] call_requires(logic, (t, x)),
        ensures
            old(b).grows(
                *final(b),
                self.reader(
                    old(b)@,
                    name@,
                    Role::InspectBatch,
                    seq![out.mark()],
                    1,
                ),
            ),
            self.leads_by(*final(b), out, (Batched { logic: InspectBatchLogic { logic } })),
            out.heads(*final(b), old(b)@.next),
    {
        self.relay(b, name, Batched { logic: InspectBatchLogic { logic } })
    }

    /// Turns each record into any number of others.
    pub fn flat_map<D2: Clone + 'static, F: FnMut(&T, D) -> Vec<D2> + 'static>(
        self,
        b: &mut DataflowBuilder<T>,
        name: &str,
        logic: F,
    ) -> (out: Pipe<T, D2>)
        requires
            self.fits(*old(b)),
            forall|t: &T, x: D| #[trigger] call_requires(logic, (t, x)),
        ensures
            old(b).grows(
                *final(b),
                self.reader(
                    old(b)@,
                    name@,
                    Role::FlatMap,
                    seq![out.mark()],
                    1,
                ),
            ),
            self.leads_by(*final(b), out, (Batched { logic: FlatMapLogic { logic } })),
            out.heads(*final(b), old(b)@.next),
    {
        self.relay(b, name, Batched { logic: FlatMapLogic { logic } })
    }

    /// Turns each batch into another.
    pub fn map_batch<D2: Clone + 'static, F: FnMut(&T, Vec<D>) -> Vec<D2> + 'static>(
        self,
        b: &mut DataflowBuilder<T>,
        name: &str,
        logic: F,
    ) -> (out: Pipe<T, D2>)
        requires
            self.fits(*old(b)),
            forall|t: &T, x: Vec<D>| #[trigger] call_requires(logic, (t, x)),
        ensures
            old(b).grows(
                *final(b),
                self.reader(
                    old(b)@,
                    name@,
                    Role::MapBatch,
                    seq![out.mark()],
                    1,
                ),
            ),
            self.leads_by(*final(b), out, (Batched { logic: MapBatchLogic { logic } })),
            out.heads(*final(b), old(b)@.next),
    {
        self.relay(b, name, Batched { logic: MapBatchLogic { logic } })
    }

    /// Keeps the first `count` records.
    pub fn take(
        self,
        b: &mut DataflowBuilder<T>,
        name: &str,
        count: usize,
    ) -> (out: Pipe<T, D>)
        requires
            self.fits(*old(b)),
        ensures
            old(b).grows(
                *final(b),
                self.reader(
                    old(b)@,
                    name@,
                    Role::Take(count),
                    seq![out.mark()],
                    1,
                ),
            ),
            self.leads_by(*final(b), out, (Batched { logic: TakeLogic { remaining: count } })),
            out.heads(*final(b), old(b)@.next),
    {
        self.relay(b, name, Batched { logic: TakeLogic { remaining: count } })
    }

    /// Keeps the records before the first for which the predicate does not hold.
    pub fn take_while<F: FnMut(&T, &D) -> bool + 'static>(
        self,
        b: &mut DataflowBuilder<T>,
        name: &str,
        predicate: F,
    ) -> (out: Pipe<T, D>)
        requires
            self.fits(*old(b)),
            forall|t: &T, x: &D| #[trigger] call_requires(predicate, (t, x)),
        ensures
            old(b).grows(
                *final(b),
                self.reader(
                    old(b)@,
                    name@,
                    Role::TakeWhile,
                    seq![out.mark()],
                    1,
                ),
            ),
            self.leads_by(
                *final(b),
                out,
                (Batched { logic: TakeWhileLogic { predicate, stopped: false } }),
            ),
            out.heads(*final(b), old(b)@.next),
    {
        self.relay(b, name, Batched { logic: TakeWhileLogic { predicate, stopped: false } })
    }

    /// Lets a closure read the input and write the output.
    pub fn unary<
        D2: Clone + 'static,
        L: FnMut(&mut InputHandle<T, D>, &mut OutputHandle<T, D2>) -> Result<()> + 'static,
    >(
        self,
        b: &mut DataflowBuilder<T>,
        name: &str,
        logic: L,
    ) -> (out: Pipe<T, D2>)
        requires
            self.fits(*old(b)),
            forall|i: &mut InputHandle<T, D>, o: &mut OutputHandle<T, D2>| #[trigger]
                call_requires(logic, (i, o)),
        ensures
            old(b).grows(
                *final(b),
                self.reader(
                    old(b)@,
                    name@,
                    Role::Unary,
                    seq![out.mark()],
                    1,
                ),
            ),
            self.leads_by(*final(b), out, (HandleLogic { logic })),
            out.heads(*final(b), old(b)@.next),
    {
        self.relay(b, name, HandleLogic { logic })
    }

    /// Lets a closure read the input and write the output, and ask to be told of complete times.
    pub fn unary_notify<
        D2: Clone + 'static,
        L: FnMut(
            &mut InputHandle<T, D>,
            &mut OutputHandle<T, D2>,
            &mut NotifyContext<T>,
        ) -> Result<()> + 'static,
    >(
        self,
        b: &mut DataflowBuilder<T>,
        name: &str,
        logic: L,
    ) -> (out: Pipe<T, D2>)
        requires
            self.fits(*old(b)),
            forall|
                i: &mut InputHandle<T, D>,
                o: &mut OutputHandle<T, D2>,
                c: &mut NotifyContext<T>,
            | #[trigger]
                call_requires(logic, (i, o, c)),
        ensures
            old(b).grows(
                *final(b),
                self.reader(
                    old(b)@,
                    name@,
                    Role::Notified,
                    seq![out.mark()],
                    1,
                ),
            ),
            exists|l: NotifyLogic<T, L>| #[trigger]
                self.awaits_by(*final(b), out, l) && l.is_fresh() && l.logic == logic,
            out.heads(*final(b), old(b)@.next),
    {
        self.await_times(b, name, NotifyLogic::new(logic))
    }

    /// Combines the records of each time into one, when the time is complete.
    pub fn reduce<F: FnMut(D, D) -> D + 'static>(
        self,
        b: &mut DataflowBuilder<T>,
        name: &str,
        reducer: F,
    ) -> (out: Pipe<T, D>)
        requires
            self.fits(*old(b)),
            forall|x: D, y: D| #[trigger] call_requires(reducer, (x, y)),
        ensures
            old(b).grows(
                *final(b),
                self.reader(
                    old(b)@,
                    name@,
                    Role::Gather(Keeping::Same, Ending::Reduction),
                    seq![out.mark()],
                    1,
                ),
            ),
            self.gathers_by(*final(b), out, KeepTime, (ReduceFinish { reducer })),
            out.heads(*final(b), old(b)@.next),
    {
        self.await_times(b, name, StashLogic::new(KeepTime, ReduceFinish { reducer }))
    }

    /// Folds the records of each time into a value, when the time is complete.
    pub fn fold<D2: Clone + 'static, F: FnMut(D2, D) -> D2 + 'static>(
        self,
        b: &mut DataflowBuilder<T>,
        name: &str,
        init: D2,
        folder: F,
    ) -> (out: Pipe<T, D2>)
        requires
            self.fits(*old(b)),
            forall|x: D2, y: D| #[trigger] call_requires(folder, (x, y)),
        ensures
            old(b).grows(
                *final(b),
                self.reader(
                    old(b)@,
                    name@,
                    Role::Gather(Keeping::Same, Ending::Fold),
                    seq![out.mark()],
                    1,
                ),
            ),
            self.gathers_by(*final(b), out, KeepTime, (FoldFinish { init, folder })),
            out.heads(*final(b), old(b)@.next),
    {
        self.await_times(b, name, StashLogic::new(KeepTime, FoldFinish { init, folder }))
    }

    /// Sends the different records of each time, when the time is complete.
    pub fn distinct(
        self,
        b: &mut DataflowBuilder<T>,
        name: &str,
    ) -> (out: Pipe<T, D>) where D: PartialEq

        requires
            self.fits(*old(b)),
        ensures
            old(b).grows(
                *final(b),
                self.reader(
                    old(b)@,
                    name@,
                    Role::Gather(Keeping::Same, Ending::Distinct),
                    seq![out.mark()],
                    1,
                ),
            ),
            self.gathers_by(*final(b), out, KeepTime, DistinctFinish),
            out.heads(*final(b), old(b)@.next),
    {
        self.await_times(b, name, StashLogic::new(KeepTime, DistinctFinish))
    }

    /// Counts the records of each time, when the time is complete.
    pub fn count(
        self,
        b: &mut DataflowBuilder<T>,
        name: &str,
    ) -> (out: Pipe<T, usize>)
        requires
            self.fits(*old(b)),
        ensures
            old(b).grows(
                *final(b),
                self.reader(
                    old(b)@,
                    name@,
                    Role::Gather(Keeping::Same, Ending::Count),
                    seq![out.mark()],
                    1,
                ),
            ),
            self.gathers_by(*final(b), out, KeepTime, CountFinish),
            out.heads(*final(b), old(b)@.next),
    {
        self.await_times(b, name, StashLogic::new(KeepTime, CountFinish))
    }

    /// Moves records to later times, each to its own.
    pub fn delay<F: Fn(&T, &D) -> T + 'static>(
        self,
        b: &mut DataflowBuilder<T>,
        name: &str,
        delay_fn: F,
    ) -> (out: Pipe<T, D>)
        requires
            self.fits(*old(b)),
            forall|t: &T, x: &D| #[trigger] call_requires(delay_fn, (t, x)),
        ensures
            old(b).grows(
                *final(b),
                self.reader(
                    old(b)@,
                    name@,
                    Role::Gather(Keeping::Delayed, Ending::Records),
                    seq![out.mark()],
                    1,
                ),
            ),
            self.gathers_by(*final(b), out, (Delay { delay: delay_fn }), KeepFinish),
            out.heads(*final(b), old(b)@.next),
    {
        self.await_times(b, name, StashLogic::new(Delay { delay: delay_fn }, KeepFinish))
    }

    /// Moves batches to later times.
    pub fn delay_batch<F: Fn(&T) -> T + 'static>(
        self,
        b: &mut DataflowBuilder<T>,
        name: &str,
        delay_fn: F,
    ) -> (out: Pipe<T, D>)
        requires
            self.fits(*old(b)),
            forall|t: &T| #[trigger] call_requires(delay_fn, (t,)),
        ensures
            old(b).grows(
                *final(b),
                self.reader(
                    old(b)@,
                    name@,
                    Role::Gather(Keeping::DelayedBatch, Ending::Records),
                    seq![out.mark()],
                    1,
                ),
            ),
            self.gathers_by(*final(b), out, (DelayBatch { delay: delay_fn }), KeepFinish),
            out.heads(*final(b), old(b)@.next),
    {
        self.await_times(b, name, StashLogic::new(DelayBatch { delay: delay_fn }, KeepFinish))
    }
}

} // verus!
