//! Where batches enter and leave a dataflow.

use std::collections::VecDeque;
use vstd::prelude::*;
use crate::builder::{names_port, taps, BuilderView, DataflowBuilder, NewOperator};
use crate::error::{Error, Result};
use crate::graph::ChannelKind;
use crate::order::Timestamp;
use crate::pipe::{one, reading, Pipe};
use crate::progress::ProbeHandle;
use crate::role::{Duty, Line, Role};
use crate::schedulable::{BoxedChannelFactory, BoxedOperator};
use crate::shared::{Anything, Mark, Shared};
use crate::strand::{bounded_channel_with_wake, BoundedPush, Outlets, Strand, Within};
use crate::stream::Slot;
use crate::text::{decimal, joined, push_usize};
use crate::wired::ends::SourceState;
use crate::wired::joins::MergeState;
use crate::wired::logic::InspectLogic;
use crate::wired::operator::{
    runs, AsIs, CollectCore, ForEachCore, InputCore, RelayCore, SourceCore, WiredCore,
};
use crate::wired::relay::{into_queue, Batched};

verus! {

/// How many batches an input from outside holds.
pub const INPUT_CAPACITY: usize = 256;

/// A source of batches.
pub open spec fn emitting(name: Seq<char>, role: Role, writes: Mark) -> NewOperator {
    NewOperator {
        name,
        duty: Duty { role, reads: Seq::empty(), writes: seq![writes] },
        inputs: Seq::<(Slot, Line)>::empty(),
        outputs: 1,
        kind: ChannelKind::Pipeline,
        width: None,
    }
}

/// The operator that was added to a builder last is the source of what is pushed into the given
/// side of a channel for `capacity` batches, which wakes the executor of the dataflow. The source
/// counts among the open inputs of the dataflow.
pub open spec fn receives<T: Timestamp + 'static, D: Clone + 'static>(
    b: DataflowBuilder<T>,
    sender: BoundedPush<T, D>,
    capacity: usize,
    out: Pipe<T, D>,
) -> bool {
    &&& !sender.is_shut()
    &&& sender.strand().bounds() == (Within { limit: capacity, lasting: true })
    &&& sender.strand().calls() == Some(Some(b.waker()))
    &&& exists|core: InputCore<T, D>| #[trigger]
        runs(b.latest(), core) && core.external.strand() == sender.strand()
            && core.external.cursor() == 0 && core.external.limit() == capacity && core.merge.outbox@.len() == 0
            && !core.merge.done && core.outlets == out.outlets() && core.open_inputs
            == b.counter()
}

/// An operator collects the batches that are sent through a strand.
pub open spec fn collects<T: Timestamp + 'static, D: Clone + 'static>(
    op: BoxedOperator<T>,
    input: Strand<T, D>,
    limit: usize,
    collector: Shared<Vec<(T, Vec<D>)>>,
) -> bool {
    exists|core: CollectCore<T, D>| #[trigger]
        runs(op, core) && core.input.strand() == input && core.input.cursor() == 0
            && core.input.limit() == limit && core.collector == collector && !core.done
}

/// Nothing was collected at first.
pub open spec fn collects_nothing_yet<T, D>(collector: Shared<Vec<(T, Vec<D>)>>) -> bool {
    exists|none: Vec<(T, Vec<D>)>| #[trigger] collector.began(none) && none@.len() == 0
}

impl<T: Timestamp + 'static> DataflowBuilder<T> {
    /// Adds a source that runs a core.
    fn emit<D: Clone + 'static, C: WiredCore<T> + 'static>(
        &mut self,
        name: &str,
        core: C,
        outlets: Outlets<T, D>,
    ) -> (out: Pipe<T, D>)
        requires
            old(self).has_room(1),
            core.sound(),
            core.duty().reads == Seq::<Mark>::empty(),
            core.duty().writes == seq![outlets.mark()],
            outlets.owner() == Some(old(self)@.next as int),
            outlets.strand().calls() is None,
        ensures
            old(self).grows(*final(self), emitting(name@, core.duty().role, out.mark())),
            runs(final(self).latest(), core),
            out.heads(*final(self), old(self)@.next),
            out.outlets() == outlets,
    {
        let inputs: Vec<(Slot, BoxedChannelFactory)> = Vec::new();
        proof {
            assert(taps(inputs@) =~= Seq::<(Slot, Line)>::empty());
        }
        let index: usize = self.attach_core(name, inputs, 1, core);
        Pipe::first_output(self, index, outlets)
    }

    /// Adds a source of the given batches.
    pub fn source<D: Clone + 'static>(&mut self, name: &str, data: Vec<(T, Vec<D>)>) -> (out: Pipe<
        T,
        D,
    >)
        requires
            old(self).has_room(1),
        ensures
            old(self).grows(*final(self), emitting(name@, Role::Source(data@.len()), out.mark())),
            exists|core: SourceCore<T, D>| #[trigger]
                runs(final(self).latest(), core) && core.state.outbox@ == data@ && !core.state.done
                    && core.outlets == out.outlets(),
            out.heads(*final(self), old(self)@.next),
    {
        let outlets: Outlets<T, D> = Outlets::new(self.upcoming());
        let state = SourceState { outbox: into_queue(data), done: false };
        let core = SourceCore { state, outlets: outlets.share() };
        let out = self.emit(name, core, outlets);
        assert(runs(self.latest(), core));
        out
    }

    /// Adds a source whose batches come from outside, through a channel for `capacity` batches.
    fn receive<D: Clone + 'static>(&mut self, name: &str, capacity: usize) -> (r: (
        Pipe<T, D>,
        BoundedPush<T, D>,
    ))
        requires
            old(self).has_room(1),
        ensures
            old(self).grows(*final(self), emitting(name@, Role::Input, r.0.mark())),
            receives(*final(self), r.1, capacity, r.0),
            r.0.heads(*final(self), old(self)@.next),
    {
        let outlets: Outlets<T, D> = Outlets::new(self.upcoming());
        let (sender, receiver) = bounded_channel_with_wake(capacity, Some(self.share_wake()));
        let core = InputCore {
            merge: MergeState { outbox: VecDeque::new(), done: false },
            external: receiver.into_cell(),
            outlets: outlets.share(),
            open_inputs: self.open_input(),
        };
        let out = self.emit(name, core, outlets);
        assert(runs(self.latest(), core));
        (out, sender)
    }

    /// Adds an input port, and hands out the side that batches are pushed into. Names of input
    /// ports must differ.
    pub fn input<D: Clone + 'static>(&mut self, name: &str) -> (r: Result<
        (Pipe<T, D>, BoundedPush<T, D>),
    >)
        requires
            old(self).has_room(1),
        ensures
            old(self).stays(*final(self)),
            r is Ok <==> !names_port(old(self)@.input_ports, name@),
            r matches Ok((out, sender)) ==> {
                &&& out.heads(*final(self), old(self)@.next)
                &&& final(self).crew() == old(self).crew().push(final(self).latest())
                &&& receives(*final(self), sender, INPUT_CAPACITY, out)
                &&& old(self)@.adds(
                    (BuilderView { input_ports: old(self)@.input_ports, ..final(self)@ }),
                    emitting(name@, Role::Input, out.mark()),
                )
                &&& final(self)@.input_ports == old(self)@.input_ports.push(
                    (name@, old(self)@.next),
                )
            },
            r matches Err(e) ==> {
                &&& *final(self) == *old(self)
                &&& e matches Error::InvalidConfig(m) && m@ == "duplicate input port name: "@
                    + name@
            },
    {
        if self.has_input_port(name) {
            return Err(Error::InvalidConfig(joined("duplicate input port name: ", name)));
        }
        let index: usize = self.upcoming();
        let (out, sender) = self.receive(name, INPUT_CAPACITY);
        let ghost mid = self@;
        self.add_input_port(name, index);
        proof {
            assert((BuilderView { input_ports: old(self)@.input_ports, ..self@ }) == mid);
        }
        Ok((out, sender))
    }

    /// Adds a source whose batches come from a producer that runs beside the dataflow, and hands
    /// out the side that the producer pushes into.
    pub fn source_async<D: Clone + 'static>(&mut self, name: &str) -> (r: (
        Pipe<T, D>,
        BoundedPush<T, D>,
    ))
        requires
            old(self).has_room(1),
        ensures
            old(self).stays(*final(self)),
            r.0.heads(*final(self), old(self)@.next),
            old(self)@.adds(
                (BuilderView { async_sources: old(self)@.async_sources, ..final(self)@ }),
                emitting(name@, Role::Input, r.0.mark()),
            ),
            final(self)@.async_sources == old(self)@.async_sources.push(old(self)@.next),
            final(self).crew() == old(self).crew().push(final(self).latest()),
            receives(*final(self), r.1, old(self)@.capacity, r.0),
    {
        let index: usize = self.upcoming();
        let capacity: usize = self.usual_capacity();
        let (out, sender) = self.receive(name, capacity);
        let ghost mid = self@;
        self.add_async_source(index);
        proof {
            assert((BuilderView { async_sources: old(self)@.async_sources, ..self@ }) == mid);
        }
        (out, sender)
    }
}

/// Where the batches of a port are collected.
pub struct OutputPort<T, D> {
    name: String,
    collector: Shared<Vec<(T, Vec<D>)>>,
}

impl<T, D> OutputPort<T, D> {
    /// The name of the port.
    pub closed spec fn label(&self) -> Seq<char> {
        self.name@
    }

    /// What is collected.
    pub closed spec fn collection(&self) -> Shared<Vec<(T, Vec<D>)>> {
        self.collector
    }

    /// The name of the port.
    pub fn name(&self) -> (name: &str)
        ensures
            name@ == self.label(),
    {
        self.name.as_str()
    }

    /// What is collected.
    pub fn collector(&self) -> (collector: Shared<Vec<(T, Vec<D>)>>)
        ensures
            collector == self.collection(),
    {
        self.collector.share()
    }
}

/// The name of the `n`-th output without a name.
pub open spec fn collect_name(n: usize) -> Seq<char> {
    "__collect_"@ + decimal(n as nat)
}

impl<T: Timestamp + 'static, D: Clone + 'static> Pipe<T, D> {
    /// Adds a sink that runs a core.
    fn sink<C: WiredCore<T> + 'static>(
        b: &mut DataflowBuilder<T>,
        name: &str,
        from: Slot,
        channel: BoxedChannelFactory,
        core: C,
    )
        requires
            old(b).has_room(1),
            channel.ready(),
            core.sound(),
            core.duty().reads == seq![channel.line().mark],
        ensures
            old(b).grows(
                *final(b),
                reading(
                    from,
                    channel.line(),
                    name@,
                    core.duty().role,
                    core.duty().writes,
                    0,
                ),
            ),
            runs(final(b).latest(), core),
    {
        let ghost line = channel.line();
        let inputs = one((from, channel));
        proof {
            assert(taps(inputs@) =~= seq![(from, line)]);
        }
        let _ = b.attach_core(name, inputs, 0, core);
    }

    /// Shows each record to a closure, and ends the stream.
    pub fn for_each<F: FnMut(&T, &D) + 'static>(
        self,
        b: &mut DataflowBuilder<T>,
        name: &str,
        logic: F,
    )
        requires
            self.fits(*old(b)),
            forall|t: &T, x: &D| #[trigger] call_requires(logic, (t, x)),
        ensures
            exists|w: Mark|
                old(b).grows(
                    *final(b),
                    #[trigger] self.reader(
                        old(b)@,
                        name@,
                        Role::Inspect,
                        seq![w],
                        0,
                    ),
                ),
            exists|
                core: RelayCore<T, D, T, D, Batched<InspectLogic<F>>, AsIs, AsIs>,
            | #[trigger]
                runs(final(b).latest(), core) && core.state.logic.logic.logic == logic
                    && core.is_fresh(self.strand(), core.outlets) && core.input.limit() == self.limit(
                    old(b)@,
                ),
    {
        let (cell, from, channel) = self.tap(b, Slot::new(b.upcoming(), 0));
        let outlets: Outlets<T, D> = Outlets::unread(b.upcoming());
        let ghost w = outlets.mark();
        let logic = Batched { logic: InspectLogic { logic } };
        let core: RelayCore<T, D, T, D, Batched<InspectLogic<F>>, AsIs, AsIs> = RelayCore::new(
            logic,
            cell,
            outlets,
        );
        Self::sink(b, name, from, channel, core);
        proof {
            let op = self.reader(old(b)@, name@, Role::Inspect, seq![w], 0);
            assert(old(b).grows(*b, op));
            assert(runs(b.latest(), core));
        }
    }

    /// Shows each batch to a closure, and ends the stream.
    pub fn for_each_batch<F: FnMut(&T, &[D]) + 'static>(
        self,
        b: &mut DataflowBuilder<T>,
        name: &str,
        logic: F,
    )
        requires
            self.fits(*old(b)),
            forall|t: &T, x: &[D]| #[trigger] call_requires(logic, (t, x)),
        ensures
            old(b).grows(
                *final(b),
                self.reader(
                    old(b)@,
                    name@,
                    Role::ForEach,
                    Seq::empty(),
                    0,
                ),
            ),
            exists|core: ForEachCore<T, D, F>| #[trigger]
                runs(final(b).latest(), core) && core.input.strand() == self.strand()
                    && core.input.cursor() == 0 && core.input.limit() == self.limit(old(b)@)
                    && core.logic == logic && !core.done,
    {
        let (cell, from, channel) = self.tap(b, Slot::new(b.upcoming(), 0));
        let core = ForEachCore { input: cell, logic, done: false };
        Self::sink(b, name, from, channel, core);
        assert(runs(b.latest(), core));
    }

    /// Collects the batches at an output port, and ends the stream. Names of output ports must
    /// differ.
    pub fn output(self, b: &mut DataflowBuilder<T>, name: &str) -> (r: Result<OutputPort<T, D>>)
        requires
            self.fits(*old(b)),
        ensures
            old(b).stays(*final(b)),
            r is Ok <==> !names_port(old(b)@.output_ports, name@),
            r matches Ok(port) ==> {
                &&& port.label() == name@
                &&& final(b).crew() == old(b).crew().push(final(b).latest())
                &&& collects(
                    final(b).latest(),
                    self.strand(),
                    self.limit(old(b)@),
                    port.collection(),
                )
                &&& collects_nothing_yet(port.collection())
                &&& old(b)@.adds(
                    (BuilderView { output_ports: old(b)@.output_ports, ..final(b)@ }),
                    self.reader(
                        old(b)@,
                        name@,
                        Role::Collect,
                        Seq::empty(),
                        0,
                    ),
                )
                &&& final(b)@.output_ports == old(b)@.output_ports.push((name@, old(b)@.next))
            },
            r matches Err(e) ==> {
                &&& *final(b) == *old(b)
                &&& e matches Error::InvalidConfig(m) && m@ == "duplicate output port name: "@
                    + name@
            },
    {
        if b.has_output_port(name) {
            return Err(Error::InvalidConfig(joined("duplicate output port name: ", name)));
        }
        let index: usize = b.upcoming();
        let (cell, from, channel) = self.tap(b, Slot::new(b.upcoming(), 0));
        let none: Vec<(T, Vec<D>)> = Vec::new();
        let collector: Shared<Vec<(T, Vec<D>)>> = Shared::new(none, Anything);
        assert(collector.began(none));
        let core = CollectCore { input: cell, collector: collector.share(), done: false };
        Self::sink(b, name, from, channel, core);
        assert(runs(b.latest(), core));
        let ghost mid = b@;
        b.add_output_port(name, index);
        proof {
            assert((BuilderView { output_ports: old(b)@.output_ports, ..b@ }) == mid);
        }
        Ok(OutputPort { name: name.to_owned(), collector })
    }

    /// Collects the batches at an output port with a name of its own, and ends the stream.
    pub fn collect(self, b: &mut DataflowBuilder<T>) -> (collector: Shared<Vec<(T, Vec<D>)>>)
        requires
            self.fits(*old(b)),
            old(b)@.next_collect < usize::MAX,
            !names_port(old(b)@.output_ports, collect_name(old(b)@.next_collect)),
        ensures
            old(b).stays(*final(b)),
            old(b)@.adds(
                (BuilderView {
                    output_ports: old(b)@.output_ports,
                    next_collect: old(b)@.next_collect,
                    ..final(b)@
                }),
                self.reader(
                    old(b)@,
                    collect_name(old(b)@.next_collect),
                    Role::Collect,
                    Seq::empty(),
                    0,
                ),
            ),
            final(b)@.output_ports == old(b)@.output_ports.push(
                (collect_name(old(b)@.next_collect), old(b)@.next),
            ),
            final(b)@.next_collect == old(b)@.next_collect + 1,
            final(b).crew() == old(b).crew().push(final(b).latest()),
            collects(final(b).latest(), self.strand(), self.limit(old(b)@), collector),
            collects_nothing_yet(collector),
    {
        let n: usize = b.take_collect_index();
        let mut name = "__collect_".to_owned();
        push_usize(&mut name, n);
        let index: usize = b.upcoming();
        let (cell, from, channel) = self.tap(b, Slot::new(b.upcoming(), 0));
        let none: Vec<(T, Vec<D>)> = Vec::new();
        let collector: Shared<Vec<(T, Vec<D>)>> = Shared::new(none, Anything);
        assert(collector.began(none));
        let core = CollectCore { input: cell, collector: collector.share(), done: false };
        Self::sink(b, name.as_str(), from, channel, core);
        assert(runs(b.latest(), core));
        let ghost mid = b@;
        b.add_output_port(name.as_str(), index);
        proof {
            let plain = BuilderView {
                output_ports: old(b)@.output_ports,
                next_collect: old(b)@.next_collect,
                ..b@
            };
            assert(plain == (BuilderView { next_collect: old(b)@.next_collect, ..mid }));
        }
        collector
    }

    /// Lets a probe watch the stream, which goes on unchanged.
    pub fn probe(self, b: &mut DataflowBuilder<T>) -> (r: (Self, ProbeHandle<T>))
        requires
            self.seal() == old(b).seal(),
            old(b).wf(),
        ensures
            old(b).remains(*final(b)),
            final(b).crew() == old(b).crew(),
            final(b).watchers() == old(b).watchers().push((self.source().operator_index, r.1)),
            r.0 == self,
            final(b)@ == (BuilderView {
                probes: old(b)@.probes.push(self.source().operator_index),
                ..old(b)@
            }),
    {
        let probe = ProbeHandle::new();
        b.add_probe(self.origin(), probe.share());
        (self, probe)
    }
}

} // verus!
