//! An operator that merges streams.

use vstd::prelude::*;
use crate::error::{Error, Result};
use crate::handles::{batches, without_empty, InputHandle, InputView, OutputHandle};
use crate::scope::{Scope, ScopeView};
use crate::stage::RegionId;
use crate::stream::{DataStream, Slot, StreamEdge, StreamView};
use crate::text::{decimal, joined, push_usize};

verus! {

/// All batches of the inputs that hold records, input after input, behind what was buffered.
pub open spec fn merged<T, D>(
    buffered: Seq<(T, Seq<D>)>,
    inputs: Seq<Seq<(T, Seq<D>)>>,
) -> Seq<(T, Seq<D>)>
    decreases inputs.len(),
{
    if inputs.len() == 0 {
        buffered
    } else {
        merged(buffered, inputs.drop_last()) + without_empty(inputs.last())
    }
}

/// What a merging operator holds.
pub struct ConcatView<T, D> {
    pub inputs: Seq<InputView<T, D>>,
    pub output: Seq<(T, Seq<D>)>,
}

impl<T, D> ConcatView<T, D> {
    /// The pending batches of each input.
    pub open spec fn pending(self) -> Seq<Seq<(T, Seq<D>)>> {
        self.inputs.map_values(|i: InputView<T, D>| i.pending)
    }

    /// All inputs were processed and no more will come.
    pub open spec fn done(self) -> bool {
        forall|i: int| 0 <= i < self.inputs.len() ==> (#[trigger] self.inputs[i]).done()
    }
}

/// Forwards the batches of several inputs to one output.
#[derive(Debug)]
pub struct ConcatOperator<T, D> {
    name: String,
    index: usize,
    region_id: RegionId,
    inputs: Vec<InputHandle<T, D>>,
    output: OutputHandle<T, D>,
}

/// The views of input handles.
pub open spec fn views<T, D>(inputs: Seq<InputHandle<T, D>>) -> Seq<InputView<T, D>> {
    inputs.map_values(|h: InputHandle<T, D>| h@)
}

impl<T, D> View for ConcatOperator<T, D> {
    type V = ConcatView<T, D>;

    closed spec fn view(&self) -> ConcatView<T, D> {
        ConcatView { inputs: views(self.inputs@), output: self.output@ }
    }
}

impl<T, D> ConcatOperator<T, D> {
    /// The name of the operator.
    pub closed spec fn label(&self) -> Seq<char> {
        self.name@
    }

    /// The index and the region of the operator.
    pub closed spec fn place(&self) -> (usize, RegionId) {
        (self.index, self.region_id)
    }

    /// An operator with `num_inputs` open inputs.
    pub fn new(name: &str, index: usize, region_id: RegionId, num_inputs: usize) -> (op: Self)
        ensures
            op.label() == name@,
            op.place() == (index, region_id),
            op@.inputs == Seq::new(
                num_inputs as nat,
                |i: int| InputView { pending: Seq::<(T, Seq<D>)>::empty(), exhausted: false },
            ),
            op@.output == Seq::<(T, Seq<D>)>::empty(),
    {
        let prefix = joined(name, ":input_");
        let mut inputs: Vec<InputHandle<T, D>> = Vec::new();
        let ghost fresh = InputView { pending: Seq::<(T, Seq<D>)>::empty(), exhausted: false };
        let mut i: usize = 0;
        while i < num_inputs
            invariant
                i <= num_inputs,
                fresh == (InputView { pending: Seq::<(T, Seq<D>)>::empty(), exhausted: false }),
                inputs@.len() == i,
                forall|k: int| 0 <= k < i ==> (#[trigger] inputs@[k])@ == fresh,
            decreases num_inputs - i,
        {
            let mut label = prefix.clone();
            push_usize(&mut label, i);
            inputs.push(InputHandle::new(label));
            i = i + 1;
        }
        let op = ConcatOperator {
            output: OutputHandle::new(joined(name, ":output")),
            name: name.to_owned(),
            index,
            region_id,
            inputs,
        };
        assert(op@.inputs =~= Seq::new(
            num_inputs as nat,
            |i: int| InputView { pending: Seq::<(T, Seq<D>)>::empty(), exhausted: false },
        ));
        op
    }

    /// The name of the operator.
    pub fn name(&self) -> (name: &str)
        ensures
            name@ == self.label(),
    {
        self.name.as_str()
    }

    /// The index of the operator.
    pub fn index(&self) -> (index: usize)
        ensures
            index == self.place().0,
    {
        self.index
    }

    /// The region of the operator.
    pub fn region_id(&self) -> (region_id: RegionId)
        ensures
            region_id == self.place().1,
    {
        self.region_id
    }

    /// The input with the given number.
    pub fn input_mut(&mut self, idx: usize) -> (input: &mut InputHandle<T, D>)
        requires
            idx < old(self)@.inputs.len(),
        ensures
            input@ == old(self)@.inputs[idx as int],
            final(self)@ == (ConcatView {
                inputs: old(self)@.inputs.update(idx as int, final(input)@),
                ..old(self)@
            }),
            final(self).label() == old(self).label(),
            final(self).place() == old(self).place(),
    {
        let ghost before = self.inputs@;
        let input = &mut self.inputs[idx];
        proof {
            assert(views(before.update(idx as int, *final(input))) =~= views(before).update(
                idx as int,
                final(input)@,
            ));
        }
        input
    }

    /// The number of inputs.
    pub fn num_inputs(&self) -> (n: usize)
        ensures
            n == self@.inputs.len(),
    {
        self.inputs.len()
    }

    /// The output of the operator.
    pub fn output_mut(&mut self) -> (output: &mut OutputHandle<T, D>)
        ensures
            output@ == old(self)@.output,
            final(self)@ == (ConcatView { output: final(output)@, ..old(self)@ }),
            final(self).label() == old(self).label(),
            final(self).place() == old(self).place(),
    {
        &mut self.output
    }

    /// Forwards all pending batches, input after input and each input in order. Returns how many
    /// batches were forwarded; empty ones are dropped.
    pub fn activate(&mut self) -> (r: Result<usize>)
        ensures
            final(self).label() == old(self).label(),
            final(self).place() == old(self).place(),
            final(self)@.output == merged(old(self)@.output, old(self)@.pending()),
            final(self)@.inputs == old(self)@.inputs.map_values(
                |i: InputView<T, D>| InputView { pending: Seq::<(T, Seq<D>)>::empty(), ..i },
            ),
            r == Ok::<usize, Error>(
                (final(self)@.output.len() - old(self)@.output.len()) as usize,
            ),
            final(self)@.output.len() >= old(self)@.output.len(),
    {
        let before: usize = self.output.buffered_count();
        let ghost inputs0 = self@.inputs;
        let ghost pending0 = self@.pending();
        let ghost output0 = self@.output;
        let mut i: usize = 0;
        assert(pending0.take(0) =~= Seq::empty());
        while i < self.inputs.len()
            invariant
                i <= self.inputs@.len(),
                self.inputs@.len() == inputs0.len(),
                pending0 == inputs0.map_values(|v: InputView<T, D>| v.pending),
                self.label() == old(self).label(),
                self.place() == old(self).place(),
                self@.output == merged(output0, pending0.take(i as int)),
                forall|k: int| i <= k < inputs0.len() ==> (#[trigger] self.inputs@[k])@ == inputs0[k],
                forall|k: int|
                    0 <= k < i ==> (#[trigger] self.inputs@[k])@ == (InputView {
                        pending: Seq::<(T, Seq<D>)>::empty(),
                        ..inputs0[k]
                    }),
            decreases self.inputs@.len() - i,
        {
            let ghost source = inputs0[i as int].pending;
            let ghost sofar = self@.output;
            let ghost others = self.inputs@;
            let total: usize = self.inputs[i].pending_count();
            let mut n: usize = 0;
            assert(source.skip(0) =~= source);
            assert(source.take(0) =~= Seq::empty());
            assert(without_empty(source.take(0)) =~= Seq::empty()) by {
                reveal(Seq::filter);
            }
            assert(sofar + without_empty(source.take(0)) =~= sofar);
            while n < total
                invariant
                    n <= total,
                    total == source.len(),
                    i < self.inputs@.len(),
                    self.inputs@.len() == others.len(),
                    source == inputs0[i as int].pending,
                    self.label() == old(self).label(),
                    self.place() == old(self).place(),
                    self.output@ == sofar + without_empty(source.take(n as int)),
                    self.inputs@[i as int]@.pending == source.skip(n as int),
                    self.inputs@[i as int]@.exhausted == inputs0[i as int].exhausted,
                    forall|k: int|
                        0 <= k < others.len() && k != i ==> #[trigger] self.inputs@[k] == others[k],
                decreases total - n,
            {
                match self.inputs[i].next() {
                    Some((time, data)) => {
                        let mut session = self.output.session(time);
                        session.give_vec(data);
                        assert(session.data@ =~= data@);
                        session.finish(&mut self.output);
                        proof {
                            let t = source.take(n + 1);
                            reveal(Seq::filter);
                            assert(t.drop_last() =~= source.take(n as int));
                            assert(t.last() == source[n as int]);
                            assert(source.skip(n as int).drop_first() =~= source.skip(n + 1));
                            assert(self.output@ =~= sofar + without_empty(t));
                        }
                    },
                    None => {},
                }
                n = n + 1;
            }
            proof {
                assert(source.take(n as int) =~= source);
                assert(self.inputs@[i as int]@.pending =~= Seq::empty());
                assert(pending0.take(i + 1).drop_last() =~= pending0.take(i as int));
                assert(pending0.take(i + 1).last() == source);
                assert forall|k: int| i < k < inputs0.len() implies (#[trigger] self.inputs@[k])@
                    == inputs0[k] by {
                    assert(others[k]@ == inputs0[k]);
                }
                assert forall|k: int| 0 <= k < i implies (#[trigger] self.inputs@[k])@ == (InputView {
                    pending: Seq::<(T, Seq<D>)>::empty(),
                    ..inputs0[k]
                }) by {
                    assert(others[k]@ == (InputView {
                        pending: Seq::<(T, Seq<D>)>::empty(),
                        ..inputs0[k]
                    }));
                }
            }
            i = i + 1;
        }
        proof {
            assert(pending0.take(i as int) =~= pending0);
            assert(self@.inputs =~= inputs0.map_values(
                |i: InputView<T, D>| InputView { pending: Seq::<(T, Seq<D>)>::empty(), ..i },
            ));
            merged_extends(output0, pending0);
        }
        Ok(self.output.buffered_count() - before)
    }

    /// Hands out the forwarded batches.
    pub fn drain_output(&mut self) -> (out: Vec<(T, Vec<D>)>)
        ensures
            batches(out@) == old(self)@.output,
            final(self)@ == (ConcatView { output: Seq::empty(), ..old(self)@ }),
            final(self).label() == old(self).label(),
            final(self).place() == old(self).place(),
    {
        self.output.drain()
    }

    /// Whether all inputs were processed and no more will come.
    pub fn is_done(&self) -> (b: bool)
        ensures
            b == self@.done(),
    {
        let mut i: usize = 0;
        while i < self.inputs.len()
            invariant
                i <= self.inputs@.len(),
                forall|k: int| 0 <= k < i ==> (#[trigger] self@.inputs[k]).done(),
            decreases self.inputs@.len() - i,
        {
            if !self.inputs[i].is_done() {
                assert(!self@.inputs[i as int].done());
                return false;
            }
            i = i + 1;
        }
        true
    }

    /// The operator with its name and place, for diagnostics.
    pub fn to_text(&self) -> (text: String)
        ensures
            text@ == "ConcatOperator { name: \""@ + self.label() + "\", index: "@ + decimal(
                self.place().0 as nat,
            ) + ", region_id: "@ + decimal(self.place().1.0 as nat) + ", num_inputs: "@ + decimal(
                self@.inputs.len(),
            ) + " }"@,
    {
        let mut text = "ConcatOperator { name: \"".to_owned();
        text.append(self.name.as_str());
        text.append("\", index: ");
        push_usize(&mut text, self.index);
        text.append(", region_id: ");
        push_usize(&mut text, self.region_id.0);
        text.append(", num_inputs: ");
        push_usize(&mut text, self.inputs.len());
        text.append(" }");
        text
    }
}

/// Merging keeps what was buffered and only appends to it.
pub proof fn merged_extends<T, D>(buffered: Seq<(T, Seq<D>)>, inputs: Seq<Seq<(T, Seq<D>)>>)
    ensures
        merged(buffered, inputs).len() >= buffered.len(),
        merged(buffered, inputs).take(buffered.len() as int) == buffered,
    decreases inputs.len(),
{
    if inputs.len() > 0 {
        merged_extends(buffered, inputs.drop_last());
        assert(merged(buffered, inputs).take(buffered.len() as int) =~= merged(
            buffered,
            inputs.drop_last(),
        ).take(buffered.len() as int));
    } else {
        assert(merged(buffered, inputs).take(buffered.len() as int) =~= buffered);
    }
}

/// Merging streams of one region.
pub trait ConcatExt<T, D>: Sized {
    /// What is known of the stream.
    spec fn stream(&self) -> StreamView;

    /// Merges this stream with another one of the same region.
    fn concat(&self, scope: &mut Scope<T>, other: &DataStream<D>) -> (out: DataStream<D>)
        requires
            old(scope)@.next_index < usize::MAX,
            self.stream().stage_id == other@.stage_id,
        ensures
            final(scope)@ == (ScopeView { next_index: old(scope)@.next_index + 1, ..old(scope)@ }),
            out@ == (StreamView {
                scope_name: old(scope)@.name,
                source: Slot { operator_index: old(scope)@.next_index as usize, slot_index: 0 },
                stage_id: self.stream().stage_id,
            }),
    ;
}

impl<T, D> ConcatExt<T, D> for StreamEdge<D> {
    open spec fn stream(&self) -> StreamView {
        self@
    }

    fn concat(&self, scope: &mut Scope<T>, other: &DataStream<D>) -> (out: DataStream<D>) {
        let op_index: usize = scope.allocate_operator_index();
        StreamEdge::new(scope.name(), Slot::new(op_index, 0), self.region_id())
    }
}

/// Merges streams of one region.
pub fn concatenate<T, D>(scope: &mut Scope<T>, streams: &Vec<DataStream<D>>) -> (out: DataStream<D>)
    requires
        old(scope)@.next_index < usize::MAX,
        streams@.len() > 0,
        forall|i: int|
            0 <= i < streams@.len() ==> (#[trigger] streams@[i])@.stage_id == streams@[0]@.stage_id,
    ensures
        final(scope)@ == (ScopeView { next_index: old(scope)@.next_index + 1, ..old(scope)@ }),
        out@ == (StreamView {
            scope_name: old(scope)@.name,
            source: Slot { operator_index: old(scope)@.next_index as usize, slot_index: 0 },
            stage_id: streams@[0]@.stage_id,
        }),
{
    let op_index: usize = scope.allocate_operator_index();
    StreamEdge::new(scope.name(), Slot::new(op_index, 0), streams[0].region_id())
}

} // verus!
