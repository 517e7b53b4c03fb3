//! An operator with two inputs and logic of its own.

use vstd::prelude::*;
use crate::error::{Error, Result};
use crate::graph::{pipeline_edge, EdgeInfo, OperatorInfo};
use crate::handles::{batches, InputHandle, InputView, OutputHandle};
use crate::scope::{with_edge, with_operator, Scope, ScopeView};
use crate::stage::StageId;
use crate::stream::{Slot, StreamEdge, StreamView};
use crate::text::{decimal, joined, push_usize};

verus! {

/// Reads two inputs and writes one output, as its logic says.
#[verifier::reject_recursive_types(D1)]
#[verifier::reject_recursive_types(D2)]
#[verifier::reject_recursive_types(D3)]
pub struct BinaryOperator<T, D1, D2, D3, L> {
    name: String,
    index: usize,
    stage_id: StageId,
    input1: InputHandle<T, D1>,
    input2: InputHandle<T, D2>,
    output: OutputHandle<T, D3>,
    logic: L,
}

impl<T, D1, D2, D3, L> BinaryOperator<T, D1, D2, D3, L> {
    /// The name of the operator.
    pub closed spec fn label(&self) -> Seq<char> {
        self.name@
    }

    /// The index and the stage of the operator.
    pub closed spec fn place(&self) -> (usize, StageId) {
        (self.index, self.stage_id)
    }

    /// The first input.
    pub closed spec fn left(&self) -> InputHandle<T, D1> {
        self.input1
    }

    /// The second input.
    pub closed spec fn right(&self) -> InputHandle<T, D2> {
        self.input2
    }

    /// The output.
    pub closed spec fn out(&self) -> OutputHandle<T, D3> {
        self.output
    }

    /// The logic of the operator.
    pub closed spec fn rule(&self) -> L {
        self.logic
    }

    /// An operator without batches.
    pub fn new(name: &str, index: usize, stage_id: StageId, logic: L) -> (op: Self)
        ensures
            op.label() == name@,
            op.place() == (index, stage_id),
            op.rule() == logic,
            op.left()@ == (InputView { pending: Seq::<(T, Seq<D1>)>::empty(), exhausted: false }),
            op.right()@ == (InputView { pending: Seq::<(T, Seq<D2>)>::empty(), exhausted: false }),
            op.out()@ == Seq::<(T, Seq<D3>)>::empty(),
    {
        BinaryOperator {
            input1: InputHandle::new(joined(name, ":left")),
            input2: InputHandle::new(joined(name, ":right")),
            output: OutputHandle::new(joined(name, ":output")),
            name: name.to_owned(),
            index,
            stage_id,
            logic,
        }
    }

    /// The name of the operator.
    pub fn name(&self) -> (name: &str)
        ensures
            name@ == self.label(),
    {
        self.name.as_str()
    }

    /// The index of the operator.
    pub fn index(&self) -> (index: usize)
        ensures
            index == self.place().0,
    {
        self.index
    }

    /// The stage of the operator.
    pub fn stage_id(&self) -> (stage_id: StageId)
        ensures
            stage_id == self.place().1,
    {
        self.stage_id
    }

    /// The first input.
    pub fn input1_mut(&mut self) -> (input: &mut InputHandle<T, D1>)
        ensures
            *input == old(self).left(),
            final(self).left() == *final(input),
            final(self).right() == old(self).right(),
            final(self).out() == old(self).out(),
            final(self).rule() == old(self).rule(),
            final(self).label() == old(self).label(),
            final(self).place() == old(self).place(),
    {
        &mut self.input1
    }

    /// The second input.
    pub fn input2_mut(&mut self) -> (input: &mut InputHandle<T, D2>)
        ensures
            *input == old(self).right(),
            final(self).right() == *final(input),
            final(self).left() == old(self).left(),
            final(self).out() == old(self).out(),
            final(self).rule() == old(self).rule(),
            final(self).label() == old(self).label(),
            final(self).place() == old(self).place(),
    {
        &mut self.input2
    }

    /// The output.
    pub fn output_mut(&mut self) -> (output: &mut OutputHandle<T, D3>)
        ensures
            *output == old(self).out(),
            final(self).out() == *final(output),
            final(self).left() == old(self).left(),
            final(self).right() == old(self).right(),
            final(self).rule() == old(self).rule(),
            final(self).label() == old(self).label(),
            final(self).place() == old(self).place(),
    {
        &mut self.output
    }

    /// Hands out the buffered batches.
    pub fn drain_output(&mut self) -> (out: Vec<(T, Vec<D3>)>)
        ensures
            batches(out@) == old(self).out()@,
            final(self).out()@ == Seq::<(T, Seq<D3>)>::empty(),
            final(self).left() == old(self).left(),
            final(self).right() == old(self).right(),
            final(self).rule() == old(self).rule(),
            final(self).label() == old(self).label(),
            final(self).place() == old(self).place(),
    {
        self.output.drain()
    }

    /// Whether both inputs were processed and no more will come.
    pub fn is_done(&self) -> (b: bool)
        ensures
            b == (self.left()@.done() && self.right()@.done()),
    {
        self.input1.is_done() && self.input2.is_done()
    }

    /// The operator with its name and place, for diagnostics.
    pub fn to_text(&self) -> (text: String)
        ensures
            text@ == "BinaryOperator { name: \""@ + self.label() + "\", index: "@ + decimal(
                self.place().0 as nat,
            ) + ", stage_id: "@ + decimal(self.place().1.0 as nat) + " }"@,
    {
        let mut text = "BinaryOperator { name: \"".to_owned();
        text.append(self.name.as_str());
        text.append("\", index: ");
        push_usize(&mut text, self.index);
        text.append(", stage_id: ");
        push_usize(&mut text, self.stage_id.0);
        text.append(" }");
        text
    }
}

impl<
    T,
    D1,
    D2,
    D3,
    L: FnMut(&mut InputHandle<T, D1>, &mut InputHandle<T, D2>, &mut OutputHandle<T, D3>) -> Result<
        (),
    >,
> BinaryOperator<T, D1, D2, D3, L> {
    /// Runs the logic once on both inputs and the output. An error of the logic is handed on;
    /// otherwise the result is by how many batches the output has grown.
    pub fn activate(&mut self) -> (r: Result<usize>)
        requires
            forall|a: &mut InputHandle<T, D1>, b: &mut InputHandle<T, D2>, c: &mut OutputHandle<T, D3>|
                call_requires(old(self).rule(), (a, b, c)),
        ensures
            final(self).rule() == old(self).rule(),
            final(self).label() == old(self).label(),
            final(self).place() == old(self).place(),
            exists|
                a: &mut InputHandle<T, D1>,
                b: &mut InputHandle<T, D2>,
                c: &mut OutputHandle<T, D3>,
                answer: Result<()>,
            |
                *a == old(self).left() && *final(a) == final(self).left() && *b == old(self).right()
                    && *final(b) == final(self).right() && *c == old(self).out() && *final(c)
                    == final(self).out() && #[trigger] call_ensures(
                    old(self).rule(),
                    (a, b, c),
                    answer,
                ) && r == match answer {
                    Ok(_) => Ok::<usize, Error>(
                        if final(self).out()@.len() >= old(self).out()@.len() {
                            (final(self).out()@.len() - old(self).out()@.len()) as usize
                        } else {
                            0
                        },
                    ),
                    Err(e) => Err(e),
                },
    {
        let before: usize = self.output.buffered_count();
        let ghost rule = self.rule();
        assert(self.logic == rule);
        let answer = (self.logic)(&mut self.input1, &mut self.input2, &mut self.output);
        match answer {
            Ok(_) => {
                let after: usize = self.output.buffered_count();
                if after >= before {
                    Ok(after - before)
                } else {
                    Ok(0)
                }
            },
            Err(e) => Err(e),
        }
    }
}

/// What registering an operator with two inputs does to a scope.
pub open spec fn is_joined(
    before: ScopeView,
    after: ScopeView,
    name: Seq<char>,
    left: StreamView,
    right: StreamView,
) -> bool {
    exists|info: OperatorInfo|
        info.name@ == name && info.index == before.next_index && info.region_id == left.stage_id
            && info.input_count == 2 && info.output_count == 1 && #[trigger] with_operator(
            before,
            info,
        ).next_index == after.next_index && after == with_edge(
            with_edge(
                with_operator(before, info),
                pipeline_edge(
                    left.source,
                    Slot { operator_index: info.index, slot_index: 0 },
                    left.stage_id,
                    left.stage_id,
                ),
            ),
            pipeline_edge(
                right.source,
                Slot { operator_index: info.index, slot_index: 1 },
                right.stage_id,
                left.stage_id,
            ),
        )
}

/// Joining two streams of one stage.
pub trait BinaryExt<T, D1>: Sized {
    /// What is known of the stream.
    spec fn stream(&self) -> StreamView;

    /// Registers an operator that reads this stream and another one of the same stage.
    fn binary<
        D2,
        D3,
        L: FnMut(&mut InputHandle<T, D1>, &mut InputHandle<T, D2>, &mut OutputHandle<T, D3>) -> Result<
            (),
        >,
    >(&self, scope: &mut Scope<T>, other: &StreamEdge<D2>, name: &str, logic: L) -> (out: StreamEdge<
        D3,
    >)
        requires
            old(scope)@.next_index < usize::MAX,
            old(scope)@.fresh_above(),
            self.stream().stage_id == other@.stage_id,
        ensures
            is_joined(old(scope)@, final(scope)@, name@, self.stream(), other@),
            out@ == (StreamView {
                scope_name: old(scope)@.name,
                source: Slot { operator_index: old(scope)@.next_index as usize, slot_index: 0 },
                stage_id: self.stream().stage_id,
            }),
    ;
}

impl<T, D1> BinaryExt<T, D1> for StreamEdge<D1> {
    open spec fn stream(&self) -> StreamView {
        self@
    }

    fn binary<
        D2,
        D3,
        L: FnMut(&mut InputHandle<T, D1>, &mut InputHandle<T, D2>, &mut OutputHandle<T, D3>) -> Result<
            (),
        >,
    >(&self, scope: &mut Scope<T>, other: &StreamEdge<D2>, name: &str, logic: L) -> (out: StreamEdge<
        D3,
    >) {
        let op_index: usize = scope.allocate_operator_index();
        let stage_id = self.stage_id();
        let info = OperatorInfo::new(op_index, name, stage_id, 2, 1);
        let ghost registered = info;
        let _ = scope.register_operator(info);
        scope.add_edge(
            EdgeInfo::new(self.source(), Slot::new(op_index, 0), self.stage_id(), stage_id),
        );
        scope.add_edge(
            EdgeInfo::new(other.source(), Slot::new(op_index, 1), other.stage_id(), stage_id),
        );
        assert(with_operator(old(scope)@, registered).next_index == scope@.next_index);
        StreamEdge::new(scope.name(), Slot::new(op_index, 0), stage_id)
    }
}

} // verus!
