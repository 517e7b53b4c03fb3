//! Collecting a stream on one worker.

use core::marker::PhantomData;
use vstd::prelude::*;
use crate::operators::exchange::{is_redistributed, redistribute};
use crate::partition::PartitionStrategy;
use crate::scope::Scope;
use crate::stage::StageId;
use crate::stream::{StreamEdge, StreamView};
use crate::text::{decimal, push_usize};

verus! {

/// Metadata of an operator that collects records on one worker.
#[verifier::reject_recursive_types(D)]
pub struct GatherOperator<T, D> {
    name: String,
    index: usize,
    source_stage: StageId,
    target_stage: StageId,
    strategy: PartitionStrategy<D>,
    time: PhantomData<T>,
}

impl<T, D> GatherOperator<T, D> {
    /// The name of the operator.
    pub closed spec fn label(&self) -> Seq<char> {
        self.name@
    }

    /// The index of the operator and the stages that it joins.
    pub closed spec fn place(&self) -> (usize, StageId, StageId) {
        (self.index, self.source_stage, self.target_stage)
    }

    /// The strategy of the operator.
    pub closed spec fn rule(&self) -> PartitionStrategy<D> {
        self.strategy
    }

    /// Describes an operator between two stages.
    pub fn new(name: &str, index: usize, source_stage: StageId, target_stage: StageId) -> (op: Self)
        ensures
            op.label() == name@,
            op.place() == (index, source_stage, target_stage),
            op.rule() is Gather,
    {
        GatherOperator {
            name: name.to_owned(),
            index,
            source_stage,
            target_stage,
            strategy: PartitionStrategy::Gather,
            time: PhantomData,
        }
    }

    /// The name of the operator.
    pub fn name(&self) -> (name: &str)
        ensures
            name@ == self.label(),
    {
        self.name.as_str()
    }

    /// The index of the operator.
    pub fn index(&self) -> (index: usize)
        ensures
            index == self.place().0,
    {
        self.index
    }

    /// The stage that the records come from.
    pub fn source_stage(&self) -> (stage: StageId)
        ensures
            stage == self.place().1,
    {
        self.source_stage
    }

    /// The stage that the records go to.
    pub fn target_stage(&self) -> (stage: StageId)
        ensures
            stage == self.place().2,
    {
        self.target_stage
    }

    /// How the records are distributed.
    pub fn strategy(&self) -> (strategy: &PartitionStrategy<D>)
        ensures
            *strategy == self.rule(),
    {
        &self.strategy
    }

    /// The operator with its name and place, for diagnostics.
    pub fn to_text(&self) -> (text: String)
        ensures
            text@ == "GatherOperator { name: \""@ + self.label() + "\", index: "@ + decimal(
                self.place().0 as nat,
            ) + ", source_stage: "@ + decimal(self.place().1.0 as nat) + ", target_stage: "@
                + decimal(self.place().2.0 as nat) + " }"@,
    {
        let mut text = "GatherOperator { name: \"".to_owned();
        text.append(self.name.as_str());
        text.append("\", index: ");
        push_usize(&mut text, self.index);
        text.append(", source_stage: ");
        push_usize(&mut text, self.source_stage.0);
        text.append(", target_stage: ");
        push_usize(&mut text, self.target_stage.0);
        text.append(" }");
        text
    }
}

/// Collecting a stream on one worker.
pub trait GatherExt<T, D>: Sized {
    /// What is known of the stream.
    spec fn stream(&self) -> StreamView;

    /// Collects the stream in a new stage of width one.
    fn gather(&self, scope: &mut Scope<T>) -> (out: StreamEdge<D>)
        requires
            old(scope)@.next_index < usize::MAX,
            old(scope)@.fresh_above(),
        ensures
            is_redistributed(
                old(scope)@,
                final(scope)@,
                "gather"@,
                self.stream(),
                1,
                true,
                out@,
            ),
    ;
}

impl<T, D> GatherExt<T, D> for StreamEdge<D> {
    open spec fn stream(&self) -> StreamView {
        self@
    }

    fn gather(&self, scope: &mut Scope<T>) -> (out: StreamEdge<D>) {
        redistribute(self, scope, "gather", 1, true)
    }
}

} // verus!
