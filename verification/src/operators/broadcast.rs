//! Sending every record of a stream to all workers.

use core::marker::PhantomData;
use vstd::prelude::*;
use crate::operators::exchange::{is_redistributed, redistribute, stream_width, width_of};
use crate::partition::PartitionStrategy;
use crate::scope::Scope;
use crate::stage::StageId;
use crate::stream::{StreamEdge, StreamView};
use crate::text::{decimal, push_usize};

verus! {

/// Metadata of an operator that sends records to all workers.
#[verifier::reject_recursive_types(D)]
pub struct BroadcastOperator<T, D> {
    name: String,
    index: usize,
    source_stage: StageId,
    target_stage: StageId,
    strategy: PartitionStrategy<D>,
    time: PhantomData<T>,
}

impl<T, D> BroadcastOperator<T, D> {
    /// The name of the operator.
    pub closed spec fn label(&self) -> Seq<char> {
        self.name@
    }

    /// The index of the operator and the stages that it joins.
    pub closed spec fn place(&self) -> (usize, StageId, StageId) {
        (self.index, self.source_stage, self.target_stage)
    }

    /// The strategy of the operator.
    pub closed spec fn rule(&self) -> PartitionStrategy<D> {
        self.strategy
    }

    /// Describes an operator between two stages.
    pub fn new(
        name: &str,
        index: usize,
        source_stage: StageId,
        target_stage: StageId,
        strategy: PartitionStrategy<D>,
    ) -> (op: Self)
        ensures
            op.label() == name@,
            op.place() == (index, source_stage, target_stage),
            op.rule() == strategy,
    {
        BroadcastOperator {
            name: name.to_owned(),
            index,
            source_stage,
            target_stage,
            strategy,
            time: PhantomData,
        }
    }

    /// The name of the operator.
    pub fn name(&self) -> (name: &str)
        ensures
            name@ == self.label(),
    {
        self.name.as_str()
    }

    /// The index of the operator.
    pub fn index(&self) -> (index: usize)
        ensures
            index == self.place().0,
    {
        self.index
    }

    /// The stage that the records come from.
    pub fn source_stage(&self) -> (stage: StageId)
        ensures
            stage == self.place().1,
    {
        self.source_stage
    }

    /// The stage that the records go to.
    pub fn target_stage(&self) -> (stage: StageId)
        ensures
            stage == self.place().2,
    {
        self.target_stage
    }

    /// How the records are distributed.
    pub fn strategy(&self) -> (strategy: &PartitionStrategy<D>)
        ensures
            *strategy == self.rule(),
    {
        &self.strategy
    }

    /// The operator with its name, its place and its strategy, for diagnostics.
    pub fn to_text(&self) -> (text: String)
        ensures
            text@ == "BroadcastOperator { name: \""@ + self.label() + "\", index: "@ + decimal(
                self.place().0 as nat,
            ) + ", source_stage: "@ + decimal(self.place().1.0 as nat) + ", target_stage: "@
                + decimal(self.place().2.0 as nat) + ", strategy: \""@
                + crate::partition::strategy_name(self.rule()) + "\" }"@,
    {
        let mut text = "BroadcastOperator { name: \"".to_owned();
        text.append(self.name.as_str());
        text.append("\", index: ");
        push_usize(&mut text, self.index);
        text.append(", source_stage: ");
        push_usize(&mut text, self.source_stage.0);
        text.append(", target_stage: ");
        push_usize(&mut text, self.target_stage.0);
        text.append(", strategy: \"");
        text.append(self.strategy.name());
        text.append("\" }");
        text
    }
}

/// Sending a stream to all workers.
pub trait BroadcastExt<T, D>: Sized {
    /// What is known of the stream.
    spec fn stream(&self) -> StreamView;

    /// Sends every record to all workers of the stage.
    fn broadcast(&self, scope: &mut Scope<T>) -> (out: StreamEdge<D>)
        requires
            old(scope)@.next_index < usize::MAX,
            old(scope)@.fresh_above(),
            stream_width(old(scope)@, self.stream()) > 0,
        ensures
            is_redistributed(
                old(scope)@,
                final(scope)@,
                "Broadcast"@,
                self.stream(),
                stream_width(old(scope)@, self.stream()),
                false,
                out@,
            ),
    ;

    /// Sends every record to all of `target_parallelism` workers.
    fn broadcast_to(&self, scope: &mut Scope<T>, target_parallelism: usize) -> (out: StreamEdge<D>)
        requires
            old(scope)@.next_index < usize::MAX,
            old(scope)@.fresh_above(),
            target_parallelism > 0,
        ensures
            is_redistributed(
                old(scope)@,
                final(scope)@,
                "Broadcast"@,
                self.stream(),
                target_parallelism,
                false,
                out@,
            ),
    ;

    /// Sends every record to all workers of the stage on the same node.
    fn broadcast_local(&self, scope: &mut Scope<T>) -> (out: StreamEdge<D>)
        requires
            old(scope)@.next_index < usize::MAX,
            old(scope)@.fresh_above(),
            stream_width(old(scope)@, self.stream()) > 0,
        ensures
            is_redistributed(
                old(scope)@,
                final(scope)@,
                "BroadcastLocal"@,
                self.stream(),
                stream_width(old(scope)@, self.stream()),
                false,
                out@,
            ),
    ;

    /// Sends every record to all of `target_parallelism` workers on the same node.
    fn broadcast_local_to(&self, scope: &mut Scope<T>, target_parallelism: usize) -> (out:
        StreamEdge<D>)
        requires
            old(scope)@.next_index < usize::MAX,
            old(scope)@.fresh_above(),
            target_parallelism > 0,
        ensures
            is_redistributed(
                old(scope)@,
                final(scope)@,
                "BroadcastLocal"@,
                self.stream(),
                target_parallelism,
                false,
                out@,
            ),
    ;
}

impl<T, D> BroadcastExt<T, D> for StreamEdge<D> {
    open spec fn stream(&self) -> StreamView {
        self@
    }

    fn broadcast(&self, scope: &mut Scope<T>) -> (out: StreamEdge<D>) {
        let parallelism: usize = width_of(self, scope);
        redistribute(self, scope, "Broadcast", parallelism, false)
    }

    fn broadcast_to(&self, scope: &mut Scope<T>, target_parallelism: usize) -> (out: StreamEdge<
        D,
    >) {
        redistribute(self, scope, "Broadcast", target_parallelism, false)
    }

    fn broadcast_local(&self, scope: &mut Scope<T>) -> (out: StreamEdge<D>) {
        let parallelism: usize = width_of(self, scope);
        redistribute(self, scope, "BroadcastLocal", parallelism, false)
    }

    fn broadcast_local_to(&self, scope: &mut Scope<T>, target_parallelism: usize) -> (out:
        StreamEdge<D>) {
        redistribute(self, scope, "BroadcastLocal", target_parallelism, false)
    }
}

} // verus!
