//! Redistribution of a stream by key or hash.

use core::marker::PhantomData;
use vstd::prelude::*;
use crate::graph::{exchange_edge, EdgeInfo, GraphView, OperatorInfo};
use crate::partition::{PartitionKey, PartitionStrategy};
use crate::scope::{stage_width, Scope, ScopeView};
use crate::stage::{RegionId, StageId};
use crate::stream::{Slot, StreamEdge, StreamView};
use crate::text::{decimal, push_usize};

verus! {

/// Metadata of an operator that redistributes records.
#[verifier::reject_recursive_types(D)]
pub struct ExchangeOperator<T, D> {
    name: String,
    index: usize,
    source_region: RegionId,
    target_region: RegionId,
    strategy: PartitionStrategy<D>,
    time: PhantomData<T>,
}

impl<T, D> ExchangeOperator<T, D> {
    /// The name of the operator.
    pub closed spec fn label(&self) -> Seq<char> {
        self.name@
    }

    /// The index of the operator and the regions that it joins.
    pub closed spec fn place(&self) -> (usize, RegionId, RegionId) {
        (self.index, self.source_region, self.target_region)
    }

    /// The strategy of the operator.
    pub closed spec fn rule(&self) -> PartitionStrategy<D> {
        self.strategy
    }

    /// Describes an operator between two regions.
    pub fn new(
        name: &str,
        index: usize,
        source_region: RegionId,
        target_region: RegionId,
        strategy: PartitionStrategy<D>,
    ) -> (op: Self)
        ensures
            op.label() == name@,
            op.place() == (index, source_region, target_region),
            op.rule() == strategy,
    {
        ExchangeOperator {
            name: name.to_owned(),
            index,
            source_region,
            target_region,
            strategy,
            time: PhantomData,
        }
    }

    /// The name of the operator.
    pub fn name(&self) -> (name: &str)
        ensures
            name@ == self.label(),
    {
        self.name.as_str()
    }

    /// The index of the operator.
    pub fn index(&self) -> (index: usize)
        ensures
            index == self.place().0,
    {
        self.index
    }

    /// The region that the records come from.
    pub fn source_region(&self) -> (region: RegionId)
        ensures
            region == self.place().1,
    {
        self.source_region
    }

    /// The region that the records go to.
    pub fn target_region(&self) -> (region: RegionId)
        ensures
            region == self.place().2,
    {
        self.target_region
    }

    /// How the records are distributed.
    pub fn strategy(&self) -> (strategy: &PartitionStrategy<D>)
        ensures
            *strategy == self.rule(),
    {
        &self.strategy
    }

    /// The operator with its name and place, for diagnostics.
    pub fn to_text(&self) -> (text: String)
        ensures
            text@ == "ExchangeOperator { name: \""@ + self.label() + "\", index: "@ + decimal(
                self.place().0 as nat,
            ) + ", source_region: "@ + decimal(self.place().1.0 as nat) + ", target_region: "@
                + decimal(self.place().2.0 as nat) + " }"@,
    {
        let mut text = "ExchangeOperator { name: \"".to_owned();
        text.append(self.name.as_str());
        text.append("\", index: ");
        push_usize(&mut text, self.index);
        text.append(", source_region: ");
        push_usize(&mut text, self.source_region.0);
        text.append(", target_region: ");
        push_usize(&mut text, self.target_region.0);
        text.append(" }");
        text
    }
}

/// The width of the stage that a stream runs in, where the scope knows it.
pub open spec fn stream_width(scope: ScopeView, stream: StreamView) -> usize {
    match stage_width(scope, stream.stage_id) {
        Some(p) => p,
        None => 1,
    }
}

/// A scope after a stream was redistributed: a new stage, unless the width stays the same and a
/// new one is not forced; an operator of that stage; and an exchange edge into it.
pub open spec fn redistributed(
    before: ScopeView,
    stream: StreamView,
    target_parallelism: usize,
    forced: bool,
    info: OperatorInfo,
) -> ScopeView {
    ScopeView {
        next_index: before.next_index + 1,
        parallelism: if forced || target_parallelism != stream_width(before, stream) {
            before.parallelism.push(target_parallelism)
        } else {
            before.parallelism
        },
        graph: GraphView {
            operators: before.graph.operators.insert(info.index, info),
            edges: before.graph.edges.push(
                exchange_edge(
                    stream.source,
                    Slot { operator_index: info.index, slot_index: 0 },
                    stream.stage_id,
                    info.region_id,
                    Some(target_parallelism),
                ),
            ),
            ..before.graph
        },
        ..before
    }
}

/// The stage that a redistributed stream runs in.
pub open spec fn redistributed_stage(
    before: ScopeView,
    stream: StreamView,
    target_parallelism: usize,
    forced: bool,
) -> StageId {
    if forced || target_parallelism != stream_width(before, stream) {
        StageId(before.parallelism.len() as usize)
    } else {
        stream.stage_id
    }
}

/// What redistributing a stream does to a scope.
pub open spec fn is_redistributed(
    before: ScopeView,
    after: ScopeView,
    name: Seq<char>,
    stream: StreamView,
    target_parallelism: usize,
    forced: bool,
    out: StreamView,
) -> bool {
    &&& forced || target_parallelism != stream_width(before, stream) ==> out.stage_id.0
        == before.parallelism.len()
    &&& out == (StreamView {
        scope_name: before.name,
        source: Slot { operator_index: before.next_index as usize, slot_index: 0 },
        stage_id: redistributed_stage(before, stream, target_parallelism, forced),
    })
    &&& exists|info: OperatorInfo|
        info.name@ == name && info.index == before.next_index && info.region_id
            == redistributed_stage(before, stream, target_parallelism, forced) && info.input_count
            == 1 && info.output_count == 1 && #[trigger] redistributed(
            before,
            stream,
            target_parallelism,
            forced,
            info,
        ) == after
}

/// Registers an operator that redistributes a stream.
pub(crate) fn redistribute<T, D>(
    stream: &StreamEdge<D>,
    scope: &mut Scope<T>,
    name: &str,
    target_parallelism: usize,
    forced: bool,
) -> (out: StreamEdge<D>)
    requires
        old(scope)@.next_index < usize::MAX,
        old(scope)@.fresh_above(),
        target_parallelism > 0,
    ensures
        is_redistributed(
            old(scope)@,
            final(scope)@,
            name@,
            stream@,
            target_parallelism,
            forced,
            out@,
        ),
{
    let op_index: usize = scope.allocate_operator_index();
    let source_stage = stream.stage_id();
    let current: usize = match scope.stage_parallelism(source_stage) {
        Some(p) => p,
        None => 1,
    };
    let target_stage = if forced || target_parallelism != current {
        scope.new_stage(target_parallelism)
    } else {
        source_stage
    };
    let info = OperatorInfo::new(op_index, name, target_stage, 1, 1);
    let ghost registered = info;
    let _ = scope.register_operator(info);
    scope.add_edge(
        EdgeInfo::exchange(
            stream.source(),
            Slot::new(op_index, 0),
            source_stage,
            target_stage,
            Some(target_parallelism),
        ),
    );
    assert(redistributed(old(scope)@, stream@, target_parallelism, forced, registered) == scope@);
    StreamEdge::new(scope.name(), Slot::new(op_index, 0), target_stage)
}

/// The width of the stage that a stream runs in, where the scope knows it.
pub(crate) fn width_of<T, D>(stream: &StreamEdge<D>, scope: &Scope<T>) -> (p: usize)
    ensures
        p == stream_width(scope@, stream@),
{
    match scope.stage_parallelism(stream.stage_id()) {
        Some(p) => p,
        None => 1,
    }
}

/// Redistributing a stream by key or hash.
pub trait ExchangeExt<T, D>: Sized {
    /// What is known of the stream.
    spec fn stream(&self) -> StreamView;

    /// Redistributes the stream by key within its region.
    fn exchange<K: PartitionKey, F: Fn(&D) -> K>(&self, scope: &mut Scope<T>, key_fn: F) -> (out:
        StreamEdge<D>)
        requires
            old(scope)@.next_index < usize::MAX,
            old(scope)@.fresh_above(),
            stream_width(old(scope)@, self.stream()) > 0,
        ensures
            is_redistributed(
                old(scope)@,
                final(scope)@,
                "exchange"@,
                self.stream(),
                stream_width(old(scope)@, self.stream()),
                false,
                out@,
            ),
    ;

    /// Redistributes the stream by key over `target_parallelism` workers.
    fn exchange_to<K: PartitionKey, F: Fn(&D) -> K>(
        &self,
        scope: &mut Scope<T>,
        target_parallelism: usize,
        key_fn: F,
    ) -> (out: StreamEdge<D>)
        requires
            old(scope)@.next_index < usize::MAX,
            old(scope)@.fresh_above(),
            target_parallelism > 0,
        ensures
            is_redistributed(
                old(scope)@,
                final(scope)@,
                "exchange"@,
                self.stream(),
                target_parallelism,
                false,
                out@,
            ),
    ;

    /// Redistributes the stream by hash within its region.
    fn exchange_by_hash<F: Fn(&D) -> u64>(&self, scope: &mut Scope<T>, hash_fn: F) -> (out:
        StreamEdge<D>)
        requires
            old(scope)@.next_index < usize::MAX,
            old(scope)@.fresh_above(),
            stream_width(old(scope)@, self.stream()) > 0,
        ensures
            is_redistributed(
                old(scope)@,
                final(scope)@,
                "exchange"@,
                self.stream(),
                stream_width(old(scope)@, self.stream()),
                false,
                out@,
            ),
    ;

    /// Redistributes the stream by hash over `target_parallelism` workers.
    fn exchange_by_hash_to<F: Fn(&D) -> u64>(
        &self,
        scope: &mut Scope<T>,
        target_parallelism: usize,
        hash_fn: F,
    ) -> (out: StreamEdge<D>)
        requires
            old(scope)@.next_index < usize::MAX,
            old(scope)@.fresh_above(),
            target_parallelism > 0,
        ensures
            is_redistributed(
                old(scope)@,
                final(scope)@,
                "exchange"@,
                self.stream(),
                target_parallelism,
                false,
                out@,
            ),
    ;
}

impl<T, D> ExchangeExt<T, D> for StreamEdge<D> {
    open spec fn stream(&self) -> StreamView {
        self@
    }

    fn exchange<K: PartitionKey, F: Fn(&D) -> K>(&self, scope: &mut Scope<T>, key_fn: F) -> (out:
        StreamEdge<D>) {
        let parallelism: usize = width_of(self, scope);
        redistribute(self, scope, "exchange", parallelism, false)
    }

    fn exchange_to<K: PartitionKey, F: Fn(&D) -> K>(
        &self,
        scope: &mut Scope<T>,
        target_parallelism: usize,
        key_fn: F,
    ) -> (out: StreamEdge<D>) {
        redistribute(self, scope, "exchange", target_parallelism, false)
    }

    fn exchange_by_hash<F: Fn(&D) -> u64>(&self, scope: &mut Scope<T>, hash_fn: F) -> (out:
        StreamEdge<D>) {
        let parallelism: usize = width_of(self, scope);
        redistribute(self, scope, "exchange", parallelism, false)
    }

    fn exchange_by_hash_to<F: Fn(&D) -> u64>(
        &self,
        scope: &mut Scope<T>,
        target_parallelism: usize,
        hash_fn: F,
    ) -> (out: StreamEdge<D>) {
        redistribute(self, scope, "exchange", target_parallelism, false)
    }
}

} // verus!
