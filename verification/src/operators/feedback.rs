//! Loops: streams that enter and leave a loop scope, and the feedback that closes the loop.

use core::marker::PhantomData;
use vstd::prelude::*;
use crate::graph::{pipeline_edge, EdgeInfo, OperatorInfo};
use crate::order::{PathSummary, Product, Timestamp};
use crate::scope::{
    with_edge, with_extra_input, with_extra_output, with_operator, ChildScope, Scope, ScopeView,
};
use crate::stage::{RegionId, StageId};
use crate::stream::{DataStream, Slot, StreamEdge, StreamView};

verus! {

/// The two directions in which a stream crosses the boundary of a scope.
#[derive(Clone, Copy, Debug, PartialEq, Eq, Structural)]
pub enum ScopeBoundary {
    /// Into the scope.
    Ingress,
    /// Out of the scope.
    Egress,
}

/// Where a stream enters a scope.
#[derive(Clone, Copy, Debug, PartialEq, Eq, Structural)]
pub struct IngressMetadata {
    pub child_operator_index: usize,
    pub region_id: RegionId,
}

/// Where a stream leaves a scope.
#[derive(Clone, Copy, Debug, PartialEq, Eq, Structural)]
pub struct EgressMetadata {
    pub child_operator_index: usize,
    pub child_region_id: RegionId,
    pub parent_operator_index: usize,
    pub parent_region_id: RegionId,
}

/// The parent after one more stream entered the subscope with the given index.
pub open spec fn entered(parent: ScopeView, stream: StreamView, child: usize, slot: usize) -> ScopeView {
    with_edge(
        ScopeView { graph: with_extra_input(parent.graph, child), ..parent },
        pipeline_edge(
            stream.source,
            Slot { operator_index: child, slot_index: slot },
            stream.stage_id,
            StageId(0),
        ),
    )
}

/// The subscope after one more stream left it.
pub open spec fn left(child: ScopeView, stream: StreamView) -> ScopeView {
    ScopeView {
        egress: child.egress + 1,
        ..with_edge(
            child,
            pipeline_edge(
                stream.source,
                Slot { operator_index: 0, slot_index: child.egress as usize },
                stream.stage_id,
                StageId(0),
            ),
        )
    }
}

/// Bringing a stream into a loop.
pub trait EnterExt<T, D>: Sized {
    /// What is known of the stream.
    spec fn stream(&self) -> StreamView;

    /// Brings the stream into a loop scope. It arrives at a port of its own of the boundary, which
    /// is operator 0 of the loop.
    fn enter<TInner: Timestamp>(
        &self,
        parent: &mut Scope<T>,
        child: &mut ChildScope<Product<T, TInner>>,
    ) -> (out: DataStream<D>)
        requires
            old(child)@.addr.len() > 0,
            old(child)@.ingress < usize::MAX,
            old(parent)@.graph.operators.contains_key(old(child)@.addr.last()) ==> old(
                parent,
            )@.graph.operators[old(child)@.addr.last()].input_count < usize::MAX,
        ensures
            final(child)@ == (ScopeView { ingress: old(child)@.ingress + 1, ..old(child)@ }),
            final(parent)@ == entered(
                old(parent)@,
                self.stream(),
                old(child)@.addr.last(),
                old(child)@.ingress as usize,
            ),
            out@ == (StreamView {
                scope_name: old(child)@.name,
                source: Slot { operator_index: 0, slot_index: old(child)@.ingress as usize },
                stage_id: StageId(0),
            }),
    ;
}

impl<T, D> EnterExt<T, D> for StreamEdge<D> {
    open spec fn stream(&self) -> StreamView {
        self@
    }

    fn enter<TInner: Timestamp>(
        &self,
        parent: &mut Scope<T>,
        child: &mut ChildScope<Product<T, TInner>>,
    ) -> (out: DataStream<D>) {
        let slot_index: usize = child.allocate_ingress_slot();
        let region_id = child.current_region();
        let depth: usize = child.depth();
        let child_index: usize = child.addr()[depth - 1];
        let _ = parent.increment_operator_input_count(child_index);
        let parent_region = parent.current_region();
        parent.add_edge(
            EdgeInfo::new(
                self.source(),
                Slot::new(child_index, slot_index),
                self.region_id(),
                parent_region,
            ),
        );
        StreamEdge::new(child.name(), Slot::new(0, slot_index), region_id)
    }
}

/// Bringing a stream out of a loop.
pub trait LeaveExt<TOuter, TInner, D>: Sized {
    /// What is known of the stream.
    spec fn stream(&self) -> StreamView;

    /// Brings the stream out of a loop scope. In the parent it leaves from a port of its own of
    /// the operator that stands for the loop.
    fn leave(
        &self,
        child: &mut ChildScope<Product<TOuter, TInner>>,
        parent: &mut Scope<TOuter>,
    ) -> (out: DataStream<D>)
        requires
            old(child)@.addr.len() > 0,
            old(child)@.egress < usize::MAX,
            old(parent)@.graph.operators.contains_key(old(child)@.addr.last()) ==> old(
                parent,
            )@.graph.operators[old(child)@.addr.last()].output_count < usize::MAX,
        ensures
            final(child)@ == left(old(child)@, self.stream()),
            final(parent)@ == (ScopeView {
                graph: with_extra_output(old(parent)@.graph, old(child)@.addr.last()),
                ..old(parent)@
            }),
            out@ == (StreamView {
                scope_name: old(parent)@.name,
                source: Slot {
                    operator_index: old(child)@.addr.last(),
                    slot_index: old(child)@.egress as usize,
                },
                stage_id: StageId(0),
            }),
    ;
}

impl<TOuter, TInner, D> LeaveExt<TOuter, TInner, D> for StreamEdge<D> {
    open spec fn stream(&self) -> StreamView {
        self@
    }

    fn leave(
        &self,
        child: &mut ChildScope<Product<TOuter, TInner>>,
        parent: &mut Scope<TOuter>,
    ) -> (out: DataStream<D>) {
        let slot_index: usize = child.allocate_egress_slot();
        let depth: usize = child.depth();
        let parent_op_index: usize = child.addr()[depth - 1];
        let region_id = parent.current_region();
        let _ = parent.increment_operator_output_count(parent_op_index);
        let child_region = child.current_region();
        child.add_edge(
            EdgeInfo::new(self.source(), Slot::new(0, slot_index), self.region_id(), child_region),
        );
        StreamEdge::new(parent.name(), Slot::new(parent_op_index, slot_index), region_id)
    }
}

/// The open end of a loop: the input of a feedback operator that is still to be connected.
pub struct FeedbackHandle<T: Timestamp, D> {
    operator_index: usize,
    region_id: RegionId,
    summary: T::Summary,
    connected: bool,
    records: PhantomData<D>,
}

/// What is known of the open end of a loop.
pub struct FeedbackView<S> {
    pub operator_index: usize,
    pub region_id: RegionId,
    pub summary: S,
    pub connected: bool,
}

impl<T: Timestamp, D> View for FeedbackHandle<T, D> {
    type V = FeedbackView<T::Summary>;

    closed spec fn view(&self) -> FeedbackView<T::Summary> {
        FeedbackView {
            operator_index: self.operator_index,
            region_id: self.region_id,
            summary: self.summary,
            connected: self.connected,
        }
    }
}

impl<T: Timestamp, D> FeedbackHandle<T, D> {
    /// The index of the feedback operator.
    pub fn operator_index(&self) -> (index: usize)
        ensures
            index == self@.operator_index,
    {
        self.operator_index
    }

    /// The region of the feedback operator.
    pub fn region_id(&self) -> (region_id: RegionId)
        ensures
            region_id == self@.region_id,
    {
        self.region_id
    }

    /// How times advance each time around the loop.
    pub fn summary(&self) -> (summary: &T::Summary)
        ensures
            *summary == self@.summary,
    {
        &self.summary
    }

    /// Whether the loop was closed.
    pub fn is_connected(&self) -> (b: bool)
        ensures
            b == self@.connected,
    {
        self.connected
    }
}

/// Opening a feedback path within a loop.
pub trait FeedbackExt<TOuter: Timestamp, TInner: Timestamp>: Sized {
    /// What the scope holds.
    spec fn scope(&self) -> ScopeView;

    /// Registers a feedback operator. The returned stream carries what the operator feeds back;
    /// the handle is its input, to be connected later. Around the loop the time outside stays as
    /// it is and the time inside advances by `inner_summary`.
    fn feedback<D>(&mut self, inner_summary: TInner::Summary) -> (out: (
        FeedbackHandle<Product<TOuter, TInner>, D>,
        DataStream<D>,
    ))
        requires
            old(self).scope().next_index < usize::MAX,
            old(self).scope().fresh_above(),
        ensures
            exists|info: OperatorInfo|
                info.name@ == "feedback"@ && info.index == old(self).scope().next_index
                    && info.region_id == StageId(0) && info.input_count == 1 && info.output_count
                    == 1 && #[trigger] with_operator(old(self).scope(), info)
                    == final(self).scope(),
            out.0@ == (FeedbackView {
                operator_index: old(self).scope().next_index as usize,
                region_id: StageId(0),
                summary: Product {
                    outer: <TOuter::Summary as PathSummary<TOuter>>::identity(),
                    inner: inner_summary,
                },
                connected: false,
            }),
            out.1@ == (StreamView {
                scope_name: old(self).scope().name,
                source: Slot {
                    operator_index: old(self).scope().next_index as usize,
                    slot_index: 0,
                },
                stage_id: StageId(0),
            }),
    ;
}

impl<TOuter: Timestamp, TInner: Timestamp> FeedbackExt<TOuter, TInner> for ChildScope<
    Product<TOuter, TInner>,
> {
    open spec fn scope(&self) -> ScopeView {
        self@
    }

    fn feedback<D>(&mut self, inner_summary: TInner::Summary) -> (out: (
        FeedbackHandle<Product<TOuter, TInner>, D>,
        DataStream<D>,
    )) {
        let operator_index: usize = self.allocate_operator_index();
        let region_id = self.current_region();
        let info = OperatorInfo::new(operator_index, "feedback", region_id, 1, 1);
        let ghost registered = info;
        let _ = self.register_operator(info);
        assert(with_operator(old(self).scope(), registered) == self.scope());
        let handle = FeedbackHandle {
            operator_index,
            region_id,
            summary: Product::new(
                <TOuter::Summary as PathSummary<TOuter>>::unchanged(),
                inner_summary,
            ),
            connected: false,
            records: PhantomData,
        };
        let stream = StreamEdge::new(self.name(), Slot::new(operator_index, 0), region_id);
        (handle, stream)
    }
}

/// Closing a loop.
pub trait ConnectLoop<T: Timestamp, D>: Sized {
    /// What is known of the stream.
    spec fn stream(&self) -> StreamView;

    /// Feeds the stream into the feedback operator of the handle. The returned handle is the
    /// connected one.
    fn connect_loop(self, scope: &mut Scope<T>, handle: FeedbackHandle<T, D>) -> (done:
        FeedbackHandle<T, D>)
        ensures
            done@ == (FeedbackView { connected: true, ..handle@ }),
            final(scope)@ == with_edge(
                old(scope)@,
                pipeline_edge(
                    self.stream().source,
                    Slot { operator_index: handle@.operator_index, slot_index: 0 },
                    self.stream().stage_id,
                    handle@.region_id,
                ),
            ),
    ;
}

impl<T: Timestamp, D> ConnectLoop<T, D> for StreamEdge<D> {
    open spec fn stream(&self) -> StreamView {
        self@
    }

    fn connect_loop(self, scope: &mut Scope<T>, handle: FeedbackHandle<T, D>) -> (done:
        FeedbackHandle<T, D>) {
        let mut handle = handle;
        handle.connected = true;
        scope.add_edge(
            EdgeInfo::new(
                self.source(),
                Slot::new(handle.operator_index, 0),
                self.region_id(),
                handle.region_id,
            ),
        );
        handle
    }
}

/// Once around the loop, a time keeps its outer part and advances its inner part.
pub proof fn feedback_advances_inner_only<TOuter: Timestamp, TInner: Timestamp>(
    inner_summary: TInner::Summary,
    time: Product<TOuter, TInner>,
)
    ensures
        ({
            let summary = Product {
                outer: <TOuter::Summary as PathSummary<TOuter>>::identity(),
                inner: inner_summary,
            };
            summary.result(&time) == match inner_summary.result(&time.inner) {
                Some(inner) => Some(Product { outer: time.outer, inner }),
                None => None,
            }
        }),
{
    <TOuter::Summary as PathSummary<TOuter>>::identity_keeps(&time.outer);
}

} // verus!
