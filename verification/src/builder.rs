//! Putting dataflows together.

use vstd::prelude::*;
use crate::error::{Error, Result};
use crate::graph::{
    exchange_edge, exchange_edges, exchange_edges_are_all, lemma_exchange_edges_concat,
    pipeline_edge, ChannelKind, DataflowGraph, EdgeInfo, GraphView, OperatorInfo,
};
use crate::order::{Product, Timestamp};
use crate::partition::{strategy_name, PartitionStrategy};
use crate::progress::{Link, ProbeHandle, SubgraphBuilder, SubgraphView};
use crate::role::{Duty, Line};
use crate::schedulable::{
    BoxedChannelFactory, BoxedOperator, BoxedOperatorFactory, ChannelEndpoints, ChannelFactory,
    OperatorFactory, SingleUse, WorkerContext,
};
use crate::shared::{Anything, Mark, Shared, Tag};
use crate::stage::StageId;
use crate::strand::Strand;
use crate::stream::Slot;
use crate::text::same_text;
use crate::wake::WakeHandle;
use crate::wired::operator::{runs, LoopOperator, WiredCore, WiredOperator};

verus! {

/// How a builder makes channels.
#[derive(Clone, Copy, Debug)]
pub struct DataflowBuilderConfig {
    /// How many batches a channel can hold before the operators in front of it have to wait.
    pub channel_capacity: usize,
    /// For how many batches a channel has memory from the start.
    pub channel_preallocate: Option<usize>,
}

impl Default for DataflowBuilderConfig {
    fn default() -> (c: Self)
        ensures
            c.channel_capacity == 1024,
            c.channel_preallocate is None,
    {
        DataflowBuilderConfig { channel_capacity: 1024, channel_preallocate: None }
    }
}

/// Opens the channel of an edge: lets a reader limit what may wait for it.
pub struct BoundedFactory<T, D> {
    strand: Strand<T, D>,
    port: Slot,
    capacity: usize,
    preallocate: Option<usize>,
}

impl<T, D> BoundedFactory<T, D> {
    #[verifier::type_invariant]
    closed spec fn inv(&self) -> bool {
        self.strand.calls() is None
    }
}

impl<T, D> ChannelFactory for BoundedFactory<T, D> {
    closed spec fn ready(&self) -> bool {
        true
    }

    closed spec fn line(&self) -> Line {
        Line { capacity: self.capacity, mark: self.strand.mark() }
    }

    open spec fn refuses(&self, e: Error) -> bool {
        false
    }

    closed spec fn opened(&self, wake: WakeHandle) -> bool {
        self.strand.opened(self.port, self.capacity, wake)
    }

    fn build(&mut self, context: &WorkerContext, wake: &WakeHandle) -> (r: Result<()>) {
        proof {
            use_type_invariant(&*self);
        }
        self.strand.open(self.port, self.capacity, wake.share(), self.preallocate);
        Ok(())
    }
}

/// The factory of the channel through which the input at a port reads a strand.
pub fn channel_factory<T: 'static, D: 'static>(
    strand: Strand<T, D>,
    port: Slot,
    capacity: usize,
    preallocate: Option<usize>,
) -> (f: BoxedChannelFactory)
    requires
        strand.calls() is None,
    ensures
        f.ready(),
        f.line() == (Line { capacity, mark: strand.mark() }),
        forall|w: WakeHandle| #[trigger]
            f.opened(w) == strand.opened(port, capacity, w),
{
    BoxedChannelFactory::new(BoundedFactory { strand, port, capacity, preallocate })
}

/// How the records on an exchange edge are distributed.
pub trait ExchangePlan {
    /// The kind of distribution.
    spec fn kind(&self) -> Seq<char>;

    /// The kind of distribution.
    fn kind_name(&self) -> (name: String)
        ensures
            name@ == self.kind(),
    ;
}

impl<D> ExchangePlan for PartitionStrategy<D> {
    open spec fn kind(&self) -> Seq<char> {
        strategy_name(*self)
    }

    fn kind_name(&self) -> (name: String) {
        self.name().to_owned()
    }
}

/// A way to distribute records of any type.
pub struct BoxedPlan {
    plan: Box<dyn ExchangePlan>,
}

impl BoxedPlan {
    /// The kind of distribution.
    pub closed spec fn kind(&self) -> Seq<char> {
        self.plan.kind()
    }

    /// The given way to distribute records, boxed.
    pub closed spec fn of<D: 'static>(strategy: PartitionStrategy<D>) -> Self {
        BoxedPlan { plan: Box::new(strategy) }
    }

    /// Boxes a way to distribute records.
    pub fn new<D: 'static>(strategy: PartitionStrategy<D>) -> (p: Self)
        ensures
            p.kind() == strategy_name(strategy),
            p == Self::of(strategy),
    {
        BoxedPlan { plan: Box::new(strategy) }
    }

    /// The kind of distribution.
    pub fn kind_name(&self) -> (name: String)
        ensures
            name@ == self.kind(),
    {
        self.plan.kind_name()
    }
}

/// An exchange edge.
pub struct ExchangeInfo {
    pub edge_index: usize,
    /// How many batches the channel holds.
    pub capacity: usize,
    pub plan: BoxedPlan,
    pub name: String,
}

/// The edges of exchanges, the capacities of their channels, the ways of distribution, and their
/// names.
pub open spec fn exchange_views(exchanges: Seq<ExchangeInfo>) -> Seq<
    (usize, usize, BoxedPlan, Seq<char>),
> {
    exchanges.map_values(|e: ExchangeInfo| (e.edge_index, e.capacity, e.plan, e.name@))
}

/// Exchanges whose edges are counted from `n` on.
pub open spec fn shifted_exchanges(
    exchanges: Seq<(usize, usize, BoxedPlan, Seq<char>)>,
    n: int,
) -> Seq<(usize, usize, BoxedPlan, Seq<char>)> {
    exchanges.map_values(
        |x: (usize, usize, BoxedPlan, Seq<char>)| ((x.0 + n) as usize, x.1, x.2, x.3),
    )
}

/// The exchanges are those on the exchange edges, in the order of the edges.
pub open spec fn lists_exchanges(
    exchanges: Seq<(usize, usize, BoxedPlan, Seq<char>)>,
    edges: Seq<EdgeInfo>,
) -> bool {
    exchanges.map_values(|x: (usize, usize, BoxedPlan, Seq<char>)| x.0) == exchange_edges(edges)
}

/// Counts the edges of exchanges from `n` on.
fn moved_exchanges(exchanges: Vec<ExchangeInfo>, n: usize) -> (out: Vec<ExchangeInfo>)
    requires
        forall|k: int|
            0 <= k < exchanges@.len() ==> (#[trigger] exchanges@[k]).edge_index + n <= usize::MAX,
    ensures
        exchange_views(out@) == shifted_exchanges(exchange_views(exchanges@), n as int),
{
    let ghost given = exchanges@;
    let mut out: Vec<ExchangeInfo> = Vec::new();
    for entry in it: exchanges
        invariant
            it.seq() == given,
            forall|k: int|
                0 <= k < given.len() ==> (#[trigger] given[k]).edge_index + n <= usize::MAX,
            out@.len() == it.index(),
            forall|k: int|
                0 <= k < out@.len() ==> (#[trigger] out@[k]) == (ExchangeInfo {
                    edge_index: (given[k].edge_index + n) as usize,
                    ..given[k]
                }),
    {
        assert(given[it.index() as int] == entry);
        out.push(ExchangeInfo { edge_index: entry.edge_index + n, ..entry });
    }
    assert(exchange_views(out@) =~= shifted_exchanges(exchange_views(given), n as int));
    out
}

/// A port of a dataflow.
#[derive(Debug)]
pub struct PortInfo {
    pub name: String,
    /// The operator behind the port.
    pub operator_index: usize,
}

/// The names and operators of ports.
pub open spec fn port_views(ports: Seq<PortInfo>) -> Seq<(Seq<char>, usize)> {
    ports.map_values(|p: PortInfo| (p.name@, p.operator_index))
}

/// There is a port with the given name.
pub open spec fn names_port(ports: Seq<(Seq<char>, usize)>, name: Seq<char>) -> bool {
    exists|k: int| 0 <= k < ports.len() && (#[trigger] ports[k]).0 == name
}

/// Whether there is a port with the given name.
fn has_port(ports: &Vec<PortInfo>, name: &str) -> (b: bool)
    ensures
        b == names_port(port_views(ports@), name@),
{
    let mut k: usize = 0;
    while k < ports.len()
        invariant
            k <= ports@.len(),
            forall|j: int| 0 <= j < k ==> (#[trigger] port_views(ports@)[j]).0 != name@,
        decreases ports@.len() - k,
    {
        if same_text(ports[k].name.as_str(), name) {
            assert(port_views(ports@)[k as int].0 == name@);
            return true;
        }
        k = k + 1;
    }
    false
}

/// What operator factories are for, and what they make.
pub open spec fn made_by<T: Timestamp>(factories: Seq<(usize, BoxedOperatorFactory<T>)>) -> Seq<
    (usize, Option<(usize, Seq<char>, Duty)>),
> {
    factories.map_values(|f: (usize, BoxedOperatorFactory<T>)| (f.0, f.1.makes()))
}

/// The operators that factories make.
pub open spec fn products<T: Timestamp>(factories: Seq<(usize, BoxedOperatorFactory<T>)>) -> Seq<
    BoxedOperator<T>,
> {
    factories.map_values(|f: (usize, BoxedOperatorFactory<T>)| f.1.sole()->0)
}

/// All factories make the same operators for whatever worker, and with whatever edges.
pub open spec fn all_plain<T: Timestamp>(factories: Seq<(usize, BoxedOperatorFactory<T>)>) -> bool {
    forall|k: int| 0 <= k < factories.len() ==> (#[trigger] factories[k]).1.is_plain()
}

/// A factory that makes the given operator whatever it is handed makes just that.
pub proof fn plain_products_agree<T: Timestamp>(f: BoxedOperatorFactory<T>, op: BoxedOperator<T>)
    requires
        forall|c: WorkerContext, i: Seq<usize>, o: Seq<usize>| #[trigger]
            f.product(c, i, o) == Some(op),
    ensures
        f.is_plain(),
        f.sole() == Some(op),
{
    f.sole_is_a_product();
}

/// What channel factories are for, and their channels.
pub open spec fn opened_by(factories: Seq<(usize, BoxedChannelFactory)>) -> Seq<(usize, Line)> {
    factories.map_values(|f: (usize, BoxedChannelFactory)| (f.0, f.1.line()))
}

/// What a builder has put together.
pub struct BuilderView {
    pub graph: GraphView,
    pub subgraph: SubgraphView,
    /// For each operator factory its operator, and the index, name and duty of what it makes.
    pub operators: Seq<(usize, Option<(usize, Seq<char>, Duty)>)>,
    /// For each channel factory its edge and the channel.
    pub channels: Seq<(usize, Line)>,
    /// The same for the edges that close loops.
    pub feedback_channels: Seq<(usize, Line)>,
    pub input_ports: Seq<(Seq<char>, usize)>,
    pub output_ports: Seq<(Seq<char>, usize)>,
    /// The operators that probes watch.
    pub probes: Seq<usize>,
    /// The exchange edges, the capacities of their channels, the ways of distribution, and their
    /// names.
    pub exchanges: Seq<(usize, usize, BoxedPlan, Seq<char>)>,
    /// The operators whose batches come from producers that run beside the dataflow.
    pub async_sources: Seq<usize>,
    /// The first index of the builder, and the index of the next operator.
    pub first: usize,
    pub next: usize,
    /// The number of the next unnamed output.
    pub next_collect: usize,
    pub capacity: usize,
    pub preallocate: Option<usize>,
    pub catch_panics: bool,
    pub errors: Seq<Error>,
}

/// A dataflow in the making.
#[verifier::reject_recursive_types(T)]
pub struct DataflowBuilder<T: Timestamp> {
    pub(crate) name: String,
    pub(crate) graph: DataflowGraph,
    pub(crate) subgraph: SubgraphBuilder,
    pub(crate) operator_factories: Vec<(usize, BoxedOperatorFactory<T>)>,
    pub(crate) channel_factories: Vec<(usize, BoxedChannelFactory)>,
    pub(crate) feedback_channel_factories: Vec<(usize, BoxedChannelFactory)>,
    pub(crate) input_ports: Vec<PortInfo>,
    pub(crate) output_ports: Vec<PortInfo>,
    pub(crate) probes: Vec<(usize, ProbeHandle<T>)>,
    pub(crate) exchanges: Vec<ExchangeInfo>,
    pub(crate) async_sources: Vec<usize>,
    pub(crate) first_operator_index: usize,
    pub(crate) next_operator_index: usize,
    pub(crate) next_collect_index: usize,
    pub(crate) config: DataflowBuilderConfig,
    pub(crate) catch_panics: bool,
    pub(crate) errors: Vec<Error>,
    /// How many inputs from outside are open.
    pub(crate) open_inputs: Shared<usize>,
    /// Wakes the executor of the dataflow.
    pub(crate) wake: WakeHandle,
    /// Shared with all pipes of the builder.
    pub(crate) seal: Mark,
}

impl<T: Timestamp> View for DataflowBuilder<T> {
    type V = BuilderView;

    closed spec fn view(&self) -> BuilderView {
        BuilderView {
            graph: self.graph@,
            subgraph: self.subgraph@,
            operators: made_by(self.operator_factories@),
            channels: opened_by(self.channel_factories@),
            feedback_channels: opened_by(self.feedback_channel_factories@),
            input_ports: port_views(self.input_ports@),
            output_ports: port_views(self.output_ports@),
            probes: self.probes@.map_values(|p: (usize, ProbeHandle<T>)| p.0),
            exchanges: exchange_views(self.exchanges@),
            async_sources: self.async_sources@,
            first: self.first_operator_index,
            next: self.next_operator_index,
            next_collect: self.next_collect_index,
            capacity: self.config.channel_capacity,
            preallocate: self.config.channel_preallocate,
            catch_panics: self.catch_panics,
            errors: self.errors@,
        }
    }
}

/// The channels of all edges can be opened.
pub open spec fn all_ready(factories: Seq<(usize, BoxedChannelFactory)>) -> bool {
    forall|k: int| 0 <= k < factories.len() ==> (#[trigger] factories[k]).1.ready()
}

impl BuilderView {
    /// Operators have indices of the builder, each has a factory that makes it, and each edge has
    /// the factory of its channel.
    pub open spec fn sound(self) -> bool {
        &&& 1 <= self.first <= self.next
        &&& forall|i: usize| #[trigger]
            self.graph.operators.dom().contains(i) ==> self.first <= i < self.next
                && self.graph.operators[i].index == i
        &&& forall|k: int|
            0 <= k < self.subgraph.operators.len() ==> self.first
                <= #[trigger] self.subgraph.operators[k] < self.next
        &&& forall|k: int|
            0 <= k < self.operators.len() ==> self.first <= (#[trigger] self.operators[k]).0
                < self.next && self.operators[k].1 is Some && (self.operators[k].1->0).0
                == self.operators[k].0
        &&& self.channels.len() == self.graph.edges.len()
        &&& forall|k: int|
            0 <= k < self.channels.len() ==> (#[trigger] self.channels[k]).0 == k
        &&& self.feedback_channels.len() == self.graph.feedback_edges.len()
        &&& forall|k: int|
            0 <= k < self.feedback_channels.len() ==> (#[trigger] self.feedback_channels[k]).0 == k
    }
}

/// An operator that is added to a dataflow.
pub struct NewOperator {
    pub name: Seq<char>,
    pub duty: Duty,
    /// For each input, the port that it reads from and the channel.
    pub inputs: Seq<(Slot, Line)>,
    pub outputs: usize,
    /// How the inputs travel.
    pub kind: ChannelKind,
    /// The degree of parallelism behind an exchange.
    pub width: Option<usize>,
}

/// An edge of a dataflow in the making.
pub open spec fn edge_of(from: Slot, to: Slot, kind: ChannelKind, width: Option<usize>) -> EdgeInfo {
    match kind {
        ChannelKind::Pipeline => pipeline_edge(from, to, StageId(0), StageId(0)),
        ChannelKind::Exchange => exchange_edge(from, to, StageId(0), StageId(0), width),
    }
}

/// The edge to input `k` of the operator with index `i`.
pub open spec fn new_edge(op: NewOperator, i: usize, k: int) -> EdgeInfo {
    edge_of(
        op.inputs[k].0,
        Slot { operator_index: i, slot_index: k as usize },
        op.kind,
        op.width,
    )
}

/// The edges to the inputs of the operator with index `i`.
pub open spec fn new_edges(op: NewOperator, i: usize) -> Seq<EdgeInfo> {
    Seq::new(op.inputs.len(), |k: int| new_edge(op, i, k))
}

/// The links to the inputs of the operator with index `i`.
pub open spec fn new_links(op: NewOperator, i: usize) -> Seq<Link> {
    Seq::new(op.inputs.len(), |k: int| (op.inputs[k].0.operator_index, i))
}

/// The channels of the inputs, whose edges are numbered from `from`.
pub open spec fn new_channels(op: NewOperator, from: int) -> Seq<(usize, Line)> {
    Seq::new(op.inputs.len(), |k: int| ((from + k) as usize, op.inputs[k].1))
}

/// What is known of an operator that was registered under the index `i`.
pub open spec fn describes(
    info: OperatorInfo,
    i: usize,
    name: Seq<char>,
    inputs: int,
    outputs: int,
) -> bool {
    &&& info.index == i
    &&& info.name@ == name
    &&& info.region_id == StageId(0)
    &&& info.input_count == inputs
    &&& info.output_count == outputs
}

/// The operators of a graph after one was registered under the index `i`.
pub open spec fn gains(
    before: Map<usize, OperatorInfo>,
    after: Map<usize, OperatorInfo>,
    i: usize,
    name: Seq<char>,
    inputs: int,
    outputs: int,
) -> bool {
    &&& after.dom() == before.dom().insert(i)
    &&& describes(after[i], i, name, inputs, outputs)
    &&& forall|x: usize| #[trigger] before.dom().contains(x) && x != i ==> after[x] == before[x]
}

/// The operators that may send at any time from the start, after one more was added.
pub open spec fn with_source(sources: Seq<usize>, i: usize, starts: bool) -> Seq<usize> {
    if starts {
        sources.push(i)
    } else {
        sources
    }
}

impl NewOperator {
    /// The operator may send at any time from the start: nothing that comes in tells when it cannot.
    pub open spec fn starts(self) -> bool {
        self.inputs.len() == 0 || self.kind is Exchange
    }
}

impl BuilderView {
    /// An operator was registered under the next index; whether it may send at any time from the
    /// start is `starts`. Nothing else has changed.
    pub open spec fn registers(
        self,
        after: BuilderView,
        name: Seq<char>,
        inputs: int,
        outputs: int,
        starts: bool,
    ) -> bool {
        let i = self.next;
        &&& gains(self.graph.operators, after.graph.operators, i, name, inputs, outputs)
        &&& after == (BuilderView {
            graph: GraphView { operators: after.graph.operators, ..self.graph },
            subgraph: SubgraphView {
                operators: self.subgraph.operators.push(i),
                sources: with_source(self.subgraph.sources, i, starts),
                ..self.subgraph
            },
            next: (i + 1) as usize,
            ..self
        })
    }

    /// After an edge was added, with its channel.
    pub open spec fn with_edge(self, edge: EdgeInfo, line: Line) -> BuilderView {
        BuilderView {
            graph: GraphView { edges: self.graph.edges.push(edge), ..self.graph },
            subgraph: SubgraphView {
                links: self.subgraph.links.push(
                    (edge.source.operator_index, edge.target.operator_index),
                ),
                ..self.subgraph
            },
            channels: self.channels.push((self.graph.edges.len() as usize, line)),
            ..self
        }
    }

    /// After the factory of an operator was added.
    pub open spec fn with_maker(self, i: usize, name: Seq<char>, duty: Duty) -> BuilderView {
        BuilderView { operators: self.operators.push((i, Some((i, name, duty)))), ..self }
    }

    /// After the factory of an operator was put in at the place `at`.
    pub open spec fn with_maker_at(
        self,
        at: int,
        i: usize,
        name: Seq<char>,
        duty: Duty,
    ) -> BuilderView {
        BuilderView { operators: self.operators.insert(at, (i, Some((i, name, duty)))), ..self }
    }

    /// An operator was added under the next index, with its edges and channels. Nothing else has
    /// changed.
    pub open spec fn adds(self, after: BuilderView, op: NewOperator) -> bool {
        let i = self.next;
        &&& gains(
            self.graph.operators,
            after.graph.operators,
            i,
            op.name,
            op.inputs.len() as int,
            op.outputs as int,
        )
        &&& after == (BuilderView {
            graph: GraphView {
                operators: after.graph.operators,
                edges: self.graph.edges + new_edges(op, i),
                feedback_edges: self.graph.feedback_edges,
            },
            subgraph: SubgraphView {
                operators: self.subgraph.operators.push(i),
                links: self.subgraph.links + new_links(op, i),
                sources: with_source(self.subgraph.sources, i, op.starts()),
            },
            operators: self.operators.push((i, Some((i, op.name, op.duty)))),
            channels: self.channels + new_channels(op, self.graph.edges.len() as int),
            next: (i + 1) as usize,
            ..self
        })
    }
}

/// Keys that are counted from `n` on.
pub open spec fn shifted(keyed: Seq<(usize, Line)>, n: int) -> Seq<(usize, Line)> {
    keyed.map_values(|e: (usize, Line)| ((e.0 + n) as usize, e.1))
}

impl BuilderView {
    /// After the operators, edges and exchanges of another builder were taken over, and its errors.
    /// Its ports and probes are not taken over.
    pub open spec fn merged(self, inner: BuilderView) -> BuilderView {
        BuilderView {
            graph: GraphView {
                operators: self.graph.operators.union_prefer_right(inner.graph.operators),
                edges: self.graph.edges + inner.graph.edges,
                feedback_edges: self.graph.feedback_edges + inner.graph.feedback_edges,
            },
            subgraph: SubgraphView {
                operators: self.subgraph.operators + inner.subgraph.operators,
                links: self.subgraph.links + inner.subgraph.links,
                sources: self.subgraph.sources,
            },
            operators: self.operators + inner.operators,
            channels: self.channels + shifted(inner.channels, self.graph.edges.len() as int),
            feedback_channels: self.feedback_channels + shifted(
                inner.feedback_channels,
                self.graph.feedback_edges.len() as int,
            ),
            exchanges: self.exchanges + shifted_exchanges(
                inner.exchanges,
                self.graph.edges.len() as int,
            ),
            next: inner.next,
            errors: self.errors + inner.errors,
            ..self
        }
    }

    /// After an edge was added that closes a loop, with its channel.
    pub open spec fn with_feedback_edge(self, edge: EdgeInfo, line: Line) -> BuilderView {
        BuilderView {
            graph: GraphView {
                feedback_edges: self.graph.feedback_edges.push(edge),
                ..self.graph
            },
            feedback_channels: self.feedback_channels.push(
                (self.graph.feedback_edges.len() as usize, line),
            ),
            ..self
        }
    }

    /// After an error was noted.
    pub open spec fn with_error(self, e: Error) -> BuilderView {
        BuilderView { errors: self.errors.push(e), ..self }
    }
}

/// An operator inside a loop, as the dataflow around the loop sees it.
pub open spec fn looped<T: Timestamp + 'static, TInner: Timestamp + 'static>(
    op: BoxedOperator<Product<T, TInner>>,
) -> BoxedOperator<T> {
    BoxedOperator::of(LoopOperator::<T, TInner> { op, heard: Ghost(None) })
}

/// The operators inside a loop, as the dataflow around the loop sees them.
pub open spec fn all_looped<T: Timestamp + 'static, TInner: Timestamp + 'static>(
    ops: Seq<BoxedOperator<Product<T, TInner>>>,
) -> Seq<BoxedOperator<T>> {
    ops.map_values(|op: BoxedOperator<Product<T, TInner>>| looped::<T, TInner>(op))
}

/// Makes an operator inside a loop.
#[verifier::reject_recursive_types(T)]
#[verifier::reject_recursive_types(TInner)]
struct LoopFactory<T: Timestamp, TInner: Timestamp> {
    factory: BoxedOperatorFactory<Product<T, TInner>>,
}

impl<T: Timestamp + 'static, TInner: Timestamp + 'static> OperatorFactory<T> for LoopFactory<
    T,
    TInner,
> {
    closed spec fn product(
        &self,
        context: WorkerContext,
        inputs: Seq<usize>,
        outputs: Seq<usize>,
    ) -> Option<BoxedOperator<T>> {
        match self.factory.product(context, inputs, outputs) {
            Some(op) => Some(looped::<T, TInner>(op)),
            None => None,
        }
    }

    closed spec fn refuses(
        &self,
        context: WorkerContext,
        inputs: Seq<usize>,
        outputs: Seq<usize>,
        e: Error,
    ) -> bool {
        self.factory.refuses(context, inputs, outputs, e)
    }

    fn build(&mut self, context: &WorkerContext, endpoints: ChannelEndpoints) -> (r: Result<
        BoxedOperator<T>,
    >) {
        match self.factory.build(context, endpoints) {
            Ok(op) => {
                let op: LoopOperator<T, TInner> = LoopOperator { op, heard: Ghost(None) };
                Ok(BoxedOperator::new(op))
            },
            Err(e) => Err(e),
        }
    }
}

/// Makes of factories for operators inside a loop factories for the dataflow around it.
fn wrapped_makers<T: Timestamp + 'static, TInner: Timestamp + 'static>(
    makers: Vec<(usize, BoxedOperatorFactory<Product<T, TInner>>)>,
) -> (out: Vec<(usize, BoxedOperatorFactory<T>)>)
    requires
        forall|k: int| 0 <= k < makers@.len() ==> (#[trigger] makers@[k]).1.sole() is Some,
        all_plain(makers@),
    ensures
        all_plain(out@),
        made_by(out@) == made_by(makers@),
        products(out@) == all_looped::<T, TInner>(products(makers@)),
{
    let ghost given = makers@;
    let mut out: Vec<(usize, BoxedOperatorFactory<T>)> = Vec::new();
    for entry in it: makers
        invariant
            it.seq() == given,
            forall|k: int| 0 <= k < given.len() ==> (#[trigger] given[k]).1.sole() is Some,
            all_plain(given),
            all_plain(out@),
            out@.len() == it.index(),
            forall|k: int|
                0 <= k < out@.len() ==> ((#[trigger] out@[k]).0, out@[k].1.makes()) == (
                    given[k].0,
                    given[k].1.makes(),
                ),
            forall|k: int|
                0 <= k < out@.len() ==> (#[trigger] out@[k]).1.sole() == Some(
                    looped::<T, TInner>(given[k].1.sole()->0),
                ),
    {
        let (index, factory) = entry;
        proof {
            assert(given[it.index() as int] == entry);
            BoxedOperator::<T>::boxing_keeps(
                LoopOperator::<T, TInner> { op: factory.sole()->0, heard: Ghost(None) },
            );
        }
        let wrapped: LoopFactory<T, TInner> = LoopFactory { factory };
        assert(given[it.index() as int].1.is_plain());
        let made = BoxedOperatorFactory::new(wrapped);
        proof {
            let op = looped::<T, TInner>(factory.sole()->0);
            assert forall|c: WorkerContext, i: Seq<usize>, o: Seq<usize>| #[trigger]
                wrapped.product(c, i, o) == Some(op) by {
                assert(factory.product(c, i, o) == factory.sole());
            }
            assert forall|c: WorkerContext, i: Seq<usize>, o: Seq<usize>| #[trigger]
                made.product(c, i, o) == Some(op) by {
                assert(made.product(c, i, o) == wrapped.product(c, i, o));
            }
            plain_products_agree(made, op);
        }
        out.push((index, made));
    }
    proof {
        assert(made_by(out@) =~= made_by(given));
        assert(products(out@) =~= all_looped::<T, TInner>(products(given)));
    }
    out
}

/// Counts the keys of channel factories from `n` on.
pub(crate) fn shifted_channels(factories: Vec<(usize, BoxedChannelFactory)>, n: usize) -> (out: Vec<
    (usize, BoxedChannelFactory),
>)
    requires
        all_ready(factories@),
        forall|k: int| 0 <= k < factories@.len() ==> (#[trigger] factories@[k]).0 + n <= usize::MAX,
    ensures
        all_ready(out@),
        opened_by(out@) == shifted(opened_by(factories@), n as int),
{
    let ghost given = factories@;
    let mut out: Vec<(usize, BoxedChannelFactory)> = Vec::new();
    for entry in it: factories
        invariant
            it.seq() == given,
            all_ready(given),
            forall|k: int| 0 <= k < given.len() ==> (#[trigger] given[k]).0 + n <= usize::MAX,
            out@.len() == it.index(),
            forall|k: int|
                0 <= k < out@.len() ==> (#[trigger] out@[k]).1 == given[k].1 && out@[k].0
                    == given[k].0 + n,
    {
        assert(given[it.index() as int] == entry);
        let (index, factory) = entry;
        out.push((index + n, factory));
    }
    proof {
        assert(opened_by(out@) =~= shifted(opened_by(given), n as int));
        assert forall|k: int| 0 <= k < out@.len() implies (#[trigger] out@[k]).1.ready() by {
            assert(given[k].1.ready());
        }
    }
    out
}

/// Taking over the operators of a loop keeps a dataflow in order.
pub proof fn merging_keeps_sound(before: BuilderView, inner: BuilderView)
    requires
        before.sound(),
        inner.sound(),
        inner.first == before.next,
        before.graph.edges.len() + inner.graph.edges.len() <= usize::MAX,
        before.graph.feedback_edges.len() + inner.graph.feedback_edges.len() <= usize::MAX,
    ensures
        before.merged(inner).sound(),
{
    let after = before.merged(inner);
    assert forall|x: usize| #[trigger] after.graph.operators.dom().contains(x) implies after.first
        <= x < after.next && after.graph.operators[x].index == x by {
        if inner.graph.operators.dom().contains(x) {
        } else {
            assert(before.graph.operators.dom().contains(x));
        }
    }
    assert forall|k: int| 0 <= k < after.subgraph.operators.len() implies after.first
        <= #[trigger] after.subgraph.operators[k] < after.next by {
        let n = before.subgraph.operators.len();
        if k < n {
            assert(after.subgraph.operators[k] == before.subgraph.operators[k]);
        } else {
            assert(after.subgraph.operators[k] == inner.subgraph.operators[k - n]);
        }
    }
    assert forall|k: int| 0 <= k < after.operators.len() implies after.first <= (
    #[trigger] after.operators[k]).0 < after.next && after.operators[k].1 is Some && (
    after.operators[k].1->0).0 == after.operators[k].0 by {
        let n = before.operators.len();
        if k < n {
            assert(after.operators[k] == before.operators[k]);
        } else {
            assert(after.operators[k] == inner.operators[k - n]);
        }
    }
    assert forall|k: int| 0 <= k < after.channels.len() implies (#[trigger] after.channels[k]).0
        == k by {
        let n = before.channels.len();
        if k < n {
            assert(after.channels[k] == before.channels[k]);
        } else {
            assert(inner.channels[k - n].0 == k - n);
        }
    }
    assert forall|k: int| 0 <= k < after.feedback_channels.len() implies (
    #[trigger] after.feedback_channels[k]).0 == k by {
        let n = before.feedback_channels.len();
        if k < n {
            assert(after.feedback_channels[k] == before.feedback_channels[k]);
        } else {
            assert(inner.feedback_channels[k - n].0 == k - n);
        }
    }
}

/// Adding operators keeps a dataflow in order.
pub proof fn adding_keeps_sound(before: BuilderView, after: BuilderView, op: NewOperator)
    requires
        before.sound(),
        before.next < usize::MAX,
        before.graph.edges.len() + op.inputs.len() <= usize::MAX,
        before.adds(after, op),
    ensures
        after.sound(),
{
    let i = before.next;
    assert forall|x: usize| #[trigger] after.graph.operators.dom().contains(x) implies after.first
        <= x < after.next && after.graph.operators[x].index == x by {
        if x != i {
            assert(before.graph.operators.dom().contains(x));
        }
    }
    assert forall|k: int| 0 <= k < after.subgraph.operators.len() implies after.first
        <= #[trigger] after.subgraph.operators[k] < after.next by {
        if k < before.subgraph.operators.len() {
            assert(after.subgraph.operators[k] == before.subgraph.operators[k]);
        }
    }
    assert forall|k: int| 0 <= k < after.operators.len() implies after.first <= (
    #[trigger] after.operators[k]).0 < after.next && after.operators[k].1 is Some && (
    after.operators[k].1->0).0 == after.operators[k].0 by {
        if k < before.operators.len() {
            assert(after.operators[k] == before.operators[k]);
        }
    }
    assert forall|k: int| 0 <= k < after.channels.len() implies (#[trigger] after.channels[k]).0
        == k by {
        if k < before.channels.len() {
            assert(after.channels[k] == before.channels[k]);
        }
    }
}

impl<T: Timestamp + 'static> DataflowBuilder<T> {
    /// The builder is in order.
    pub closed spec fn wf(&self) -> bool {
        &&& self@.sound()
        &&& lists_exchanges(self@.exchanges, self@.graph.edges)
        &&& all_plain(self.operator_factories@)
        &&& all_ready(self.channel_factories@)
        &&& all_ready(self.feedback_channel_factories@)
    }

    /// What a builder in order has put together is in order.
    pub proof fn is_sound(&self)
        requires
            self.wf(),
        ensures
            self@.sound(),
            lists_exchanges(self@.exchanges, self@.graph.edges),
    {
    }

    /// What all pipes of the builder share with it.
    pub closed spec fn seal(&self) -> Mark {
        self.seal
    }

    /// What counts the open inputs from outside.
    pub closed spec fn counter(&self) -> Shared<usize> {
        self.open_inputs
    }

    /// What wakes the executor of the dataflow.
    pub closed spec fn waker(&self) -> WakeHandle {
        self.wake
    }

    /// The name of the dataflow.
    pub closed spec fn label(&self) -> Seq<char> {
        self.name@
    }

    /// The probes, each with the index of the operator that it watches.
    pub closed spec fn watchers(&self) -> Seq<(usize, ProbeHandle<T>)> {
        self.probes@
    }

    /// The operators, in the order in which they were added.
    pub closed spec fn crew(&self) -> Seq<BoxedOperator<T>> {
        products(self.operator_factories@)
    }

    /// The operator that was added last.
    pub open spec fn latest(&self) -> BoxedOperator<T> {
        self.crew().last()
    }

    /// A builder with the usual configuration.
    pub fn new(name: &str) -> (b: Self)
        ensures
            b.wf(),
            b.label() == name@,
            b@.next == 1,
            b@.is_blank(),
            b.crew() == Seq::<BoxedOperator<T>>::empty(),
            b@.capacity == 1024,
            b@.preallocate is None,
    {
        Self::with_config(name, DataflowBuilderConfig::default())
    }

    /// A builder with the given configuration.
    pub fn with_config(name: &str, config: DataflowBuilderConfig) -> (b: Self)
        ensures
            b.wf(),
            b.label() == name@,
            b@.next == 1,
            b@.is_blank(),
            b.crew() == Seq::<BoxedOperator<T>>::empty(),
            b@.capacity == config.channel_capacity,
            b@.preallocate == config.channel_preallocate,
    {
        Self::blank(name.to_owned(), config, 1, Shared::new(0, Anything), WakeHandle::new())
    }

    /// A builder whose first operator gets the index `first`.
    pub(crate) fn blank(
        name: String,
        config: DataflowBuilderConfig,
        first: usize,
        open_inputs: Shared<usize>,
        wake: WakeHandle,
    ) -> (b: Self)
        requires
            first >= 1,
        ensures
            b.wf(),
            b.label() == name@,
            b@.next == first,
            b@.is_blank(),
            b.crew() == Seq::<BoxedOperator<T>>::empty(),
            b@.capacity == config.channel_capacity,
            b@.preallocate == config.channel_preallocate,
            b.counter() == open_inputs,
            b.waker() == wake,
            b.watchers() == Seq::<(usize, ProbeHandle<T>)>::empty(),
    {
        let b = DataflowBuilder {
            name,
            graph: DataflowGraph::new(),
            subgraph: SubgraphBuilder::new(),
            operator_factories: Vec::new(),
            channel_factories: Vec::new(),
            feedback_channel_factories: Vec::new(),
            input_ports: Vec::new(),
            output_ports: Vec::new(),
            probes: Vec::new(),
            exchanges: Vec::new(),
            async_sources: Vec::new(),
            first_operator_index: first,
            next_operator_index: first,
            next_collect_index: 0,
            config,
            catch_panics: false,
            errors: Vec::new(),
            open_inputs,
            wake,
            seal: Shared::new(0, Tag { number: Ghost(Some(0)) }),
        };
        proof {
            assert(b@.operators =~= Seq::<(usize, Option<(usize, Seq<char>, Duty)>)>::empty());
            assert(b.crew() =~= Seq::<BoxedOperator<T>>::empty());
            assert(b@.channels =~= Seq::<(usize, Line)>::empty());
            assert(b@.feedback_channels =~= Seq::<(usize, Line)>::empty());
            assert(b@.input_ports =~= Seq::<(Seq<char>, usize)>::empty());
            assert(b@.output_ports =~= Seq::<(Seq<char>, usize)>::empty());
            assert(b@.probes =~= Seq::<usize>::empty());
            assert(b@.exchanges =~= Seq::<(usize, usize, BoxedPlan, Seq<char>)>::empty());
            assert(b@.exchanges.map_values(
                |x: (usize, usize, BoxedPlan, Seq<char>)| x.0,
            ) =~= exchange_edges(b@.graph.edges));
        }
        b
    }

    /// Has panics of operators become errors, or not.
    pub fn catch_panics(&mut self, enable: bool)
        ensures
            final(self)@ == (BuilderView { catch_panics: enable, ..old(self)@ }),
            final(self).crew() == old(self).crew(),
            final(self).seal() == old(self).seal(),
            final(self).label() == old(self).label(),
            final(self).counter() == old(self).counter(),
            final(self).waker() == old(self).waker(),
            final(self).watchers() == old(self).watchers(),
            old(self).wf() ==> final(self).wf(),
    {
        self.catch_panics = enable;
    }

    /// The number of operators.
    pub fn operator_count(&self) -> (n: usize)
        requires
            self.wf(),
        ensures
            n == self@.next - 1,
    {
        self.next_operator_index - 1
    }

    /// The name of the dataflow.
    pub fn name(&self) -> (name: &str)
        ensures
            name@ == self.label(),
    {
        self.name.as_str()
    }

    /// There are indices for `n` more operators.
    pub open spec fn has_room(&self, n: int) -> bool {
        &&& self.wf()
        &&& self@.next + n <= usize::MAX
    }

    /// The same builder as before, and still in order. Probes may have been added.
    pub open spec fn remains(self, after: Self) -> bool {
        &&& after.wf()
        &&& after.seal() == self.seal()
        &&& after.label() == self.label()
        &&& after.counter() == self.counter()
        &&& after.waker() == self.waker()
    }

    /// The same builder as before, still in order and with the same probes.
    pub open spec fn stays(self, after: Self) -> bool {
        &&& self.remains(after)
        &&& after.watchers() == self.watchers()
    }

    /// The same builder as before, still in order and with the same operators.
    pub open spec fn rests(self, after: Self) -> bool {
        &&& self.stays(after)
        &&& after.crew() == self.crew()
    }

    /// The same builder as before, with one operator more.
    pub open spec fn grows(self, after: Self, op: NewOperator) -> bool {
        &&& self.stays(after)
        &&& self@.adds(after@, op)
        &&& after.crew() == self.crew().push(after.latest())
    }

    /// Registers an operator under the next index.
    pub(crate) fn register(
        &mut self,
        name: &str,
        inputs: usize,
        outputs: usize,
        starts: bool,
    ) -> (index: usize)
        requires
            old(self).wf(),
            old(self)@.next < usize::MAX,
        ensures
            old(self).rests(*final(self)),
            index == old(self)@.next,
            old(self)@.registers(final(self)@, name@, inputs as int, outputs as int, starts),
    {
        let ghost before = self@;
        let index: usize = self.next_operator_index;
        let info = OperatorInfo::new(index, name, StageId::new(0), inputs, outputs);
        proof {
            assert(!self@.graph.operators.dom().contains(index));
            assert(!self@.subgraph.operators.contains(index));
        }
        let _ = self.graph.register_operator(info);
        let _ = self.subgraph.add_operator(index, name);
        if starts {
            self.subgraph.add_source(index);
        }
        self.next_operator_index = index + 1;
        proof {
            assert forall|x: usize| #[trigger]
                self@.graph.operators.dom().contains(x) implies self@.first <= x < self@.next
                && self@.graph.operators[x].index == x by {
                if x != index {
                    assert(before.graph.operators.dom().contains(x));
                }
            }
        }
        index
    }

    /// Adds an edge inside a stage, with its channel.
    pub(crate) fn connect(&mut self, from: Slot, to: Slot, channel: BoxedChannelFactory)
        requires
            old(self).wf(),
            channel.ready(),
        ensures
            old(self).rests(*final(self)),
            final(self)@ == old(self)@.with_edge(
                edge_of(from, to, ChannelKind::Pipeline, None),
                channel.line(),
            ),
    {
        let edge = EdgeInfo::new(from, to, StageId::new(0), StageId::new(0));
        let edge_index: usize = self.graph.edge_count();
        let ghost factories = self.channel_factories@;
        let ghost edges = self@.graph.edges;
        self.graph.add_edge(edge);
        self.subgraph.add_edge(from.operator_index, to.operator_index);
        self.channel_factories.push((edge_index, channel));
        proof {
            assert(opened_by(self.channel_factories@) =~= opened_by(factories).push(
                (edge_index, channel.line()),
            ));
            assert(edges.push(edge).drop_last() =~= edges);
        }
    }

    /// Adds an exchange edge, with its channel and the way in which records are distributed.
    fn connect_exchange(
        &mut self,
        from: Slot,
        to: Slot,
        width: Option<usize>,
        channel: BoxedChannelFactory,
        capacity: usize,
        plan: BoxedPlan,
        label: &str,
    )
        requires
            old(self).wf(),
            channel.ready(),
        ensures
            old(self).rests(*final(self)),
            final(self)@ == (BuilderView {
                exchanges: old(self)@.exchanges.push(
                    (old(self)@.graph.edges.len() as usize, capacity, plan, label@),
                ),
                ..old(self)@.with_edge(
                    edge_of(from, to, ChannelKind::Exchange, width),
                    channel.line(),
                )
            }),
    {
        let edge = EdgeInfo::exchange(from, to, StageId::new(0), StageId::new(0), width);
        let edge_index: usize = self.graph.edge_count();
        let ghost factories = self.channel_factories@;
        let ghost exchanges = self.exchanges@;
        let ghost edges = self@.graph.edges;
        self.graph.add_edge(edge);
        self.subgraph.add_edge(from.operator_index, to.operator_index);
        self.channel_factories.push((edge_index, channel));
        self.exchanges.push(ExchangeInfo { edge_index, capacity, plan, name: label.to_owned() });
        proof {
            let entry = (edge_index, capacity, plan, label@);
            assert(opened_by(self.channel_factories@) =~= opened_by(factories).push(
                (edge_index, channel.line()),
            ));
            assert(exchange_views(self.exchanges@) =~= exchange_views(exchanges).push(entry));
            assert(edges.push(edge).drop_last() =~= edges);
            let ends = |x: (usize, usize, BoxedPlan, Seq<char>)| x.0;
            assert(exchange_views(exchanges).push(entry).map_values(ends) =~= exchange_views(
                exchanges,
            ).map_values(ends).push(edge_index));
        }
    }

    /// Adds the factory of an operator.
    pub(crate) fn equip(&mut self, operator: BoxedOperator<T>)
        requires
            old(self).wf(),
            old(self)@.first <= operator.id() < old(self)@.next,
        ensures
            old(self).stays(*final(self)),
            final(self)@ == old(self)@.with_maker(
                operator.id(),
                operator.label(),
                operator.duty(),
            ),
            final(self).crew() == old(self).crew().push(operator),
    {
        let ghost factories = self.operator_factories@;
        let index: usize = operator.index();
        let single = SingleUse::new(operator);
        let factory = BoxedOperatorFactory::new(single);
        proof {
            plain_products_agree(factory, operator);
        }
        self.operator_factories.push((index, factory));
        proof {
            assert(made_by(self.operator_factories@) =~= made_by(factories).push(
                (index, factory.makes()),
            ));
            assert(products(self.operator_factories@) =~= products(factories).push(operator));
        }
    }

    /// How many factories of operators there are.
    pub(crate) fn maker_count(&self) -> (n: usize)
        ensures
            n == self@.operators.len(),
            n == self.crew().len(),
    {
        self.operator_factories.len()
    }

    /// Puts the factory of an operator in at the place `at`.
    pub(crate) fn equip_at(&mut self, at: usize, operator: BoxedOperator<T>)
        requires
            old(self).wf(),
            at <= old(self)@.operators.len(),
            old(self)@.first <= operator.id() < old(self)@.next,
        ensures
            old(self).stays(*final(self)),
            final(self)@ == old(self)@.with_maker_at(
                at as int,
                operator.id(),
                operator.label(),
                operator.duty(),
            ),
            final(self).crew() == old(self).crew().insert(at as int, operator),
    {
        let ghost factories = self.operator_factories@;
        let index: usize = operator.index();
        let single = SingleUse::new(operator);
        let factory = BoxedOperatorFactory::new(single);
        proof {
            plain_products_agree(factory, operator);
        }
        self.operator_factories.insert(at, (index, factory));
        proof {
            assert(made_by(self.operator_factories@) =~= made_by(factories).insert(
                at as int,
                (index, factory.makes()),
            ));
            assert(products(self.operator_factories@) =~= products(factories).insert(
                at as int,
                operator,
            ));
        }
    }

    /// Adds an edge that closes a loop, with its channel. Times that come through such an edge do
    /// not count as expected, so there is no link.
    pub(crate) fn connect_back(&mut self, from: Slot, to: Slot, channel: BoxedChannelFactory)
        requires
            old(self).wf(),
            channel.ready(),
        ensures
            old(self).rests(*final(self)),
            final(self)@ == old(self)@.with_feedback_edge(
                edge_of(from, to, ChannelKind::Pipeline, None),
                channel.line(),
            ),
    {
        let ghost factories = self.feedback_channel_factories@;
        let position: usize = self.graph.feedback_edges().len();
        self.graph.add_feedback_edge(EdgeInfo::new(from, to, StageId::new(0), StageId::new(0)));
        self.feedback_channel_factories.push((position, channel));
        proof {
            assert(opened_by(self.feedback_channel_factories@) =~= opened_by(factories).push(
                (position, channel.line()),
            ));
        }
    }

    /// Takes note of an error.
    pub(crate) fn add_error(&mut self, e: Error)
        requires
            old(self).wf(),
        ensures
            old(self).rests(*final(self)),
            final(self)@ == old(self)@.with_error(e),
    {
        self.errors.push(e);
    }

    /// Takes over the operators and edges of the builder of a loop, and its errors.
    pub(crate) fn absorb<TInner: Timestamp + 'static>(
        &mut self,
        inner: DataflowBuilder<Product<T, TInner>>,
    )
        requires
            old(self).wf(),
            inner.wf(),
            inner@.first == old(self)@.next,
        ensures
            old(self).stays(*final(self)),
            final(self)@ == old(self)@.merged(inner@),
            final(self).crew() == old(self).crew() + all_looped::<T, TInner>(inner.crew()),
    {
        let ghost before = self@;
        let ghost inside = inner@;
        let ghost crews = (self.crew(), inner.crew());
        proof {
            assert(before.graph.operators.dom().disjoint(inside.graph.operators.dom())) by {
                assert forall|x: usize|
                    before.graph.operators.dom().contains(
                        x,
                    ) implies !inside.graph.operators.dom().contains(x) by {}
            }
        }
        let edge_offset: usize = self.graph.edge_count();
        let feedback_offset: usize = self.graph.feedback_edges().len();
        let DataflowBuilder {
            graph,
            subgraph,
            operator_factories,
            channel_factories,
            feedback_channel_factories,
            exchanges,
            next_operator_index,
            errors,
            ..
        } = inner;
        self.graph.absorb(graph);
        self.subgraph.absorb(subgraph);
        let edge_total: usize = self.graph.edge_count();
        let feedback_total: usize = self.graph.feedback_edges().len();
        proof {
            assert forall|k: int| 0 <= k < channel_factories@.len() implies (
            #[trigger] channel_factories@[k]).0 + edge_offset <= usize::MAX by {
                assert(inside.channels[k].0 == channel_factories@[k].0);
            }
            assert forall|k: int| 0 <= k < feedback_channel_factories@.len() implies (
            #[trigger] feedback_channel_factories@[k]).0 + feedback_offset <= usize::MAX by {
                assert(inside.feedback_channels[k].0 == feedback_channel_factories@[k].0);
            }
        }
        proof {
            assert forall|k: int| 0 <= k < operator_factories@.len() implies (
            #[trigger] operator_factories@[k]).1.sole() is Some by {
                assert(inside.operators[k].1 is Some);
            }
        }
        proof {
            exchange_edges_are_all(inside.graph.edges);
            assert forall|k: int| 0 <= k < exchanges@.len() implies (
            #[trigger] exchanges@[k]).edge_index + edge_offset <= usize::MAX by {
                let ends = inside.exchanges.map_values(
                    |x: (usize, usize, BoxedPlan, Seq<char>)| x.0,
                );
                assert(ends[k] == exchanges@[k].edge_index);
                assert(exchange_edges(inside.graph.edges)[k] < inside.graph.edges.len());
            }
        }
        let mut moved = moved_exchanges(exchanges, edge_offset);
        self.exchanges.append(&mut moved);
        let mut makers = wrapped_makers(operator_factories);
        self.operator_factories.append(&mut makers);
        let mut channels = shifted_channels(channel_factories, edge_offset);
        self.channel_factories.append(&mut channels);
        let mut feedback_channels = shifted_channels(
            feedback_channel_factories,
            feedback_offset,
        );
        self.feedback_channel_factories.append(&mut feedback_channels);
        self.next_operator_index = next_operator_index;
        let mut errors = errors;
        self.errors.append(&mut errors);
        proof {
            assert(self@.operators =~= before.operators + inside.operators);
            assert(self.crew() =~= crews.0 + all_looped::<T, TInner>(crews.1));
            assert(self@.channels =~= before.channels + shifted(
                inside.channels,
                edge_offset as int,
            ));
            assert(self@.feedback_channels =~= before.feedback_channels + shifted(
                inside.feedback_channels,
                feedback_offset as int,
            ));
            let ends = |x: (usize, usize, BoxedPlan, Seq<char>)| x.0;
            let more = |i: usize| (i + before.graph.edges.len()) as usize;
            assert(self@.exchanges =~= before.exchanges + shifted_exchanges(
                inside.exchanges,
                edge_offset as int,
            ));
            lemma_exchange_edges_concat(before.graph.edges, inside.graph.edges);
            assert(shifted_exchanges(inside.exchanges, edge_offset as int).map_values(ends)
                =~= inside.exchanges.map_values(ends).map_values(more));
            assert(self@.exchanges.map_values(ends) =~= before.exchanges.map_values(ends)
                + shifted_exchanges(inside.exchanges, edge_offset as int).map_values(ends));
            assert(self@ == before.merged(inside));
            merging_keeps_sound(before, inside);
        }
    }

    /// Adds an operator that runs a core.
    pub(crate) fn attach_core<C: WiredCore<T> + 'static>(
        &mut self,
        name: &str,
        inputs: Vec<(Slot, BoxedChannelFactory)>,
        outputs: usize,
        core: C,
    ) -> (index: usize)
        requires
            old(self).has_room(1),
            core.sound(),
            forall|k: int| 0 <= k < inputs@.len() ==> (#[trigger] inputs@[k]).1.ready(),
        ensures
            old(self).grows(
                *final(self),
                (NewOperator {
                    name: name@,
                    duty: core.duty(),
                    inputs: taps(inputs@),
                    outputs,
                    kind: ChannelKind::Pipeline,
                    width: None,
                }),
            ),
            runs(final(self).latest(), core),
            index == old(self)@.next,
    {
        let operator = WiredOperator::new(
            name.to_owned(),
            self.next_operator_index,
            StageId::new(0),
            core,
        );
        assert(operator.holds(core));
        self.attach(name, inputs, outputs, BoxedOperator::new(operator))
    }

    /// Adds an operator behind an exchange edge that runs a core, and takes note of how the records
    /// are distributed.
    pub(crate) fn attach_exchange<C: WiredCore<T> + 'static>(
        &mut self,
        name: &str,
        from: Slot,
        channel: BoxedChannelFactory,
        width: Option<usize>,
        core: C,
        capacity: usize,
        plan: BoxedPlan,
        label: &str,
    ) -> (index: usize)
        requires
            old(self).has_room(1),
            core.sound(),
            channel.ready(),
        ensures
            old(self).stays(*final(self)),
            old(self)@.adds(
                (BuilderView { exchanges: old(self)@.exchanges, ..final(self)@ }),
                (NewOperator {
                    name: name@,
                    duty: core.duty(),
                    inputs: seq![(from, channel.line())],
                    outputs: 1,
                    kind: ChannelKind::Exchange,
                    width,
                }),
            ),
            final(self)@.exchanges == old(self)@.exchanges.push(
                (old(self)@.graph.edges.len() as usize, capacity, plan, label@),
            ),
            final(self).crew() == old(self).crew().push(final(self).latest()),
            runs(final(self).latest(), core),
            index == old(self)@.next,
    {
        let ghost before = self@;
        let ghost op = NewOperator {
            name: name@,
            duty: core.duty(),
            inputs: seq![(from, channel.line())],
            outputs: 1,
            kind: ChannelKind::Exchange,
            width,
        };
        let operator = WiredOperator::new(
            name.to_owned(),
            self.next_operator_index,
            StageId::new(0),
            core,
        );
        assert(operator.holds(core));
        let index: usize = self.register(name, 1, 1, true);
        self.equip(BoxedOperator::new(operator));
        self.connect_exchange(from, Slot::new(index, 0), width, channel, capacity, plan, label);
        proof {
            let n = before.graph.edges.len() as int;
            assert(before.graph.edges + new_edges(op, index) =~= before.graph.edges.push(
                new_edge(op, index, 0),
            ));
            assert(before.subgraph.links + new_links(op, index) =~= before.subgraph.links.push(
                (from.operator_index, index),
            ));
            assert(before.channels + new_channels(op, n) =~= before.channels.push(
                (n as usize, channel.line()),
            ));
        }
        index
    }

    /// What all pipes of the builder share with it. Pipes that were made before do not belong to the
    /// builder any more.
    pub(crate) fn take_seal(&mut self) -> (seal: Mark)
        ensures
            seal == old(self).seal(),
            final(self)@ == old(self)@,
            final(self).crew() == old(self).crew(),
            final(self).seal() != old(self).seal(),
            final(self).label() == old(self).label(),
            final(self).counter() == old(self).counter(),
            final(self).waker() == old(self).waker(),
            final(self).watchers() == old(self).watchers(),
            old(self).wf() ==> final(self).wf(),
    {
        let ghost next = match self.seal.rule().number@ {
            Some(n) => n + 1,
            None => 0,
        };
        let mut seal: Mark = Shared::new(0, Tag { number: Ghost(Some(next)) });
        core::mem::swap(&mut seal, &mut self.seal);
        seal
    }

    /// A builder for the inside of a loop, whose first operator gets the next index.
    pub(crate) fn inner<TInner: Timestamp + 'static>(&self) -> (b: DataflowBuilder<
        Product<T, TInner>,
    >)
        requires
            self.wf(),
        ensures
            b.wf(),
            b.label() == self.label(),
            b@.next == self@.next,
            b@.is_blank(),
            b.crew() == Seq::<BoxedOperator<Product<T, TInner>>>::empty(),
            b@.capacity == self@.capacity,
            b@.preallocate == self@.preallocate,
            b.counter() == self.counter(),
            b.waker() == self.waker(),
    {
        DataflowBuilder::blank(
            self.name.clone(),
            self.config,
            self.next_operator_index,
            self.open_inputs.share(),
            self.wake.share(),
        )
    }

    /// The index of the next operator.
    pub(crate) fn upcoming(&self) -> (index: usize)
        ensures
            index == self@.next,
    {
        self.next_operator_index
    }

    /// How many batches a channel holds, unless it is said otherwise.
    pub(crate) fn usual_capacity(&self) -> (capacity: usize)
        ensures
            capacity == self@.capacity,
    {
        self.config.channel_capacity
    }

    /// For how many batches a channel has memory from the start.
    pub(crate) fn usual_preallocation(&self) -> (n: Option<usize>)
        ensures
            n == self@.preallocate,
    {
        self.config.channel_preallocate
    }

    /// What all pipes of the builder share with it.
    pub(crate) fn share_seal(&self) -> (seal: Mark)
        ensures
            seal == self.seal(),
    {
        self.seal.share()
    }

    /// Whether there is an input port with the given name.
    pub(crate) fn has_input_port(&self, name: &str) -> (b: bool)
        ensures
            b == names_port(self@.input_ports, name@),
    {
        has_port(&self.input_ports, name)
    }

    /// Whether there is an output port with the given name.
    pub(crate) fn has_output_port(&self, name: &str) -> (b: bool)
        ensures
            b == names_port(self@.output_ports, name@),
    {
        has_port(&self.output_ports, name)
    }

    /// Makes an operator an input port.
    pub(crate) fn add_input_port(&mut self, name: &str, operator_index: usize)
        requires
            old(self).wf(),
        ensures
            old(self).rests(*final(self)),
            final(self)@ == (BuilderView {
                input_ports: old(self)@.input_ports.push((name@, operator_index)),
                ..old(self)@
            }),
    {
        let ghost ports = self.input_ports@;
        self.input_ports.push(PortInfo { name: name.to_owned(), operator_index });
        proof {
            assert(port_views(self.input_ports@) =~= port_views(ports).push(
                (name@, operator_index),
            ));
        }
    }

    /// Makes an operator an output port.
    pub(crate) fn add_output_port(&mut self, name: &str, operator_index: usize)
        requires
            old(self).wf(),
        ensures
            old(self).rests(*final(self)),
            final(self)@ == (BuilderView {
                output_ports: old(self)@.output_ports.push((name@, operator_index)),
                ..old(self)@
            }),
    {
        let ghost ports = self.output_ports@;
        self.output_ports.push(PortInfo { name: name.to_owned(), operator_index });
        proof {
            assert(port_views(self.output_ports@) =~= port_views(ports).push(
                (name@, operator_index),
            ));
        }
    }

    /// Lets a probe watch an operator.
    pub(crate) fn add_probe(&mut self, operator_index: usize, probe: ProbeHandle<T>)
        requires
            old(self).wf(),
        ensures
            old(self).remains(*final(self)),
            final(self).crew() == old(self).crew(),
            final(self).watchers() == old(self).watchers().push((operator_index, probe)),
            final(self)@ == (BuilderView {
                probes: old(self)@.probes.push(operator_index),
                ..old(self)@
            }),
    {
        let ghost probes = self.probes@;
        self.probes.push((operator_index, probe));
        proof {
            assert(self@.probes =~= old(self)@.probes.push(operator_index));
        }
    }

    /// Takes note of an operator whose batches come from a producer that runs beside the dataflow.
    pub(crate) fn add_async_source(&mut self, operator_index: usize)
        requires
            old(self).wf(),
        ensures
            old(self).rests(*final(self)),
            final(self)@ == (BuilderView {
                async_sources: old(self)@.async_sources.push(operator_index),
                ..old(self)@
            }),
    {
        self.async_sources.push(operator_index);
    }

    /// The number of an unnamed output.
    pub(crate) fn take_collect_index(&mut self) -> (n: usize)
        requires
            old(self).wf(),
            old(self)@.next_collect < usize::MAX,
        ensures
            old(self).rests(*final(self)),
            n == old(self)@.next_collect,
            final(self)@ == (BuilderView {
                next_collect: (old(self)@.next_collect + 1) as usize,
                ..old(self)@
            }),
    {
        let n: usize = self.next_collect_index;
        self.next_collect_index = n + 1;
        n
    }

    /// Counts one more open input from outside, and hands out the counter.
    pub(crate) fn open_input(&self) -> (counter: Shared<usize>)
        ensures
            counter == self.counter(),
            exists|open: usize, after: usize| #[trigger]
                self.counter().turned(open, after) && after == if open < usize::MAX {
                    open + 1
                } else {
                    open as int
                },
    {
        let (open, loan) = self.open_inputs.lend(0);
        let after: usize = if open < usize::MAX {
            open + 1
        } else {
            open
        };
        let _ = self.open_inputs.settle(loan, after);
        assert(self.counter().turned(open, after));
        self.open_inputs.share()
    }

    /// Wakes the executor of the dataflow.
    pub(crate) fn share_wake(&self) -> (wake: WakeHandle)
        ensures
            wake == self.waker(),
    {
        self.wake.share()
    }

    /// Adds an operator under the next index, with its edges and channels.
    pub(crate) fn attach(
        &mut self,
        name: &str,
        inputs: Vec<(Slot, BoxedChannelFactory)>,
        outputs: usize,
        operator: BoxedOperator<T>,
    ) -> (index: usize)
        requires
            old(self).has_room(1),
            operator.id() == old(self)@.next,
            operator.label() == name@,
            forall|k: int| 0 <= k < inputs@.len() ==> (#[trigger] inputs@[k]).1.ready(),
        ensures
            old(self).grows(
                *final(self),
                (NewOperator {
                    name: name@,
                    duty: operator.duty(),
                    inputs: taps(inputs@),
                    outputs,
                    kind: ChannelKind::Pipeline,
                    width: None,
                }),
            ),
            final(self).latest() == operator,
            index == old(self)@.next,
    {
        let ghost op = NewOperator {
            name: name@,
            duty: operator.duty(),
            inputs: taps(inputs@),
            outputs,
            kind: ChannelKind::Pipeline,
            width: None,
        };
        let ghost given = inputs@;
        let ghost before = self@;
        let starts = inputs.len() == 0;
        let index: usize = self.register(name, inputs.len(), outputs, starts);
        self.equip(operator);
        proof {
            assert(before.graph.edges + new_edges(op, index).take(0) =~= before.graph.edges);
            assert(before.subgraph.links + new_links(op, index).take(0)
                =~= before.subgraph.links);
            assert(before.channels + new_channels(op, before.graph.edges.len() as int).take(0)
                =~= before.channels);
        }
        let ghost mid = *self;
        let n: usize = inputs.len();
        let mut k: usize = 0;
        for input in it: inputs
            invariant
                it.seq() == given,
                k == it.index(),
                n == given.len(),
                op.inputs == taps(given),
                op.kind is Pipeline,
                op.width is None,
                index == before.next,
                forall|j: int| 0 <= j < given.len() ==> (#[trigger] given[j]).1.ready(),
                mid.rests(*self),
                self@ == (BuilderView {
                    graph: GraphView {
                        edges: before.graph.edges + new_edges(op, index).take(k as int),
                        ..mid@.graph
                    },
                    subgraph: SubgraphView {
                        links: before.subgraph.links + new_links(op, index).take(k as int),
                        ..mid@.subgraph
                    },
                    channels: before.channels + new_channels(
                        op,
                        before.graph.edges.len() as int,
                    ).take(k as int),
                    ..mid@
                }),
        {
            let (from, channel) = input;
            let ghost edges0 = self@.graph.edges.len();
            self.connect(from, Slot::new(index, k), channel);
            proof {
                let j = k as int;
                let edge = new_edge(op, index, j);
                assert(new_edges(op, index).take(j + 1) =~= new_edges(op, index).take(j).push(
                    edge,
                ));
                assert(before.graph.edges + new_edges(op, index).take(j + 1) =~= (
                before.graph.edges + new_edges(op, index).take(j)).push(edge));
                assert(before.subgraph.links + new_links(op, index).take(j + 1) =~= (
                before.subgraph.links + new_links(op, index).take(j)).push(
                    (from.operator_index, index),
                ));
                let cs = new_channels(op, before.graph.edges.len() as int);
                assert(before.channels + cs.take(j + 1) =~= (before.channels + cs.take(j)).push(
                    (edges0 as usize, channel.line()),
                ));
            }
            k = k + 1;
        }
        proof {
            assert(new_edges(op, index).take(k as int) =~= new_edges(op, index));
            assert(new_links(op, index).take(k as int) =~= new_links(op, index));
            let cs = new_channels(op, before.graph.edges.len() as int);
            assert(cs.take(k as int) =~= cs);
            assert(before.adds(self@, op));
        }
        index
    }
}

/// The ports that inputs read from, and the channels.
pub open spec fn taps(inputs: Seq<(Slot, BoxedChannelFactory)>) -> Seq<(Slot, Line)> {
    inputs.map_values(|x: (Slot, BoxedChannelFactory)| (x.0, x.1.line()))
}

/// What a builder has put together, piece by piece.
#[verifier::reject_recursive_types(T)]
pub struct BuilderParts<T: Timestamp> {
    pub name: String,
    pub graph: DataflowGraph,
    pub subgraph: SubgraphBuilder,
    pub operator_factories: Vec<(usize, BoxedOperatorFactory<T>)>,
    pub channel_factories: Vec<(usize, BoxedChannelFactory)>,
    pub feedback_channel_factories: Vec<(usize, BoxedChannelFactory)>,
    pub input_ports: Vec<PortInfo>,
    pub output_ports: Vec<PortInfo>,
    pub probes: Vec<(usize, ProbeHandle<T>)>,
    pub exchanges: Vec<ExchangeInfo>,
    pub async_sources: Vec<usize>,
    pub catch_panics: bool,
    pub errors: Vec<Error>,
    pub open_inputs: Shared<usize>,
    pub wake: WakeHandle,
}

impl<T: Timestamp> BuilderParts<T> {
    /// The pieces of what a builder with the view `v` has put together.
    pub open spec fn make_up(self, v: BuilderView) -> bool {
        &&& self.graph@ == v.graph
        &&& self.subgraph@ == v.subgraph
        &&& made_by(self.operator_factories@) == v.operators
        &&& all_plain(self.operator_factories@)
        &&& opened_by(self.channel_factories@) == v.channels
        &&& opened_by(self.feedback_channel_factories@) == v.feedback_channels
        &&& all_ready(self.channel_factories@)
        &&& all_ready(self.feedback_channel_factories@)
        &&& port_views(self.input_ports@) == v.input_ports
        &&& port_views(self.output_ports@) == v.output_ports
        &&& self.probes@.map_values(|p: (usize, ProbeHandle<T>)| p.0) == v.probes
        &&& exchange_views(self.exchanges@) == v.exchanges
        &&& lists_exchanges(v.exchanges, v.graph.edges)
        &&& self.async_sources@ == v.async_sources
        &&& self.catch_panics == v.catch_panics
        &&& self.errors@ == v.errors
    }
}

impl<T: Timestamp + 'static> DataflowBuilder<T> {
    /// What was put together, piece by piece.
    pub(crate) fn into_parts(self) -> (p: BuilderParts<T>)
        requires
            self.wf(),
        ensures
            p.make_up(self@),
            products(p.operator_factories@) == self.crew(),
            p.probes@ == self.watchers(),
            p.open_inputs == self.counter(),
            p.wake == self.waker(),
            p.name@ == self.label(),
    {
        BuilderParts {
            name: self.name,
            graph: self.graph,
            subgraph: self.subgraph,
            operator_factories: self.operator_factories,
            channel_factories: self.channel_factories,
            feedback_channel_factories: self.feedback_channel_factories,
            input_ports: self.input_ports,
            output_ports: self.output_ports,
            probes: self.probes,
            exchanges: self.exchanges,
            async_sources: self.async_sources,
            catch_panics: self.catch_panics,
            errors: self.errors,
            open_inputs: self.open_inputs,
            wake: self.wake,
        }
    }
}

impl BuilderView {
    /// Nothing was added yet.
    pub open spec fn is_blank(self) -> bool {
        &&& self.graph.operators == Map::<usize, OperatorInfo>::empty()
        &&& self.graph.edges.len() == 0
        &&& self.graph.feedback_edges.len() == 0
        &&& self.subgraph.operators.len() == 0
        &&& self.subgraph.links.len() == 0
        &&& self.subgraph.sources.len() == 0
        &&& self.operators.len() == 0
        &&& self.channels.len() == 0
        &&& self.feedback_channels.len() == 0
        &&& self.input_ports.len() == 0
        &&& self.output_ports.len() == 0
        &&& self.probes.len() == 0
        &&& self.exchanges.len() == 0
        &&& self.async_sources.len() == 0
        &&& self.first == self.next
        &&& self.next_collect == 0
        &&& !self.catch_panics
        &&& self.errors.len() == 0
    }
}

} // verus!
