//! Dataflows that are ready to be run.

use vstd::prelude::*;
use crate::builder::{
    all_plain, all_ready, exchange_views, lists_exchanges, made_by, opened_by, port_views, products, shifted,
    shifted_channels, BoxedPlan, BuilderView, DataflowBuilder, ExchangeInfo, PortInfo,
};
use crate::error::{Error, Result};
use crate::assembly::{
    all_edges, are_made, counts_for, is_materialized, lemma_same_entries, stage_places,
};
use crate::control::CancellationToken;
use crate::executor::{DataflowExecutor, ExecutorConfig};
use crate::graph::{
    edge_fault, exchange_edges, exchange_edges_are_all, is_first_fault, is_valid, is_well_wired,
    lemma_exchange_edges_kinds, DataflowGraph, GraphView,
};
use crate::materialize::{
    can_open, is_adjacency, is_factory_for, is_position_map, keys, made_at, sorted,
    sorting_is_sorted,
};
use crate::order::Timestamp;
use crate::progress::{outset, ProbeHandle, SubgraphBuilder, SubgraphView};
use crate::retain::{
    collect_members, edges_to_keep, feedback_to_keep, keep_channels, keep_exchanges, keep_indices,
    keep_listed, keep_ports, keep_stages, lemma_filter_plain, lemma_kept_views, restricted,
    restricting_keeps_sound, takes_part,
};
use crate::role::{Duty, Line};
use crate::schedulable::{BoxedChannelFactory, BoxedOperatorFactory, WorkerContext};
use crate::shared::Shared;
use crate::stage::{StageId, StageInfo};
use crate::staging::{are_stages, infer_stages};
use crate::topology::{has_cycle, settles_unless_cyclic, settling_order};
use crate::wake::WakeHandle;

verus! {

/// What a dataflow consists of.
pub struct DataflowView {
    pub graph: GraphView,
    pub subgraph: SubgraphView,
    /// For each operator factory its operator, and the index, name and duty of what it makes.
    pub operators: Seq<(usize, Option<(usize, Seq<char>, Duty)>)>,
    /// For each channel factory its edge and the channel. The edges that close loops
    /// are counted after the others.
    pub channels: Seq<(usize, Line)>,
    pub input_ports: Seq<(Seq<char>, usize)>,
    pub output_ports: Seq<(Seq<char>, usize)>,
    /// The operators that probes watch.
    pub probes: Seq<usize>,
    /// The exchange edges, the capacities of their channels, the ways of distribution, and their
    /// names.
    pub exchanges: Seq<(usize, usize, BoxedPlan, Seq<char>)>,
    /// The operators whose batches come from producers that run beside the dataflow.
    pub async_sources: Seq<usize>,
    pub stages: Seq<StageInfo>,
    pub catch_panics: bool,
    pub collect_metrics: bool,
    /// How long operators may go on after a cancellation, in milliseconds.
    pub drain_timeout: Option<u64>,
}

impl DataflowView {
    /// Each operator factory makes its operator, each edge has the factory of its channel, and all
    /// exchange edges are listed.
    pub open spec fn sound(self) -> bool {
        &&& forall|k: int|
            0 <= k < self.operators.len() ==> (#[trigger] self.operators[k]).0 < usize::MAX
                && self.operators[k].1 is Some && (self.operators[k].1->0).0
                == self.operators[k].0
        &&& self.channels.len() == self.graph.edges.len() + self.graph.feedback_edges.len()
        &&& forall|k: int|
            0 <= k < self.channels.len() ==> (#[trigger] self.channels[k]).0 == k
        &&& lists_exchanges(self.exchanges, self.graph.edges)
        &&& self.graph.edges.len() <= usize::MAX
        &&& self.graph.feedback_edges.len() <= usize::MAX
    }
}

impl DataflowView {
    /// The dataflow with the activations of its operators counted.
    pub open spec fn counted(self) -> DataflowView {
        DataflowView { collect_metrics: true, ..self }
    }
}

/// A dataflow that is ready to be run.
#[verifier::reject_recursive_types(T)]
pub struct LogicalDataflow<T: Timestamp> {
    pub(crate) name: String,
    pub(crate) graph: DataflowGraph,
    pub(crate) subgraph: SubgraphBuilder,
    pub(crate) operator_factories: Vec<(usize, BoxedOperatorFactory<T>)>,
    pub(crate) channel_factories: Vec<(usize, BoxedChannelFactory)>,
    pub(crate) input_ports: Vec<PortInfo>,
    pub(crate) output_ports: Vec<PortInfo>,
    pub(crate) probes: Vec<(usize, ProbeHandle<T>)>,
    pub(crate) exchanges: Vec<ExchangeInfo>,
    pub(crate) async_sources: Vec<usize>,
    pub(crate) stages: Vec<StageInfo>,
    pub(crate) catch_panics: bool,
    pub(crate) collect_metrics: bool,
    pub(crate) drain_timeout: Option<u64>,
    /// How many inputs from outside are open.
    pub(crate) open_inputs: Shared<usize>,
    /// Wakes the executor of the dataflow.
    pub(crate) wake: WakeHandle,
}

impl<T: Timestamp> View for LogicalDataflow<T> {
    type V = DataflowView;

    closed spec fn view(&self) -> DataflowView {
        DataflowView {
            graph: self.graph@,
            subgraph: self.subgraph@,
            operators: made_by(self.operator_factories@),
            channels: opened_by(self.channel_factories@),
            input_ports: port_views(self.input_ports@),
            output_ports: port_views(self.output_ports@),
            probes: self.probes@.map_values(|p: (usize, ProbeHandle<T>)| p.0),
            exchanges: exchange_views(self.exchanges@),
            async_sources: self.async_sources@,
            stages: self.stages@,
            catch_panics: self.catch_panics,
            collect_metrics: self.collect_metrics,
            drain_timeout: self.drain_timeout,
        }
    }
}

/// The stage of each operator.
pub open spec fn memberships(stages: Seq<StageInfo>) -> Seq<(usize, StageId)>
    decreases stages.len(),
{
    if stages.len() == 0 {
        Seq::empty()
    } else {
        let last = stages.last();
        memberships(stages.drop_last()) + last.operator_indices@.map_values(
            |i: usize| (i, last.id),
        )
    }
}

fn collect_memberships(stages: &Vec<StageInfo>) -> (of: Vec<(usize, StageId)>)
    ensures
        of@ == memberships(stages@),
{
    let mut of: Vec<(usize, StageId)> = Vec::new();
    let mut s: usize = 0;
    assert(stages@.take(0) =~= Seq::<StageInfo>::empty());
    while s < stages.len()
        invariant
            s <= stages@.len(),
            of@ == memberships(stages@.take(s as int)),
        decreases stages@.len() - s,
    {
        let ghost start = of@;
        let ghost stage = stages@[s as int];
        let ghost all = stage.operator_indices@.map_values(|i: usize| (i, stage.id));
        let id = stages[s].id;
        let n: usize = stages[s].operator_indices.len();
        let mut k: usize = 0;
        assert(start + all.take(0) =~= start);
        while k < n
            invariant
                s < stages@.len(),
                stage == stages@[s as int],
                id == stage.id,
                n == stage.operator_indices@.len(),
                k <= n,
                all == stage.operator_indices@.map_values(|i: usize| (i, stage.id)),
                of@ == start + all.take(k as int),
            decreases n - k,
        {
            let op: usize = stages[s].operator_indices[k];
            of.push((op, id));
            k = k + 1;
            assert(of@ =~= start + all.take(k as int));
        }
        proof {
            assert(all.take(n as int) =~= all);
            assert(stages@.take(s + 1).drop_last() =~= stages@.take(s as int));
        }
        s = s + 1;
    }
    assert(stages@.take(s as int) =~= stages@);
    of
}

/// The dataflow that comes of what a builder has put together.
pub open spec fn is_built(v: BuilderView, d: DataflowView) -> bool {
    &&& are_stages(v.graph, d.stages)
    &&& d == (DataflowView {
        graph: v.graph.in_regions(memberships(d.stages)),
        subgraph: v.subgraph,
        operators: v.operators,
        channels: v.channels + shifted(v.feedback_channels, v.graph.edges.len() as int),
        input_ports: v.input_ports,
        output_ports: v.output_ports,
        probes: v.probes,
        exchanges: v.exchanges,
        async_sources: v.async_sources,
        stages: d.stages,
        catch_panics: v.catch_panics,
        collect_metrics: false,
        drain_timeout: None,
    })
}

/// What is wrong with what a builder has put together: a cycle that no loop accounts for, else the
/// first error that was noted, else the first fault of the graph.
pub open spec fn is_build_error(v: BuilderView, e: Error) -> bool {
    let order = settling_order(v.graph.operators.dom(), v.graph.edges);
    let total = v.graph.operators.dom().len();
    if order.len() != total {
        e == (Error::CycleDetected { processed: order.len() as usize, total: total as usize })
    } else if v.errors.len() > 0 {
        e == v.errors[0]
    } else {
        !is_valid(v.graph) && is_first_fault(v.graph, e)
    }
}

/// What a builder has put together can be run.
pub open spec fn is_buildable(v: BuilderView) -> bool {
    &&& settling_order(v.graph.operators.dom(), v.graph.edges).len() == v.graph.operators.dom().len()
    &&& v.errors.len() == 0
    &&& is_valid(v.graph)
}

/// The error about pipes that are held when the dataflow is built.
pub open spec fn is_outstanding_error(e: Error) -> bool {
    e matches Error::InvalidConfig(m) && m@
        == "cannot build: outstanding Pipe references still exist \u{2014} drop all Pipe handles before calling build()"@
}

/// What building came to.
pub open spec fn builds<T: Timestamp>(
    v: BuilderView,
    label: Seq<char>,
    r: Result<LogicalDataflow<T>>,
) -> bool {
    match r {
        Ok(d) => is_buildable(v) && d.wf() && d.label() == label && is_built(v, d@),
        Err(e) => !is_buildable(v) && is_build_error(v, e),
    }
}

impl<T: Timestamp + 'static> DataflowBuilder<T> {
    /// Makes a dataflow of what was put together. No pipe of the builder may be held any more.
    pub fn build(self) -> (r: Result<LogicalDataflow<T>>)
        requires
            self.wf(),
            self@.graph.edges.len() + self@.graph.feedback_edges.len() <= usize::MAX,
        ensures
            exists|held: bool| #[trigger]
                self.seal().answered(held) && (held ==> (r matches Err(e)
                    && is_outstanding_error(e))) && (!held ==> builds(self@, self.label(), r)),
            r matches Ok(d) ==> products(d.makers()) == self.crew() && d.counter()
                == self.counter() && d.waker() == self.waker() && d.watchers() == self.watchers(),
            is_well_wired(self@.graph) && !has_cycle(self@.graph.edges) && self@.errors.len() == 0
                ==> r is Ok || (r matches Err(e) && is_outstanding_error(e)),
    {
        let mut this = self;
        let held = this.take_seal().is_held_elsewhere();
        assert(self.seal().answered(held));
        this.build_unless(held)
    }

    /// Makes a dataflow of what was put together, unless a pipe is held.
    pub fn build_unless(self, held: bool) -> (r: Result<LogicalDataflow<T>>)
        requires
            self.wf(),
            self@.graph.edges.len() + self@.graph.feedback_edges.len() <= usize::MAX,
        ensures
            held ==> (r matches Err(e) && is_outstanding_error(e)),
            !held ==> builds(self@, self.label(), r),
            !held && is_well_wired(self@.graph) && !has_cycle(self@.graph.edges)
                && self@.errors.len() == 0 ==> r is Ok,
            r matches Ok(d) ==> products(d.makers()) == self.crew() && d.counter()
                == self.counter() && d.waker() == self.waker() && d.watchers() == self.watchers(),
    {
        if held {
            return Err(
                Error::InvalidConfig(
                    "cannot build: outstanding Pipe references still exist \u{2014} drop all Pipe handles before calling build()".to_owned(),
                ),
            );
        }
        self.finish()
    }

    /// Makes a dataflow of what was put together, whatever pipes are held.
    pub fn finish(self) -> (r: Result<LogicalDataflow<T>>)
        requires
            self.wf(),
            self@.graph.edges.len() + self@.graph.feedback_edges.len() <= usize::MAX,
        ensures
            builds(self@, self.label(), r),
            r matches Ok(d) ==> products(d.makers()) == self.crew() && d.counter()
                == self.counter() && d.waker() == self.waker() && d.watchers() == self.watchers(),
            is_well_wired(self@.graph) && !has_cycle(self@.graph.edges) && self@.errors.len() == 0
                ==> r is Ok,
    {
        proof {
            self.is_sound();
        }
        let ghost v = self@;
        let parts = self.into_parts();
        let inferred = infer_stages(&parts.graph);
        proof {
            if is_well_wired(v.graph) && !has_cycle(v.graph.edges) {
                let ops = v.graph.operators.dom();
                assert forall|i: int| 0 <= i < v.graph.edges.len() implies ops.contains(
                    (#[trigger] v.graph.edges[i]).source.operator_index,
                ) && ops.contains(v.graph.edges[i].target.operator_index) by {
                    assert(edge_fault(v.graph, i) is None);
                }
                settles_unless_cyclic(
                    ops,
                    v.graph.edges,
                    settling_order(ops, v.graph.edges),
                );
            }
        }
        let stages = match inferred {
            Ok(stages) => stages,
            Err(e) => {
                return Err(e);
            },
        };
        if parts.errors.len() > 0 {
            let mut errors = parts.errors;
            return Err(errors.remove(0));
        }
        match parts.graph.validate() {
            Ok(_) => {},
            Err(e) => {
                return Err(e);
            },
        }
        let edge_count: usize = parts.graph.edge_count();
        let mut graph = parts.graph;
        let of = collect_memberships(&stages);
        graph.assign_regions(&of);
        proof {
            assert forall|k: int| 0 <= k < parts.feedback_channel_factories@.len() implies (
            #[trigger] parts.feedback_channel_factories@[k]).0 + edge_count <= usize::MAX by {
                assert(v.feedback_channels[k].0 == parts.feedback_channel_factories@[k].0);
            }
        }
        let mut channels = parts.channel_factories;
        let ghost own = channels@;
        let mut back = shifted_channels(parts.feedback_channel_factories, edge_count);
        let ghost more = back@;
        channels.append(&mut back);
        let d = LogicalDataflow {
            name: parts.name,
            graph,
            subgraph: parts.subgraph,
            operator_factories: parts.operator_factories,
            channel_factories: channels,
            input_ports: parts.input_ports,
            output_ports: parts.output_ports,
            probes: parts.probes,
            exchanges: parts.exchanges,
            async_sources: parts.async_sources,
            stages,
            catch_panics: parts.catch_panics,
            collect_metrics: false,
            drain_timeout: None,
            open_inputs: parts.open_inputs,
            wake: parts.wake,
        };
        proof {
            assert(opened_by(own + more) =~= opened_by(own) + opened_by(more));
            assert(is_built(v, d@));
            building_keeps_sound(v, d@);
            assert forall|k: int| 0 <= k < d.channel_factories@.len() implies (
            #[trigger] d.channel_factories@[k]).1.ready() by {
                if k < own.len() {
                    assert(own[k].1.ready());
                } else {
                    assert(more[k - own.len()].1.ready());
                }
            }
        }
        Ok(d)
    }
}

/// Building keeps a dataflow in order.
pub proof fn building_keeps_sound(v: BuilderView, d: DataflowView)
    requires
        v.sound(),
        lists_exchanges(v.exchanges, v.graph.edges),
        v.graph.edges.len() + v.graph.feedback_edges.len() <= usize::MAX,
        is_built(v, d),
    ensures
        d.sound(),
{
    lemma_exchange_edges_kinds(v.graph.edges, d.graph.edges);
    assert forall|k: int| 0 <= k < d.channels.len() implies (#[trigger] d.channels[k]).0 == k by {
        let n = v.channels.len();
        if k < n {
            assert(d.channels[k] == v.channels[k]);
        } else {
            assert(v.feedback_channels[k - n].0 == k - n);
        }
    }
}

impl<T: Timestamp> LogicalDataflow<T> {
    /// The dataflow is in order.
    pub closed spec fn wf(&self) -> bool {
        &&& self@.sound()
        &&& all_plain(self.operator_factories@)
        &&& all_ready(self.channel_factories@)
    }

    /// The name of the dataflow.
    pub closed spec fn label(&self) -> Seq<char> {
        self.name@
    }

    /// The operator factories.
    pub closed spec fn makers(&self) -> Seq<(usize, BoxedOperatorFactory<T>)> {
        self.operator_factories@
    }

    /// What counts the open inputs from outside.
    pub closed spec fn counter(&self) -> Shared<usize> {
        self.open_inputs
    }

    /// The probes, each with the index of the operator that it watches.
    pub closed spec fn watchers(&self) -> Seq<(usize, ProbeHandle<T>)> {
        self.probes@
    }

    /// What wakes the executor of the dataflow.
    pub closed spec fn waker(&self) -> WakeHandle {
        self.wake
    }

    /// The factories make the operators of the dataflow.
    pub proof fn makers_make_operators(&self)
        ensures
            made_by(self.makers()) == self@.operators,
    {
    }

    /// The name of the dataflow.
    pub fn name(&self) -> (name: &str)
        ensures
            name@ == self.label(),
    {
        self.name.as_str()
    }

    /// The number of operators.
    pub fn operator_count(&self) -> (n: usize)
        ensures
            n == self@.graph.operators.dom().len(),
    {
        self.graph.operator_count()
    }

    /// The number of edges, without those that close loops.
    pub fn edge_count(&self) -> (n: usize)
        ensures
            n == self@.graph.edges.len(),
    {
        self.graph.edge_count()
    }

    /// The names of the input ports.
    pub fn input_names(&self) -> (names: Vec<&str>)
        ensures
            names@.len() == self@.input_ports.len(),
            forall|k: int|
                0 <= k < names@.len() ==> (#[trigger] names@[k])@ == self@.input_ports[k].0,
    {
        port_names(&self.input_ports)
    }

    /// The names of the output ports.
    pub fn output_names(&self) -> (names: Vec<&str>)
        ensures
            names@.len() == self@.output_ports.len(),
            forall|k: int|
                0 <= k < names@.len() ==> (#[trigger] names@[k])@ == self@.output_ports[k].0,
    {
        port_names(&self.output_ports)
    }

    /// Whether there is an input port. Such a dataflow waits for batches from outside.
    pub fn has_input_ports(&self) -> (b: bool)
        ensures
            b == (self@.input_ports.len() > 0),
    {
        self.input_ports.len() > 0
    }

    /// The graph of the dataflow.
    pub fn graph(&self) -> (graph: &DataflowGraph)
        ensures
            graph@ == self@.graph,
    {
        &self.graph
    }

    /// The indices of the exchange edges, in ascending order.
    pub fn exchange_edge_indices(&self) -> (indices: Vec<usize>)
        ensures
            self.wf() ==> indices@ == exchange_edges(self@.graph.edges),
            indices@ == self@.exchanges.map_values(
                |e: (usize, usize, BoxedPlan, Seq<char>)| e.0,
            ),
    {
        let mut indices: Vec<usize> = Vec::new();
        let mut k: usize = 0;
        while k < self.exchanges.len()
            invariant
                k <= self.exchanges@.len(),
                indices@.len() == k,
                forall|j: int|
                    0 <= j < k ==> #[trigger] indices@[j] == self.exchanges@[j].edge_index,
            decreases self.exchanges@.len() - k,
        {
            indices.push(self.exchanges[k].edge_index);
            k = k + 1;
        }
        proof {
            assert(indices@ =~= self@.exchanges.map_values(
                |e: (usize, usize, BoxedPlan, Seq<char>)| e.0,
            ));
        }
        indices
    }

    /// The number of edges that close loops.
    pub fn feedback_edge_count(&self) -> (n: usize)
        ensures
            n == self@.graph.feedback_edges.len(),
    {
        self.graph.feedback_edges().len()
    }

    /// The stages: the parts of the dataflow that no exchange divides.
    pub fn stages(&self) -> (stages: &Vec<StageInfo>)
        ensures
            stages@ == self@.stages,
    {
        &self.stages
    }
}

impl<T: Timestamp> LogicalDataflow<T> {
    /// Restricts the dataflow to the given stages.
    pub fn retain_stages(&mut self, ids: &Vec<StageId>)
        requires
            old(self).wf(),
        ensures
            final(self).wf(),
            final(self)@ == restricted(old(self)@, ids@),
            final(self).label() == old(self).label(),
            final(self).makers() == old(self).makers().filter(
                |f: (usize, BoxedOperatorFactory<T>)| takes_part(old(self)@.stages, ids@, f.0),
            ),
            final(self).counter() == old(self).counter(),
            final(self).waker() == old(self).waker(),
            final(self).watchers() == old(self).watchers().filter(
                |p: (usize, ProbeHandle<T>)| takes_part(old(self)@.stages, ids@, p.0),
            ),
    {
        let ghost before = self@;
        let members = collect_members(&self.stages, ids);
        let edges = edges_to_keep(self.graph.edges(), &self.stages, ids, &members);
        let feedback = feedback_to_keep(self.graph.feedback_edges(), &self.stages, ids, &members);
        let mut channels: Vec<(usize, BoxedChannelFactory)> = Vec::new();
        core::mem::swap(&mut channels, &mut self.channel_factories);
        let mut makers: Vec<(usize, BoxedOperatorFactory<T>)> = Vec::new();
        core::mem::swap(&mut makers, &mut self.operator_factories);
        let mut inputs: Vec<PortInfo> = Vec::new();
        core::mem::swap(&mut inputs, &mut self.input_ports);
        let mut exchanges: Vec<ExchangeInfo> = Vec::new();
        core::mem::swap(&mut exchanges, &mut self.exchanges);
        let mut outputs: Vec<PortInfo> = Vec::new();
        core::mem::swap(&mut outputs, &mut self.output_ports);
        let mut probes: Vec<(usize, ProbeHandle<T>)> = Vec::new();
        core::mem::swap(&mut probes, &mut self.probes);
        let mut stages: Vec<StageInfo> = Vec::new();
        core::mem::swap(&mut stages, &mut self.stages);
        proof {
            lemma_kept_views(makers@, outputs@, probes@, members@, stages@, ids@);
            lemma_kept_views(makers@, inputs@, probes@, members@, stages@, ids@);
            exchange_edges_are_all(before.graph.edges);
            assert forall|k: int| 0 <= k < exchanges@.len() implies (
            #[trigger] exchanges@[k]).edge_index < edges@.len() by {
                let ends = before.exchanges.map_values(
                    |x: (usize, usize, BoxedPlan, Seq<char>)| x.0,
                );
                assert(ends[k] == exchanges@[k].edge_index);
                assert(exchange_edges(before.graph.edges)[k] < before.graph.edges.len());
            }
        }
        self.channel_factories = keep_channels(channels, &edges, &feedback);
        self.operator_factories = keep_listed(makers, &members);
        self.output_ports = keep_ports(outputs, &members);
        self.probes = keep_listed(probes, &members);
        self.input_ports = keep_ports(inputs, &members);
        self.async_sources = keep_indices(&self.async_sources, &members);
        self.exchanges = keep_exchanges(exchanges, &edges);
        self.stages = keep_stages(stages, ids);
        self.graph.retain_edges(&edges);
        self.graph.retain_feedback_edges(&feedback);
        self.graph.retain_operators(&members);
        proof {
            restricting_keeps_sound(before, ids@);
            lemma_filter_plain(
                old(self).operator_factories@,
                |f: (usize, BoxedOperatorFactory<T>)| members@.contains(f.0),
            );
            let after = restricted(before, ids@);
            assert((|f: (usize, BoxedOperatorFactory<T>)| members@.contains(f.0)) =~= (
            |f: (usize, BoxedOperatorFactory<T>)| takes_part(before.stages, ids@, f.0)));
            assert((|p: (usize, ProbeHandle<T>)| members@.contains(p.0)) =~= (
            |p: (usize, ProbeHandle<T>)| takes_part(before.stages, ids@, p.0)));
            assert((|i: usize| members@.contains(i)) =~= (
            |i: usize| takes_part(before.stages, ids@, i)));
            assert(self@.async_sources =~= after.async_sources);
            assert(Set::new(|i: usize| members@.contains(i)) =~= Set::new(
                |i: usize| takes_part(before.stages, ids@, i),
            ));
            assert(self@ == after);
        }
    }

    /// Makes the executor of the dataflow. All factories are there, so this cannot fail.
    pub fn into_executor(
        self,
        config: ExecutorConfig,
        cancel: CancellationToken,
        context: WorkerContext,
    ) -> (ex: DataflowExecutor<T>)
        requires
            self.wf(),
        ensures
            is_materialized(
                ex,
                self@.graph.edges + self@.graph.feedback_edges,
                self.makers(),
                config,
                context,
            ),
            ex.cancel == cancel,
            ex.wake_handle == self.waker(),
    {
        proof {
            assert forall|i: int| 0 <= i < all_edges(&self.graph).len() implies #[trigger] can_open(
                self.channel_factories@,
                i,
            ) by {
                let fs = self.channel_factories@;
                assert(self@.channels[i].0 == fs[i].0);
                assert forall|j: int| i < j < fs.len() implies (#[trigger] fs[j]).0 as int != i by {
                    assert(self@.channels[j].0 == fs[j].0);
                }
                assert(is_factory_for(fs, i, i));
                assert(fs[i].1.ready());
            }
            let makers = self.operator_factories@;
            assert forall|k: int| 0 <= k < makers.len() implies (#[trigger] makers[k]).0
                < usize::MAX by {
                assert(self@.operators[k].1 is Some);
            }
            let in_order = sorted(makers);
            sorting_is_sorted(makers);
            lemma_same_entries(in_order, makers);
            assert forall|k: int| 0 <= k < makers.len() implies #[trigger] made_at(
                in_order,
                all_edges(&self.graph),
                context,
                k,
            ) is Some by {
                assert(in_order.contains(in_order[k]));
                assert(makers.contains(in_order[k]));
                let j = choose|j: int| 0 <= j < makers.len() && makers[j] == in_order[k];
                assert(self@.operators[j].1 is Some);
                assert(makers[j].1.is_plain());
            }
        }
        let r = DataflowExecutor::materialize(
            &self.graph,
            self.operator_factories,
            self.channel_factories,
            config,
            cancel,
            Some(self.wake),
            context,
        );
        r.unwrap()
    }
}

/// An executor that is ready to run a dataflow: its tracker knows all operators and links, its
/// probes watch, and whole stages are scheduled.
pub open spec fn is_launched<T: Timestamp>(
    ex: DataflowExecutor<T>,
    d: DataflowView,
    makers: Seq<(usize, BoxedOperatorFactory<T>)>,
    cancel: CancellationToken,
    context: WorkerContext,
) -> bool {
    let n = makers.len();
    let edges = d.graph.edges + d.graph.feedback_edges;
    &&& ex.wf()
    &&& ex.config == launch_config(d)
    &&& ex.cancel == cancel
    &&& are_made(makers, edges, context, ex.crew.operators@)
    &&& is_position_map(keys(sorted(makers)), ex.index_to_pos@)
    &&& is_adjacency(edges, ex.index_to_pos@, n as int, true, ex.schedule@.successors)
    &&& is_adjacency(edges, ex.index_to_pos@, n as int, false, ex.schedule@.predecessors)
    &&& ex.crew.worker_index == context.place().0
    &&& ex.crew.catch_panics == d.catch_panics
    &&& ex.crew.metrics is Some == d.collect_metrics
    &&& ex.crew.metrics matches Some(m) ==> counts_for(m, ex.crew.operators@)
    &&& ex.fused_order is None
    &&& ex.schedule@.done == Seq::new(n, |i: int| false)
    &&& ex.schedule@.tasks == stage_places(ex.index_to_pos@, d.stages)
    &&& ex.progress_tracker matches Some(t) && t@.initialized && t@.operators
        == d.subgraph.operators && t@.links == d.subgraph.links && t@.outstanding
        == outset::<T>(d.subgraph.sources)
    &&& ex.probes@.map_values(|p: (usize, ProbeHandle<T>)| p.0) == d.probes
    &&& ex.consecutive_idle == 0
    &&& !ex.draining
}

/// How a dataflow is run.
pub open spec fn launch_config(d: DataflowView) -> ExecutorConfig {
    ExecutorConfig {
        max_activations_per_step: 1024,
        max_idle_sweeps: 3,
        max_sweeps_per_poll: 64,
        catch_panics: d.catch_panics,
        collect_metrics: d.collect_metrics,
        drain_timeout: d.drain_timeout,
    }
}

impl<T: Timestamp> LogicalDataflow<T> {
    /// Has the activations of the operators be counted, or not.
    pub fn collect_metrics(&mut self, enable: bool)
        ensures
            final(self)@ == (DataflowView { collect_metrics: enable, ..old(self)@ }),
            final(self).label() == old(self).label(),
            final(self).makers() == old(self).makers(),
            old(self).wf() ==> final(self).wf(),
    {
        self.collect_metrics = enable;
    }

    /// Whether the activations of the operators are counted.
    pub fn collects_metrics(&self) -> (b: bool)
        ensures
            b == self@.collect_metrics,
    {
        self.collect_metrics
    }

    /// Sets how long operators may go on after a cancellation, in milliseconds.
    pub fn set_drain_timeout(&mut self, millis: Option<u64>)
        ensures
            final(self)@ == (DataflowView { drain_timeout: millis, ..old(self)@ }),
            final(self).label() == old(self).label(),
            final(self).makers() == old(self).makers(),
            old(self).wf() ==> final(self).wf(),
    {
        self.drain_timeout = millis;
    }

    /// Makes an executor that is ready to run the dataflow.
    pub fn launch(self, cancel: CancellationToken, context: WorkerContext) -> (ex: DataflowExecutor<
        T,
    >)
        requires
            self.wf(),
        ensures
            is_launched(ex, self@, self.makers(), cancel, context),
            ex.wake_handle == self.waker(),
            ex.external_inputs_open == self.counter(),
            ex.probes@ == self.watchers(),
    {
        let ghost d = self@;
        let ghost makers = self.makers();
        let usual = ExecutorConfig::default();
        let config = ExecutorConfig {
            catch_panics: self.catch_panics,
            collect_metrics: self.collect_metrics,
            drain_timeout: self.drain_timeout,
            ..usual
        };
        let mut this = self;
        let mut subgraph = SubgraphBuilder::new();
        core::mem::swap(&mut subgraph, &mut this.subgraph);
        let mut probes: Vec<(usize, ProbeHandle<T>)> = Vec::new();
        core::mem::swap(&mut probes, &mut this.probes);
        let mut stages: Vec<StageInfo> = Vec::new();
        core::mem::swap(&mut stages, &mut this.stages);
        let counter = this.open_inputs.share();
        let mut ex = this.into_executor(config, cancel, context);
        ex.replace_external_inputs_counter(counter);
        let mut tracker = subgraph.build();
        tracker.initialize();
        ex.set_progress_tracker(tracker);
        ex.enable_stage_tasks(&stages);
        let ghost ready = ex;
        let ghost given = probes@;
        for entry in it: probes
            invariant
                it.seq() == given,
                ex == (DataflowExecutor { probes: ex.probes, ..ready }),
                ex.probes@ == given.take(it.index() as int),
        {
            let (operator_index, probe) = entry;
            let ghost k = it.index() as int;
            ex.register_probe(operator_index, probe);
            assert(ex.probes@ =~= given.take(k + 1));
        }
        proof {
            assert(given.take(given.len() as int) =~= given);
            assert(is_launched(ex, d, makers, cancel, context));
        }
        ex
    }
}

/// The names of ports.
fn port_names(ports: &Vec<PortInfo>) -> (names: Vec<&str>)
    ensures
        names@.len() == ports@.len(),
        forall|k: int| 0 <= k < names@.len() ==> (#[trigger] names@[k])@ == ports@[k].name@,
{
    let mut names: Vec<&str> = Vec::new();
    let mut k: usize = 0;
    while k < ports.len()
        invariant
            k <= ports@.len(),
            names@.len() == k,
            forall|j: int| 0 <= j < k ==> (#[trigger] names@[j])@ == ports@[j].name@,
        decreases ports@.len() - k,
    {
        names.push(ports[k].name.as_str());
        k = k + 1;
    }
    names
}

} // verus!
