//! Putting executors together.

use std::time::Instant;
use vstd::prelude::*;
use crate::activation::Crew;
use crate::builder::{all_plain, products};
use crate::control::{CancellationToken, ControlReceiver, ControlSender};
use crate::delivery::placed;
use crate::error::{Error, Result};
use crate::executor::{notes, DataflowExecutor, ExecutorConfig};
use crate::frontier::{drain_step, drains_by, is_drained, Notificator, NotificatorView};
use crate::graph::{DataflowGraph, EdgeInfo};
use crate::materialize::{
    adjacency, can_open, fails_at, has_factory, is_adjacency, is_factory_for, is_position_map, keys,
    made_at, make_operators, open_channels, position_map, sort_by_key, sorted, sorting_is_sorted,
};
use crate::metrics::{DataflowMetrics, MetricsView};
use crate::order::Timestamp;
use crate::progress::{is_frontier, ProbeHandle, ProgressTracker};
use crate::schedulable::{BoxedChannelFactory, BoxedOperator, BoxedOperatorFactory, WorkerContext};
use crate::schedule::{count_true, task_lists, FusedStageTask, Schedule, ScheduleView};
use crate::shared::{Anything, Shared};
use crate::stage::{FusedActivationOrder, StageInfo};
use crate::text::{decimal, push_usize};
use crate::topology::settling_order;
use crate::wake::WakeHandle;

verus! {

/// The positions of the operators with the given indices, as far as they have one.
pub open spec fn places(map: Seq<usize>, ops: Seq<usize>) -> Seq<usize>
    decreases ops.len(),
{
    if ops.len() == 0 {
        Seq::empty()
    } else {
        let before = places(map, ops.drop_last());
        if placed(map, ops.last()) {
            before.push(map[ops.last() as int])
        } else {
            before
        }
    }
}

/// The positions of the operators with the given indices, as far as they have one.
fn find_places(map: &Vec<usize>, ops: &Vec<usize>, n: usize) -> (out: Vec<usize>)
    requires
        forall|x: int|
            0 <= x < map@.len() ==> #[trigger] map@[x] == usize::MAX || map@[x] < n,
    ensures
        out@ == places(map@, ops@),
        forall|i: int| 0 <= i < out@.len() ==> #[trigger] out@[i] < n,
{
    let mut out: Vec<usize> = Vec::new();
    let mut i: usize = 0;
    assert(ops@.take(0) =~= Seq::<usize>::empty());
    while i < ops.len()
        invariant
            i <= ops@.len(),
            forall|x: int|
                0 <= x < map@.len() ==> #[trigger] map@[x] == usize::MAX || map@[x] < n,
            out@ == places(map@, ops@.take(i as int)),
            forall|k: int| 0 <= k < out@.len() ==> #[trigger] out@[k] < n,
        decreases ops@.len() - i,
    {
        let op: usize = ops[i];
        proof {
            let longer = ops@.take(i + 1);
            assert(longer.drop_last() =~= ops@.take(i as int));
            assert(longer.last() == op);
        }
        if op < map.len() && map[op] != usize::MAX {
            out.push(map[op]);
        }
        i = i + 1;
    }
    assert(ops@.take(i as int) =~= ops@);
    out
}

/// What is said of a graph whose operators are not those of the executor.
pub open spec fn fusion_mismatch(found: nat, n: nat) -> Seq<char> {
    "Cannot enable fusion: graph produced "@ + decimal(found) + " operator positions but executor has "@
        + decimal(n) + " operators"@
}

fn fusion_mismatch_text(found: usize, n: usize) -> (text: String)
    ensures
        text@ == fusion_mismatch(found as nat, n as nat),
{
    let mut text = "Cannot enable fusion: graph produced ".to_owned();
    push_usize(&mut text, found);
    text.append(" operator positions but executor has ");
    push_usize(&mut text, n);
    text.append(" operators");
    text
}

/// The operators of each stage, as positions.
pub open spec fn stage_places(map: Seq<usize>, stages: Seq<StageInfo>) -> Seq<Seq<usize>> {
    stages.map_values(|s: StageInfo| places(map, s.operator_indices@))
}

/// For each operator, the last task that holds it, or the largest number if none does.
pub open spec fn is_task_map(tasks: Seq<Seq<usize>>, n: nat, task_of: Seq<usize>) -> bool {
    &&& task_of.len() == n
    &&& forall|p: int| 0 <= p < n ==> is_task_of(tasks, p, #[trigger] task_of[p])
}

/// `t` is the last task that holds `p`, or the largest number if none does.
pub open spec fn is_task_of(tasks: Seq<Seq<usize>>, p: int, t: usize) -> bool {
    if t == usize::MAX {
        forall|u: int| 0 <= u < tasks.len() ==> !(#[trigger] tasks[u]).contains(p as usize)
    } else {
        &&& t < tasks.len()
        &&& tasks[t as int].contains(p as usize)
        &&& forall|u: int| t < u < tasks.len() ==> !(#[trigger] tasks[u]).contains(p as usize)
    }
}

impl<T: Timestamp> DataflowExecutor<T> {
    /// Attaches a tracker. A notificator with the present frontier is kept for each operator.
    pub fn set_progress_tracker(&mut self, tracker: ProgressTracker<T>)
        requires
            old(self).wf(),
            tracker.wf(),
            tracker@.initialized,
        ensures
            final(self).wf(),
            final(self).progress_tracker == Some(tracker),
            final(self).notificators@.len() == old(self).crew.operators@.len(),
            forall|p: int|
                0 <= p < old(self).crew.operators@.len() ==> (#[trigger]
                final(self).notificators@[p] matches Some(n) && n@.pending == Seq::<T>::empty()
                    && is_frontier(
                    tracker@.links,
                    tracker@.outstanding,
                    old(self).crew.operators@[p].id(),
                    n@.frontier,
                )),
            *final(self) == (DataflowExecutor {
                progress_tracker: final(self).progress_tracker,
                notificators: final(self).notificators,
                ..*old(self)
            }),
    {
        let mut notificators: Vec<Option<Notificator<T>>> = Vec::new();
        let mut p: usize = 0;
        while p < self.crew.operators.len()
            invariant
                *self == *old(self),
                p <= self.crew.operators@.len(),
                notificators@.len() == p,
                forall|q: int|
                    0 <= q < p ==> (#[trigger] notificators@[q] matches Some(n) && n@.pending
                        == Seq::<T>::empty() && is_frontier(
                        tracker@.links,
                        tracker@.outstanding,
                        self.crew.operators@[q].id(),
                        n@.frontier,
                    )),
            decreases self.crew.operators@.len() - p,
        {
            let op: usize = self.crew.operators[p].index();
            let frontier = tracker.operator_input_frontier_meet(op);
            notificators.push(Some(Notificator::new(frontier)));
            p = p + 1;
        }
        self.notificators = notificators;
        self.progress_tracker = Some(tracker);
    }

    /// Has a probe watch the frontier of an operator. It sees the present frontier at once.
    pub fn register_probe(&mut self, operator_index: usize, probe: ProbeHandle<T>)
        ensures
            *final(self) == (DataflowExecutor { probes: final(self).probes, ..*old(self) }),
            final(self).probes@ == old(self).probes@.push((operator_index, probe)),
    {
        match &self.progress_tracker {
            Some(tracker) => {
                let frontier = tracker.operator_input_frontier_meet(operator_index);
                probe.update_frontier(&frontier);
            },
            None => {},
        }
        self.probes.push((operator_index, probe));
    }

    /// Attaches the signals between workers: errors are told to the others.
    pub fn set_control_broadcast(&mut self, sender: ControlSender, receiver: ControlReceiver)
        ensures
            *final(self) == (DataflowExecutor {
                crew: Crew { control_sender: Some(sender), ..old(self).crew },
                control_receiver: Some(receiver),
                ..*old(self)
            }),
    {
        self.crew.control_sender = Some(sender);
        self.control_receiver = Some(receiver);
    }

    /// Has sweeps visit the operators in the given order.
    pub fn enable_fusion(&mut self, order: FusedActivationOrder)
        requires
            old(self).wf(),
            order.positions@.len() == old(self).crew.operators@.len(),
            forall|i: int|
                0 <= i < order.positions@.len() ==> #[trigger]
                order.positions@[i] < old(self).crew.operators@.len(),
        ensures
            final(self).wf(),
            *final(self) == (DataflowExecutor { fused_order: Some(order), ..*old(self) }),
    {
        self.fused_order = Some(order);
    }

    /// Has sweeps visit the operators in the topological order of a graph. A cycle is an error, and
    /// so is a graph that does not hold exactly as many operators of the executor as there are.
    pub fn enable_fusion_from_graph(&mut self, graph: &DataflowGraph) -> (r: Result<()>)
        requires
            old(self).wf(),
        ensures
            final(self).wf(),
            ({
                let order = settling_order(graph@.operators.dom(), graph@.edges);
                let positions = places(old(self).index_to_pos@, order);
                let n = old(self).crew.operators@.len();
                let acyclic = order.len() == graph@.operators.dom().len();
                &&& r is Ok <==> acyclic && positions.len() == n
                &&& r is Err ==> *final(self) == *old(self)
                &&& r matches Err(e) ==> if acyclic {
                    e matches Error::InvalidGraph(text) && text@ == fusion_mismatch(
                        positions.len(),
                        n,
                    )
                } else {
                    e == (Error::CycleDetected {
                        processed: order.len() as usize,
                        total: graph@.operators.dom().len() as usize,
                    })
                }
                &&& r is Ok ==> (final(self).fused_order matches Some(o) && o.positions@
                    == positions) && *final(self) == (DataflowExecutor {
                    fused_order: final(self).fused_order,
                    ..*old(self)
                })
            }),
    {
        let sorted_indices = graph.topological_order();
        match sorted_indices {
            Err(e) => Err(e),
            Ok(indices) => {
                let n: usize = self.crew.operators.len();
                let positions = find_places(&self.index_to_pos, &indices, n);
                if positions.len() != n {
                    return Err(Error::InvalidGraph(fusion_mismatch_text(positions.len(), n)));
                }
                self.fused_order = Some(FusedActivationOrder::new(positions));
                Ok(())
            },
        }
    }

    /// Schedules whole stages in place of operators. Operators without a position are left out.
    pub fn enable_stage_tasks(&mut self, stages: &Vec<StageInfo>)
        requires
            old(self).wf(),
        ensures
            final(self).wf(),
            *final(self) == (DataflowExecutor { schedule: final(self).schedule, ..*old(self) }),
            is_task_map(
                stage_places(old(self).index_to_pos@, stages@),
                old(self).crew.operators@.len(),
                final(self).schedule@.task_of,
            ),
            final(self).schedule@ == (ScheduleView {
                tasks: stage_places(old(self).index_to_pos@, stages@),
                task_of: final(self).schedule@.task_of,
                ..old(self).schedule@
            }).emptied().refilled_tasks(),
            final(self).schedule@.done == old(self).schedule@.done,
    {
        let n: usize = self.crew.operators.len();
        let ghost map = self.index_to_pos@;
        let mut tasks: Vec<FusedStageTask> = Vec::new();
        let mut task_of: Vec<usize> = Vec::new();
        let mut p: usize = 0;
        while p < n
            invariant
                p <= n,
                task_of@.len() == p,
                forall|q: int| 0 <= q < p ==> #[trigger] task_of@[q] == usize::MAX,
            decreases n - p,
        {
            task_of.push(usize::MAX);
            p = p + 1;
        }
        let mut t: usize = 0;
        while t < stages.len()
            invariant
                *self == *old(self),
                self.wf(),
                map == self.index_to_pos@,
                n == self.crew.operators@.len(),
                t <= stages@.len(),
                tasks@.len() == t,
                task_lists(tasks@) == stage_places(map, stages@).take(t as int),
                forall|u: int, i: int|
                    0 <= u < t && 0 <= i < tasks@[u].operator_positions@.len()
                        ==> #[trigger] tasks@[u].operator_positions@[i] < n,
                is_task_map(task_lists(tasks@), n as nat, task_of@),
            decreases stages@.len() - t,
        {
            let positions = find_places(&self.index_to_pos, &stages[t].operator_indices, n);
            let ghost before = task_lists(tasks@);
            let ghost of = task_of@;
            let mut i: usize = 0;
            while i < positions.len()
                invariant
                    i <= positions@.len(),
                    t < usize::MAX,
                    of.len() == n,
                    task_of@.len() == n,
                    forall|k: int| 0 <= k < positions@.len() ==> #[trigger] positions@[k] < n,
                    forall|q: int|
                        0 <= q < n ==> #[trigger] task_of@[q] == if positions@.take(
                            i as int,
                        ).contains(q as usize) {
                            t
                        } else {
                            of[q]
                        },
                decreases positions@.len() - i,
            {
                let pos: usize = positions[i];
                let ghost prior = task_of@;
                task_of.set(pos, t);
                proof {
                    let shorter = positions@.take(i as int);
                    let longer = positions@.take(i + 1);
                    assert(longer =~= shorter.push(pos));
                    assert forall|q: int| 0 <= q < n implies #[trigger] task_of@[q]
                        == if longer.contains(q as usize) {
                        t
                    } else {
                        of[q]
                    } by {
                        assert(prior[q] == if shorter.contains(q as usize) {
                            t
                        } else {
                            of[q]
                        });
                        if shorter.contains(q as usize) {
                            let k = choose|k: int|
                                0 <= k < shorter.len() && shorter[k] == q as usize;
                            assert(longer[k] == q as usize);
                        }
                        if q == pos {
                            assert(longer[i as int] == q as usize);
                        }
                    }
                }
                i = i + 1;
            }
            assert(positions@.take(i as int) =~= positions@);
            tasks.push(FusedStageTask { operator_positions: positions });
            proof {
                let after = task_lists(tasks@);
                assert(after =~= before.push(positions@));
                assert(after =~= stage_places(map, stages@).take(t + 1));
                assert forall|q: int| 0 <= q < n implies is_task_of(
                    after,
                    q,
                    #[trigger] task_of@[q],
                ) by {
                    assert(is_task_of(before, q, of[q]));
                    if positions@.contains(q as usize) {
                        assert(after[t as int] == positions@);
                    } else if of[q] != usize::MAX {
                        assert(after[of[q] as int] == before[of[q] as int]);
                    }
                    assert forall|u: int| 0 <= u < after.len() && task_of@[q] != usize::MAX && u
                        > task_of@[q] implies !(#[trigger] after[u]).contains(q as usize) by {
                        if u < t {
                            assert(after[u] == before[u]);
                        }
                    }
                    if task_of@[q] == usize::MAX {
                        assert forall|u: int| 0 <= u < after.len() implies !(
                        #[trigger] after[u]).contains(q as usize) by {
                            if u < t {
                                assert(after[u] == before[u]);
                            }
                        }
                    }
                }
            }
            t = t + 1;
        }
        proof {
            assert(stage_places(map, stages@).take(t as int) =~= stage_places(map, stages@));
        }
        self.schedule.set_tasks(tasks, task_of);
    }
}

/// The edges of a graph: the regular ones, then the feedback edges.
pub open spec fn all_edges(graph: &DataflowGraph) -> Seq<EdgeInfo> {
    graph@.edges + graph@.feedback_edges
}

/// The edges of a graph: the regular ones, then the feedback edges.
fn collect_edges(graph: &DataflowGraph) -> (edges: Vec<EdgeInfo>)
    ensures
        edges@ == all_edges(graph),
{
    let mut edges: Vec<EdgeInfo> = Vec::new();
    let regular = graph.edges();
    let mut i: usize = 0;
    while i < regular.len()
        invariant
            i <= regular@.len(),
            edges@ == regular@.take(i as int),
        decreases regular@.len() - i,
    {
        edges.push(regular[i]);
        i = i + 1;
        assert(edges@ =~= regular@.take(i as int));
    }
    assert(edges@ =~= regular@);
    let feedback = graph.feedback_edges();
    let mut j: usize = 0;
    while j < feedback.len()
        invariant
            j <= feedback@.len(),
            edges@ == regular@ + feedback@.take(j as int),
        decreases feedback@.len() - j,
    {
        edges.push(feedback[j]);
        j = j + 1;
        assert(edges@ =~= regular@ + feedback@.take(j as int));
    }
    assert(feedback@.take(j as int) =~= feedback@);
    edges
}

/// Two lists with the same entries.
pub(crate) proof fn lemma_same_entries<A>(a: Seq<A>, b: Seq<A>)
    requires
        a.to_multiset() == b.to_multiset(),
    ensures
        forall|x: A| a.contains(x) <==> b.contains(x),
{
    broadcast use vstd::seq_lib::group_to_multiset_ensures;

    assert forall|x: A| a.contains(x) <==> b.contains(x) by {
        assert(a.contains(x) <==> a.to_multiset().count(x) > 0);
        assert(b.contains(x) <==> b.to_multiset().count(x) > 0);
    }
}

/// The first edge whose channel cannot be opened; one without a factory is named, and a factory says
/// itself why it fails.
pub open spec fn is_channel_fault(
    factories: Seq<(usize, BoxedChannelFactory)>,
    edge_count: nat,
    i: int,
    e: Error,
) -> bool {
    &&& 0 <= i < edge_count
    &&& !can_open(factories, i)
    &&& forall|j: int| 0 <= j < i ==> #[trigger] can_open(factories, j)
    &&& if has_factory(factories, i) {
        exists|k: int| #[trigger] is_factory_for(factories, i, k) && factories[k].1.refuses(e)
    } else {
        e == (Error::MissingFactory { edge_index: i as usize })
    }
}

/// All operators can be made for a worker, with the edges that their factories are handed.
pub open spec fn all_make<T: Timestamp>(
    factories: Seq<(usize, BoxedOperatorFactory<T>)>,
    edges: Seq<EdgeInfo>,
    context: WorkerContext,
) -> bool {
    forall|k: int|
        0 <= k < factories.len() ==> #[trigger] made_at(sorted(factories), edges, context, k) is Some
}

/// All channels can be opened.
pub open spec fn all_open(factories: Seq<(usize, BoxedChannelFactory)>, edge_count: nat) -> bool {
    forall|i: int| 0 <= i < edge_count ==> #[trigger] can_open(factories, i)
}

/// The operators are those that the factories make for a worker, in the order of their indices: each
/// factory is handed the edges at its operator, in the order of the ports.
pub open spec fn are_made<T: Timestamp>(
    factories: Seq<(usize, BoxedOperatorFactory<T>)>,
    edges: Seq<EdgeInfo>,
    context: WorkerContext,
    operators: Seq<BoxedOperator<T>>,
) -> bool {
    &&& operators.len() == factories.len()
    &&& forall|k: int|
        0 <= k < operators.len() ==> made_at(sorted(factories), edges, context, k) == Some(
            #[trigger] operators[k],
        )
}

/// An executor works with just the operators that plain factories make, and none is lost.
pub proof fn made_operators_are_the_products<T: Timestamp>(
    factories: Seq<(usize, BoxedOperatorFactory<T>)>,
    edges: Seq<EdgeInfo>,
    context: WorkerContext,
    operators: Seq<BoxedOperator<T>>,
)
    requires
        all_plain(factories),
        are_made(factories, edges, context, operators),
    ensures
        operators.len() == products(factories).len(),
        forall|op: BoxedOperator<T>|
            operators.contains(op) <==> products(factories).contains(op),
{
    let in_order = sorted(factories);
    let all = products(factories);
    sorting_is_sorted(factories);
    lemma_same_entries(in_order, factories);
    assert forall|k: int| 0 <= k < in_order.len() implies (#[trigger] in_order[k]).1.sole()
        == Some(operators[k]) by {
        assert(in_order.contains(in_order[k]));
        assert(factories.contains(in_order[k]));
        let j = choose|j: int| 0 <= j < factories.len() && factories[j] == in_order[k];
        assert(factories[j].1.is_plain());
        assert(made_at(in_order, edges, context, k) == Some(operators[k]));
    }
    assert forall|op: BoxedOperator<T>| operators.contains(op) <==> all.contains(op) by {
        if operators.contains(op) {
            let k = choose|k: int| 0 <= k < operators.len() && operators[k] == op;
            assert(in_order.contains(in_order[k]));
            assert(factories.contains(in_order[k]));
            let j = choose|j: int| 0 <= j < factories.len() && factories[j] == in_order[k];
            assert(all[j] == op);
        }
        if all.contains(op) {
            let j = choose|j: int| 0 <= j < all.len() && all[j] == op;
            assert(factories.contains(factories[j]));
            assert(in_order.contains(factories[j]));
            let k = choose|k: int| 0 <= k < in_order.len() && in_order[k] == factories[j];
            assert(operators[k] == op);
        }
    }
}

/// The metrics have a counter for each operator, at 0.
pub open spec fn counts_for<T: Timestamp>(
    m: DataflowMetrics,
    operators: Seq<BoxedOperator<T>>,
) -> bool {
    let n = operators.len();
    m@ == (MetricsView {
        name: "dataflow"@,
        operators: operators.map_values(|op: BoxedOperator<T>| op.label()),
        activations: Seq::new(n, |i: int| 0u64),
        cpu_nanos: Seq::new(n, |i: int| 0u64),
        wall_nanos: 0,
    })
}

/// The executor of a dataflow with the given edges and factories, before the first sweep.
pub open spec fn is_materialized<T: Timestamp>(
    ex: DataflowExecutor<T>,
    edges: Seq<EdgeInfo>,
    factories: Seq<(usize, BoxedOperatorFactory<T>)>,
    config: ExecutorConfig,
    worker_context: WorkerContext,
) -> bool {
    let n = factories.len();
    &&& ex.wf()
    &&& are_made(factories, edges, worker_context, ex.crew.operators@)
    &&& is_position_map(keys(sorted(factories)), ex.index_to_pos@)
    &&& is_adjacency(
        edges,
        ex.index_to_pos@,
        n as int,
        true,
        ex.schedule@.successors,
    )
    &&& is_adjacency(
        edges,
        ex.index_to_pos@,
        n as int,
        false,
        ex.schedule@.predecessors,
    )
    &&& ex.schedule@.ready == Seq::new(n, |i: int| i as usize)
    &&& ex.schedule@.done == Seq::new(n, |i: int| false)
    &&& ex.schedule@.waiting == Seq::new(n, |i: int| false)
    &&& ex.schedule@.tasks.len() == 0
    &&& ex.config == config
    &&& ex.crew.worker_index == worker_context.place().0
    &&& ex.crew.catch_panics == config.catch_panics
    &&& ex.crew.control_sender is None
    &&& ex.crew.metrics is Some == config.collect_metrics
    &&& ex.crew.metrics matches Some(m) ==> counts_for(m, ex.crew.operators@)
    &&& ex.progress_tracker is None
    &&& ex.notificators@.len() == 0
    &&& ex.probes@.len() == 0
    &&& ex.consecutive_idle == 0
    &&& ex.fused_order is None
    &&& !ex.draining
}

impl<T: Timestamp> DataflowExecutor<T> {
    /// Makes the executor of a dataflow: opens a channel for each edge, then makes the operators in
    /// the order of their indices. At the start all operators are queued.
    pub fn materialize(
        graph: &DataflowGraph,
        operator_factories: Vec<(usize, BoxedOperatorFactory<T>)>,
        channel_factories: Vec<(usize, BoxedChannelFactory)>,
        config: ExecutorConfig,
        cancel: CancellationToken,
        external_wake_handle: Option<WakeHandle>,
        worker_context: WorkerContext,
    ) -> (r: Result<Self>)
        requires
            forall|k: int|
                0 <= k < operator_factories@.len() ==> (#[trigger] operator_factories@[k]).0
                    < usize::MAX,
        ensures
            r is Ok <==> all_open(channel_factories@, all_edges(graph).len()) && all_make(
                operator_factories@,
                all_edges(graph),
                worker_context,
            ),
            r matches Err(e) ==> if all_open(channel_factories@, all_edges(graph).len()) {
                exists|k: int| #[trigger]
                    fails_at(
                        sorted(operator_factories@),
                        all_edges(graph),
                        worker_context,
                        k,
                        e,
                    )
            } else {
                exists|i: int| #[trigger]
                    is_channel_fault(channel_factories@, all_edges(graph).len(), i, e)
            },
            r matches Ok(ex) ==> is_materialized(
                ex,
                all_edges(graph),
                operator_factories@,
                config,
                worker_context,
            ) && ex.cancel == cancel && (external_wake_handle matches Some(h) ==> ex.wake_handle
                == h),
    {
        let edges = collect_edges(graph);
        let wake_handle = match external_wake_handle {
            Some(h) => h,
            None => WakeHandle::new(),
        };
        let opened = open_channels(channel_factories, edges.len(), &worker_context, &wake_handle);
        match opened {
            Ok(_) => {
                assert(all_open(channel_factories@, edges@.len()));
            },
            Err(e) => {
                proof {
                    let i = choose|i: int|
                        {
                            &&& 0 <= i < edges@.len()
                            &&& !#[trigger] can_open(channel_factories@, i)
                            &&& forall|j: int|
                                0 <= j < i ==> #[trigger] can_open(channel_factories@, j)
                            &&& if has_factory(channel_factories@, i) {
                                exists|k: int| #[trigger]
                                    is_factory_for(channel_factories@, i, k)
                                        && channel_factories@[k].1.refuses(e)
                            } else {
                                e == (Error::MissingFactory { edge_index: i as usize })
                            }
                        };
                    assert(is_channel_fault(channel_factories@, edges@.len(), i, e));
                }
                return Err(e);
            },
        }
        let ghost given = operator_factories@;
        proof {
            sorting_is_sorted(given);
            lemma_same_entries(sorted(given), given);
        }
        let factories = sort_by_key(operator_factories);
        proof {
            assert forall|k: int| 0 <= k < factories@.len() implies (
            #[trigger] factories@[k]).0 < usize::MAX by {
                assert(factories@.contains(factories@[k]));
                assert(given.contains(factories@[k]));
            }
        }
        let mut indices: Vec<usize> = Vec::new();
        let mut k: usize = 0;
        while k < factories.len()
            invariant
                k <= factories@.len(),
                indices@ == keys(factories@).take(k as int),
            decreases factories@.len() - k,
        {
            indices.push(factories[k].0);
            k = k + 1;
            assert(indices@ =~= keys(factories@).take(k as int));
        }
        assert(indices@ =~= keys(factories@));
        let made = make_operators(factories, &edges, &worker_context);
        let operators = match made {
            Ok(operators) => {
                assert forall|k: int| 0 <= k < given.len() implies #[trigger] made_at(
                    sorted(given),
                    edges@,
                    worker_context,
                    k,
                ) is Some by {
                    assert(made_at(sorted(given), edges@, worker_context, k) == Some(
                        operators@[k],
                    ));
                }
                operators
            },
            Err(e) => {
                proof {
                    let k = choose|k: int| #[trigger]
                        fails_at(sorted(given), edges@, worker_context, k, e);
                    assert(fails_at(sorted(given), all_edges(graph), worker_context, k, e));
                    assert(made_at(sorted(given), all_edges(graph), worker_context, k) is None);
                }
                return Err(e);
            },
        };
        let n: usize = operators.len();
        let index_to_pos = position_map(&indices);
        let mut schedule = Schedule::new(n);
        schedule.successors_by_pos = adjacency(&edges, &index_to_pos, n, true);
        schedule.predecessors_by_pos = adjacency(&edges, &index_to_pos, n, false);
        let metrics = if config.collect_metrics {
            Some(make_metrics(&operators))
        } else {
            None
        };
        let wall_start = if config.collect_metrics {
            Some(Instant::now())
        } else {
            None
        };
        let crew = Crew {
            operators,
            metrics,
            control_sender: None,
            worker_index: worker_context.worker_index(),
            catch_panics: config.catch_panics,
            trace: Ghost(Seq::empty()),
        };
        Ok(
            DataflowExecutor {
                crew,
                schedule,
                index_to_pos,
                config,
                cancel,
                progress_tracker: None,
                notificators: Vec::new(),
                probes: Vec::new(),
                external_inputs_open: Shared::new(0, Anything),
                wake_handle,
                consecutive_idle: 0,
                control_receiver: None,
                fused_order: None,
                wall_start,
                draining: false,
                drain_started: None,
            },
        )
    }
}

/// A counter for each operator.
fn make_metrics<T: Timestamp>(operators: &Vec<BoxedOperator<T>>) -> (m: DataflowMetrics)
    ensures
        counts_for(m, operators@),
{
    let mut m = DataflowMetrics::new("dataflow");
    let mut p: usize = 0;
    proof {
        let none = operators@.take(0);
        assert(m@.operators =~= none.map_values(|op: BoxedOperator<T>| op.label()));
        assert(m@.activations =~= Seq::new(0, |i: int| 0u64));
        assert(m@.cpu_nanos =~= Seq::new(0, |i: int| 0u64));
        assert(counts_for(m, none));
    }
    while p < operators.len()
        invariant
            p <= operators@.len(),
            counts_for(m, operators@.take(p as int)),
        decreases operators@.len() - p,
    {
        m.register_operator(operators[p].name());
        p = p + 1;
        proof {
            let some = operators@.take(p as int);
            assert(m@.operators =~= some.map_values(|op: BoxedOperator<T>| op.label()));
            assert(m@.activations =~= Seq::new(p as nat, |i: int| 0u64));
            assert(m@.cpu_nanos =~= Seq::new(p as nat, |i: int| 0u64));
        }
    }
    assert(operators@.take(p as int) =~= operators@);
    m
}

impl<T: Timestamp> DataflowExecutor<T> {
    /// The counters of activations, if they are kept.
    pub fn metrics(&self) -> (m: Option<&DataflowMetrics>)
        ensures
            m is Some == self.crew.metrics is Some,
            m matches Some(x) ==> self.crew.metrics == Some(*x),
    {
        match &self.crew.metrics {
            Some(m) => Some(m),
            None => None,
        }
    }

    /// The counter of the inputs from outside that are open.
    pub fn external_inputs_counter(&self) -> (counter: Shared<usize>)
        ensures
            counter == self.external_inputs_open,
    {
        self.external_inputs_open.share()
    }

    /// Notes how many inputs from outside are open.
    pub fn set_external_inputs_open(&self, count: usize)
        ensures
            exists|before: usize| #[trigger] self.external_inputs_open.turned(before, count),
    {
        self.external_inputs_open.set(count);
    }

    /// The handle that wakes the executor.
    pub fn wake_handle(&self) -> (h: WakeHandle)
        ensures
            h == self.wake_handle,
    {
        self.wake_handle.share()
    }

    /// Counts the open inputs with a counter of someone else.
    pub fn replace_external_inputs_counter(&mut self, counter: Shared<usize>)
        ensures
            *final(self) == (DataflowExecutor { external_inputs_open: counter, ..*old(self) }),
    {
        self.external_inputs_open = counter;
    }

    /// Whether whole stages are scheduled.
    pub fn has_stage_tasks(&self) -> (b: bool)
        ensures
            b == (self.schedule@.tasks.len() > 0),
    {
        self.schedule.stage_tasks.len() > 0
    }

    /// Whether operators are visited in a fixed order, all of them or stage by stage.
    pub fn is_fused(&self) -> (b: bool)
        ensures
            b == (self.fused_order is Some || self.schedule@.tasks.len() > 0),
    {
        match &self.fused_order {
            Some(_) => true,
            None => self.schedule.stage_tasks.len() > 0,
        }
    }

    /// The number of operators.
    pub fn operator_count(&self) -> (n: usize)
        ensures
            n == self.crew.operators@.len(),
    {
        self.crew.operators.len()
    }

    /// Whether all operators have finished.
    pub fn is_complete(&self) -> (b: bool)
        ensures
            b == self.schedule@.all_done(),
    {
        self.schedule.is_complete()
    }

    /// The number of operators that have finished.
    pub fn completed_count(&self) -> (n: usize)
        ensures
            n == count_true(self.schedule@.done),
    {
        self.schedule.completed_count()
    }

    /// Requests a notification of the operator at `pos` for the time at which `time` is complete.
    /// Without a notificator at `pos` nothing happens.
    pub fn notify_at(&mut self, pos: usize, time: T)
        ensures
            *final(self) == (DataflowExecutor {
                notificators: final(self).notificators,
                ..*old(self)
            }),
            final(self).notificators@.len() == old(self).notificators@.len(),
            forall|p: int|
                0 <= p < old(self).notificators@.len() && p != pos ==> #[trigger]
                final(self).notificators@[p] == old(self).notificators@[p],
            pos < old(self).notificators@.len() ==> match (
                notes(old(self).notificators@)[pos as int],
                notes(final(self).notificators@)[pos as int],
            ) {
                (Some(b), Some(a)) => a == (NotificatorView {
                    pending: if b.pending.contains(time) {
                        b.pending
                    } else {
                        b.pending.push(time)
                    },
                    ..b
                }),
                (None, None) => true,
                _ => false,
            },
    {
        if pos < self.notificators.len() {
            match &mut self.notificators[pos] {
                Some(n) => {
                    n.notify_at(time);
                },
                None => {},
            }
        }
    }

    /// Takes the notifications of the operator at `pos` that can be delivered, in the order in
    /// which a notificator delivers them.
    pub fn drain_notifications(&mut self, pos: usize) -> (times: Vec<T>)
        ensures
            *final(self) == (DataflowExecutor {
                notificators: final(self).notificators,
                ..*old(self)
            }),
            final(self).notificators@.len() == old(self).notificators@.len(),
            forall|p: int|
                0 <= p < old(self).notificators@.len() && p != pos ==> #[trigger]
                final(self).notificators@[p] == old(self).notificators@[p],
            pos < old(self).notificators@.len() ==> match (
                notes(old(self).notificators@)[pos as int],
                notes(final(self).notificators@)[pos as int],
            ) {
                (Some(b), Some(a)) => is_drained(b, a, times@),
                (None, None) => times@.len() == 0,
                _ => false,
            },
            pos >= old(self).notificators@.len() ==> times@.len() == 0,
    {
        let mut times: Vec<T> = Vec::new();
        if pos < self.notificators.len() {
            let mut held: Option<Notificator<T>> = None;
            core::mem::swap(&mut held, &mut self.notificators[pos]);
            match held {
                Some(n) => {
                    let mut n = n;
                    drain_ready(&mut n, &mut times);
                    self.notificators.set(pos, Some(n));
                },
                None => {},
            }
        }
        times
    }
}

fn drain_ready<T: Timestamp>(n: &mut Notificator<T>, times: &mut Vec<T>)
    requires
        old(times)@.len() == 0,
    ensures
        is_drained(old(n)@, final(n)@, final(times)@),
{
    let ghost mut states = seq![n@];
    let mut more = true;
    assert(drains_by(states, times@));
    while more
        invariant
            drains_by(states, times@),
            states[0] == old(n)@,
            states.last() == n@,
            !more ==> !n@.ready(),
        decreases n@.pending.len(),
            (if more {
                1int
            } else {
                0int
            }),
    {
        let ghost before = n@;
        match n.next() {
            Some(t) => {
                let ghost seen = times@;
                times.push(t);
                proof {
                    let i = choose|i: int| #[trigger]
                        before.is_next(i) && t == before.pending[i] && n@.pending
                            == before.pending.remove(i);
                    let longer = states.push(n@);
                    assert forall|k: int| 0 <= k < times@.len() implies #[trigger] drain_step(
                        longer,
                        times@,
                        k,
                    ) by {
                        if k < seen.len() {
                            assert(drain_step(states, seen, k));
                            let j = choose|j: int| #[trigger]
                                states[k].is_next(j) && seen[k] == states[k].pending[j] && states[k
                                    + 1] == (NotificatorView {
                                    pending: states[k].pending.remove(j),
                                    ..states[k]
                                });
                            assert(longer[k] == states[k] && longer[k + 1] == states[k + 1]);
                            assert(longer[k].is_next(j));
                        } else {
                            assert(longer[k] == before);
                            assert(longer[k].is_next(i));
                        }
                    }
                    states = longer;
                }
            },
            None => {
                more = false;
            },
        }
    }
}

} // verus!
