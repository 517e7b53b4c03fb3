use std::collections::VecDeque;
use std::sync::atomic::{AtomicBool, Ordering};
use std::sync::Arc;
use std::cell::Cell;
use std::rc::Rc;
use std::task::{Wake, Waker};

use instancy::builder::DataflowBuilder;
use instancy::strand::bounded_channel_with_wake;
use instancy::control::CancellationToken;
use instancy::error::{Error, Result};
use instancy::executor::{DataflowExecutor, ExecutorConfig, PollOutcome};
use instancy::frontier::{Antichain, Notificator};
use instancy::graph::{DataflowGraph, EdgeInfo, OperatorInfo};
use instancy::progress::SubgraphBuilder;
use instancy::runtime::SimpleRuntime;
use instancy::schedulable::{
    activate_operator, extract_panic_message, ActivationOutcome, BoxedOperator, PanicPayload,
    SchedulableOperator,
};
use instancy::stage::{FusedActivationOrder, StageId, StageInfo};
use instancy::stream::Slot;
use instancy::verdict::SweepOutcome;
use instancy::wake::WakeHandle;

/// A trivial operator that counts activations and becomes done after N.
struct CountingOperator {
    name: String,
    index: usize,
    stage_id: StageId,
    remaining: usize,
}

impl SchedulableOperator<u64> for CountingOperator {
    fn activate(&mut self) -> Result<ActivationOutcome> {
        if self.remaining == 0 {
            return Ok(ActivationOutcome::Done);
        }
        self.remaining -= 1;
        if self.remaining == 0 {
            Ok(ActivationOutcome::Done)
        } else {
            Ok(ActivationOutcome::MadeProgress)
        }
    }

    fn is_done(&self) -> bool {
        self.remaining == 0
    }

    fn name(&self) -> &str {
        &self.name
    }

    fn index(&self) -> usize {
        self.index
    }

    fn stage_id(&self) -> StageId {
        self.stage_id
    }

    fn close_inputs(&mut self) {
        self.remaining = 0;
    }

    fn queued_times(&self) -> Vec<u64> {
        Vec::new()
    }

    fn held_times(&self) -> Vec<u64> {
        Vec::new()
    }

    fn requested_times(&self) -> Vec<u64> {
        Vec::new()
    }

    fn update_input_frontier(&mut self, _frontier: &Antichain<u64>) {}

    fn has_ready_notifications(&self) -> bool {
        false
    }
}

/// An operator that always returns Idle.
struct IdleOperator {
    index: usize,
    stage_id: StageId,
    closed: bool,
}

impl SchedulableOperator<u64> for IdleOperator {
    fn activate(&mut self) -> Result<ActivationOutcome> {
        if self.closed {
            return Ok(ActivationOutcome::Done);
        }
        Ok(ActivationOutcome::Idle)
    }

    fn is_done(&self) -> bool {
        self.closed
    }

    fn name(&self) -> &str {
        "idle"
    }

    fn index(&self) -> usize {
        self.index
    }

    fn stage_id(&self) -> StageId {
        self.stage_id
    }

    fn close_inputs(&mut self) {
        self.closed = true;
    }

    fn queued_times(&self) -> Vec<u64> {
        Vec::new()
    }

    fn held_times(&self) -> Vec<u64> {
        Vec::new()
    }

    fn requested_times(&self) -> Vec<u64> {
        Vec::new()
    }

    fn update_input_frontier(&mut self, _frontier: &Antichain<u64>) {}

    fn has_ready_notifications(&self) -> bool {
        false
    }
}

/// An operator that panics on its first activation.
struct PanickingOperator {
    name: String,
    index: usize,
    stage_id: StageId,
}

impl SchedulableOperator<u64> for PanickingOperator {
    fn activate(&mut self) -> Result<ActivationOutcome> {
        panic!("operator {} exploded", self.name);
    }

    fn activate_guarded(
        &mut self,
    ) -> std::result::Result<Result<ActivationOutcome>, PanicPayload> {
        Err(PanicPayload::Owned(format!("operator {} exploded", self.name)))
    }

    fn is_done(&self) -> bool {
        false
    }

    fn name(&self) -> &str {
        &self.name
    }

    fn index(&self) -> usize {
        self.index
    }

    fn stage_id(&self) -> StageId {
        self.stage_id
    }

    fn close_inputs(&mut self) {}

    fn queued_times(&self) -> Vec<u64> {
        Vec::new()
    }

    fn held_times(&self) -> Vec<u64> {
        Vec::new()
    }

    fn requested_times(&self) -> Vec<u64> {
        Vec::new()
    }

    fn update_input_frontier(&mut self, _frontier: &Antichain<u64>) {}

    fn has_ready_notifications(&self) -> bool {
        false
    }
}

/// An operator that never finishes and always makes progress.
struct InfiniteOperator;

impl SchedulableOperator<u64> for InfiniteOperator {
    fn activate(&mut self) -> Result<ActivationOutcome> {
        Ok(ActivationOutcome::MadeProgress)
    }

    fn is_done(&self) -> bool {
        false
    }

    fn name(&self) -> &str {
        "infinite"
    }

    fn index(&self) -> usize {
        0
    }

    fn stage_id(&self) -> StageId {
        StageId(0)
    }

    fn close_inputs(&mut self) {}

    fn queued_times(&self) -> Vec<u64> {
        Vec::new()
    }

    fn held_times(&self) -> Vec<u64> {
        Vec::new()
    }

    fn requested_times(&self) -> Vec<u64> {
        Vec::new()
    }

    fn update_input_frontier(&mut self, _frontier: &Antichain<u64>) {}

    fn has_ready_notifications(&self) -> bool {
        false
    }
}

fn counting(name: &str, index: usize, remaining: usize) -> BoxedOperator<u64> {
    BoxedOperator::new(CountingOperator {
        name: name.to_string(),
        index,
        stage_id: StageId::new(0),
        remaining,
    })
}

fn idle(index: usize) -> BoxedOperator<u64> {
    BoxedOperator::new(IdleOperator { index, stage_id: StageId::new(0), closed: false })
}

fn executor_of(operators: Vec<BoxedOperator<u64>>) -> DataflowExecutor<u64> {
    DataflowExecutor::from_operators(operators, ExecutorConfig::default(), 0)
}

struct NoopWaker;

impl Wake for NoopWaker {
    fn wake(self: Arc<Self>) {}
}

fn noop_waker() -> Waker {
    Arc::new(NoopWaker).into()
}

struct TrackingWaker {
    woken: AtomicBool,
}

impl Wake for TrackingWaker {
    fn wake(self: Arc<Self>) {
        self.woken.store(true, Ordering::Release);
    }
}

#[test]
fn executor_runs_single_operator_to_completion() {
    let mut executor = executor_of(vec![counting("counter", 0, 3)]);
    let result = executor.run();
    assert!(result.unwrap());
    assert!(executor.is_complete());
}

#[test]
fn executor_respects_cancellation() {
    let cancel = CancellationToken::new();
    cancel.cancel();

    let mut executor = executor_of(vec![counting("infinite", 0, usize::MAX)]);
    executor.cancel = cancel;

    let result = executor.run();
    assert!(matches!(result, Err(Error::Cancelled { .. })));
}

#[test]
fn executor_handles_multiple_operators() {
    let mut executor = executor_of(vec![counting("a", 0, 2), counting("b", 1, 5)]);
    let result = executor.run();
    assert!(result.unwrap());
    assert!(executor.is_complete());
}

#[test]
fn executor_empty_dataflow_completes_immediately() {
    let mut executor = executor_of(vec![]);
    let result = executor.run();
    assert!(result.unwrap());
    assert!(executor.is_complete());
}

#[test]
fn executor_idle_operator_reaches_quiescence() {
    let config = ExecutorConfig {
        max_activations_per_step: 10,
        max_idle_sweeps: 3,
        max_sweeps_per_poll: 0,
        catch_panics: false,
        collect_metrics: false,
        drain_timeout: None,
    };
    let mut executor = DataflowExecutor::from_operators(vec![idle(0)], config, 0);

    // Should terminate via quiescence, not infinite loop.
    let result = executor.run();
    assert!(!result.unwrap());
}

#[test]
fn executor_runs_wired_pipeline() {
    let mut builder = DataflowBuilder::<u64>::new("wired");
    let source = builder.source("source", vec![(0u64, vec![1, 2, 3]), (1u64, vec![10, 20])]);
    let double = source.unary(&mut builder, "double", |input, output| {
        while let Some((time, data)) = input.next() {
            let mut session = output.session(time);
            for item in data {
                session.give(item * 2);
            }
            session.finish(output);
        }
        Ok(())
    });
    let sink = double.collect(&mut builder);
    let dataflow = builder.build().unwrap();
    let mut executor = SimpleRuntime::new().prepare(dataflow);

    let result = executor.run();
    assert!(result.unwrap());
    assert!(executor.is_complete());
    assert_eq!(executor.completed_count(), 3);
    let collected: Vec<(u64, Vec<i32>)> = sink.replace(Vec::new());
    assert_eq!(collected, vec![(0, vec![2, 4, 6]), (1, vec![20, 40])]);
}

#[test]
fn executor_with_progress_tracker_attached() {
    let mut builder = SubgraphBuilder::new();
    builder.add_operator(1, "op").unwrap();
    let mut tracker = builder.build::<u64>();
    tracker.initialize();

    let mut executor = executor_of(vec![counting("op", 1, 2)]);
    assert_eq!(executor.index_to_pos, vec![usize::MAX, 0]);
    executor.set_progress_tracker(tracker);
    assert!(executor.progress_tracker.is_some());

    let result = executor.run();
    assert!(result.unwrap());
}

#[test]
fn notify_at_and_drain_notifications() {
    let mut executor = executor_of(vec![counting("op", 1, 1)]);
    executor.notificators = vec![Some(Notificator::new(Antichain::from_elem(0u64)))];

    // Request notification at time 5
    executor.notify_at(0, 5);

    // Nothing ready yet (the frontier is still at 0)
    let ready = executor.drain_notifications(0);
    assert!(ready.is_empty());

    // Advance the frontier past time 5 (an empty frontier: all times complete)
    if let Some(Some(notificator)) = executor.notificators.get_mut(0) {
        notificator.update_frontier(&Antichain::new());
    }

    let ready = executor.drain_notifications(0);
    assert_eq!(ready, vec![5]);

    // Draining again yields nothing
    let ready = executor.drain_notifications(0);
    assert!(ready.is_empty());
}

#[test]
fn notify_at_fires_immediately_when_frontier_already_past() {
    let mut executor = executor_of(vec![counting("op", 1, 1)]);
    executor.notificators = vec![Some(Notificator::new(Antichain::new()))];

    executor.notify_at(0, 3);
    let ready = executor.drain_notifications(0);
    assert_eq!(ready, vec![3]);
}

#[test]
fn poll_run_completes_simple_dataflow() {
    let mut executor = executor_of(vec![counting("counter", 0, 2)]);
    let result = executor.poll_run(&noop_waker());
    assert!(matches!(result, PollOutcome::Ready(Ok(true))));
}

fn waiting_executor() -> DataflowExecutor<u64> {
    let config = ExecutorConfig {
        max_activations_per_step: 1024,
        max_idle_sweeps: 1,
        max_sweeps_per_poll: 0,
        catch_panics: false,
        collect_metrics: false,
        drain_timeout: None,
    };
    let executor = DataflowExecutor::from_operators(vec![idle(0)], config, 0);
    executor.set_external_inputs_open(1);
    executor
}

#[test]
fn poll_run_returns_pending_with_external_inputs() {
    let tracking = Arc::new(TrackingWaker { woken: AtomicBool::new(false) });
    let waker: Waker = tracking.into();
    let mut executor = waiting_executor();

    let mut got_pending = false;
    for _ in 0..200 {
        match executor.poll_run(&waker) {
            PollOutcome::Pending => {
                got_pending = true;
                break;
            }
            PollOutcome::Ready(_) => {
                panic!("Should not have resolved yet: external inputs open");
            }
        }
    }
    assert!(got_pending, "Expected Pending due to external inputs");
}

#[test]
fn poll_run_wakes_on_notification() {
    let tracking = Arc::new(TrackingWaker { woken: AtomicBool::new(false) });
    let waker: Waker = tracking.clone().into();
    let mut executor = waiting_executor();
    let wake = executor.wake_handle();

    // Drive to Pending
    let mut reached_pending = false;
    for _ in 0..200 {
        if matches!(executor.poll_run(&waker), PollOutcome::Pending) {
            reached_pending = true;
            break;
        }
    }
    assert!(reached_pending);
    assert!(!tracking.woken.load(Ordering::Acquire));

    // Notify via the wake handle: the waker should fire
    wake.notify();
    assert!(tracking.woken.load(Ordering::Acquire));
}

#[test]
fn poll_run_cancelled_returns_error() {
    let cancel = CancellationToken::new();
    cancel.cancel();

    let mut executor = executor_of(vec![counting("op", 0, 5)]);
    executor.cancel = cancel;
    let result = executor.poll_run(&noop_waker());
    match result {
        PollOutcome::Ready(Err(Error::Cancelled { .. })) => {}
        other => panic!("Expected Cancelled error, got {:?}", other),
    }
}

#[test]
fn propagate_completion_requeues_when_all_predecessors_complete() {
    let mut executor =
        executor_of(vec![counting("a", 0, 1), counting("b", 1, 1), counting("c", 2, 1)]);
    let schedule = &mut executor.schedule;
    schedule.ready_queue.clear();
    schedule.in_queue.fill(false);
    schedule.successors_by_pos = vec![vec![1], vec![2], Vec::new()];
    schedule.predecessors_by_pos = vec![Vec::new(), vec![0], vec![1]];

    schedule.done[0] = true;
    schedule.propagate_completion(0);
    assert_eq!(schedule.ready_queue, VecDeque::from([1]));
    assert_eq!(schedule.in_queue, vec![false, true, false]);

    let dequeued = schedule.ready_queue.pop_front();
    assert_eq!(dequeued, Some(1));
    schedule.in_queue[1] = false;

    schedule.done[1] = true;
    schedule.propagate_completion(1);
    assert_eq!(schedule.ready_queue, VecDeque::from([2]));
    assert_eq!(schedule.in_queue, vec![false, false, true]);
}

#[test]
fn bounded_channel_with_wake_notifies_on_push() {
    let wake = WakeHandle::new();
    // Drain the initial notification
    wake.take_notification();

    let (mut push, _pull) = bounded_channel_with_wake::<u64, i32>(4, Some(wake.share()));

    push.push(0, vec![1]).unwrap();
    assert!(wake.take_notification());
}

#[test]
fn bounded_channel_with_wake_notifies_on_close() {
    let wake = WakeHandle::new();
    wake.take_notification();

    let (mut push, _pull) = bounded_channel_with_wake::<u64, i32>(4, Some(wake.share()));

    push.close();
    assert!(wake.take_notification());
}

#[test]
fn bounded_channel_pull_notifies_when_freeing_capacity() {
    let wake = WakeHandle::new();

    let (mut push, mut pull) = bounded_channel_with_wake::<u64, i32>(2, Some(wake.share()));

    // Fill the channel to capacity
    push.push(0, vec![1]).unwrap();
    push.push(0, vec![2]).unwrap();
    assert!(push.push(0, vec![3]).is_err()); // backpressure

    // Drain the notification from pushes
    wake.take_notification();

    // Pull should notify (the channel was full, now has space)
    let _ = pull.pull();
    assert!(wake.take_notification());
}

#[test]
fn bounded_channel_pull_no_notify_when_not_full() {
    let wake = WakeHandle::new();

    let (mut push, mut pull) = bounded_channel_with_wake::<u64, i32>(4, Some(wake.share()));

    // Push one item (channel not full)
    push.push(0, vec![1]).unwrap();
    wake.take_notification(); // drain the push notification

    // Pull from a channel that is not full should not notify
    let _ = pull.pull();
    assert!(!wake.take_notification());
}

#[test]
fn poll_budget_yields_after_max_sweeps() {
    let wake_handle = WakeHandle::new();
    let budget = 4;
    let config = ExecutorConfig {
        max_activations_per_step: 1024,
        max_idle_sweeps: 3,
        max_sweeps_per_poll: budget,
        catch_panics: false,
        collect_metrics: false,
        drain_timeout: None,
    };
    let mut executor = DataflowExecutor::from_operators(vec![counting("busy", 0, 100)], config, 0);
    executor.wake_handle = wake_handle.share();

    // First poll: should yield after `budget` sweeps
    let result = executor.poll_run(&noop_waker());
    assert!(
        matches!(result, PollOutcome::Pending),
        "Expected Pending after budget exhaustion, got {:?}",
        result
    );

    // The executor notifies itself so that it gets polled again
    assert!(
        wake_handle.take_notification(),
        "Expected self-notification after budget exhaustion"
    );

    // The operator should still have remaining work
    assert!(!executor.crew.operators[0].is_done());
}

#[test]
fn poll_budget_zero_means_unlimited() {
    let config = ExecutorConfig {
        max_activations_per_step: 1024,
        max_idle_sweeps: 3,
        max_sweeps_per_poll: 0, // unlimited
        catch_panics: false,
        collect_metrics: false,
        drain_timeout: None,
    };
    let mut executor = DataflowExecutor::from_operators(vec![counting("busy", 0, 50)], config, 0);

    // Should run to completion without yielding
    let result = executor.poll_run(&noop_waker());
    match result {
        PollOutcome::Ready(Ok(true)) => {}
        other => panic!("Expected Ready(Ok(true)), got {:?}", other),
    }
}

#[test]
fn fused_executor_runs_single_operator_to_completion() {
    let mut executor = executor_of(vec![counting("counter", 0, 3)]);
    executor.enable_fusion(FusedActivationOrder::new(vec![0]));
    assert!(executor.is_fused());

    let result = executor.run();
    assert!(result.unwrap());
    assert!(executor.is_complete());
}

#[test]
fn fused_executor_runs_multiple_operators_in_topological_order() {
    let mut executor = executor_of(vec![
        counting("source", 0, 3),
        counting("transform", 1, 2),
        counting("sink", 2, 1),
    ]);
    executor.enable_fusion(FusedActivationOrder::new(vec![0, 1, 2]));

    let result = executor.run();
    assert!(result.unwrap());
    assert!(executor.is_complete());
    assert_eq!(executor.completed_count(), 3);
}

#[test]
fn fused_executor_respects_activation_budget() {
    let config = ExecutorConfig { max_activations_per_step: 5, ..ExecutorConfig::default() };
    let mut executor =
        DataflowExecutor::from_operators(vec![counting("counter", 0, 100)], config, 0);
    executor.enable_fusion(FusedActivationOrder::new(vec![0]));

    // A single sweep should be budget-limited, not run all 100 activations.
    let outcome = executor.run_one_sweep().unwrap();
    assert_eq!(outcome, SweepOutcome::MadeProgress);
    assert!(!executor.is_complete());
}

#[test]
fn fused_executor_handles_cancellation() {
    let cancel = CancellationToken::new();
    cancel.cancel();

    let mut executor = executor_of(vec![counting("op", 0, 10)]);
    executor.cancel = cancel;
    executor.enable_fusion(FusedActivationOrder::new(vec![0]));

    let result = executor.run();
    assert!(result.is_err());
    match result.unwrap_err() {
        Error::Cancelled { .. } => {}
        other => panic!("Expected Cancelled, got {:?}", other),
    }
}

#[test]
fn fused_executor_handles_idle_operators() {
    let config = ExecutorConfig { max_idle_sweeps: 2, ..ExecutorConfig::default() };
    let mut executor = DataflowExecutor::from_operators(vec![idle(0)], config, 0);
    executor.enable_fusion(FusedActivationOrder::new(vec![0]));

    // Idle operator: should eventually reach quiescence.
    let result = executor.run();
    assert!(!result.unwrap());
}

#[test]
fn enable_fusion_from_graph_computes_topological_order() {
    // A simple graph: op0, op1, op2
    let mut graph = DataflowGraph::new();
    graph
        .register_operator(OperatorInfo::new(0, "source", StageId::new(0), 0, 1))
        .unwrap();
    graph
        .register_operator(OperatorInfo::new(1, "map", StageId::new(0), 1, 1))
        .unwrap();
    graph
        .register_operator(OperatorInfo::new(2, "sink", StageId::new(0), 1, 0))
        .unwrap();
    graph.add_edge(EdgeInfo::new(
        Slot::new(0, 0),
        Slot::new(1, 0),
        StageId::new(0),
        StageId::new(0),
    ));
    graph.add_edge(EdgeInfo::new(
        Slot::new(1, 0),
        Slot::new(2, 0),
        StageId::new(0),
        StageId::new(0),
    ));

    let mut executor =
        executor_of(vec![counting("source", 0, 1), counting("map", 1, 1), counting("sink", 2, 1)]);

    executor.enable_fusion_from_graph(&graph).unwrap();
    assert!(executor.is_fused());

    let result = executor.run();
    assert!(result.unwrap());
    assert!(executor.is_complete());
}

#[test]
fn enable_fusion_from_graph_returns_error_on_mismatch() {
    // The graph has 1 operator but the executor has 2.
    let mut graph = DataflowGraph::new();
    graph
        .register_operator(OperatorInfo::new(0, "op0", StageId::new(0), 0, 0))
        .unwrap();

    let mut executor = executor_of(vec![counting("op0", 0, 1), counting("op1", 1, 1)]);

    let result = executor.enable_fusion_from_graph(&graph);
    assert!(result.is_err());
    assert!(!executor.is_fused());
}

#[test]
fn fused_executor_idle_activations_do_not_consume_budget() {
    // 3 idle operators with budget 2: idle doesn't count, so all 3 get polled.
    let config = ExecutorConfig {
        max_activations_per_step: 2,
        max_idle_sweeps: 2,
        ..ExecutorConfig::default()
    };
    let mut executor = DataflowExecutor::from_operators(vec![idle(0), idle(1), idle(2)], config, 0);
    executor.enable_fusion(FusedActivationOrder::new(vec![0, 1, 2]));

    let outcome = executor.run_one_sweep().unwrap();
    assert_eq!(outcome, SweepOutcome::Idle);
}

#[test]
fn stage_task_activation_runs_all_operators_in_stage() {
    let mut executor =
        executor_of(vec![counting("op0", 0, 2), counting("op1", 1, 1), counting("op2", 2, 1)]);
    let stages = vec![
        StageInfo {
            id: StageId(0),
            parallelism: None,
            operator_indices: vec![0, 1],
            fused_order: FusedActivationOrder::new(vec![0, 1]),
        },
        StageInfo {
            id: StageId(1),
            parallelism: Some(4),
            operator_indices: vec![2],
            fused_order: FusedActivationOrder::new(vec![2]),
        },
    ];

    executor.enable_stage_tasks(&stages);
    assert!(executor.has_stage_tasks());
    assert_eq!(executor.schedule.stage_tasks.len(), 2);

    let result = executor.run().unwrap();
    assert!(result);
    assert!(executor.is_complete());
}

#[test]
fn stage_task_single_stage_equivalent_to_fused() {
    let mut executor =
        executor_of(vec![counting("a", 0, 3), counting("b", 1, 2), counting("c", 2, 1)]);
    let stages = vec![StageInfo {
        id: StageId(0),
        parallelism: None,
        operator_indices: vec![0, 1, 2],
        fused_order: FusedActivationOrder::new(vec![0, 1, 2]),
    }];

    executor.enable_stage_tasks(&stages);
    let result = executor.run().unwrap();
    assert!(result);
    assert_eq!(executor.completed_count(), 3);
}

#[test]
fn stage_task_empty_stage_skipped() {
    let mut executor = executor_of(vec![counting("op0", 0, 1)]);
    let stages = vec![
        StageInfo {
            id: StageId(0),
            parallelism: None,
            operator_indices: vec![0],
            fused_order: FusedActivationOrder::new(vec![0]),
        },
        StageInfo {
            id: StageId(1),
            parallelism: Some(2),
            // Operator 99 doesn't exist: this stage will be empty.
            operator_indices: vec![99],
            fused_order: FusedActivationOrder::new(vec![99]),
        },
    ];

    executor.enable_stage_tasks(&stages);
    assert_eq!(executor.schedule.stage_tasks.len(), 2);
    assert!(executor.schedule.stage_tasks[1].operator_positions.is_empty());

    let result = executor.run().unwrap();
    assert!(result);
}

#[test]
fn catch_panics_returns_operator_panic_error() {
    let config = ExecutorConfig { catch_panics: true, ..Default::default() };
    let ops = vec![BoxedOperator::new(PanickingOperator {
        name: "boom".to_string(),
        index: 0,
        stage_id: StageId::new(0),
    })];
    let mut executor = DataflowExecutor::<u64>::from_operators(ops, config, 0);

    let err = executor.run().unwrap_err();
    match &err {
        Error::OperatorPanic { operator, message, worker_index } => {
            assert_eq!(operator, "boom");
            assert!(message.contains("exploded"), "unexpected message: {message}");
            assert_eq!(*worker_index, Some(0));
        }
        other => panic!("expected OperatorPanic, got: {other:?}"),
    }
}

#[test]
fn activate_operator_helper_no_panic_passthrough() {
    let mut op = counting("ok_op", 0, 1);

    // With catch_panics=true, normal returns pass through unchanged.
    let result = activate_operator(&mut op, true);
    assert!(matches!(result, Ok(ActivationOutcome::Done)));
}

#[test]
fn extract_panic_message_str_and_string() {
    assert_eq!(extract_panic_message(&PanicPayload::Text("hello panic")), "hello panic");
    assert_eq!(
        extract_panic_message(&PanicPayload::Owned(String::from("string panic"))),
        "string panic"
    );
    assert_eq!(extract_panic_message(&PanicPayload::Other), "unknown panic payload");
}

fn draining_config(drain_timeout: Option<u64>) -> ExecutorConfig {
    ExecutorConfig {
        max_activations_per_step: 10,
        max_idle_sweeps: 3,
        max_sweeps_per_poll: 0,
        catch_panics: false,
        collect_metrics: false,
        drain_timeout,
    }
}

#[test]
fn drain_allows_inflight_data_to_complete() {
    let ops = vec![counting("drainer", 0, 3)];
    let mut executor = DataflowExecutor::from_operators(ops, draining_config(Some(5000)), 0);

    // Cancel before running.
    executor.cancel.cancel();

    // Despite cancellation, drain mode should let the operator finish.
    let result = executor.run();
    assert!(result.is_ok(), "drain should complete successfully");
    assert!(result.unwrap(), "should report completion");
}

#[test]
fn immediate_cancel_without_drain_returns_error() {
    let ops = vec![counting("no-drain", 0, 3)];
    let mut executor = DataflowExecutor::from_operators(ops, draining_config(None), 0);
    executor.cancel.cancel();

    let result = executor.run();
    assert!(result.is_err(), "should return Err(Cancelled)");
    match result.unwrap_err() {
        Error::Cancelled { .. } => {}
        other => panic!("expected Cancelled, got: {other:?}"),
    }
}

#[test]
fn drain_timeout_expires_returns_cancelled() {
    let ops = vec![BoxedOperator::new(InfiniteOperator)];
    let mut executor =
        DataflowExecutor::<u64>::from_operators(ops, draining_config(Some(50)), 0);
    executor.cancel.cancel();

    let result = executor.run();
    assert!(result.is_err(), "drain timeout should return Err");
    match result.unwrap_err() {
        Error::Cancelled { .. } => {}
        other => panic!("expected Cancelled, got: {other:?}"),
    }
}

#[test]
fn drain_ignores_external_inputs_open() {
    let ops = vec![counting("drain-ignore", 0, 1)];
    let mut executor = DataflowExecutor::from_operators(ops, draining_config(Some(5000)), 0);

    // Simulate an external input being open.
    executor.set_external_inputs_open(1);

    executor.cancel.cancel();
    let result = executor.run();
    assert!(result.is_ok(), "drain should complete despite open inputs");

    // The counter is not zeroed: operators close naturally via their own logic.
    assert_eq!(executor.external_inputs_counter().get(), 1);
}

/// An operator that always makes progress and counts its activations.
struct TalliedOperator {
    index: usize,
    count: Rc<Cell<usize>>,
}

impl SchedulableOperator<u64> for TalliedOperator {
    fn activate(&mut self) -> Result<ActivationOutcome> {
        self.count.set(self.count.get() + 1);
        Ok(ActivationOutcome::MadeProgress)
    }

    fn is_done(&self) -> bool {
        false
    }

    fn name(&self) -> &str {
        "tallied"
    }

    fn index(&self) -> usize {
        self.index
    }

    fn stage_id(&self) -> StageId {
        StageId(0)
    }

    fn close_inputs(&mut self) {}

    fn update_input_frontier(&mut self, _frontier: &Antichain<u64>) {}

    fn has_ready_notifications(&self) -> bool {
        false
    }

    fn queued_times(&self) -> Vec<u64> {
        Vec::new()
    }

    fn held_times(&self) -> Vec<u64> {
        Vec::new()
    }

    fn requested_times(&self) -> Vec<u64> {
        Vec::new()
    }
}

fn lone_stage(i: usize) -> StageInfo {
    StageInfo {
        id: StageId(i),
        parallelism: None,
        operator_indices: vec![i],
        fused_order: FusedActivationOrder::new(vec![i]),
    }
}

#[test]
fn busy_stages_starve_nobody() {
    let counts = vec![Rc::new(Cell::new(0)), Rc::new(Cell::new(0))];
    let ops = (0..2)
        .map(|index| BoxedOperator::new(TalliedOperator { index, count: Rc::clone(&counts[index]) }))
        .collect();
    let config = ExecutorConfig { max_activations_per_step: 3, ..ExecutorConfig::default() };
    let mut executor = DataflowExecutor::from_operators(ops, config, 0);
    executor.enable_stage_tasks(&vec![lone_stage(0), lone_stage(1)]);
    assert!(executor.activate_operators().unwrap());
    assert_eq!((counts[0].get(), counts[1].get()), (3, 1));
    assert!(executor.activate_operators().unwrap());
    assert_eq!((counts[0].get(), counts[1].get()), (6, 2));
}

#[test]
fn operators_can_be_replaced() {
    let mut executor = executor_of(vec![counting("a", 0, 3), counting("b", 1, 2)]);
    executor.replace_operators(|op| counting(op.name(), op.index(), 1));
    assert_eq!(executor.operator_count(), 2);
    assert!(executor.run().unwrap());
    assert!(executor.is_complete());
}
