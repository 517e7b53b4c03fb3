use instancy::channel::Channel;
use instancy::strand::bounded_channel_with_wake;
use instancy::error::Error;
use instancy::frontier::{Antichain, Notificator};
use instancy::graph::{DataflowGraph, EdgeInfo, OperatorInfo};
use instancy::handles::{InputHandle, OutputHandle};
use instancy::id::{DataflowId, DataflowIdAllocator};
use instancy::metrics::DataflowMetrics;
use instancy::operators::branch::{BranchOperator, OkErrOperator};
use instancy::operators::concat::ConcatOperator;
use instancy::operators::feedback::{ConnectLoop, FeedbackExt};
use instancy::order::{PartialOrder, PathSummary, Product, Timestamp};
use instancy::partition::{Destination, PartitionKey, PartitionStrategy};
use instancy::progress::SubgraphBuilder;
use instancy::scope::RootScope;
use instancy::shared::{Anything, Shared};
use instancy::stage::{RegionId, StageId};
use instancy::staging::infer_stages;
use instancy::stream::{DataStream, Slot};
use instancy::text::same_text;
use instancy::timing::reaches_millis;
use instancy::verdict::{decide_cancel, judge, CancelStep, Standing, SweepOutcome, TrackerStatus};
use instancy::wired::distinct::DistinctFinish;
use instancy::wired::gathering::Finish;

fn slot(op: usize, port: usize) -> Slot {
    Slot::new(op, port)
}

fn chain(n: usize) -> DataflowGraph {
    let mut g = DataflowGraph::new();
    for i in 0..n {
        let ins = if i == 0 { 0 } else { 1 };
        let outs = if i + 1 == n { 0 } else { 1 };
        g.register_operator(OperatorInfo::new(i, "op", RegionId::new(0), ins, outs)).unwrap();
    }
    for i in 1..n {
        g.add_edge(EdgeInfo::new(slot(i - 1, 0), slot(i, 0), RegionId::new(0), RegionId::new(0)));
    }
    g
}

#[test]
fn identity_formula() {
    let id = DataflowId::new(3, 5);
    assert_eq!(id.as_raw(), 3 * (1u64 << 48) + 5);
    assert_eq!(DataflowId::from_raw(id.as_raw()), id);
    assert_eq!(DataflowId::MAX_SEQUENCE, (1u64 << 48) - 1);
    let mut a = DataflowIdAllocator::new(9);
    assert_eq!(a.node_index(), 9);
    assert_eq!(a.allocate(), DataflowId::new(9, 1));
}

#[test]
fn errors_of_a_graph() {
    let mut g = chain(3);
    let e = g.register_operator(OperatorInfo::new(1, "new", RegionId::new(0), 1, 1)).unwrap_err();
    assert_eq!(e.to_text(), "Duplicate operator index 1: 'new' conflicts with existing 'op'");
    g.add_edge(EdgeInfo::new(slot(0, 0), slot(1, 4), RegionId::new(0), RegionId::new(0)));
    let e = g.validate().unwrap_err();
    assert_eq!(e.to_text(), "Edge 2: target port 4 exceeds operator 'op' input count 1");
    let mut g = chain(2);
    g.add_edge(EdgeInfo::new(slot(1, 0), slot(0, 0), RegionId::new(0), RegionId::new(0)));
    let e = g.topological_order().unwrap_err();
    assert!(matches!(e, Error::CycleDetected { processed: 0, total: 2 }));
}

#[test]
fn counts_of_ports_grow() {
    let mut g = chain(2);
    assert!(g.increment_input_count(0));
    assert!(g.increment_output_count(1));
    assert!(!g.increment_input_count(7));
    assert_eq!(g.operator(0).unwrap().input_count, 1);
    assert_eq!(g.operator(1).unwrap().output_count, 1);
}

#[test]
fn feedback_edges_are_left_out_of_the_order() {
    let mut g = chain(3);
    g.add_feedback_edge(EdgeInfo::new(slot(2, 0), slot(0, 0), RegionId::new(0), RegionId::new(0)));
    assert_eq!(g.topological_order().unwrap(), vec![0, 1, 2]);
    assert_eq!(g.feedback_edges().len(), 1);
}

#[test]
fn stages_are_divided_by_exchanges() {
    let mut g = chain(2);
    g.register_operator(OperatorInfo::new(2, "far", RegionId::new(0), 1, 0)).unwrap();
    g.add_edge(EdgeInfo::exchange(
        slot(0, 0),
        slot(2, 0),
        RegionId::new(0),
        RegionId::new(0),
        Some(5),
    ));
    let stages = infer_stages(&g).unwrap();
    assert_eq!(stages.len(), 2);
    assert_eq!(stages[0].operator_indices, vec![0, 1]);
    assert_eq!(stages[1].operator_indices, vec![2]);
    assert_eq!(stages[1].parallelism, Some(5));
    assert_eq!(stages[1].id, StageId(1));
    let cyclic = {
        let mut g = chain(2);
        g.add_edge(EdgeInfo::new(slot(1, 0), slot(0, 0), RegionId::new(0), RegionId::new(0)));
        g
    };
    assert!(infer_stages(&cyclic).is_err());
}

#[test]
fn channels_keep_order_and_limit() {
    let mut c: Channel<u64, i32> = Channel::new(2);
    assert!(c.try_push(1, vec![1]).is_ok());
    assert!(c.try_push(2, vec![2]).is_ok());
    assert!(c.is_full());
    assert_eq!(c.try_push(3, vec![3]), Err((3, vec![3])));
    assert_eq!(c.times(), vec![1, 2]);
    assert_eq!(c.pull(), Some((1, vec![1])));
    c.close();
    assert!(!c.is_exhausted());
    assert_eq!(c.try_push(4, vec![4]), Err((4, vec![4])));
    assert_eq!(c.pull(), Some((2, vec![2])));
    assert!(c.is_exhausted());
    assert_eq!(c.pull(), None);
}

#[test]
fn abandoned_channels_forget() {
    let mut c: Channel<u64, i32> = Channel::preallocated(1, 9);
    c.try_push(0, vec![1]).unwrap();
    c.abandon();
    assert_eq!(c.len(), 0);
    assert!(c.has_room());
    assert!(c.try_push(1, vec![2]).is_ok());
    assert_eq!(c.pull(), None);
}

#[test]
fn sides_of_a_channel() {
    let (mut push, mut pull) = bounded_channel_with_wake::<u64, i32>(1, None);
    assert_eq!(pull.pull(), None);
    push.push(3, vec![7]).unwrap();
    assert_eq!(push.push(4, vec![8]), Err((4, vec![8])));
    push.close();
    assert!(!pull.is_exhausted());
    assert_eq!(pull.pull(), Some((3, vec![7])));
    assert!(pull.is_exhausted());
}

#[test]
fn closed_channels_take_nothing_more() {
    let (mut push, mut pull) = bounded_channel_with_wake::<u64, i32>(4, None);
    push.push(1, vec![2]).unwrap();
    push.close();
    assert_eq!(push.push(3, vec![4]), Err((3, vec![4])));
    assert!(!pull.is_exhausted());
    assert_eq!(pull.pull(), Some((1, vec![2])));
    assert!(pull.is_exhausted());
    assert_eq!(pull.pull(), None);
    assert!(pull.is_exhausted());
}

#[test]
fn channels_without_room_take_nothing() {
    let (mut push, mut pull) = bounded_channel_with_wake::<u64, i32>(0, None);
    assert_eq!(push.push(1, vec![2]), Err((1, vec![2])));
    assert_eq!(pull.pull(), None);
    assert!(!pull.is_exhausted());
}

#[test]
fn shared_values_know_their_holders() {
    let a = Shared::new(1u32, Anything);
    let b = a.share();
    let c = Shared::new(1u32, Anything);
    assert!(a.is_same(&b));
    assert!(!a.is_same(&c));
    b.set(5);
    assert_eq!(a.get(), 5);
    assert!(a.is_held_elsewhere());
    assert!(!b.is_held_elsewhere());
}

#[test]
fn times_and_summaries() {
    let p = Product::new(2u64, 3u32);
    assert!(Product::new(1u64, 3u32).less_equal(&p));
    assert!(!Product::new(1u64, 4u32).less_equal(&p));
    assert_eq!(Product::<u64, u32>::minimum(), Product::new(0, 0));
    assert_eq!(1u32.results_in(&u32::MAX), None);
    assert_eq!(7u64.results_in(&3u64), Some(10));
    assert_eq!(Product::new(0u64, 2u32).results_in(&p), Some(Product::new(2, 5)));
}

#[test]
fn frontiers_tell_what_may_come() {
    let f = Antichain::from_elem(Product::new(1u64, 1u32));
    assert!(f.less_equal(&Product::new(1, 2)));
    assert!(!f.less_equal(&Product::new(0, 5)));
    let mut n = Notificator::new(Antichain::from_elem(3u64));
    n.notify_at(5);
    n.notify_at(1);
    n.notify_at(1);
    assert_eq!(n.next(), Some(1));
    assert_eq!(n.next(), None);
    n.update_frontier(&Antichain::from_elem(6));
    assert_eq!(n.next(), Some(5));
    assert_eq!(n.next(), None);
}

#[test]
fn trackers_start_at_their_sources() {
    let mut b = SubgraphBuilder::new();
    b.add_operator(1, "source").unwrap();
    b.add_operator(2, "sink").unwrap();
    assert!(b.add_operator(2, "sink").is_err());
    b.add_edge(1, 2);
    b.add_source(1);
    let mut t = b.build::<u64>();
    t.initialize();
    assert!(t.is_initialized());
    assert!(!t.is_completed());
    assert!(t.operator_input_frontier_meet(2).less_equal(&0));
    let changed = t.propagate(Vec::new());
    assert_eq!(changed, vec![2]);
    assert!(t.is_completed());
    assert!(!t.operator_input_frontier_meet(2).less_equal(&0));
}

#[test]
fn destinations_of_records() {
    let by_key = PartitionStrategy::<u64>::exchange_by_key("k", |r: &u64| *r % 10);
    assert_eq!(by_key.destination(&13, 0, 4), by_key.destination(&23, 9, 4));
    let by_hash = PartitionStrategy::<u64>::exchange("h", |r: &u64| *r);
    assert_eq!(by_hash.destination(&13, 0, 4), Destination::Worker(1));
    assert_eq!(by_hash.name(), "Exchange");
    assert_eq!(PartitionStrategy::<u64>::Gather.destination(&5, 7, 4), Destination::Worker(0));
    assert_eq!(PartitionStrategy::<u64>::Rebalance.destination(&5, 7, 4), Destination::Worker(3));
    assert_eq!(PartitionStrategy::<u64>::Broadcast.destination(&5, 7, 4), Destination::All);
    assert_eq!(PartitionStrategy::<u64>::BroadcastLocal.destination(&5, 7, 4), Destination::All);
}

#[test]
fn branching_loses_nothing() {
    let mut op = BranchOperator::<u64, i32, _>::new("b", 0, RegionId::new(0), |x: &i32| *x > 2);
    op.input_mut().push_vec(0, vec![1, 2, 3, 4]);
    op.activate().unwrap();
    let mut all: Vec<i32> = op.drain_output_true().into_iter().flat_map(|(_, v)| v).collect();
    all.extend(op.drain_output_false().into_iter().flat_map(|(_, v)| v));
    all.sort();
    assert_eq!(all, vec![1, 2, 3, 4]);
    let mut op = OkErrOperator::<u64, i32, i32, i32, _>::new("r", 0, RegionId::new(0), |x: i32| {
        if x % 2 == 0 {
            Ok(x)
        } else {
            Err(x)
        }
    });
    op.input_mut().push_vec(0, vec![1, 2, 3]);
    assert_eq!(op.activate().unwrap(), 1);
    assert_eq!(op.drain_output_ok(), vec![(0, vec![2])]);
    assert_eq!(op.drain_output_err(), vec![(0, vec![1, 3])]);
}

#[test]
fn merging_keeps_the_order_of_each_input() {
    let mut op = ConcatOperator::<u64, i32>::new("m", 0, RegionId::new(0), 2);
    op.input_mut(0).push_vec(0, vec![1]);
    op.input_mut(0).push_vec(1, vec![2]);
    op.input_mut(1).push_vec(0, vec![3]);
    assert_eq!(op.activate().unwrap(), 3);
    assert_eq!(op.drain_output(), vec![(0, vec![1]), (1, vec![2]), (0, vec![3])]);
}

#[test]
fn distinct_keeps_the_first_of_each_kind() {
    let mut f = DistinctFinish;
    let out: Vec<i32> = f.finish(vec![3, 1, 3, 2, 1]);
    assert_eq!(out, vec![3, 1, 2]);
}

#[test]
fn handles_pass_batches() {
    let mut i: InputHandle<u64, i32> = InputHandle::new("in".to_string());
    i.push_vec(1, vec![4]);
    assert_eq!(i.name(), "in");
    assert_eq!(i.pending_count(), 1);
    assert_eq!(i.next(), Some((1, vec![4])));
    assert_eq!(i.next(), None);
    let mut o: OutputHandle<u64, i32> = OutputHandle::new("out".to_string());
    let mut s = o.session(2);
    s.give(1);
    s.give_vec(vec![2, 3]);
    s.finish(&mut o);
    o.push_vec(3, vec![]);
    assert_eq!(o.drain(), vec![(2, vec![1, 2, 3])]);
}

#[test]
fn loops_advance_the_inner_time_only() {
    let mut root = RootScope::<u64>::new("root", 2);
    let mut child = root.iterative::<u32>("loop");
    let (handle, stream) = child.feedback::<i32>(4u32);
    assert!(!handle.is_connected());
    let t = Product::new(9u64, 1u32);
    assert_eq!(handle.summary().results_in(&t), Some(Product::new(9, 5)));
    let back: DataStream<i32> = DataStream::new(child.name(), slot(3, 0), child.current_region());
    let done = back.connect_loop(&mut child, handle);
    assert!(done.is_connected());
    assert_eq!(stream.source().slot_index, 0);
}

#[test]
fn requests_to_stop() {
    assert_eq!(decide_cancel(false, false, true, false), CancelStep::Proceed);
    assert_eq!(decide_cancel(true, false, false, false), CancelStep::Stop);
    assert_eq!(decide_cancel(true, false, true, false), CancelStep::StartDraining);
    assert_eq!(decide_cancel(true, true, true, true), CancelStep::Stop);
    assert_eq!(decide_cancel(true, true, true, false), CancelStep::Proceed);
}

fn standing(idle: usize, tracker: Option<TrackerStatus>) -> Standing {
    Standing {
        idle,
        max_idle: 2,
        progress: false,
        waiting: false,
        draining: false,
        inputs_open: false,
        tracker,
    }
}

#[test]
fn verdicts_on_sweeps() {
    assert_eq!(judge(&standing(1, None)).outcome, SweepOutcome::Idle);
    assert_eq!(judge(&standing(2, None)).outcome, SweepOutcome::Quiescent);
    let open = Standing { inputs_open: true, ..standing(2, None) };
    assert_eq!(judge(&open).outcome, SweepOutcome::WaitingForInput);
    let busy = Standing { progress: true, ..standing(0, None) };
    assert_eq!(judge(&busy).outcome, SweepOutcome::MadeProgress);
    let draining = Standing { draining: true, ..standing(2, None) };
    assert_eq!(judge(&draining).outcome, SweepOutcome::Completed);
}

#[test]
fn texts_and_times() {
    assert!(same_text("über", "über"));
    assert!(!same_text("a", "ab"));
    assert!(!same_text("ab", "ac"));
    assert!(reaches_millis(5_000_000, 5));
    assert!(!reaches_millis(4_999_999, 5));
    let mut m = DataflowMetrics::new("m");
    m.register_operator("a");
    m.record_activation(0, 5);
    m.record_activation(0, 5);
    assert_eq!(m.total_activations(), 2);
    assert_eq!(m.operator_snapshots()[0].name, "a");
    assert_eq!(m.operator_snapshots()[0].cpu_nanos, 10);
    m.set_wall_nanos(7);
    assert_eq!(m.wall_nanos(), 7);
}

#[test]
fn keys_of_many_types() {
    assert_eq!("ab".to_string().to_number(), 97 * 31 + 98);
    assert_eq!(String::new().to_number(), 0);
    assert_eq!((2u64, true).to_number(), 63);
    assert_eq!((-1i8).to_number(), 255);
    assert_eq!(u64::MAX.to_number(), u64::MAX);
    assert_eq!((u64::MAX, 0u8).to_number(), u64::MAX.wrapping_mul(31));
    let by_name = PartitionStrategy::exchange_by_key("name", |r: &(String, u32)| r.0.clone());
    let a = by_name.destination(&("x".to_string(), 1), 0, 4);
    let b = by_name.destination(&("x".to_string(), 2), 3, 4);
    assert_eq!(a, b);
    assert_eq!(a, Destination::Worker(120 % 4));
}
