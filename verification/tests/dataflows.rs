use std::rc::Rc;
use std::cell::RefCell;

use instancy::builder::{DataflowBuilder, DataflowBuilderConfig};
use instancy::error::Error;
use instancy::iterate::IterateResult;
use instancy::pipe::Pipe;
use instancy::runtime::SimpleRuntime;
use instancy::schedulable::WorkerContext;
use instancy::shared::Shared;
use instancy::stage::StageId;
use instancy::wired::tasks::TaskResult;

fn taken<V>(collector: &Shared<Vec<V>>) -> Vec<V> {
    collector.replace(Vec::new())
}

fn message(e: Error) -> String {
    match e {
        Error::InvalidConfig(m) => m,
        other => other.to_text(),
    }
}

#[test]
fn builder_config_defaults() {
    let config = DataflowBuilderConfig::default();
    assert_eq!(config.channel_capacity, 1024);
    assert_eq!(config.channel_preallocate, None);
}

#[test]
fn preallocated_channels_carry_all_batches() {
    let config = DataflowBuilderConfig { channel_capacity: 1, channel_preallocate: Some(8) };
    let mut b = DataflowBuilder::<u64>::with_config("narrow", config);
    let batches = vec![(0u64, vec![1u32]), (1, vec![2]), (2, vec![3])];
    let port = b.source("numbers", batches.clone()).output(&mut b, "out").unwrap();
    let d = b.build().unwrap();
    SimpleRuntime::new().run(d).unwrap();
    assert_eq!(taken(&port.collector()), batches);
}

#[test]
fn names_and_indices() {
    let mut b = DataflowBuilder::<u64>::new("named");
    assert_eq!(b.name(), "named");
    let a = b.source("a", vec![(0u64, vec![1i32])]);
    let c = a.clone().map(&mut b, "c", |_t, x| x);
    assert_eq!(b.operator_count(), 2);
    let port = c.output(&mut b, "port").unwrap();
    assert_eq!(port.name(), "port");
    let other = a.collect(&mut b);
    let d = b.build().unwrap();
    assert_eq!(d.name(), "named");
    assert_eq!(d.operator_count(), 4);
    assert_eq!(d.edge_count(), 3);
    assert_eq!(d.output_names(), vec!["port", "__collect_0"]);
    assert!(!d.has_input_ports());
    assert_eq!(d.graph().operator(2).unwrap().name, "c");
    assert_eq!(d.graph().successors(1), vec![2, 4]);
    SimpleRuntime::new().run(d).unwrap();
    assert_eq!(taken(&other), vec![(0, vec![1])]);
}

#[test]
fn duplicate_input_name_is_an_error() {
    let mut b = DataflowBuilder::<u64>::new("dup");
    let (_first, _s1) = b.input::<i32>("in").unwrap();
    let e = b.input::<i32>("in").err().unwrap();
    assert_eq!(message(e), "duplicate input port name: in");
    assert_eq!(b.operator_count(), 1);
}

#[test]
fn duplicate_output_name_is_an_error() {
    let mut b = DataflowBuilder::<u64>::new("dup");
    let a = b.source("a", vec![(0u64, vec![1i32])]);
    a.clone().output(&mut b, "out").unwrap();
    let e = a.output(&mut b, "out").err().unwrap();
    assert_eq!(message(e), "duplicate output port name: out");
    assert_eq!(b.operator_count(), 2);
}

#[test]
fn capacity_of_zero_is_an_error() {
    let mut b = DataflowBuilder::<u64>::new("zero");
    let e = b.source("a", vec![(0u64, vec![1i32])]).with_capacity(0).err().unwrap();
    assert_eq!(message(e), "channel capacity must be > 0");
}

#[test]
fn held_pipes_prevent_building() {
    let mut b = DataflowBuilder::<u64>::new("held");
    let held = b.source("a", vec![(0u64, vec![1i32])]);
    let e = b.build().err().unwrap();
    assert!(message(e).starts_with("cannot build: outstanding Pipe references still exist"));
    let _ = held.with_capacity(1);
}

#[test]
fn finish_builds_whatever_is_held() {
    let mut b = DataflowBuilder::<u64>::new("held");
    let held = b.source("a", vec![(0u64, vec![1i32])]);
    let port = held.clone().output(&mut b, "out").unwrap();
    let d = b.finish().unwrap();
    SimpleRuntime::new().run(d).unwrap();
    assert_eq!(taken(&port.collector()), vec![(0, vec![1])]);
    let _ = held.with_capacity(1);
}

#[test]
fn streams_of_other_builders_are_refused() {
    let mut b = DataflowBuilder::<u64>::new("one");
    let mut c = DataflowBuilder::<u64>::new("two");
    let x = b.source("x", vec![(0u64, vec![1i32])]);
    let y = c.source("y", vec![(0u64, vec![2i32])]);
    let e = x
        .clone()
        .binary::<i32, i32, _>(&mut b, y.clone(), "join", |_l, _r, _o| Ok(()))
        .err()
        .unwrap();
    assert_eq!(message(e), "binary operator streams must belong to the same DataflowBuilder");
    let e = Pipe::concat(&mut b, vec![x.clone(), y.clone()]).err().unwrap();
    assert_eq!(message(e), "concat streams must belong to the same DataflowBuilder");
    let e = x.merge(&mut b, y).err().unwrap();
    assert_eq!(message(e), "concat streams must belong to the same DataflowBuilder");
    assert_eq!(b.operator_count(), 1);
}

#[test]
fn concat_of_nothing_is_an_error() {
    let mut b = DataflowBuilder::<u64>::new("none");
    let e = Pipe::<u64, i32>::concat(&mut b, vec![]).err().unwrap();
    assert_eq!(message(e), "concat requires at least one Pipe");
}

#[test]
fn width_of_zero_is_an_error() {
    let mut b = DataflowBuilder::<u64>::new("zero");
    let a = b.source("a", vec![(0u64, vec![1u64])]);
    let e = a.clone().exchange_to(&mut b, "x", 0, |r: &u64| *r).err().unwrap();
    assert_eq!(message(e), "target_parallelism must be > 0");
    let e = a.clone().exchange_by_hash_to(&mut b, "x", 0, |r: &u64| *r).err().unwrap();
    assert_eq!(message(e), "target_parallelism must be > 0");
    let e = a.rebalance_to(&mut b, "x", 0).err().unwrap();
    assert_eq!(message(e), "target_parallelism must be > 0");
    assert_eq!(b.operator_count(), 1);
}

#[test]
fn exchanges_divide_a_dataflow_into_stages() {
    let mut b = DataflowBuilder::<u64>::new("stages");
    let port = b
        .source("numbers", vec![(0u64, vec![1u64, 2, 3])])
        .exchange_to(&mut b, "by value", 4, |r: &u64| *r)
        .unwrap()
        .map(&mut b, "double", |_t, x| x * 2)
        .gather(&mut b, "all")
        .output(&mut b, "out")
        .unwrap();
    let d = b.build().unwrap();
    assert_eq!(d.exchange_edge_indices(), vec![0, 2]);
    let stages = d.stages();
    assert_eq!(stages.len(), 3);
    assert_eq!(stages[0].operator_indices, vec![1]);
    assert_eq!(stages[1].operator_indices, vec![2, 3]);
    assert_eq!(stages[2].operator_indices, vec![4, 5]);
    assert_eq!(stages[0].parallelism, None);
    assert_eq!(stages[1].parallelism, Some(4));
    assert_eq!(d.graph().operator(4).unwrap().region_id, StageId(2));
    assert_eq!(d.graph().edges()[2].source_region, StageId(1));
    assert_eq!(d.graph().edges()[2].target_region, StageId(2));
    SimpleRuntime::new().run(d).unwrap();
    assert_eq!(taken(&port.collector()), vec![(0, vec![2, 4, 6])]);
}

#[test]
fn all_ways_to_distribute_pass_records_on() {
    let data = vec![(0u64, vec![5u64, 6]), (1, vec![7])];
    let mut b = DataflowBuilder::<u64>::new("ways");
    let port = b
        .source("numbers", data.clone())
        .exchange(&mut b, "key", |r: &u64| *r)
        .exchange_by_hash(&mut b, "hash", |r: &u64| r % 2)
        .rebalance(&mut b, "turn")
        .broadcast(&mut b, "all")
        .output(&mut b, "out")
        .unwrap();
    let d = b.build().unwrap();
    assert_eq!(d.graph().operator(2).unwrap().name, "exchange");
    assert_eq!(d.graph().operator(5).unwrap().name, "broadcast");
    SimpleRuntime::new().run(d).unwrap();
    assert_eq!(taken(&port.collector()), data);
}

#[test]
fn restricting_to_some_stages() {
    let mut b = DataflowBuilder::<u64>::new("part");
    let a = b.source("numbers", vec![(0u64, vec![1u64])]);
    let (a, _probe) = a.probe(&mut b);
    a.exchange_by_hash(&mut b, "hash", |r: &u64| *r)
        .map(&mut b, "double", |_t, x| x * 2)
        .gather(&mut b, "all")
        .output(&mut b, "out")
        .unwrap();
    let mut d = b.build().unwrap();
    assert_eq!(d.operator_count(), 5);
    d.retain_stages(&vec![StageId(1), StageId(2)]);
    assert_eq!(d.operator_count(), 4);
    assert!(d.graph().operator(1).is_none());
    assert_eq!(d.edge_count(), 4);
    assert_eq!(d.stages().len(), 2);
    assert_eq!(d.output_names(), vec!["out"]);
    d.retain_stages(&vec![StageId(1)]);
    assert_eq!(d.operator_count(), 2);
    assert_eq!(d.edge_count(), 3);
    assert_eq!(d.output_names().len(), 0);
    let executor = SimpleRuntime::new().prepare(d);
    assert_eq!(executor.operator_count(), 2);
}

#[test]
fn restricting_to_all_stages_changes_nothing() {
    let mut b = DataflowBuilder::<u64>::new("whole");
    let port = b
        .source("numbers", vec![(0u64, vec![1u64, 2])])
        .gather(&mut b, "all")
        .output(&mut b, "out")
        .unwrap();
    let mut d = b.build().unwrap();
    d.retain_stages(&vec![StageId(0), StageId(1)]);
    assert_eq!(d.operator_count(), 3);
    assert_eq!(d.edge_count(), 2);
    SimpleRuntime::new().run(d).unwrap();
    assert_eq!(taken(&port.collector()), vec![(0, vec![1, 2])]);
}

#[test]
fn restricting_keeps_the_inputs_of_the_stages_that_stay() {
    let mut b = DataflowBuilder::<u64>::new("inputs");
    let (a, _first) = b.input::<u64>("a").unwrap();
    let gathered = a.gather(&mut b, "all");
    let (c, _second) = b.input::<u64>("b").unwrap();
    gathered.merge(&mut b, c).unwrap().output(&mut b, "out").unwrap();
    let mut d = b.build().unwrap();
    assert_eq!(d.input_names(), vec!["a", "b"]);
    assert_eq!(d.stages().len(), 2);
    let kept = d.stages()[1].id;
    d.retain_stages(&vec![kept]);
    assert_eq!(d.input_names(), vec!["b"]);
    assert_eq!(d.output_names(), vec!["out"]);
    d.retain_stages(&vec![StageId(7)]);
    assert_eq!(d.input_names().len(), 0);
}

#[test]
fn restricting_twice_changes_nothing_more() {
    let mut b = DataflowBuilder::<u64>::new("twice");
    b.source("numbers", vec![(0u64, vec![1u64])])
        .gather(&mut b, "all")
        .map(&mut b, "double", |_t, x| x * 2)
        .gather(&mut b, "again")
        .output(&mut b, "out")
        .unwrap();
    let mut d = b.build().unwrap();
    assert_eq!(d.exchange_edge_indices(), vec![0, 2]);
    d.retain_stages(&vec![StageId(2)]);
    let seen = (d.operator_count(), d.edge_count(), d.exchange_edge_indices());
    assert_eq!(seen, (2, 2, vec![0]));
    d.retain_stages(&vec![StageId(2)]);
    assert_eq!((d.operator_count(), d.edge_count(), d.exchange_edge_indices()), seen);
}

#[test]
fn exchanges_in_loops_are_listed() {
    let mut b = DataflowBuilder::<u64>::new("spread");
    b.source("numbers", vec![(0u64, vec![1i32])])
        .gather(&mut b, "all")
        .iterate::<u32, _>(&mut b, "go", 1u32, |mut inner, round| {
            let more = round.gather(&mut inner, "inside").map(&mut inner, "inc", |_t, x| x + 1);
            let done = more.clone().filter(&mut inner, "done", |_t, x| *x >= 5);
            let again = more.filter(&mut inner, "again", |_t, x| *x < 5);
            (inner, IterateResult { feedback: again, output: done })
        })
        .output(&mut b, "out")
        .unwrap();
    let d = b.build().unwrap();
    let all: Vec<usize> =
        (0..d.edge_count()).filter(|i| d.graph().edges()[*i].is_exchange()).collect();
    assert_eq!(all.len(), 2);
    assert_eq!(d.exchange_edge_indices(), all);
}

#[test]
fn loops_are_wired() {
    let mut b = DataflowBuilder::<u64>::new("loop");
    let port = b
        .source("numbers", vec![(0u64, vec![1i32])])
        .iterate::<u32, _>(&mut b, "go", 1u32, |mut inner, round| {
            let more = round.map(&mut inner, "inc", |_t, x| x + 1);
            let done = more.clone().filter(&mut inner, "done", |_t, x| *x >= 5);
            let again = more.filter(&mut inner, "again", |_t, x| *x < 5);
            (inner, IterateResult { feedback: again, output: done })
        })
        .output(&mut b, "out")
        .unwrap();
    let d = b.build().unwrap();
    let name = |i: usize| d.graph().operator(i).unwrap().name.clone();
    assert_eq!(name(2), "go::enter");
    assert_eq!(name(3), "go::feedback");
    assert_eq!(name(4), "go::concat");
    assert_eq!(name(5), "go::leave");
    assert_eq!(name(6), "inc");
    assert_eq!(d.feedback_edge_count(), 1);
    assert_eq!(d.graph().feedback_edges()[0].source.operator_index, 8);
    assert_eq!(d.graph().feedback_edges()[0].target.operator_index, 3);
    assert_eq!(d.edge_count(), 8);
    SimpleRuntime::new().run(d).unwrap();
    assert_eq!(taken(&port.collector()), vec![(0, vec![5])]);
}

#[test]
fn loops_within_loops() {
    let mut b = DataflowBuilder::<u64>::new("nested");
    let port = b
        .source("numbers", vec![(3u64, vec![1i32])])
        .iterate::<u32, _>(&mut b, "outer", 1u32, |mut outer, round| {
            let grown = round.iterate::<u32, _>(&mut outer, "inner", 1u32, |mut inner, round| {
                let more = round.map(&mut inner, "inc", |_t, x| x + 1);
                let done = more.clone().filter(&mut inner, "done", |_t, x| x % 10 == 0);
                let again = more.filter(&mut inner, "again", |_t, x| x % 10 != 0);
                (inner, IterateResult { feedback: again, output: done })
            });
            let done = grown.clone().filter(&mut outer, "enough", |_t, x| *x >= 30);
            let again = grown.filter(&mut outer, "more", |_t, x| *x < 30);
            (outer, IterateResult { feedback: again, output: done })
        })
        .output(&mut b, "out")
        .unwrap();
    let d = b.build().unwrap();
    assert_eq!(d.feedback_edge_count(), 2);
    SimpleRuntime::new().run(d).unwrap();
    assert_eq!(taken(&port.collector()), vec![(3, vec![30])]);
}

#[test]
fn pipes_must_not_leave_a_loop() {
    let kept: Rc<RefCell<Option<Pipe<instancy::order::Product<u64, u32>, i32>>>> =
        Rc::new(RefCell::new(None));
    let keep = Rc::clone(&kept);
    let mut b = DataflowBuilder::<u64>::new("leak");
    b.source("numbers", vec![(0u64, vec![1i32])])
        .iterate::<u32, _>(&mut b, "go", 1u32, move |inner, round| {
            *keep.borrow_mut() = Some(round.clone());
            (inner, IterateResult { feedback: round.clone(), output: round })
        })
        .output(&mut b, "out")
        .unwrap();
    let e = b.build().err().unwrap();
    assert_eq!(message(e), "iterate body must not hold Pipe references after returning");
    assert!(kept.borrow().is_some());
}

#[test]
fn delays_move_records_to_later_times() {
    let mut b = DataflowBuilder::<u64>::new("delay");
    let port = b
        .source("numbers", vec![(0u64, vec![1u64, 2]), (1, vec![3])])
        .delay(&mut b, "later", |t, x| t + x)
        .output(&mut b, "out")
        .unwrap();
    let d = b.build().unwrap();
    SimpleRuntime::new().run(d).unwrap();
    let mut all = taken(&port.collector());
    all.sort();
    assert_eq!(all, vec![(1, vec![1]), (2, vec![2]), (4, vec![3])]);
}

#[test]
fn delays_of_batches() {
    let mut b = DataflowBuilder::<u64>::new("delay");
    let port = b
        .source("numbers", vec![(0u64, vec![1u64, 2]), (7, vec![3])])
        .delay_batch(&mut b, "round up", |t| (t / 10 + 1) * 10)
        .output(&mut b, "out")
        .unwrap();
    let d = b.build().unwrap();
    SimpleRuntime::new().run(d).unwrap();
    assert_eq!(taken(&port.collector()), vec![(10, vec![1, 2, 3])]);
}

#[test]
fn delays_must_not_lead_back() {
    let mut b = DataflowBuilder::<u64>::new("delay");
    b.source("numbers", vec![(5u64, vec![1u64])])
        .delay_batch(&mut b, "back", |t| t - 1)
        .output(&mut b, "out")
        .unwrap();
    let d = b.build().unwrap();
    let e = SimpleRuntime::new().run(d).err().unwrap();
    assert!(e.to_text().contains("delay_fn must not return a timestamp earlier than the input"));
}

#[test]
fn async_operators_use_a_board() {
    let mut b = DataflowBuilder::<u64>::new("tasks");
    let a = b.source("numbers", vec![(0u64, vec![1u64]), (1, vec![2]), (2, vec![3])]);
    let (out, board) = a.unary_async::<u64>(&mut b, "lookup", 2);
    let port = out.output(&mut b, "out").unwrap();
    let d = b.build().unwrap();
    let mut executor = SimpleRuntime::new().prepare(d);
    let mut largest = 0;
    let run = executor.run_with(|| {
        let tasks = board.take_tasks();
        largest = largest.max(tasks.len());
        for t in tasks {
            let result = Ok(t.data.iter().map(|x| x * 10).collect());
            board.report(TaskResult { ticket: t.ticket, result });
        }
    });
    assert!(run.unwrap());
    assert!(largest <= 2);
    assert_eq!(taken(&port.collector()), vec![(0, vec![10]), (1, vec![20]), (2, vec![30])]);
}

#[test]
fn failed_tasks_fail_the_dataflow() {
    let mut b = DataflowBuilder::<u64>::new("tasks");
    let a = b.source("numbers", vec![(0u64, vec![1u64])]);
    let (out, board) = a.unary_async::<u64>(&mut b, "lookup", 1);
    out.output(&mut b, "out").unwrap();
    let d = b.build().unwrap();
    let mut executor = SimpleRuntime::new().prepare(d);
    let run = executor.run_with(|| {
        for t in board.take_tasks() {
            let result = Err(Error::InvalidConfig("no answer".to_string()));
            board.report(TaskResult { ticket: t.ticket, result });
        }
    });
    assert!(run.is_err());
}

#[test]
fn async_sources_are_fed_from_beside() {
    let mut b = DataflowBuilder::<u64>::new("events");
    let (a, mut sender) = b.source_async::<u64>("events");
    let port = a.output(&mut b, "out").unwrap();
    let d = b.build().unwrap();
    assert!(!d.has_input_ports());
    let mut executor = SimpleRuntime::new().prepare(d);
    let mut next = 0u64;
    let run = executor.run_with(|| {
        if next < 3 {
            sender.push(next, vec![next]).unwrap();
        } else {
            sender.close();
        }
        next += 1;
    });
    assert!(run.unwrap());
    assert_eq!(taken(&port.collector()), vec![(0, vec![0]), (1, vec![1]), (2, vec![2])]);
}

#[test]
fn probes_see_times_pass() {
    let mut b = DataflowBuilder::<u64>::new("probe");
    let a = b.source("numbers", vec![(0u64, vec![1u64]), (4, vec![2])]);
    let c = a.map(&mut b, "same", |_t, x| x);
    let (c, probe) = c.probe(&mut b);
    c.output(&mut b, "out").unwrap();
    let d = b.build().unwrap();
    assert!(!probe.done_with(&0));
    let mut executor = SimpleRuntime::new().prepare(d);
    assert!(!probe.done_with(&0));
    assert!(executor.run().unwrap());
    assert!(probe.done_with(&0));
    assert!(probe.done_with(&9));
}

#[test]
fn counts_of_a_run() {
    let mut b = DataflowBuilder::<u64>::new("counted");
    let a = b.source("numbers", vec![(0u64, vec![1u64])]);
    a.output(&mut b, "out").unwrap();
    let d = b.build().unwrap();
    let m = SimpleRuntime::new().run_with_metrics(d).unwrap().unwrap();
    assert_eq!(m.operator_count(), 2);
    let sum: u64 = m.operator_snapshots().iter().map(|o| o.activations).sum();
    assert_eq!(m.total_activations(), sum);
    assert!(m.wall_nanos() > 0);
}

#[test]
fn take_ends_an_endless_stream() {
    let mut b = DataflowBuilder::<u64>::new("endless");
    let port = b
        .source("numbers", vec![(0u64, vec![1i32])])
        .iterate::<u32, _>(&mut b, "forever", 1u32, |mut inner, round| {
            let more = round.map(&mut inner, "inc", |_t, x| x + 1).take(&mut inner, "some", 4);
            (inner, IterateResult { feedback: more.clone(), output: more })
        })
        .output(&mut b, "out")
        .unwrap();
    let d = b.build().unwrap();
    SimpleRuntime::new().run(d).unwrap();
    let all: Vec<i32> = taken(&port.collector()).into_iter().flat_map(|(_, v)| v).collect();
    assert_eq!(all, vec![2, 3, 4, 5]);
}

#[test]
fn notifications_come_in_the_order_of_times() {
    let seen: Rc<RefCell<Vec<u64>>> = Rc::new(RefCell::new(Vec::new()));
    let log = Rc::clone(&seen);
    let mut b = DataflowBuilder::<u64>::new("order");
    b.source("numbers", vec![(4u64, vec![1u64]), (2, vec![2]), (3, vec![3])])
        .unary_notify::<u64, _>(&mut b, "log", move |input, _output, ctx| {
            while let Some((t, _)) = input.next() {
                ctx.notify_at(t);
            }
            while let Some(t) = ctx.next_notification() {
                log.borrow_mut().push(t);
            }
            Ok(())
        })
        .output(&mut b, "out")
        .unwrap();
    let d = b.build().unwrap();
    SimpleRuntime::new().run(d).unwrap();
    assert_eq!(*seen.borrow(), vec![2, 3, 4]);
}

#[test]
fn executors_of_built_dataflows() {
    let mut b = DataflowBuilder::<u64>::new("made");
    b.source("numbers", vec![(0u64, vec![1u64])]).output(&mut b, "out").unwrap();
    let mut d = b.build().unwrap();
    d.set_drain_timeout(Some(7));
    let token = instancy::control::CancellationToken::new();
    let ex = d.launch(token, WorkerContext::new(2, 3));
    assert_eq!(ex.config.drain_timeout, Some(7));
    assert_eq!(ex.config.max_activations_per_step, 1024);
    assert_eq!(ex.config.max_idle_sweeps, 3);
    assert_eq!(ex.config.max_sweeps_per_poll, 64);
    assert_eq!(ex.crew.worker_index, 2);
    assert_eq!(ex.operator_count(), 2);
    assert!(ex.has_stage_tasks());
    assert!(!ex.is_complete());
}
