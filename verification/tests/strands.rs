use std::sync::atomic::{AtomicUsize, Ordering};
use std::sync::Arc;
use std::task::{Wake, Waker};

use instancy::builder::{DataflowBuilder, DataflowBuilderConfig};
use instancy::control::CancellationToken;
use instancy::error::Error;
use instancy::order::{Product, Timestamp};
use instancy::runtime::SimpleRuntime;
use instancy::shared::{Anything, Shared};
use instancy::strand::{ChannelCell, Outlets};
use instancy::stream::Slot;
use instancy::wake::WakeHandle;
use instancy::verdict::{decide_signal, Signal, SweepOutcome};
use instancy::wired::gathering::{Assign, Delay, DelayBatch};

fn send(outlets: &Outlets<u64, i32>, time: u64, data: Vec<i32>) -> bool {
    let (mut outputs, draft) = outlets.begin();
    let sent = outputs[0].try_push(time, data).is_ok();
    let _ = outlets.commit(draft, outputs, sent);
    sent
}

fn seen(cell: &ChannelCell<u64, i32>) -> Vec<(u64, Vec<i32>)> {
    let (mut channel, _at, _receipt) = cell.look();
    let mut all = Vec::new();
    while let Some(batch) = channel.pull() {
        all.push(batch);
    }
    all
}

#[test]
fn each_reader_sees_everything() {
    let outlets: Outlets<u64, i32> = Outlets::new(3);
    let mut first = outlets.reader(Slot::new(4, 0), 8);
    assert!(send(&outlets, 0, vec![1]));
    assert!(send(&outlets, 1, vec![2, 3]));
    let mut late = outlets.reader(Slot::new(5, 0), 8);
    let all = vec![(0, vec![1]), (1, vec![2, 3])];
    assert_eq!(seen(&first), all);
    assert_eq!(seen(&late), all);
    assert_eq!(first.times(), vec![0, 1]);
    first.advance(1, false);
    assert_eq!(seen(&first), vec![(1, vec![2, 3])]);
    assert_eq!(first.times(), vec![1]);
    assert_eq!(seen(&late), all);
    first.advance(2, false);
    late.advance(2, false);
    assert!(send(&outlets, 2, vec![4]));
    assert_eq!(seen(&first), vec![(2, vec![4])]);
    assert_eq!(seen(&late), vec![(2, vec![4])]);
}

#[test]
fn readers_see_up_to_their_limit() {
    let outlets: Outlets<u64, i32> = Outlets::new(0);
    let mut reader = outlets.reader(Slot::new(1, 0), 2);
    for t in 0..3u64 {
        assert!(send(&outlets, t, vec![t as i32]));
    }
    let (mut outputs, draft) = outlets.begin();
    outputs[0].close();
    let _ = outlets.commit(draft, outputs, true);
    let (window, at, _receipt) = reader.look();
    assert_eq!((window.len(), at, window.is_closed()), (2, 0, false));
    reader.advance(2, false);
    let (window, at, _receipt) = reader.look();
    assert_eq!((window.len(), at, window.is_closed()), (1, 2, true));
    assert!(!send(&outlets, 9, vec![9]));
}

#[test]
fn what_nobody_reads_is_forgotten() {
    let outlets: Outlets<u64, i32> = Outlets::unread(2);
    assert!(send(&outlets, 0, vec![1]));
    let (outputs, draft) = outlets.begin();
    assert_eq!(outputs[0].len(), 0);
    let _ = outlets.commit(draft, outputs, false);
}

#[test]
fn lent_values_come_back_changed() {
    let shared = Shared::new(vec![1], Anything);
    let (mut value, loan) = shared.lend(Vec::new());
    assert_eq!(shared.replace(vec![7]), Vec::<i32>::new());
    value.push(2);
    let _ = shared.settle(loan, value);
    assert_eq!(shared.replace(Vec::new()), vec![1, 2]);
}

#[test]
fn readers_of_one_stream_wait_for_each_other() {
    let config = DataflowBuilderConfig { channel_capacity: 3, channel_preallocate: None };
    let mut b = DataflowBuilder::<u64>::with_config("shared", config);
    let batches: Vec<(u64, Vec<u32>)> = (0..20u64).map(|t| (t, vec![t as u32])).collect();
    let numbers = b.source("numbers", batches.clone());
    let narrow = numbers.clone().with_capacity(1).unwrap();
    let slow = narrow.map(&mut b, "slow", |_t, x| x).collect(&mut b);
    let fast = numbers.map(&mut b, "fast", |_t, x| x + 1).collect(&mut b);
    SimpleRuntime::new().run(b.build().unwrap()).unwrap();
    assert_eq!(slow.replace(Vec::new()), batches);
    let raised: Vec<(u64, Vec<u32>)> = (0..20u64).map(|t| (t, vec![t as u32 + 1])).collect();
    assert_eq!(fast.replace(Vec::new()), raised);
}

#[test]
fn streams_without_readers_do_not_block() {
    let config = DataflowBuilderConfig { channel_capacity: 1, channel_preallocate: None };
    let mut b = DataflowBuilder::<u64>::with_config("loose", config);
    let batches: Vec<(u64, Vec<u32>)> = (0..10u64).map(|t| (t, vec![t as u32])).collect();
    let (even, odd) = b.source("numbers", batches).branch(&mut b, "even", |_t, x| x % 2 == 0);
    drop(odd);
    let kept = even.collect(&mut b);
    SimpleRuntime::new().run(b.build().unwrap()).unwrap();
    assert_eq!(kept.replace(Vec::new()).len(), 5);
}

#[test]
fn two_maps_collect_what_one_does() {
    let batches = vec![(0u64, vec![1u32, 2]), (1, vec![]), (3, vec![5])];
    let mut b = DataflowBuilder::<u64>::new("two");
    let pipe = b.source("numbers", batches.clone());
    let doubled = pipe.map(&mut b, "double", |_t, x| x * 2);
    let two = doubled.map(&mut b, "raise", |_t, x| x + 1).collect(&mut b);
    SimpleRuntime::new().run(b.build().unwrap()).unwrap();
    let mut b = DataflowBuilder::<u64>::new("one");
    let one = b.source("numbers", batches).map(&mut b, "both", |_t, x| x * 2 + 1).collect(&mut b);
    SimpleRuntime::new().run(b.build().unwrap()).unwrap();
    let got = two.replace(Vec::new());
    assert_eq!(got, vec![(0, vec![3, 5]), (3, vec![11])]);
    assert_eq!(got, one.replace(Vec::new()));
}

#[test]
fn split_streams_merge_to_what_was_split() {
    let batches = vec![(0u64, vec![1u32, 2, 3]), (1, vec![4, 4])];
    let mut b = DataflowBuilder::<u64>::new("split");
    let (even, odd) = b.source("numbers", batches).branch(&mut b, "even", |_t, x| x % 2 == 0);
    let left = even.clone().collect(&mut b);
    let right = odd.clone().collect(&mut b);
    let all = even.merge(&mut b, odd).unwrap().collect(&mut b);
    SimpleRuntime::new().run(b.build().unwrap()).unwrap();
    assert_eq!(left.replace(Vec::new()), vec![(0, vec![2]), (1, vec![4, 4])]);
    assert_eq!(right.replace(Vec::new()), vec![(0, vec![1, 3])]);
    let mut records: Vec<(u64, u32)> = Vec::new();
    for (time, data) in all.replace(Vec::new()) {
        for x in data {
            records.push((time, x));
        }
    }
    records.sort();
    assert_eq!(records, vec![(0, 1), (0, 2), (0, 3), (1, 4), (1, 4)]);
}

#[test]
fn each_time_is_counted_once() {
    let batches = vec![(1u64, vec![1u32]), (0, vec![2]), (1, vec![3, 4]), (0, vec![5])];
    let mut b = DataflowBuilder::<u64>::new("counted");
    let counts = b.source("numbers", batches).count(&mut b, "count").collect(&mut b);
    SimpleRuntime::new().run(b.build().unwrap()).unwrap();
    let mut got = counts.replace(Vec::new());
    got.sort();
    assert_eq!(got, vec![(0, vec![2]), (1, vec![3])]);
}

#[test]
fn held_pipes_decide_about_building() {
    let mut b = DataflowBuilder::<u64>::new("held");
    let _ = b.source("numbers", vec![(0u64, vec![1u32])]).collect(&mut b);
    match b.build_unless(true) {
        Err(Error::InvalidConfig(m)) => assert!(m.starts_with("cannot build: outstanding Pipe")),
        _ => panic!("built"),
    }
    let mut b = DataflowBuilder::<u64>::new("free");
    let _ = b.source("numbers", vec![(0u64, vec![1u32])]).collect(&mut b);
    assert_eq!(b.build_unless(false).unwrap().operator_count(), 2);
}

#[test]
fn signals_after_sweeps() {
    assert_eq!(decide_signal(None, true), Signal::Clear);
    assert_eq!(decide_signal(Some(SweepOutcome::Completed), false), Signal::Clear);
    assert_eq!(decide_signal(Some(SweepOutcome::Quiescent), true), Signal::Clear);
    assert_eq!(decide_signal(Some(SweepOutcome::WaitingForInput), true), Signal::Register);
    assert_eq!(decide_signal(Some(SweepOutcome::MadeProgress), true), Signal::RegisterAndNotify);
    assert_eq!(decide_signal(Some(SweepOutcome::Idle), true), Signal::RegisterAndNotify);
    assert_eq!(decide_signal(Some(SweepOutcome::MadeProgress), false), Signal::Nothing);
    assert_eq!(decide_signal(Some(SweepOutcome::Idle), false), Signal::Nothing);
}

#[test]
fn outer_times_decide_which_is_earlier() {
    let a = Product::new(0u64, 5u64);
    let b = Product::new(1u64, 0u64);
    assert!(a.is_earlier(&b));
    assert!(!b.is_earlier(&a));
    assert!(!a.is_earlier(&a));
    assert!(Product::new(0u64, 4u64).is_earlier(&a));
    assert!(3u32.is_earlier(&4) && !4u32.is_earlier(&4));
}

#[test]
fn delays_go_by_the_order_of_all_times() {
    let mut on = DelayBatch { delay: |t: &Product<u64, u64>| Product::new(t.outer + 1, 0) };
    let parts = on.assign(Product::new(0, 5), vec![7]).unwrap();
    assert_eq!(parts.len(), 1);
    assert_eq!((parts[0].0.outer, parts[0].0.inner), (1, 0));
    assert_eq!(parts[0].1, vec![7]);
    let mut back = Delay {
        delay: |t: &Product<u64, u64>, x: &u64| Product::new(t.outer, t.inner - *x),
    };
    assert_eq!(back.assign(Product::new(1, 5), vec![0]).unwrap().len(), 1);
    match back.assign(Product::new(1, 5), vec![0, 1]) {
        Err(Error::InvalidConfig(m)) => {
            assert_eq!(m, "delay_fn must not return a timestamp earlier than the input")
        },
        _ => panic!("accepted"),
    }
}

#[test]
fn tokens_stay_cancelled() {
    let token = CancellationToken::new();
    let other = token.share();
    assert!(!other.is_cancelled());
    token.cancel();
    assert!(other.is_cancelled() && token.is_cancelled());
}

struct Bell {
    rung: AtomicUsize,
}

impl Wake for Bell {
    fn wake(self: Arc<Self>) {
        self.rung.fetch_add(1, Ordering::SeqCst);
    }
}

#[test]
fn signals_register_and_wake() {
    let bell = Arc::new(Bell { rung: AtomicUsize::new(0) });
    let waker: Waker = bell.clone().into();
    let handle = WakeHandle::new();
    handle.signal(Signal::Nothing, &waker);
    handle.notify();
    assert_eq!(bell.rung.load(Ordering::SeqCst), 0);
    assert!(handle.take_notification());
    handle.signal(Signal::Register, &waker);
    assert!(!handle.take_notification());
    handle.notify();
    assert_eq!(bell.rung.load(Ordering::SeqCst), 1);
    handle.signal(Signal::RegisterAndNotify, &waker);
    assert_eq!(bell.rung.load(Ordering::SeqCst), 2);
    assert!(handle.take_notification());
    handle.signal(Signal::Clear, &waker);
    handle.notify();
    assert_eq!(bell.rung.load(Ordering::SeqCst), 2);
}
