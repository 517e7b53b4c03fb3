use std::sync::{Arc, Mutex};

use instancy::builder::DataflowBuilder;
use instancy::control::CancellationToken;
use instancy::error::Error;
use instancy::iterate::IterateResult;
use instancy::pipe::Pipe;
use instancy::runtime::SimpleRuntime;
use instancy::shared::Shared;

fn rt() -> SimpleRuntime {
    SimpleRuntime::new()
}

fn taken<V>(collector: &Shared<Vec<V>>) -> Vec<V> {
    collector.replace(Vec::new())
}

#[test]
fn test_empty_builder() {
    let mut builder = DataflowBuilder::<u64>::new("empty");
    assert_eq!(builder.operator_count(), 0);
    let dataflow = builder.build().unwrap();
    assert_eq!(dataflow.operator_count(), 0);
    rt().run(dataflow).unwrap();
}

#[test]
fn test_source_to_output() {
    let mut builder = DataflowBuilder::<u64>::new("source_to_output");
    let stream = builder.source("nums", vec![(0u64, vec![1i32, 2, 3])]);
    let port = stream.output(&mut builder, "results").unwrap();
    let dataflow = builder.build().unwrap();
    rt().run(dataflow).unwrap();

    let collector = port.collector();
    let results = taken(&collector);
    assert_eq!(results.len(), 1);
    assert_eq!(results[0], (0, vec![1, 2, 3]));
}

#[test]
fn test_map_operator() {
    let mut builder = DataflowBuilder::<u64>::new("map_test");
    let stream = builder.source("nums", vec![(0u64, vec![1i32, 2, 3, 4, 5])]);
    let doubled = stream.map(&mut builder, "double", |_t, x| x * 2);
    let port = doubled.output(&mut builder, "results").unwrap();
    let dataflow = builder.build().unwrap();
    rt().run(dataflow).unwrap();

    let collector = port.collector();
    let results = taken(&collector);
    assert_eq!(results.len(), 1);
    assert_eq!(results[0].1, vec![2, 4, 6, 8, 10]);
}

#[test]
fn test_filter_operator() {
    let mut builder = DataflowBuilder::<u64>::new("filter_test");
    let stream = builder.source("nums", vec![(0u64, vec![1i32, 2, 3, 4, 5, 6])]);
    let evens = stream.filter(&mut builder, "evens", |_t, x| x % 2 == 0);
    let port = evens.output(&mut builder, "results").unwrap();
    let dataflow = builder.build().unwrap();
    rt().run(dataflow).unwrap();

    let collector = port.collector();
    let results = taken(&collector);
    assert_eq!(results[0].1, vec![2, 4, 6]);
}

#[test]
fn test_chained_operators() {
    let mut builder = DataflowBuilder::<u64>::new("chain_test");
    let port = builder
        .source("nums", vec![(0u64, vec![1i32, 2, 3, 4, 5, 6, 7, 8, 9, 10])])
        .map(&mut builder, "double", |_t, x| x * 2)
        .filter(&mut builder, "div_by_3", |_t, x| x % 3 == 0)
        .map(&mut builder, "to_string", |_t, x| format!("{x}"))
        .output(&mut builder, "results")
        .unwrap();
    let dataflow = builder.build().unwrap();
    rt().run(dataflow).unwrap();

    let collector = port.collector();
    let results = taken(&collector);
    let strings: Vec<&String> = results[0].1.iter().collect();
    assert_eq!(strings, vec!["6", "12", "18"]);
}

#[test]
fn test_flat_map() {
    let mut builder = DataflowBuilder::<u64>::new("flat_map_test");
    let port = builder
        .source(
            "lines",
            vec![(0u64, vec!["hello world".to_string(), "foo bar".to_string()])],
        )
        .flat_map(&mut builder, "split", |_t, line| {
            line.split_whitespace().map(|w| w.to_string()).collect()
        })
        .output(&mut builder, "words")
        .unwrap();
    let dataflow = builder.build().unwrap();
    rt().run(dataflow).unwrap();

    let collector = port.collector();
    let results = taken(&collector);
    assert_eq!(
        results[0].1,
        vec!["hello", "world", "foo", "bar"]
            .into_iter()
            .map(String::from)
            .collect::<Vec<_>>()
    );
}

#[test]
fn test_branching_fan_out() {
    let mut builder = DataflowBuilder::<u64>::new("branch_test");
    let stream = builder.source("nums", vec![(0u64, vec![1i32, 2, 3, 4, 5, 6])]);

    let evens_port = stream
        .clone()
        .filter(&mut builder, "evens", |_t, x| x % 2 == 0)
        .output(&mut builder, "evens")
        .unwrap();
    let odds_port = stream
        .filter(&mut builder, "odds", |_t, x| x % 2 != 0)
        .output(&mut builder, "odds")
        .unwrap();

    let dataflow = builder.build().unwrap();
    rt().run(dataflow).unwrap();

    let evens_c = evens_port.collector();
    let evens = taken(&evens_c);
    let odds_c = odds_port.collector();
    let odds = taken(&odds_c);

    assert_eq!(evens[0].1, vec![2, 4, 6]);
    assert_eq!(odds[0].1, vec![1, 3, 5]);
}

#[test]
fn test_multiple_inputs() {
    let mut builder = DataflowBuilder::<u64>::new("multi_input");
    let a = builder.source("a", vec![(0u64, vec![10i32, 20])]);
    let b = builder.source("b", vec![(0u64, vec![100i32, 200])]);

    let port_a = a.map(&mut builder, "inc_a", |_t, x| x + 1).output(&mut builder, "out_a").unwrap();
    let port_b = b.map(&mut builder, "inc_b", |_t, x| x + 1).output(&mut builder, "out_b").unwrap();

    let dataflow = builder.build().unwrap();
    rt().run(dataflow).unwrap();

    let collector_ra = port_a.collector();
    let ra = taken(&collector_ra);
    let collector_rb = port_b.collector();
    let rb = taken(&collector_rb);
    assert_eq!(ra[0].1, vec![11, 21]);
    assert_eq!(rb[0].1, vec![101, 201]);
}

#[test]
fn test_type_conversion() {
    let mut builder = DataflowBuilder::<u64>::new("type_conv");
    let port = builder
        .source("nums", vec![(0u64, vec![1i32, 2, 3])])
        .map(&mut builder, "to_f64", |_t, x| x as f64 * 1.5)
        .map(&mut builder, "to_string", |_t, x| format!("{x:.1}"))
        .output(&mut builder, "results")
        .unwrap();
    let dataflow = builder.build().unwrap();
    rt().run(dataflow).unwrap();

    let collector = port.collector();
    let results = taken(&collector);
    assert_eq!(results[0].1, vec!["1.5", "3.0", "4.5"]);
}

#[test]
fn test_empty_batches() {
    let mut builder = DataflowBuilder::<u64>::new("empty_batch");
    let port = builder
        .source::<i32>("nums", vec![(0u64, vec![])])
        .map(&mut builder, "double", |_t, x| x * 2)
        .output(&mut builder, "results")
        .unwrap();
    let dataflow = builder.build().unwrap();
    rt().run(dataflow).unwrap();

    let collector = port.collector();
    let results = taken(&collector);
    assert!(results.is_empty() || results[0].1.is_empty());
}

#[test]
fn test_multiple_timestamps() {
    let mut builder = DataflowBuilder::<u64>::new("multi_time");
    let port = builder
        .source(
            "nums",
            vec![(0u64, vec![1i32, 2]), (1u64, vec![3, 4]), (2u64, vec![5])],
        )
        .map(&mut builder, "double", |_t, x| x * 2)
        .output(&mut builder, "results")
        .unwrap();
    let dataflow = builder.build().unwrap();
    rt().run(dataflow).unwrap();

    let collector = port.collector();
    let results = taken(&collector);
    assert_eq!(results.len(), 3);
    assert_eq!(results[0], (0, vec![2, 4]));
    assert_eq!(results[1], (1, vec![6, 8]));
    assert_eq!(results[2], (2, vec![10]));
}

#[test]
fn test_collect_convenience() {
    let mut builder = DataflowBuilder::<u64>::new("collect");
    let collector = builder.source("nums", vec![(0u64, vec![42i32])]).collect(&mut builder);
    let dataflow = builder.build().unwrap();
    rt().run(dataflow).unwrap();

    let results = taken(&collector);
    assert_eq!(results[0].1, vec![42]);
}

#[test]
fn test_cancellation() {
    let cancel = CancellationToken::new();
    cancel.cancel(); // pre-cancel

    let mut builder = DataflowBuilder::<u64>::new("cancel_test");
    let _port = builder
        .source("nums", vec![(0u64, vec![1i32, 2, 3])])
        .output(&mut builder, "results")
        .unwrap();
    let dataflow = builder.build().unwrap();
    let result = SimpleRuntime::with_cancel(cancel).run(dataflow);
    assert!(result.is_err());
}

#[test]
fn test_logical_dataflow_metadata() {
    let mut builder = DataflowBuilder::<u64>::new("meta_test");
    let _a = builder.source::<i32>("src_a", vec![]);
    let b = builder.source::<i32>("src_b", vec![]);
    let _port = b.map(&mut builder, "transform", |_t, x| x).output(&mut builder, "out").unwrap();
    drop(_a); // a builder builds once no pipe is held
    let dataflow = builder.build().unwrap();

    assert_eq!(dataflow.name(), "meta_test");
    assert_eq!(dataflow.input_names().len(), 0); // sources are not "input ports"
    assert_eq!(dataflow.output_names(), vec!["out"]);
    assert_eq!(dataflow.operator_count(), 4);
}

#[test]
#[should_panic(expected = "duplicate output port name")]
fn test_duplicate_output_name_panics() {
    let mut builder = DataflowBuilder::<u64>::new("dup_test");
    let s1 = builder.source("src1", vec![(0u64, vec![1i32])]);
    let s2 = builder.source("src2", vec![(0u64, vec![2i32])]);
    let _p1 = s1.output(&mut builder, "results").unwrap();
    let _p2 = s2.output(&mut builder, "results").unwrap(); // should panic: duplicate name
}

#[test]
fn test_probe() {
    let mut builder = DataflowBuilder::<u64>::new("probe_test");
    let stream = builder.source("nums", vec![(0u64, vec![1i32, 2, 3])]);
    let (stream, _probe) = stream.probe(&mut builder);
    let _port = stream.output(&mut builder, "results").unwrap();
    let dataflow = builder.build().unwrap();
    rt().run(dataflow).unwrap();
}

#[test]
fn test_unary_with_handles() {
    let mut builder = DataflowBuilder::<u64>::new("unary_handles");
    let port = builder
        .source("nums", vec![(0u64, vec![1i32, 2, 3, 4, 5])])
        .unary(&mut builder, "sum_batch", |input, output| {
            while let Some((time, data)) = input.next() {
                let sum: i32 = data.iter().sum();
                output.push_vec(time, vec![sum]);
            }
            Ok(())
        })
        .output(&mut builder, "results")
        .unwrap();
    let dataflow = builder.build().unwrap();
    rt().run(dataflow).unwrap();

    let collector = port.collector();
    let results = taken(&collector);
    assert_eq!(results[0].1, vec![15]);
}








#[test]
fn test_binary_merge_two_streams() {
    // Binary: combine two streams by pairing data at each timestamp
    let mut builder = DataflowBuilder::<u64>::new("binary_test");
    let names = builder.source(
        "names",
        vec![(0u64, vec!["alice".to_string(), "bob".to_string()])],
    );
    let ages = builder.source("ages", vec![(0u64, vec![30i32, 25])]);

    let port = names
        .binary::<i32, String, _>(&mut builder, ages, "pair", |names_in, ages_in, out| {
            // Collect names at this timestamp
            let mut name_buf = Vec::new();
            while let Some((_t, data)) = names_in.next() {
                name_buf.extend(data.iter().cloned());
            }
            // Collect ages at this timestamp
            let mut age_buf = Vec::new();
            while let Some((_t, data)) = ages_in.next() {
                age_buf.extend(data.iter().cloned());
            }
            // Zip them together
            if !name_buf.is_empty() || !age_buf.is_empty() {
                let pairs: Vec<String> = name_buf
                    .iter()
                    .zip(age_buf.iter())
                    .map(|(n, a)| format!("{n}={a}"))
                    .collect();
                out.push_vec(0, pairs);
            }
            Ok(())
        })
        .unwrap()
        .output(&mut builder, "results")
        .unwrap();

    let dataflow = builder.build().unwrap();
    rt().run(dataflow).unwrap();

    let c = port.collector();
    let r = taken(&c);
    assert_eq!(r[0].1, vec!["alice=30", "bob=25"]);
}

#[test]
fn test_binary_different_types() {
    // Binary with different input types
    let mut builder = DataflowBuilder::<u64>::new("binary_types");
    let ints = builder.source("ints", vec![(0u64, vec![1i32, 2, 3])]);
    let strs = builder.source("strs", vec![(0u64, vec!["a".to_string(), "b".to_string()])]);

    let port = ints
        .binary::<String, String, _>(&mut builder, strs, "combine", |ints_in, strs_in, out| {
            let mut result = Vec::new();
            while let Some((t, data)) = ints_in.next() {
                for x in data {
                    result.push((t, format!("int:{x}")));
                }
            }
            while let Some((t, data)) = strs_in.next() {
                for s in data {
                    result.push((t, format!("str:{s}")));
                }
            }
            for (t, s) in result {
                out.push_vec(t, vec![s]);
            }
            Ok(())
        })
        .unwrap()
        .output(&mut builder, "out")
        .unwrap();

    let dataflow = builder.build().unwrap();
    rt().run(dataflow).unwrap();

    let c = port.collector();
    let r = taken(&c);
    let mut all: Vec<&str> = r
        .iter()
        .flat_map(|(_, v)| v.iter().map(|s| s.as_str()))
        .collect();
    all.sort();
    assert_eq!(all, vec!["int:1", "int:2", "int:3", "str:a", "str:b"]);
}


#[test]
fn test_concat_two_streams() {
    let mut builder = DataflowBuilder::<u64>::new("concat_test");
    let a = builder.source("a", vec![(0u64, vec![1i32, 2])]);
    let b = builder.source("b", vec![(0u64, vec![3i32, 4])]);

    let port = Pipe::concat(&mut builder, vec![a, b]).unwrap().output(&mut builder, "merged").unwrap();
    let dataflow = builder.build().unwrap();
    rt().run(dataflow).unwrap();

    let c = port.collector();
    let r = taken(&c);
    let mut all: Vec<i32> = r.iter().flat_map(|(_, v)| v.iter().copied()).collect();
    all.sort();
    assert_eq!(all, vec![1, 2, 3, 4]);
}

#[test]
fn test_concat_three_streams() {
    let mut builder = DataflowBuilder::<u64>::new("concat3");
    let a = builder.source("a", vec![(0u64, vec![1i32])]);
    let b = builder.source("b", vec![(0u64, vec![2i32])]);
    let c = builder.source("c", vec![(0u64, vec![3i32])]);

    let port = Pipe::concat(&mut builder, vec![a, b, c])
        .unwrap()
        .output(&mut builder, "merged")
        .unwrap();
    let dataflow = builder.build().unwrap();
    rt().run(dataflow).unwrap();

    let col = port.collector();
    let r = taken(&col);
    let mut all: Vec<i32> = r.iter().flat_map(|(_, v)| v.iter().copied()).collect();
    all.sort();
    assert_eq!(all, vec![1, 2, 3]);
}

#[test]
fn test_merge_two_streams() {
    let mut builder = DataflowBuilder::<u64>::new("merge_test");
    let evens = builder.source("evens", vec![(0u64, vec![2i32, 4, 6])]);
    let odds = builder.source("odds", vec![(0u64, vec![1i32, 3, 5])]);

    let port = evens.merge(&mut builder, odds).unwrap().output(&mut builder, "all").unwrap();
    let dataflow = builder.build().unwrap();
    rt().run(dataflow).unwrap();

    let c = port.collector();
    let r = taken(&c);
    let mut all: Vec<i32> = r.iter().flat_map(|(_, v)| v.iter().copied()).collect();
    all.sort();
    assert_eq!(all, vec![1, 2, 3, 4, 5, 6]);
}

#[test]
fn test_concat_then_process() {
    // Concat → downstream operator
    let mut builder = DataflowBuilder::<u64>::new("concat_chain");
    let a = builder.source("a", vec![(0u64, vec![1i32, 2])]);
    let b = builder.source("b", vec![(0u64, vec![3i32, 4])]);

    let port = Pipe::concat(&mut builder, vec![a, b])
        .unwrap()
        .map(&mut builder, "double", |_t, x| x * 2)
        .output(&mut builder, "results")
        .unwrap();
    let dataflow = builder.build().unwrap();
    rt().run(dataflow).unwrap();

    let c = port.collector();
    let r = taken(&c);
    let mut all: Vec<i32> = r.iter().flat_map(|(_, v)| v.iter().copied()).collect();
    all.sort();
    assert_eq!(all, vec![2, 4, 6, 8]);
}

#[test]
fn test_concat_multiple_timestamps() {
    let mut builder = DataflowBuilder::<u64>::new("concat_ts");
    let a = builder.source("a", vec![(0u64, vec![1i32]), (1u64, vec![10])]);
    let b = builder.source("b", vec![(0u64, vec![2i32]), (1u64, vec![20])]);

    let port = Pipe::concat(&mut builder, vec![a, b]).unwrap().output(&mut builder, "merged").unwrap();
    let dataflow = builder.build().unwrap();
    rt().run(dataflow).unwrap();

    let c = port.collector();
    let r = taken(&c);
    let mut t0: Vec<i32> = r
        .iter()
        .filter(|(t, _)| *t == 0)
        .flat_map(|(_, v)| v.iter().copied())
        .collect();
    let mut t1: Vec<i32> = r
        .iter()
        .filter(|(t, _)| *t == 1)
        .flat_map(|(_, v)| v.iter().copied())
        .collect();
    t0.sort();
    t1.sort();
    assert_eq!(t0, vec![1, 2]);
    assert_eq!(t1, vec![10, 20]);
}


#[test]
fn test_iterate_simple() {
    // Iterate: multiply by 2 until >= 100
    let mut builder = DataflowBuilder::<u64>::new("iterate_simple");
    let stream = builder.source("nums", vec![(0u64, vec![1i32, 3, 7])]);
    let port = stream
        .iterate::<u32, _>(&mut builder, "loop", 1u32, |mut inner, iter_var| {
            let doubled = iter_var.map(&mut inner, "double", |_t, x| x * 2);
            let done = doubled.clone().filter(&mut inner, "done", |_t, x| *x >= 100);
            let again = doubled.filter(&mut inner, "again", |_t, x| *x < 100);
            (inner, IterateResult { feedback: again, output: done })
        })
        .output(&mut builder, "results")
        .unwrap();
    let dataflow = builder.build().unwrap();
    rt().run(dataflow).unwrap();

    let c = port.collector();
    let r = taken(&c);
    let mut all: Vec<i32> = r.iter().flat_map(|(_, v)| v.iter().copied()).collect();
    all.sort();
    // 1 → 2 → 4 → 8 → 16 → 32 → 64 → 128 (7 iterations)
    // 3 → 6 → 12 → 24 → 48 → 96 → 192 (6 iterations)
    // 7 → 14 → 28 → 56 → 112 (4 iterations)
    assert_eq!(all, vec![112, 128, 192]);
}

#[test]
fn test_iterate_convergence() {
    // Items converge at different rates
    let mut builder = DataflowBuilder::<u64>::new("iterate_conv");
    let stream = builder.source("nums", vec![(0u64, vec![50i32, 90, 10])]);
    let port = stream
        .iterate::<u32, _>(&mut builder, "loop", 1u32, |mut inner, iter_var| {
            // Add 10 each iteration; exit when >= 100
            let incremented = iter_var.map(&mut inner, "add10", |_t, x| x + 10);
            let done = incremented.clone().filter(&mut inner, "done", |_t, x| *x >= 100);
            let again = incremented.filter(&mut inner, "again", |_t, x| *x < 100);
            (inner, IterateResult { feedback: again, output: done })
        })
        .output(&mut builder, "results")
        .unwrap();
    let dataflow = builder.build().unwrap();
    rt().run(dataflow).unwrap();

    let c = port.collector();
    let r = taken(&c);
    let mut all: Vec<i32> = r.iter().flat_map(|(_, v)| v.iter().copied()).collect();
    all.sort();
    // 50 → 60 → 70 → 80 → 90 → 100 (5 iters)
    // 90 → 100 (1 iter)
    // 10 → 20 → 30 → 40 → 50 → 60 → 70 → 80 → 90 → 100 (9 iters)
    assert_eq!(all, vec![100, 100, 100]);
}

#[test]
fn test_iterate_empty() {
    // Empty input should pass through without hanging
    let mut builder = DataflowBuilder::<u64>::new("iterate_empty");
    let stream = builder.source::<i32>("nums", vec![]);
    let port = stream
        .iterate::<u32, _>(&mut builder, "loop", 1u32, |mut inner, iter_var| {
            let done = iter_var.clone().filter(&mut inner, "done", |_t, x| *x >= 100);
            let again = iter_var.filter(&mut inner, "again", |_t, x| *x < 100);
            (inner, IterateResult { feedback: again, output: done })
        })
        .output(&mut builder, "results")
        .unwrap();
    let dataflow = builder.build().unwrap();
    rt().run(dataflow).unwrap();

    let c = port.collector();
    let r = taken(&c);
    assert!(r.is_empty());
}

#[test]
fn test_iterate_multi_batch() {
    // Multiple batches at different timestamps should all iterate correctly
    let mut builder = DataflowBuilder::<u64>::new("iterate_multi");
    let stream = builder.source(
        "nums",
        vec![
            (0u64, vec![5i32]),  // 5 → 10 → 20 → 40 → 80 → 160 (5 iters)
            (1u64, vec![50i32]), // 50 → 100 (1 iter)
        ],
    );
    let port = stream
        .iterate::<u32, _>(&mut builder, "loop", 1u32, |mut inner, iter_var| {
            let doubled = iter_var.map(&mut inner, "double", |_t, x| x * 2);
            let done = doubled.clone().filter(&mut inner, "done", |_t, x| *x >= 100);
            let again = doubled.filter(&mut inner, "again", |_t, x| *x < 100);
            (inner, IterateResult { feedback: again, output: done })
        })
        .output(&mut builder, "results")
        .unwrap();
    let dataflow = builder.build().unwrap();
    rt().run(dataflow).unwrap();

    let c = port.collector();
    let r = taken(&c);
    let mut all: Vec<i32> = r.iter().flat_map(|(_, v)| v.iter().copied()).collect();
    all.sort();
    assert_eq!(all, vec![100, 160]);
}

// unary_notify — frontier-based buffering + emission

#[test]
fn test_unary_notify_basic_passthrough() {
    // Simplest notify test: buffer data, emit on notification.
    // Single timestamp, single batch — notification fires when source closes
    // and frontier advances past t=0.
    let mut builder = DataflowBuilder::<u64>::new("notify_passthrough");
    let port = builder
        .source("nums", vec![(0u64, vec![1i32, 2, 3])])
        .unary_notify(&mut builder, "buffer_emit", {
            let mut stash: std::collections::HashMap<u64, Vec<i32>> =
                std::collections::HashMap::new();
            move |input, output, ctx| {
                while let Some((time, data)) = input.next() {
                    stash.entry(time).or_default().extend(data);
                    ctx.notify_at(time);
                }
                while let Some(time) = ctx.next_notification() {
                    if let Some(data) = stash.remove(&time) {
                        output.push_vec(time, data);
                    }
                }
                Ok(())
            }
        })
        .output(&mut builder, "results")
        .unwrap();
    let dataflow = builder.build().unwrap();
    rt().run(dataflow).unwrap();

    let c = port.collector();
    let r = taken(&c);
    let all: Vec<i32> = r.iter().flat_map(|(_, v)| v.iter().copied()).collect();
    assert_eq!(all, vec![1, 2, 3]);
}

#[test]
fn test_unary_notify_multiple_timestamps() {
    // Multiple timestamps — each gets its own notification.
    // Verifies that notifications fire per-timestamp as frontier advances.
    let mut builder = DataflowBuilder::<u64>::new("notify_multi_time");
    let port = builder
        .source(
            "data",
            vec![
                (0u64, vec![10i32, 20]),
                (1u64, vec![30, 40]),
                (2u64, vec![50]),
            ],
        )
        .unary_notify(&mut builder, "aggregate", {
            let mut stash: std::collections::HashMap<u64, Vec<i32>> =
                std::collections::HashMap::new();
            move |input, output, ctx| {
                while let Some((time, data)) = input.next() {
                    stash.entry(time).or_default().extend(data);
                    ctx.notify_at(time);
                }
                while let Some(time) = ctx.next_notification() {
                    if let Some(mut data) = stash.remove(&time) {
                        let sum: i32 = data.drain(..).sum();
                        output.push_vec(time, vec![sum]);
                    }
                }
                Ok(())
            }
        })
        .output(&mut builder, "results")
        .unwrap();
    let dataflow = builder.build().unwrap();
    rt().run(dataflow).unwrap();

    let c = port.collector();
    let r = taken(&c);
    let mut results: Vec<(u64, i32)> = r
        .iter()
        .flat_map(|(t, vs)| vs.iter().map(move |v| (*t, *v)))
        .collect();
    results.sort();
    // t=0: 10+20=30, t=1: 30+40=70, t=2: 50
    assert_eq!(results, vec![(0, 30), (1, 70), (2, 50)]);
}

#[test]
fn test_unary_notify_downstream_chain() {
    // Verify that a notify operator chains correctly with downstream operators.
    // The downstream map should receive data only after the notify operator emits.
    let mut builder = DataflowBuilder::<u64>::new("notify_chain");
    let port = builder
        .source("nums", vec![(0u64, vec![1i32, 2, 3, 4])])
        .unary_notify(&mut builder, "sum", {
            let mut stash: std::collections::HashMap<u64, Vec<i32>> =
                std::collections::HashMap::new();
            move |input, output, ctx| {
                while let Some((time, data)) = input.next() {
                    stash.entry(time).or_default().extend(data);
                    ctx.notify_at(time);
                }
                while let Some(time) = ctx.next_notification() {
                    if let Some(data) = stash.remove(&time) {
                        let sum: i32 = data.iter().sum();
                        output.push_vec(time, vec![sum]);
                    }
                }
                Ok(())
            }
        })
        .map(&mut builder, "format", |_t, x| format!("sum={x}"))
        .output(&mut builder, "results")
        .unwrap();
    let dataflow = builder.build().unwrap();
    rt().run(dataflow).unwrap();

    let c = port.collector();
    let r = taken(&c);
    let all: Vec<&str> = r
        .iter()
        .flat_map(|(_, v)| v.iter().map(|s| s.as_str()))
        .collect();
    assert_eq!(all, vec!["sum=10"]);
}

#[test]
fn test_unary_notify_no_data_no_notification() {
    // If notify_at is never called, no notification fires.
    // The operator should still complete cleanly.
    let mut builder = DataflowBuilder::<u64>::new("notify_empty");
    let port = builder
        .source::<i32>("nums", vec![])
        .unary_notify::<i32, _>(&mut builder, "noop", {
            move |input, _output, _ctx| {
                // Drain input but never call notify_at
                while input.next().is_some() {}
                Ok(())
            }
        })
        .output(&mut builder, "results")
        .unwrap();
    let dataflow = builder.build().unwrap();
    rt().run(dataflow).unwrap();

    let c = port.collector();
    let r = taken(&c);
    assert!(r.is_empty());
}

#[test]
fn test_unary_notify_duplicate_notify_at() {
    // Calling notify_at(t) multiple times for the same time should
    // result in exactly one notification firing for that time.
    let mut builder = DataflowBuilder::<u64>::new("notify_dedup");
    let port = builder
        .source("data", vec![(0u64, vec![1i32, 2, 3])])
        .unary_notify(&mut builder, "count_notifs", {
            let mut stash: std::collections::HashMap<u64, Vec<i32>> =
                std::collections::HashMap::new();
            let mut notification_count: i32 = 0;
            move |input, output, ctx| {
                while let Some((time, data)) = input.next() {
                    stash.entry(time).or_default().extend(data);
                    // Call notify_at multiple times for the same timestamp
                    ctx.notify_at(time);
                    ctx.notify_at(time);
                    ctx.notify_at(time);
                }
                while let Some(time) = ctx.next_notification() {
                    notification_count += 1;
                    if stash.remove(&time).is_some() {
                        // Emit notification count to verify dedup
                        output.push_vec(time, vec![notification_count]);
                    }
                }
                Ok(())
            }
        })
        .output(&mut builder, "results")
        .unwrap();
    let dataflow = builder.build().unwrap();
    rt().run(dataflow).unwrap();

    let c = port.collector();
    let r = taken(&c);
    let all: Vec<i32> = r.iter().flat_map(|(_, v)| v.iter().copied()).collect();
    // The Notificator coalesces duplicate notify_at calls for the same time,
    // so only one notification fires per time. With the dedup guard in
    // NotifyContext::notify_at(), only ONE capability is created regardless
    // of how many times notify_at is called for the same timestamp. The key
    // invariant: data is emitted exactly once per timestamp.
    assert!(!all.is_empty(), "should have at least one notification");
    // Verify exactly one notification fired (notification_count == 1)
    assert_eq!(
        all,
        vec![1],
        "should fire exactly one notification for the deduplicated time"
    );
}


#[test]
fn test_with_capacity_basic() {
    // with_capacity should not affect correctness — data still flows through
    let mut builder = DataflowBuilder::<u64>::new("cap_basic");
    let port = builder
        .source("nums", vec![(0u64, vec![1i32, 2, 3])])
        .with_capacity(4)
        .unwrap()
        .map(&mut builder, "double", |_t, x| x * 2)
        .output(&mut builder, "results")
        .unwrap();
    let dataflow = builder.build().unwrap();
    rt().run(dataflow).unwrap();

    let c = port.collector();
    let r = taken(&c);
    assert_eq!(r[0].1, vec![2, 4, 6]);
}

#[test]
fn test_with_capacity_chained() {
    // Override only applies to the next edge; subsequent edges use default
    let mut builder = DataflowBuilder::<u64>::new("cap_chain");
    let port = builder
        .source("nums", vec![(0u64, vec![1i32, 2, 3, 4])])
        .with_capacity(8)
        .unwrap()
        .map(&mut builder, "double", |_t, x| x * 2)
        // no with_capacity here → default capacity
        .filter(&mut builder, "positive", |_t, &x| x > 0)
        .with_capacity(16)
        .unwrap()
        .output(&mut builder, "results")
        .unwrap();
    let dataflow = builder.build().unwrap();
    rt().run(dataflow).unwrap();

    let c = port.collector();
    let r = taken(&c);
    assert_eq!(r[0].1, vec![2, 4, 6, 8]);
}

#[test]
fn test_with_capacity_zero_panics() {
    let mut builder = DataflowBuilder::<u64>::new("cap_zero");
    assert!(
        builder
            .source("nums", vec![(0u64, vec![1i32])])
            .with_capacity(0)
            .is_err()
    );
}

#[test]
fn test_with_capacity_not_propagated_by_clone() {
    // Cloning a Pipe should NOT copy the capacity_override
    let mut builder = DataflowBuilder::<u64>::new("cap_clone");
    let s = builder
        .source("nums", vec![(0u64, vec![1i32, 2, 3])])
        .with_capacity(4)
        .unwrap();
    let s2 = s.clone();

    // s still has the override, s2 does not
    let port1 = s.map(&mut builder, "double", |_t, x| x * 2).output(&mut builder, "out1").unwrap();
    let port2 = s2.map(&mut builder, "triple", |_t, x| x * 3).output(&mut builder, "out2").unwrap();

    let dataflow = builder.build().unwrap();
    rt().run(dataflow).unwrap();

    let c1 = port1.collector();
    let r1 = taken(&c1);
    assert_eq!(r1[0].1, vec![2, 4, 6]);

    let c2 = port2.collector();
    let r2 = taken(&c2);
    assert_eq!(r2[0].1, vec![3, 6, 9]);
}

#[test]
fn test_with_capacity_small_buffer() {
    // Very small capacity (1) to stress backpressure — should still work
    let mut builder = DataflowBuilder::<u64>::new("cap_small");
    let port = builder
        .source("nums", vec![(0u64, vec![1i32, 2, 3, 4, 5, 6, 7, 8, 9, 10])])
        .with_capacity(1)
        .unwrap()
        .map(&mut builder, "inc", |_t, x| x + 1)
        .with_capacity(1)
        .unwrap()
        .filter(&mut builder, "even", |_t, &x| x % 2 == 0)
        .with_capacity(1)
        .unwrap()
        .output(&mut builder, "results")
        .unwrap();
    let dataflow = builder.build().unwrap();
    rt().run(dataflow).unwrap();

    let c = port.collector();
    let r = taken(&c);
    let mut vals: Vec<i32> = r.iter().flat_map(|(_, v)| v.iter().copied()).collect();
    vals.sort();
    assert_eq!(vals, vec![2, 4, 6, 8, 10]);
}

#[test]
fn test_with_capacity_unary() {
    let mut builder = DataflowBuilder::<u64>::new("cap_unary");
    let port = builder
        .source("nums", vec![(0u64, vec![1i32, 2, 3])])
        .with_capacity(2)
        .unwrap()
        .unary(&mut builder, "sum", |input, output| {
            while let Some((time, data)) = input.next() {
                let sum: i32 = data.iter().sum();
                output.push_vec(time, vec![sum]);
            }
            Ok(())
        })
        .output(&mut builder, "results")
        .unwrap();
    let dataflow = builder.build().unwrap();
    rt().run(dataflow).unwrap();

    let c = port.collector();
    let r = taken(&c);
    assert_eq!(r[0].1, vec![6]);
}

#[test]
fn test_with_capacity_concat() {
    let mut builder = DataflowBuilder::<u64>::new("cap_concat");
    let a = builder
        .source("a", vec![(0u64, vec![1i32, 2])])
        .with_capacity(4)
        .unwrap();
    let b = builder
        .source("b", vec![(0u64, vec![3i32, 4])])
        .with_capacity(8)
        .unwrap();
    let port = Pipe::concat(&mut builder, vec![a, b]).unwrap().output(&mut builder, "merged").unwrap();
    let dataflow = builder.build().unwrap();
    rt().run(dataflow).unwrap();

    let c = port.collector();
    let r = taken(&c);
    let mut vals: Vec<i32> = r.iter().flat_map(|(_, v)| v.iter().copied()).collect();
    vals.sort();
    assert_eq!(vals, vec![1, 2, 3, 4]);
}


#[test]
fn test_map_ok() {
    let mut builder = DataflowBuilder::<u64>::new("map_ok");
    let stream = builder.source::<std::result::Result<i32, String>>(
        "data",
        vec![(0u64, vec![Ok(1), Err("bad".into()), Ok(3)])],
    );
    let port = stream
        .map_ok(&mut builder, "double", |_t, v| v * 2)
        .output(&mut builder, "results")
        .unwrap();
    let dataflow = builder.build().unwrap();
    rt().run(dataflow).unwrap();

    let c = port.collector();
    let r = taken(&c);
    assert_eq!(r[0].1, vec![Ok(2), Err("bad".into()), Ok(6)]);
}

#[test]
fn test_filter_ok() {
    let mut builder = DataflowBuilder::<u64>::new("filter_ok");
    let stream = builder.source::<std::result::Result<i32, String>>(
        "data",
        vec![(0u64, vec![Ok(1), Ok(2), Err("err".into()), Ok(3)])],
    );
    let port = stream
        .filter_ok(&mut builder, "even", |_t, v| v % 2 == 0)
        .output(&mut builder, "results")
        .unwrap();
    let dataflow = builder.build().unwrap();
    rt().run(dataflow).unwrap();

    let c = port.collector();
    let r = taken(&c);
    assert_eq!(r[0].1, vec![Ok(2), Err("err".into())]);
}

#[test]
fn test_and_then() {
    let mut builder = DataflowBuilder::<u64>::new("and_then");
    let stream = builder.source::<std::result::Result<String, String>>(
        "data",
        vec![(
            0u64,
            vec![
                Ok("42".into()),
                Err("upstream_err".into()),
                Ok("not_a_number".into()),
            ],
        )],
    );
    let port = stream
        .and_then(&mut builder, "parse", |_t, s: String| {
            s.parse::<i32>().map_err(|e| e.to_string())
        })
        .output(&mut builder, "results")
        .unwrap();
    let dataflow = builder.build().unwrap();
    rt().run(dataflow).unwrap();

    let c = port.collector();
    let r = taken(&c);
    assert_eq!(r[0].1.len(), 3);
    assert_eq!(r[0].1[0], Ok(42));
    assert_eq!(r[0].1[1], Err("upstream_err".into()));
    assert!(r[0].1[2].is_err()); // parse error
}

#[test]
fn test_branch_result() {
    let mut builder = DataflowBuilder::<u64>::new("branch_result");
    let stream = builder.source::<std::result::Result<i32, String>>(
        "data",
        vec![(0u64, vec![Ok(1), Err("a".into()), Ok(2), Err("b".into())])],
    );
    let (ok_pipe, err_pipe) = stream.branch_result(&mut builder, "split");
    let ok_port = ok_pipe.output(&mut builder, "goods").unwrap();
    let err_port = err_pipe.output(&mut builder, "bads").unwrap();
    let dataflow = builder.build().unwrap();
    rt().run(dataflow).unwrap();

    let oc = ok_port.collector();
    let or = taken(&oc);
    let mut ok_vals: Vec<i32> = or.iter().flat_map(|(_, v)| v.iter().copied()).collect();
    ok_vals.sort();
    assert_eq!(ok_vals, vec![1, 2]);

    let ec = err_port.collector();
    let er = taken(&ec);
    let mut err_vals: Vec<String> = er.iter().flat_map(|(_, v)| v.iter().cloned()).collect();
    err_vals.sort();
    assert_eq!(err_vals, vec!["a", "b"]);
}

#[test]
fn test_map_ok_chained() {
    // Chain: map_ok → filter_ok → output
    let mut builder = DataflowBuilder::<u64>::new("chain");
    let stream = builder.source::<std::result::Result<i32, String>>(
        "data",
        vec![(0u64, vec![Ok(1), Ok(2), Ok(3), Ok(4), Err("x".into())])],
    );
    let port = stream
        .map_ok(&mut builder, "double", |_t, v| v * 2)
        .filter_ok(&mut builder, "big", |_t, v| *v > 4)
        .output(&mut builder, "results")
        .unwrap();
    let dataflow = builder.build().unwrap();
    rt().run(dataflow).unwrap();

    let c = port.collector();
    let r = taken(&c);
    assert_eq!(r[0].1, vec![Ok(6), Ok(8), Err("x".into())]);
}

#[test]
fn test_result_combinators_all_ok() {
    let mut builder = DataflowBuilder::<u64>::new("all_ok");
    let stream = builder
        .source::<std::result::Result<i32, String>>("data", vec![(0u64, vec![Ok(10), Ok(20)])]);
    let port = stream
        .map_ok(&mut builder, "inc", |_t, v| v + 1)
        .output(&mut builder, "results")
        .unwrap();
    let dataflow = builder.build().unwrap();
    rt().run(dataflow).unwrap();

    let c = port.collector();
    let r = taken(&c);
    assert_eq!(r[0].1, vec![Ok(11), Ok(21)]);
}

#[test]
fn test_result_combinators_all_err() {
    let mut builder = DataflowBuilder::<u64>::new("all_err");
    let stream = builder.source::<std::result::Result<i32, String>>(
        "data",
        vec![(0u64, vec![Err("a".into()), Err("b".into())])],
    );
    let port = stream
        .map_ok(&mut builder, "inc", |_t, v: i32| v + 1)
        .output(&mut builder, "results")
        .unwrap();
    let dataflow = builder.build().unwrap();
    rt().run(dataflow).unwrap();

    let c = port.collector();
    let r = taken(&c);
    assert_eq!(r[0].1, vec![Err("a".into()), Err("b".into())]);
}


#[test]
fn test_take_fewer_than_available() {
    let mut builder = DataflowBuilder::<u64>::new("take_fewer");
    let stream = builder.source("nums", vec![(0u64, vec![1i32, 2, 3, 4, 5])]);
    let port = stream.take(&mut builder, "first3", 3).output(&mut builder, "out").unwrap();
    let dataflow = builder.build().unwrap();
    rt().run(dataflow).unwrap();

    let c = port.collector();
    let r = taken(&c);
    let all: Vec<i32> = r.iter().flat_map(|(_, d)| d.clone()).collect();
    assert_eq!(all, vec![1, 2, 3]);
}

#[test]
fn test_take_more_than_available() {
    let mut builder = DataflowBuilder::<u64>::new("take_more");
    let stream = builder.source("nums", vec![(0u64, vec![1i32, 2, 3])]);
    let port = stream.take(&mut builder, "first10", 10).output(&mut builder, "out").unwrap();
    let dataflow = builder.build().unwrap();
    rt().run(dataflow).unwrap();

    let c = port.collector();
    let r = taken(&c);
    let all: Vec<i32> = r.iter().flat_map(|(_, d)| d.clone()).collect();
    assert_eq!(all, vec![1, 2, 3]);
}

#[test]
fn test_take_zero() {
    let mut builder = DataflowBuilder::<u64>::new("take_zero");
    let stream = builder.source("nums", vec![(0u64, vec![1i32, 2, 3])]);
    let port = stream.take(&mut builder, "none", 0).output(&mut builder, "out").unwrap();
    let dataflow = builder.build().unwrap();
    rt().run(dataflow).unwrap();

    let c = port.collector();
    let r = taken(&c);
    let all: Vec<i32> = r.iter().flat_map(|(_, d)| d.clone()).collect();
    assert!(all.is_empty());
}

#[test]
fn test_take_across_batches() {
    let mut builder = DataflowBuilder::<u64>::new("take_batches");
    let stream = builder.source(
        "nums",
        vec![
            (0u64, vec![1i32, 2]),
            (1u64, vec![3, 4]),
            (2u64, vec![5, 6]),
        ],
    );
    let port = stream.take(&mut builder, "first3", 3).output(&mut builder, "out").unwrap();
    let dataflow = builder.build().unwrap();
    rt().run(dataflow).unwrap();

    let c = port.collector();
    let r = taken(&c);
    let all: Vec<i32> = r.iter().flat_map(|(_, d)| d.clone()).collect();
    assert_eq!(all, vec![1, 2, 3]);
}

#[test]
fn test_take_while_stops_at_predicate() {
    let mut builder = DataflowBuilder::<u64>::new("take_while_stop");
    let stream = builder.source("nums", vec![(0u64, vec![1i32, 2, 3, 4, 5])]);
    let port = stream
        .take_while(&mut builder, "small", |_t, x| *x < 4)
        .output(&mut builder, "out")
        .unwrap();
    let dataflow = builder.build().unwrap();
    rt().run(dataflow).unwrap();

    let c = port.collector();
    let r = taken(&c);
    let all: Vec<i32> = r.iter().flat_map(|(_, d)| d.clone()).collect();
    assert_eq!(all, vec![1, 2, 3]);
}

#[test]
fn test_take_while_all_pass() {
    let mut builder = DataflowBuilder::<u64>::new("take_while_all");
    let stream = builder.source("nums", vec![(0u64, vec![1i32, 2, 3])]);
    let port = stream
        .take_while(&mut builder, "always", |_t, _x| true)
        .output(&mut builder, "out")
        .unwrap();
    let dataflow = builder.build().unwrap();
    rt().run(dataflow).unwrap();

    let c = port.collector();
    let r = taken(&c);
    let all: Vec<i32> = r.iter().flat_map(|(_, d)| d.clone()).collect();
    assert_eq!(all, vec![1, 2, 3]);
}

#[test]
fn test_take_while_none_pass() {
    let mut builder = DataflowBuilder::<u64>::new("take_while_none");
    let stream = builder.source("nums", vec![(0u64, vec![1i32, 2, 3])]);
    let port = stream
        .take_while(&mut builder, "never", |_t, _x| false)
        .output(&mut builder, "out")
        .unwrap();
    let dataflow = builder.build().unwrap();
    rt().run(dataflow).unwrap();

    let c = port.collector();
    let r = taken(&c);
    let all: Vec<i32> = r.iter().flat_map(|(_, d)| d.clone()).collect();
    assert!(all.is_empty());
}

#[test]
fn test_take_while_across_batches() {
    let mut builder = DataflowBuilder::<u64>::new("take_while_batches");
    let stream = builder.source(
        "nums",
        vec![(0u64, vec![1i32, 2]), (1u64, vec![3, 10]), (2u64, vec![20])],
    );
    let port = stream
        .take_while(&mut builder, "under10", |_t, x| *x < 10)
        .output(&mut builder, "out")
        .unwrap();
    let dataflow = builder.build().unwrap();
    rt().run(dataflow).unwrap();

    let c = port.collector();
    let r = taken(&c);
    let all: Vec<i32> = r.iter().flat_map(|(_, d)| d.clone()).collect();
    assert_eq!(all, vec![1, 2, 3]);
}

#[test]
fn test_take_with_downstream_map() {
    let mut builder = DataflowBuilder::<u64>::new("take_then_map");
    let stream = builder.source("nums", vec![(0u64, vec![1i32, 2, 3, 4, 5])]);
    let port = stream
        .take(&mut builder, "first2", 2)
        .map(&mut builder, "double", |_t, x| x * 2)
        .output(&mut builder, "out")
        .unwrap();
    let dataflow = builder.build().unwrap();
    rt().run(dataflow).unwrap();

    let c = port.collector();
    let r = taken(&c);
    let all: Vec<i32> = r.iter().flat_map(|(_, d)| d.clone()).collect();
    assert_eq!(all, vec![2, 4]);
}


#[test]
fn test_collect_metrics_disabled_by_default() {
    let mut builder = DataflowBuilder::<u64>::new("no_metrics");
    let stream = builder.source("nums", vec![(0u64, vec![1i32])]);
    stream.output(&mut builder, "out").unwrap();
    let dataflow = builder.build().unwrap();
    assert!(!dataflow.collects_metrics());
}

#[test]
fn test_collect_metrics_records_activations() {
    let mut builder = DataflowBuilder::<u64>::new("metrics_test");
    let stream = builder.source("nums", vec![(0u64, vec![1i32, 2, 3])]);
    stream.map(&mut builder, "double", |_t, x| x * 2).output(&mut builder, "out").unwrap();
    let dataflow = builder.build().unwrap();

    let metrics = rt().run_with_metrics(dataflow).unwrap();
    let m = metrics.expect("metrics should be collected");
    assert!(m.wall_nanos() > 0);
    assert!(m.total_activations() > 0);
    assert!(m.operator_count() > 0);

    // Each operator should have been activated at least once
    let snapshots = m.operator_snapshots();
    assert!(!snapshots.is_empty());
    for op in snapshots {
        assert!(
            op.activations > 0,
            "operator '{}' had 0 activations",
            op.name
        );
    }
}

#[test]
fn test_collect_metrics_not_enabled() {
    let mut builder = DataflowBuilder::<u64>::new("no_metrics");
    let stream = builder.source("nums", vec![(0u64, vec![1i32, 2])]);
    stream.output(&mut builder, "out").unwrap();
    let mut dataflow = builder.build().unwrap();
    // Explicitly disable (should already be false by default)
    dataflow.collect_metrics(false);

    // Use run() instead — no metrics
    rt().run(dataflow).unwrap();
}


#[test]
fn test_inspect_sees_all_items() {
    let seen = Arc::new(Mutex::new(Vec::new()));
    let seen_clone = seen.clone();

    let mut builder = DataflowBuilder::<u64>::new("inspect_test");
    let port = builder
        .source("nums", vec![(0u64, vec![10i32, 20, 30])])
        .inspect(&mut builder, "spy", move |_t, x| {
            seen_clone.lock().unwrap().push(*x);
        })
        .output(&mut builder, "results")
        .unwrap();
    let dataflow = builder.build().unwrap();
    rt().run(dataflow).unwrap();

    // Side-effect captured all items
    assert_eq!(*seen.lock().unwrap(), vec![10, 20, 30]);

    // Data passes through unchanged
    let c = port.collector();
    let r = taken(&c);
    assert_eq!(r[0].1, vec![10, 20, 30]);
}

#[test]
fn test_inspect_batch_sees_whole_batch() {
    let batch_sizes = Arc::new(Mutex::new(Vec::new()));
    let batch_sizes_clone = batch_sizes.clone();

    let mut builder = DataflowBuilder::<u64>::new("inspect_batch_test");
    let port = builder
        .source(
            "nums",
            vec![(0u64, vec![1i32, 2, 3]), (1u64, vec![4i32, 5])],
        )
        .inspect_batch(&mut builder, "batch-spy", move |_t, batch| {
            batch_sizes_clone.lock().unwrap().push(batch.len());
        })
        .output(&mut builder, "results")
        .unwrap();
    let dataflow = builder.build().unwrap();
    rt().run(dataflow).unwrap();

    // Two batches observed
    let sizes = batch_sizes.lock().unwrap();
    assert_eq!(sizes.len(), 2);
    assert_eq!(sizes[0], 3);
    assert_eq!(sizes[1], 2);

    // Data passes through unchanged
    let c = port.collector();
    let r = taken(&c);
    assert_eq!(r[0], (0, vec![1, 2, 3]));
    assert_eq!(r[1], (1, vec![4, 5]));
}

#[test]
fn test_inspect_in_pipeline() {
    // inspect should not alter downstream results
    let mut builder = DataflowBuilder::<u64>::new("inspect_pipeline");
    let port = builder
        .source("nums", vec![(0u64, vec![1i32, 2, 3, 4, 5])])
        .inspect(&mut builder, "tap", |_t, _x| { /* no-op */ })
        .filter(&mut builder, "even", |_t, x| x % 2 == 0)
        .inspect(&mut builder, "tap2", |_t, _x| { /* no-op */ })
        .map(&mut builder, "double", |_t, x| x * 2)
        .output(&mut builder, "results")
        .unwrap();
    let dataflow = builder.build().unwrap();
    rt().run(dataflow).unwrap();

    let c = port.collector();
    let r = taken(&c);
    assert_eq!(r[0].1, vec![4, 8]);
}

#[test]
fn test_inspect_receives_timestamp() {
    let timestamps = Arc::new(Mutex::new(Vec::new()));
    let ts_clone = timestamps.clone();

    let mut builder = DataflowBuilder::<u64>::new("inspect_ts");
    let port = builder
        .source("nums", vec![(10u64, vec![1i32]), (20u64, vec![2i32])])
        .inspect(&mut builder, "ts-spy", move |t, _x| {
            ts_clone.lock().unwrap().push(*t);
        })
        .output(&mut builder, "results")
        .unwrap();
    let dataflow = builder.build().unwrap();
    rt().run(dataflow).unwrap();

    let ts = timestamps.lock().unwrap();
    assert_eq!(*ts, vec![10, 20]);

    let c = port.collector();
    let r = taken(&c);
    assert_eq!(r.len(), 2);
}

#[test]
fn test_for_each_sees_all_items() {
    let seen = Arc::new(Mutex::new(Vec::new()));
    let seen_clone = seen.clone();

    let mut builder = DataflowBuilder::<u64>::new("for_each_test");
    builder
        .source("nums", vec![(0u64, vec![10i32, 20, 30])])
        .for_each(&mut builder, "consume", move |_t, x| {
            seen_clone.lock().unwrap().push(*x);
        });
    let dataflow = builder.build().unwrap();
    rt().run(dataflow).unwrap();

    assert_eq!(*seen.lock().unwrap(), vec![10, 20, 30]);
}

#[test]
fn test_for_each_batch_sees_whole_batch() {
    let batch_sizes = Arc::new(Mutex::new(Vec::new()));
    let batch_sizes_clone = batch_sizes.clone();

    let mut builder = DataflowBuilder::<u64>::new("for_each_batch_test");
    builder
        .source(
            "nums",
            vec![(0u64, vec![1i32, 2, 3]), (1u64, vec![4i32, 5])],
        )
        .for_each_batch(&mut builder, "count", move |_t, batch| {
            batch_sizes_clone.lock().unwrap().push(batch.len());
        });
    let dataflow = builder.build().unwrap();
    rt().run(dataflow).unwrap();

    let sizes = batch_sizes.lock().unwrap();
    assert_eq!(sizes.iter().sum::<usize>(), 5);
}

#[test]
fn test_for_each_receives_timestamp() {
    let timestamps = Arc::new(Mutex::new(Vec::new()));
    let ts_clone = timestamps.clone();

    let mut builder = DataflowBuilder::<u64>::new("for_each_ts_test");
    builder
        .source("nums", vec![(10u64, vec![1i32]), (20u64, vec![2i32])])
        .for_each(&mut builder, "check-ts", move |t, _x| {
            ts_clone.lock().unwrap().push(*t);
        });
    let dataflow = builder.build().unwrap();
    rt().run(dataflow).unwrap();

    let ts = timestamps.lock().unwrap();
    assert!(ts.contains(&10));
    assert!(ts.contains(&20));
}

#[test]
fn test_for_each_after_map() {
    let seen = Arc::new(Mutex::new(Vec::new()));
    let seen_clone = seen.clone();

    let mut builder = DataflowBuilder::<u64>::new("for_each_after_map");
    builder
        .source("nums", vec![(0u64, vec![1i32, 2, 3])])
        .map(&mut builder, "double", |_t, x| x * 2)
        .for_each(&mut builder, "consume", move |_t, x| {
            seen_clone.lock().unwrap().push(*x);
        });
    let dataflow = builder.build().unwrap();
    rt().run(dataflow).unwrap();

    assert_eq!(*seen.lock().unwrap(), vec![2, 4, 6]);
}

#[test]
fn test_reduce_sums_per_timestamp() {
    let mut builder = DataflowBuilder::<u64>::new("reduce_sum");
    let port = builder
        .source(
            "nums",
            vec![(0u64, vec![1i32, 2, 3]), (1u64, vec![10i32, 20])],
        )
        .reduce(&mut builder, "sum", |a, b| a + b)
        .output(&mut builder, "results")
        .unwrap();
    let dataflow = builder.build().unwrap();
    rt().run(dataflow).unwrap();

    let c = port.collector();
    let r = taken(&c);
    let mut results: Vec<(u64, i32)> = r
        .iter()
        .flat_map(|(t, d)| d.iter().map(move |v| (*t, *v)))
        .collect();
    results.sort();
    assert_eq!(results, vec![(0, 6), (1, 30)]);
}

#[test]
fn test_reduce_single_element() {
    let mut builder = DataflowBuilder::<u64>::new("reduce_single");
    let port = builder
        .source("nums", vec![(0u64, vec![42i32])])
        .reduce(&mut builder, "id", |a, b| a + b)
        .output(&mut builder, "results")
        .unwrap();
    let dataflow = builder.build().unwrap();
    rt().run(dataflow).unwrap();

    let c = port.collector();
    let r = taken(&c);
    assert_eq!(r[0].1, vec![42]);
}

#[test]
fn test_reduce_empty_input() {
    let mut builder = DataflowBuilder::<u64>::new("reduce_empty");
    let port = builder
        .source::<i32>("nums", vec![])
        .reduce(&mut builder, "sum", |a, b| a + b)
        .output(&mut builder, "results")
        .unwrap();
    let dataflow = builder.build().unwrap();
    rt().run(dataflow).unwrap();

    let c = port.collector();
    let r = taken(&c);
    let total: usize = r.iter().map(|(_, d)| d.len()).sum();
    assert_eq!(total, 0);
}

#[test]
fn test_fold_count_elements() {
    let mut builder = DataflowBuilder::<u64>::new("fold_count");
    let port = builder
        .source(
            "nums",
            vec![(0u64, vec![10i32, 20, 30]), (1u64, vec![40i32, 50])],
        )
        .fold(&mut builder, "count", 0usize, |acc, _item| acc + 1)
        .output(&mut builder, "results")
        .unwrap();
    let dataflow = builder.build().unwrap();
    rt().run(dataflow).unwrap();

    let c = port.collector();
    let r = taken(&c);
    let mut results: Vec<(u64, usize)> = r
        .iter()
        .flat_map(|(t, d)| d.iter().map(move |v| (*t, *v)))
        .collect();
    results.sort();
    assert_eq!(results, vec![(0, 3), (1, 2)]);
}

#[test]
fn test_fold_changes_type() {
    let mut builder = DataflowBuilder::<u64>::new("fold_to_string");
    let port = builder
        .source("nums", vec![(0u64, vec![1i32, 2, 3])])
        .fold(&mut builder, "join", String::new(), |mut acc, x| {
            if !acc.is_empty() {
                acc.push(',');
            }
            acc.push_str(&x.to_string());
            acc
        })
        .output(&mut builder, "results")
        .unwrap();
    let dataflow = builder.build().unwrap();
    rt().run(dataflow).unwrap();

    let c = port.collector();
    let r = taken(&c);
    assert_eq!(r[0].1, vec!["1,2,3"]);
}

#[test]
fn test_reduce_then_map() {
    let mut builder = DataflowBuilder::<u64>::new("reduce_then_map");
    let port = builder
        .source("nums", vec![(0u64, vec![1i32, 2, 3, 4])])
        .reduce(&mut builder, "sum", |a, b| a + b)
        .map(&mut builder, "negate", |_t, x| -x)
        .output(&mut builder, "results")
        .unwrap();
    let dataflow = builder.build().unwrap();
    rt().run(dataflow).unwrap();

    let c = port.collector();
    let r = taken(&c);
    assert_eq!(r[0].1, vec![-10]);
}

#[test]
fn test_distinct_removes_duplicates() {
    let mut builder = DataflowBuilder::<u64>::new("distinct_test");
    let port = builder
        .source("nums", vec![(0u64, vec![1i32, 2, 2, 3, 1, 3, 4])])
        .distinct(&mut builder, "dedup")
        .output(&mut builder, "results")
        .unwrap();
    let dataflow = builder.build().unwrap();
    rt().run(dataflow).unwrap();

    let c = port.collector();
    let r = taken(&c);
    let mut results: Vec<i32> = r.iter().flat_map(|(_, d)| d.clone()).collect();
    results.sort();
    assert_eq!(results, vec![1, 2, 3, 4]);
}

#[test]
fn test_distinct_per_timestamp() {
    let mut builder = DataflowBuilder::<u64>::new("distinct_per_ts");
    let port = builder
        .source(
            "nums",
            vec![(0u64, vec![1i32, 1, 2]), (1u64, vec![2i32, 2, 3])],
        )
        .distinct(&mut builder, "dedup")
        .output(&mut builder, "results")
        .unwrap();
    let dataflow = builder.build().unwrap();
    rt().run(dataflow).unwrap();

    let c = port.collector();
    let r = taken(&c);
    // Each timestamp deduplicates independently
    let mut t0: Vec<i32> = r
        .iter()
        .filter(|(t, _)| *t == 0)
        .flat_map(|(_, d)| d.clone())
        .collect();
    let mut t1: Vec<i32> = r
        .iter()
        .filter(|(t, _)| *t == 1)
        .flat_map(|(_, d)| d.clone())
        .collect();
    t0.sort();
    t1.sort();
    assert_eq!(t0, vec![1, 2]);
    assert_eq!(t1, vec![2, 3]);
}

#[test]
fn test_distinct_no_duplicates() {
    let mut builder = DataflowBuilder::<u64>::new("distinct_no_dups");
    let port = builder
        .source("nums", vec![(0u64, vec![1i32, 2, 3, 4, 5])])
        .distinct(&mut builder, "dedup")
        .output(&mut builder, "results")
        .unwrap();
    let dataflow = builder.build().unwrap();
    rt().run(dataflow).unwrap();

    let c = port.collector();
    let r = taken(&c);
    let mut results: Vec<i32> = r.iter().flat_map(|(_, d)| d.clone()).collect();
    results.sort();
    assert_eq!(results, vec![1, 2, 3, 4, 5]);
}

#[test]
fn test_distinct_empty() {
    let mut builder = DataflowBuilder::<u64>::new("distinct_empty");
    let port = builder
        .source::<i32>("nums", vec![])
        .distinct(&mut builder, "dedup")
        .output(&mut builder, "results")
        .unwrap();
    let dataflow = builder.build().unwrap();
    rt().run(dataflow).unwrap();

    let c = port.collector();
    let r = taken(&c);
    assert!(r.iter().flat_map(|(_, d)| d.clone()).count() == 0);
}

#[test]
fn test_count_elements_per_timestamp() {
    let mut builder = DataflowBuilder::<u64>::new("count_test");
    let port = builder
        .source(
            "nums",
            vec![(0u64, vec![10i32, 20, 30]), (1u64, vec![40i32, 50])],
        )
        .count(&mut builder, "count")
        .output(&mut builder, "results")
        .unwrap();
    let dataflow = builder.build().unwrap();
    rt().run(dataflow).unwrap();

    let c = port.collector();
    let r = taken(&c);
    let mut results: Vec<(u64, usize)> = r
        .iter()
        .flat_map(|(t, d)| d.iter().map(move |v| (*t, *v)))
        .collect();
    results.sort();
    assert_eq!(results, vec![(0, 3), (1, 2)]);
}

#[test]
fn test_distinct_then_count() {
    let mut builder = DataflowBuilder::<u64>::new("distinct_then_count");
    let port = builder
        .source("nums", vec![(0u64, vec![1i32, 1, 2, 2, 3])])
        .distinct(&mut builder, "dedup")
        .count(&mut builder, "count")
        .output(&mut builder, "results")
        .unwrap();
    let dataflow = builder.build().unwrap();
    rt().run(dataflow).unwrap();

    let c = port.collector();
    let r = taken(&c);
    let results: Vec<usize> = r.iter().flat_map(|(_, d)| d.clone()).collect();
    assert_eq!(results, vec![3]);
}

#[test]
fn test_gather_routes_all_to_single_output() {
    // In single-worker mode, gather is a pass-through.
    let mut builder = DataflowBuilder::<u64>::new("gather_test");
    let port = builder
        .source("nums", vec![(0u64, vec![1i32, 2, 3, 4, 5])])
        .gather(&mut builder, "collect-all")
        .output(&mut builder, "results")
        .unwrap();
    let dataflow = builder.build().unwrap();
    rt().run(dataflow).unwrap();

    let c = port.collector();
    let r = taken(&c);
    let results: Vec<i32> = r.iter().flat_map(|(_, d)| d.clone()).collect();
    assert_eq!(results, vec![1, 2, 3, 4, 5]);
}

#[test]
fn test_gather_then_reduce() {
    // gather → reduce produces a single global result.
    let mut builder = DataflowBuilder::<u64>::new("gather_reduce");
    let port = builder
        .source("nums", vec![(0u64, vec![10i32, 20, 30])])
        .gather(&mut builder, "collect")
        .reduce(&mut builder, "sum", |acc, x| acc + x)
        .output(&mut builder, "results")
        .unwrap();
    let dataflow = builder.build().unwrap();
    rt().run(dataflow).unwrap();

    let c = port.collector();
    let r = taken(&c);
    let results: Vec<i32> = r.iter().flat_map(|(_, d)| d.clone()).collect();
    assert_eq!(results, vec![60]);
}

#[test]
fn test_rebalance_passes_all_data() {
    // In single-worker mode, rebalance is a pass-through.
    let mut builder = DataflowBuilder::<u64>::new("rebalance_test");
    let port = builder
        .source("nums", vec![(0u64, vec![1i32, 2, 3, 4, 5, 6])])
        .rebalance(&mut builder, "spread")
        .output(&mut builder, "results")
        .unwrap();
    let dataflow = builder.build().unwrap();
    rt().run(dataflow).unwrap();

    let c = port.collector();
    let r = taken(&c);
    let results: Vec<i32> = r.iter().flat_map(|(_, d)| d.clone()).collect();
    assert_eq!(results, vec![1, 2, 3, 4, 5, 6]);
}

#[test]
fn test_rebalance_then_map() {
    // rebalance → map pipeline preserves all data.
    let mut builder = DataflowBuilder::<u64>::new("rebalance_map");
    let port = builder
        .source("nums", vec![(0u64, vec![1i32, 2, 3])])
        .rebalance(&mut builder, "distribute")
        .map(&mut builder, "double", |_t, x| x * 2)
        .output(&mut builder, "results")
        .unwrap();
    let dataflow = builder.build().unwrap();
    rt().run(dataflow).unwrap();

    let c = port.collector();
    let r = taken(&c);
    let results: Vec<i32> = r.iter().flat_map(|(_, d)| d.clone()).collect();
    assert_eq!(results, vec![2, 4, 6]);
}

#[test]
fn test_gather_multi_epoch() {
    // gather preserves data across multiple epochs.
    let mut builder = DataflowBuilder::<u64>::new("gather_epochs");
    let port = builder
        .source("nums", vec![(0u64, vec![1i32, 2]), (1u64, vec![10, 20])])
        .gather(&mut builder, "collect")
        .output(&mut builder, "results")
        .unwrap();
    let dataflow = builder.build().unwrap();
    rt().run(dataflow).unwrap();

    let c = port.collector();
    let r = taken(&c);
    let results: Vec<i32> = r.iter().flat_map(|(_, d)| d.clone()).collect();
    assert_eq!(results, vec![1, 2, 10, 20]);
}

#[test]
fn test_rebalance_to_passes_all_data() {
    // rebalance_to with explicit parallelism preserves all data.
    let mut builder = DataflowBuilder::<u64>::new("rebalance_to_test");
    let port = builder
        .source("nums", vec![(0u64, vec![1i32, 2, 3, 4])])
        .rebalance_to(&mut builder, "fan-out", 4)
        .unwrap()
        .output(&mut builder, "results")
        .unwrap();
    let dataflow = builder.build().unwrap();
    rt().run(dataflow).unwrap();

    let c = port.collector();
    let r = taken(&c);
    let results: Vec<i32> = r.iter().flat_map(|(_, d)| d.clone()).collect();
    assert_eq!(results, vec![1, 2, 3, 4]);
}

#[test]
#[should_panic(expected = "target_parallelism must be > 0")]
fn test_rebalance_to_zero_panics() {
    let mut builder = DataflowBuilder::<u64>::new("rebalance_to_zero");
    builder
        .source("nums", vec![(0u64, vec![1i32])])
        .rebalance_to(&mut builder, "bad", 0)
        .unwrap();
}

#[test]
fn test_map_batch_sort() {
    // Sort each batch
    let mut builder = DataflowBuilder::<u64>::new("map_batch_sort");
    let port = builder
        .source("nums", vec![(0u64, vec![5i32, 3, 1, 4, 2])])
        .map_batch(&mut builder, "sort", |_t, mut batch| {
            batch.sort();
            batch
        })
        .output(&mut builder, "results")
        .unwrap();
    let dataflow = builder.build().unwrap();
    rt().run(dataflow).unwrap();

    let c = port.collector();
    let r = taken(&c);
    let results: Vec<i32> = r.iter().flat_map(|(_, d)| d.clone()).collect();
    assert_eq!(results, vec![1, 2, 3, 4, 5]);
}

#[test]
fn test_map_batch_filter_and_transform() {
    // Filter even numbers and double them, batch-level
    let mut builder = DataflowBuilder::<u64>::new("map_batch_filter");
    let port = builder
        .source("nums", vec![(0u64, vec![1i32, 2, 3, 4, 5, 6])])
        .map_batch(&mut builder, "even_doubled", |_t, batch| {
            batch
                .into_iter()
                .filter(|x| x % 2 == 0)
                .map(|x| x * 2)
                .collect()
        })
        .output(&mut builder, "results")
        .unwrap();
    let dataflow = builder.build().unwrap();
    rt().run(dataflow).unwrap();

    let c = port.collector();
    let r = taken(&c);
    let results: Vec<i32> = r.iter().flat_map(|(_, d)| d.clone()).collect();
    assert_eq!(results, vec![4, 8, 12]);
}

#[test]
fn test_map_batch_empty_output() {
    // Return empty vec — filters out entire batch
    let mut builder = DataflowBuilder::<u64>::new("map_batch_empty");
    let port = builder
        .source("nums", vec![(0u64, vec![1i32, 2, 3])])
        .map_batch(&mut builder, "drop-all", |_t, _batch| Vec::<i32>::new())
        .output(&mut builder, "results")
        .unwrap();
    let dataflow = builder.build().unwrap();
    rt().run(dataflow).unwrap();

    let c = port.collector();
    let r = taken(&c);
    let results: Vec<i32> = r.iter().flat_map(|(_, d)| d.clone()).collect();
    assert!(results.is_empty());
}

#[test]
fn test_map_batch_type_change() {
    // Change output type: Vec<i32> → Vec<String>
    let mut builder = DataflowBuilder::<u64>::new("map_batch_type");
    let port = builder
        .source("nums", vec![(0u64, vec![1i32, 2, 3])])
        .map_batch(&mut builder, "to_string", |_t, batch| {
            batch.into_iter().map(|x| format!("v{x}")).collect()
        })
        .output(&mut builder, "results")
        .unwrap();
    let dataflow = builder.build().unwrap();
    rt().run(dataflow).unwrap();

    let c = port.collector();
    let r = taken(&c);
    let results: Vec<String> = r.iter().flat_map(|(_, d)| d.clone()).collect();
    assert_eq!(results, vec!["v1", "v2", "v3"]);
}

#[test]
fn test_map_batch_multi_epoch() {
    // Each epoch's batch processed independently
    let mut builder = DataflowBuilder::<u64>::new("map_batch_epochs");
    let port = builder
        .source(
            "nums",
            vec![(0u64, vec![3i32, 1, 2]), (1u64, vec![6, 4, 5])],
        )
        .map_batch(&mut builder, "sort", |_t, mut batch| {
            batch.sort();
            batch
        })
        .output(&mut builder, "results")
        .unwrap();
    let dataflow = builder.build().unwrap();
    rt().run(dataflow).unwrap();

    let c = port.collector();
    let r = taken(&c);
    let results: Vec<i32> = r.iter().flat_map(|(_, d)| d.clone()).collect();
    // Each epoch sorted independently
    assert_eq!(results, vec![1, 2, 3, 4, 5, 6]);
}

#[test]
fn test_branch_even_odd() {
    let mut builder = DataflowBuilder::<u64>::new("branch_even_odd");
    let (evens, odds) = builder
        .source("nums", vec![(0u64, vec![1i32, 2, 3, 4, 5, 6])])
        .branch(&mut builder, "parity", |_t, x| x % 2 == 0);
    let even_port = evens.output(&mut builder, "evens").unwrap();
    let odd_port = odds.output(&mut builder, "odds").unwrap();
    let dataflow = builder.build().unwrap();
    rt().run(dataflow).unwrap();

    let ec = even_port.collector();
    let er = taken(&ec);
    let even_results: Vec<i32> = er.iter().flat_map(|(_, d)| d.clone()).collect();
    assert_eq!(even_results, vec![2, 4, 6]);

    let oc = odd_port.collector();
    let or_ = taken(&oc);
    let odd_results: Vec<i32> = or_.iter().flat_map(|(_, d)| d.clone()).collect();
    assert_eq!(odd_results, vec![1, 3, 5]);
}

#[test]
fn test_branch_all_true() {
    let mut builder = DataflowBuilder::<u64>::new("branch_all_true");
    let (matched, unmatched) = builder
        .source("nums", vec![(0u64, vec![10i32, 20, 30])])
        .branch(&mut builder, "all", |_t, _x| true);
    let matched_port = matched.output(&mut builder, "matched").unwrap();
    let unmatched_port = unmatched.output(&mut builder, "unmatched").unwrap();
    let dataflow = builder.build().unwrap();
    rt().run(dataflow).unwrap();

    let mc = matched_port.collector();
    let mr = taken(&mc);
    let matched_results: Vec<i32> = mr.iter().flat_map(|(_, d)| d.clone()).collect();
    assert_eq!(matched_results, vec![10, 20, 30]);

    let uc = unmatched_port.collector();
    let ur = taken(&uc);
    let unmatched_results: Vec<i32> = ur.iter().flat_map(|(_, d)| d.clone()).collect();
    assert!(unmatched_results.is_empty());
}

#[test]
fn test_branch_all_false() {
    let mut builder = DataflowBuilder::<u64>::new("branch_all_false");
    let (matched, unmatched) = builder
        .source("nums", vec![(0u64, vec![1i32, 2, 3])])
        .branch(&mut builder, "none", |_t, _x| false);
    let matched_port = matched.output(&mut builder, "matched").unwrap();
    let unmatched_port = unmatched.output(&mut builder, "unmatched").unwrap();
    let dataflow = builder.build().unwrap();
    rt().run(dataflow).unwrap();

    let mc = matched_port.collector();
    let mr = taken(&mc);
    let matched_results: Vec<i32> = mr.iter().flat_map(|(_, d)| d.clone()).collect();
    assert!(matched_results.is_empty());

    let uc = unmatched_port.collector();
    let ur = taken(&uc);
    let unmatched_results: Vec<i32> = ur.iter().flat_map(|(_, d)| d.clone()).collect();
    assert_eq!(unmatched_results, vec![1, 2, 3]);
}

#[test]
fn test_branch_with_downstream_processing() {
    // Branch then process each side differently
    let mut builder = DataflowBuilder::<u64>::new("branch_process");
    let (big, small) = builder
        .source("nums", vec![(0u64, vec![1i32, 5, 10, 15, 20])])
        .branch(&mut builder, "threshold", |_t, x| *x >= 10);
    let big_port = big.map(&mut builder, "negate", |_t, x| -x).output(&mut builder, "big").unwrap();
    let small_port = small.map(&mut builder, "double", |_t, x| x * 2).output(&mut builder, "small").unwrap();
    let dataflow = builder.build().unwrap();
    rt().run(dataflow).unwrap();

    let bc = big_port.collector();
    let br = taken(&bc);
    let big_results: Vec<i32> = br.iter().flat_map(|(_, d)| d.clone()).collect();
    assert_eq!(big_results, vec![-10, -15, -20]);

    let sc = small_port.collector();
    let sr = taken(&sc);
    let small_results: Vec<i32> = sr.iter().flat_map(|(_, d)| d.clone()).collect();
    assert_eq!(small_results, vec![2, 10]);
}

#[test]
fn test_branch_multi_epoch() {
    let mut builder = DataflowBuilder::<u64>::new("branch_epochs");
    let (pos, neg) = builder
        .source(
            "nums",
            vec![(0u64, vec![-2i32, -1, 0, 1, 2]), (1u64, vec![-10, 10])],
        )
        .branch(&mut builder, "sign", |_t, x| *x >= 0);
    let pos_port = pos.output(&mut builder, "positive").unwrap();
    let neg_port = neg.output(&mut builder, "negative").unwrap();
    let dataflow = builder.build().unwrap();
    rt().run(dataflow).unwrap();

    let pc = pos_port.collector();
    let pr = taken(&pc);
    let pos_results: Vec<i32> = pr.iter().flat_map(|(_, d)| d.clone()).collect();
    assert_eq!(pos_results, vec![0, 1, 2, 10]);

    let nc = neg_port.collector();
    let nr = taken(&nc);
    let neg_results: Vec<i32> = nr.iter().flat_map(|(_, d)| d.clone()).collect();
    assert_eq!(neg_results, vec![-2, -1, -10]);
}

#[test]
fn test_input_port_rejected_by_run() {
    let mut builder = DataflowBuilder::<u64>::new("input_test");
    let (data, _sender) = builder.input::<i32>("data").unwrap();
    let _port = data.output(&mut builder, "results").unwrap();
    let dataflow = builder.build().unwrap();
    let result = rt().run(dataflow);
    assert!(result.is_err());
    let err_msg = result.unwrap_err().to_text();
    assert!(err_msg.contains("input ports"));
}

#[test]
fn test_spawn_basic_pipeline() {
    let mut builder = DataflowBuilder::<u64>::new("spawn_test");
    let (input, mut sender) = builder.input::<i32>("numbers").unwrap();
    let port = input
        .map(&mut builder, "double", |_t, x| x * 2)
        .output(&mut builder, "results")
        .unwrap();
    let dataflow = builder.build().unwrap();

    let mut executor = rt().prepare(dataflow);
    sender.push(0, vec![1, 2, 3]).unwrap();
    sender.push(1, vec![10, 20]).unwrap();
    sender.close();
    assert!(executor.run().unwrap());

    let mut results = taken(&port.collector());
    results.sort_by_key(|(t, _)| *t);
    assert_eq!(results.len(), 2);
    assert_eq!(results[0].0, 0);
    assert_eq!(results[0].1, vec![2, 4, 6]);
    assert_eq!(results[1].0, 1);
    assert_eq!(results[1].1, vec![20, 40]);
}

#[test]
fn test_spawn_filter_pipeline() {
    let mut builder = DataflowBuilder::<u64>::new("filter_spawn");
    let (input, mut sender) = builder.input::<i32>("src").unwrap();
    let port = input
        .filter(&mut builder, "evens", |_t, x| x % 2 == 0)
        .output(&mut builder, "evens")
        .unwrap();
    let dataflow = builder.build().unwrap();

    let mut executor = rt().prepare(dataflow);
    sender.push(0, vec![1, 2, 3, 4, 5, 6]).unwrap();
    sender.close();
    assert!(executor.run().unwrap());

    let results = taken(&port.collector());
    assert_eq!(results.len(), 1);
    assert_eq!(results[0].1, vec![2, 4, 6]);
}

#[test]
fn test_spawn_cancel() {
    let mut builder = DataflowBuilder::<u64>::new("cancel_test");
    let (input, _sender) = builder.input::<i32>("data").unwrap();
    input.output(&mut builder, "out").unwrap();
    let dataflow = builder.build().unwrap();

    let cancel = CancellationToken::new();
    let mut executor = SimpleRuntime::with_cancel(cancel.share()).prepare(dataflow);
    cancel.cancel();
    assert!(executor.run().is_err());
}

#[test]
fn test_spawn_drop_cancels() {
    let mut builder = DataflowBuilder::<u64>::new("drop_test");
    let (input, _sender) = builder.input::<i32>("data").unwrap();
    input.output(&mut builder, "out").unwrap();
    let dataflow = builder.build().unwrap();

    let cancel = CancellationToken::new();
    let runtime = SimpleRuntime::with_cancel(cancel.share());
    let mut executor = runtime.prepare(dataflow);
    cancel.cancel();
    assert!(matches!(executor.run(), Err(Error::Cancelled { .. })));
}
