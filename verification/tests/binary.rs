use instancy::error::{Error, Result};
use instancy::handles::{InputHandle, OutputHandle};
use instancy::operators::binary::{BinaryExt, BinaryOperator};
use instancy::scope::RootScope;
use instancy::stage::StageId;
use instancy::stream::{Slot, StreamEdge};

#[test]
fn binary_operator_creation() {
    let op = BinaryOperator::<u64, i32, i32, i32, _>::new(
        "add_pairs",
        0,
        StageId::new(0),
        |_input1: &mut InputHandle<u64, i32>, _input2: &mut InputHandle<u64, i32>, _output: &mut OutputHandle<u64, i32>| -> Result<()> { Ok(()) },
    );
    assert_eq!(op.name(), "add_pairs");
    assert_eq!(op.index(), 0);
}

#[test]
fn binary_operator_join_by_timestamp() {
    let mut op = BinaryOperator::<u64, i32, i32, (i32, i32), _>::new(
        "zip",
        0,
        StageId::new(0),
        |input1: &mut InputHandle<u64, i32>, input2: &mut InputHandle<u64, i32>, output: &mut OutputHandle<u64, (i32, i32)>| -> Result<()> {
            // Simple: match batches by timestamp
            let mut left: Vec<(u64, Vec<i32>)> = Vec::new();
            while let Some((t, d)) = input1.next() {
                left.push((t, d));
            }
            while let Some((t2, d2)) = input2.next() {
                // Find matching left batch
                if let Some(pos) = left.iter().position(|(t, _)| *t == t2) {
                    let (t, d1) = left.remove(pos);
                    let mut session = output.session(t);
                    for (a, b) in d1.into_iter().zip(d2) {
                        session.give((a, b));
                    }
                    session.finish(output);
                }
            }
            Ok(())
        },
    );

    op.input1_mut().push_vec(1, vec![10, 20]);
    op.input2_mut().push_vec(1, vec![100, 200]);

    op.activate().unwrap();
    let batches: Vec<_> = op.drain_output();
    assert_eq!(batches[0], (1, vec![(10, 100), (20, 200)]));
}

#[test]
fn binary_operator_one_finishes_first() {
    let mut op = BinaryOperator::<u64, i32, i32, i32, _>::new(
        "sum_both",
        0,
        StageId::new(0),
        |input1: &mut InputHandle<u64, i32>, input2: &mut InputHandle<u64, i32>, output: &mut OutputHandle<u64, i32>| -> Result<()> {
            while let Some((time, data)) = input1.next() {
                let mut session = output.session(time);
                for item in data {
                    session.give(item);
                }
                session.finish(output);
            }
            while let Some((time, data)) = input2.next() {
                let mut session = output.session(time);
                for item in data {
                    session.give(item);
                }
                session.finish(output);
            }
            Ok(())
        },
    );

    // Only left input has data
    op.input1_mut().push_vec(1, vec![10, 20]);
    op.input1_mut().mark_exhausted();
    op.activate().unwrap();

    let b1: Vec<_> = op.drain_output();
    assert_eq!(b1[0], (1, vec![10, 20]));
    assert!(!op.is_done()); // right not done

    // Now right finishes
    op.input2_mut().push_vec(2, vec![30]);
    op.input2_mut().mark_exhausted();
    op.activate().unwrap();

    assert!(op.is_done());

    let batches: Vec<_> = op.drain_output();
    assert_eq!(batches[0], (2, vec![30]));
}

#[test]
fn binary_operator_error_propagation() {
    let mut op = BinaryOperator::<u64, i32, i32, i32, _>::new(
        "failing",
        0,
        StageId::new(0),
        |input1: &mut InputHandle<u64, i32>, _input2: &mut InputHandle<u64, i32>, _output: &mut OutputHandle<u64, i32>| -> Result<()> {
            while let Some((_t, data)) = input1.next() {
                if data.contains(&-1) {
                    return Err(Error::Operator {
                            operator: "failing".to_string(),
                            worker_index: None,
                            message: "bad value".to_string(),
                        });
                }
            }
            Ok(())
        },
    );

    op.input1_mut().push_vec(1, vec![-1]);
    let result = op.activate();
    assert!(result.is_err());
}

#[test]
fn binary_ext_produces_stream() {
    let mut scope = RootScope::<u64>::with_boundary("test", 4);
    let stage_id = scope.current_stage_id();
    let s1_idx = scope.allocate_operator_index();
    let s2_idx = scope.allocate_operator_index();
    let stream1: StreamEdge<i32> =
        StreamEdge::new(scope.name(), Slot::new(s1_idx, 0), stage_id);
    let stream2: StreamEdge<i32> =
        StreamEdge::new(scope.name(), Slot::new(s2_idx, 0), stage_id);

    let output = stream1.binary(&mut scope, &stream2, "join", |i1: &mut InputHandle<u64, i32>, i2: &mut InputHandle<u64, i32>, out: &mut OutputHandle<u64, i32>| -> Result<()> {
        while let Some((t, d)) = i1.next() {
            let mut s = out.session(t);
            for item in d {
                s.give(item);
            }
            s.finish(out);
        }
        while let Some((t, d)) = i2.next() {
            let mut s = out.session(t);
            for item in d {
                s.give(item);
            }
            s.finish(out);
        }
        Ok(())
    });

    assert_eq!(output.stage_id(), stage_id);
    assert_eq!(output.source().operator_index, 3); // 1, 2 for sources, 3 for binary
}

#[test]
fn binary_operator_empty_inputs() {
    let mut op = BinaryOperator::<u64, i32, i32, i32, _>::new(
        "noop",
        0,
        StageId::new(0),
        |_i1: &mut InputHandle<u64, i32>, _i2: &mut InputHandle<u64, i32>, _out: &mut OutputHandle<u64, i32>| -> Result<()> { Ok(()) },
    );

    let count = op.activate().unwrap();
    assert_eq!(count, 0);
}

#[test]
fn binary_operator_cross_product() {
    let mut op = BinaryOperator::<u64, i32, String, String, _>::new(
        "cross",
        0,
        StageId::new(0),
        |input1: &mut InputHandle<u64, i32>, input2: &mut InputHandle<u64, String>, output: &mut OutputHandle<u64, String>| -> Result<()> {
            let mut lefts = Vec::new();
            while let Some((_t, data)) = input1.next() {
                lefts.extend(data);
            }
            while let Some((t, data)) = input2.next() {
                let mut session = output.session(t);
                for s in &data {
                    for n in &lefts {
                        session.give(format!("{n}:{s}"));
                    }
                }
                session.finish(output);
            }
            Ok(())
        },
    );

    op.input1_mut().push_vec(1, vec![1, 2]);
    op.input2_mut()
        .push_vec(1, vec!["a".to_string(), "b".to_string()]);
    op.activate().unwrap();

    let batches: Vec<_> = op.drain_output();
    assert_eq!(
        batches[0].1,
        vec![
            "1:a".to_string(),
            "2:a".to_string(),
            "1:b".to_string(),
            "2:b".to_string()
        ]
    );
}
