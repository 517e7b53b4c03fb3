use instancy::operators::concat::{concatenate, ConcatExt, ConcatOperator};
use instancy::scope::RootScope;
use instancy::stage::RegionId;
use instancy::stream::{DataStream, Slot};

#[test]
fn concat_operator_creation() {
    let op = ConcatOperator::<u64, i32>::new("merge", 0, RegionId::new(0), 3);
    assert_eq!(op.name(), "merge");
    assert_eq!(op.num_inputs(), 3);
}

#[test]
fn concat_two_streams() {
    let mut op = ConcatOperator::<u64, i32>::new("merge", 0, RegionId::new(0), 2);

    op.input_mut(0).push_vec(1, vec![10, 20]);
    op.input_mut(1).push_vec(1, vec![30, 40]);
    op.input_mut(0).push_vec(2, vec![50]);

    op.activate().unwrap();
    let batches: Vec<_> = op.drain_output();

    // All data forwarded, timestamps preserved
    assert_eq!(batches.len(), 3);
    assert_eq!(batches[0], (1, vec![10, 20]));
    assert_eq!(batches[1], (2, vec![50]));
    assert_eq!(batches[2], (1, vec![30, 40]));
}

#[test]
fn concat_preserves_timestamps() {
    let mut op = ConcatOperator::<u64, i32>::new("merge", 0, RegionId::new(0), 2);

    op.input_mut(0).push_vec(5, vec![1]);
    op.input_mut(1).push_vec(10, vec![2]);

    op.activate().unwrap();
    let batches: Vec<_> = op.drain_output();

    assert_eq!(batches[0].0, 5);
    assert_eq!(batches[1].0, 10);
}

#[test]
fn concat_empty_streams() {
    let mut op = ConcatOperator::<u64, i32>::new("merge", 0, RegionId::new(0), 3);

    // No data on any input
    let count = op.activate().unwrap();
    assert_eq!(count, 0);
}

#[test]
fn concat_one_empty_one_full() {
    let mut op = ConcatOperator::<u64, i32>::new("merge", 0, RegionId::new(0), 2);

    // Only input 1 has data
    op.input_mut(1).push_vec(1, vec![99]);

    op.activate().unwrap();
    let batches: Vec<_> = op.drain_output();
    assert_eq!(batches.len(), 1);
    assert_eq!(batches[0], (1, vec![99]));
}

#[test]
fn concat_n_streams() {
    let mut op = ConcatOperator::<u64, i32>::new("merge_5", 0, RegionId::new(0), 5);

    for i in 0..5 {
        op.input_mut(i).push_vec(1, vec![(i * 10) as i32]);
    }

    op.activate().unwrap();
    let batches: Vec<_> = op.drain_output();
    assert_eq!(batches.len(), 5);

    let all_values: Vec<i32> = batches.into_iter().flat_map(|(_, d)| d).collect();
    assert_eq!(all_values, vec![0, 10, 20, 30, 40]);
}

#[test]
fn concat_is_done() {
    let mut op = ConcatOperator::<u64, i32>::new("merge", 0, RegionId::new(0), 2);

    assert!(!op.is_done());
    op.input_mut(0).mark_exhausted();
    assert!(!op.is_done());
    op.input_mut(1).mark_exhausted();
    assert!(op.is_done());
}

#[test]
fn concat_ext_produces_stream() {
    let mut scope = RootScope::<u64>::new("test", 4);
    let region_id = scope.current_region();
    let s1 = scope.allocate_operator_index();
    let s2 = scope.allocate_operator_index();
    let stream1: DataStream<i32> =
        DataStream::new(scope.name(), Slot::new(s1, 0), region_id);
    let stream2: DataStream<i32> =
        DataStream::new(scope.name(), Slot::new(s2, 0), region_id);

    let output = stream1.concat(&mut scope, &stream2);
    assert_eq!(output.source().operator_index, 2);
}

#[test]
fn concatenate_function_works() {
    let mut scope = RootScope::<u64>::new("test", 4);
    let region_id = scope.current_region();
    let streams: Vec<DataStream<i32>> = (0..3)
        .map(|_| {
            let idx = scope.allocate_operator_index();
            DataStream::new(scope.name(), Slot::new(idx, 0), region_id)
        })
        .collect();

    let output = concatenate(&mut scope, &streams);
    assert_eq!(output.source().operator_index, 3); // 0,1,2 for sources, 3 for concat
}


#[test]
fn concat_multiple_activations() {
    let mut op = ConcatOperator::<u64, i32>::new("merge", 0, RegionId::new(0), 2);

    // First activation
    op.input_mut(0).push_vec(1, vec![10]);
    op.activate().unwrap();
    let b1: Vec<_> = op.drain_output();
    assert_eq!(b1.len(), 1);

    // Second activation
    op.input_mut(1).push_vec(2, vec![20]);
    op.activate().unwrap();
    let b2: Vec<_> = op.drain_output();
    assert_eq!(b2.len(), 1);
    assert_eq!(b2[0], (2, vec![20]));
}
