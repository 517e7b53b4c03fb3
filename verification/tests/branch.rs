use instancy::operators::branch::{BranchExt, BranchOperator, OkErrExt, OkErrOperator};
use instancy::scope::RootScope;
use instancy::stage::RegionId;
use instancy::stream::{DataStream, Slot};

#[test]
fn branch_operator_creation() {
    let op = BranchOperator::<u64, i32, _>::new(
        "even_odd",
        0,
        RegionId::new(0),
        |x: &i32| x % 2 == 0,
    );
    assert_eq!(op.name(), "even_odd");
    assert_eq!(op.index(), 0);
    assert_eq!(op.region_id(), RegionId::new(0));
}

#[test]
fn branch_splits_data() {
    let mut op = BranchOperator::<u64, i32, _>::new(
        "even_odd",
        0,
        RegionId::new(0),
        |x: &i32| x % 2 == 0,
    );

    op.input_mut().push_vec(1, vec![1, 2, 3, 4, 5, 6]);
    let batches = op.activate().unwrap();
    assert_eq!(batches, 1);

    let true_output: Vec<_> = op.drain_output_true();
    let false_output: Vec<_> = op.drain_output_false();

    assert_eq!(true_output, vec![(1, vec![2, 4, 6])]);
    assert_eq!(false_output, vec![(1, vec![1, 3, 5])]);
}

#[test]
fn branch_all_true() {
    let mut op = BranchOperator::<u64, i32, _>::new(
        "all_true",
        0,
        RegionId::new(0),
        |_: &i32| true,
    );

    op.input_mut().push_vec(5, vec![10, 20, 30]);
    op.activate().unwrap();

    let true_output: Vec<_> = op.drain_output_true();
    let false_output: Vec<_> = op.drain_output_false();

    assert_eq!(true_output, vec![(5, vec![10, 20, 30])]);
    assert!(false_output.is_empty());
}

#[test]
fn branch_all_false() {
    let mut op = BranchOperator::<u64, i32, _>::new(
        "all_false",
        0,
        RegionId::new(0),
        |_: &i32| false,
    );

    op.input_mut().push_vec(3, vec![1, 2, 3]);
    op.activate().unwrap();

    let true_output: Vec<_> = op.drain_output_true();
    let false_output: Vec<_> = op.drain_output_false();

    assert!(true_output.is_empty());
    assert_eq!(false_output, vec![(3, vec![1, 2, 3])]);
}

#[test]
fn branch_empty_input() {
    let mut op = BranchOperator::<u64, i32, _>::new(
        "empty",
        0,
        RegionId::new(0),
        |x: &i32| *x > 0,
    );

    let batches = op.activate().unwrap();
    assert_eq!(batches, 0);
}

#[test]
fn branch_multiple_timestamps() {
    let mut op = BranchOperator::<u64, i32, _>::new(
        "pos_neg",
        0,
        RegionId::new(0),
        |x: &i32| *x > 0,
    );

    op.input_mut().push_vec(1, vec![-1, 2, -3]);
    op.input_mut().push_vec(2, vec![4, -5]);
    op.activate().unwrap();

    let true_output: Vec<_> = op.drain_output_true();
    let false_output: Vec<_> = op.drain_output_false();

    assert_eq!(true_output, vec![(1, vec![2]), (2, vec![4])]);
    assert_eq!(false_output, vec![(1, vec![-1, -3]), (2, vec![-5])]);
}

#[test]
fn branch_is_done() {
    let mut op = BranchOperator::<u64, i32, _>::new(
        "test",
        0,
        RegionId::new(0),
        |_: &i32| true,
    );

    assert!(!op.is_done());

    // Exhausted but pending data → not done
    op.input_mut().push_vec(1, vec![1, 2]);
    op.input_mut().mark_exhausted();
    assert!(!op.is_done());

    // Drain pending → done
    op.activate().unwrap();
    assert!(op.is_done());
}

#[test]
fn ok_err_operator_creation() {
    let op = OkErrOperator::<u64, String, i32, String, _>::new(
        "parse",
        1,
        RegionId::new(0),
        |s: String| s.parse::<i32>().map_err(|e| e.to_string()),
    );
    assert_eq!(op.name(), "parse");
    assert_eq!(op.index(), 1);
}

#[test]
fn ok_err_splits_results() {
    let mut op = OkErrOperator::<u64, i32, i32, i32, _>::new(
        "split",
        0,
        RegionId::new(0),
        |x: i32| if x >= 0 { Ok(x * 2) } else { Err(x) },
    );

    op.input_mut().push_vec(1, vec![1, -2, 3, -4, 5]);
    op.activate().unwrap();

    let ok_output: Vec<_> = op.drain_output_ok();
    let err_output: Vec<_> = op.drain_output_err();

    assert_eq!(ok_output, vec![(1, vec![2, 6, 10])]);
    assert_eq!(err_output, vec![(1, vec![-2, -4])]);
}

#[test]
fn ok_err_all_ok() {
    let mut op = OkErrOperator::<u64, i32, i32, String, _>::new(
        "all_ok",
        0,
        RegionId::new(0),
        |x: i32| Ok(x),
    );

    op.input_mut().push_vec(1, vec![10, 20]);
    op.activate().unwrap();

    let ok_output: Vec<_> = op.drain_output_ok();
    let err_output: Vec<_> = op.drain_output_err();

    assert_eq!(ok_output, vec![(1, vec![10, 20])]);
    assert!(err_output.is_empty());
}

#[test]
fn ok_err_all_err() {
    let mut op = OkErrOperator::<u64, i32, String, i32, _>::new(
        "all_err",
        0,
        RegionId::new(0),
        |x: i32| Err(x),
    );

    op.input_mut().push_vec(1, vec![1, 2, 3]);
    op.activate().unwrap();

    let ok_output: Vec<_> = op.drain_output_ok();
    let err_output: Vec<_> = op.drain_output_err();

    assert!(ok_output.is_empty());
    assert_eq!(err_output, vec![(1, vec![1, 2, 3])]);
}

#[test]
fn ok_err_type_transform() {
    let mut op = OkErrOperator::<u64, &str, i32, String, _>::new(
        "parse",
        0,
        RegionId::new(0),
        |s: &str| s.parse::<i32>().map_err(|e| e.to_string()),
    );

    op.input_mut().push_vec(1, vec!["42", "bad", "7"]);
    op.activate().unwrap();

    let ok_output: Vec<_> = op.drain_output_ok();
    let err_output: Vec<_> = op.drain_output_err();

    assert_eq!(ok_output, vec![(1, vec![42, 7])]);
    assert_eq!(err_output.len(), 1);
    assert_eq!(err_output[0].0, 1);
    assert_eq!(err_output[0].1.len(), 1);
    assert!(err_output[0].1[0].contains("invalid"));
}

#[test]
fn ok_err_is_done() {
    let mut op = OkErrOperator::<u64, i32, i32, i32, _>::new(
        "test",
        0,
        RegionId::new(0),
        |x: i32| Ok(x),
    );

    assert!(!op.is_done());

    // Exhausted but pending data → not done
    op.input_mut().push_vec(1, vec![10]);
    op.input_mut().mark_exhausted();
    assert!(!op.is_done());

    // Drain pending → done
    op.activate().unwrap();
    assert!(op.is_done());
}

#[test]
fn branch_ext_produces_two_streams() {
    let mut scope = RootScope::<u64>::new("test", 4);
    let region_id = scope.current_region();
    let source = Slot::new(0, 0);
    let stream: DataStream<i32> =
        DataStream::new(scope.name(), source, region_id);

    let (true_stream, false_stream) = stream.branch(&mut scope, |x: &i32| *x > 0);

    // Both streams in same region
    assert_eq!(true_stream.region_id(), region_id);
    assert_eq!(false_stream.region_id(), region_id);
    // Different slots (0 vs 1) on same operator
    assert_eq!(true_stream.source().slot_index, 0);
    assert_eq!(false_stream.source().slot_index, 1);
    assert_eq!(true_stream.source().operator_index, false_stream.source().operator_index);
}

#[test]
fn ok_err_ext_produces_two_streams() {
    let mut scope = RootScope::<u64>::new("test", 4);
    let region_id = scope.current_region();
    let source = Slot::new(0, 0);
    let stream: DataStream<i32> =
        DataStream::new(scope.name(), source, region_id);

    let (ok_stream, err_stream): (DataStream<i32>, DataStream<String>) =
        stream.ok_err(&mut scope, |x: i32| if x > 0 { Ok(x) } else { Err(format!("negative: {x}")) });

    // Both streams in same region
    assert_eq!(ok_stream.region_id(), region_id);
    assert_eq!(err_stream.region_id(), region_id);
    // Different slots on same operator
    assert_eq!(ok_stream.source().slot_index, 0);
    assert_eq!(err_stream.source().slot_index, 1);
}

#[test]
fn branch_debug() {
    let op = BranchOperator::<u64, i32, _>::new(
        "test_branch",
        5,
        RegionId::new(2),
        |_: &i32| true,
    );
    let debug = op.to_text();
    assert!(debug.contains("BranchOperator"));
    assert!(debug.contains("test_branch"));
}

#[test]
fn ok_err_debug() {
    let op = OkErrOperator::<u64, i32, i32, i32, _>::new(
        "test_ok_err",
        3,
        RegionId::new(1),
        |x: i32| -> Result<i32, i32> { Ok(x) },
    );
    let debug = op.to_text();
    assert!(debug.contains("OkErrOperator"));
    assert!(debug.contains("test_ok_err"));
}
