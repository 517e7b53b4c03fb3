use instancy::operators::gather::{GatherExt, GatherOperator};
use instancy::scope::RootScope;
use instancy::stage::StageId;
use instancy::stream::{Slot, StreamEdge};

#[test]
fn gather_creates_stage_with_parallelism_1() {
    let mut scope = RootScope::<u64>::new("test", 8);
    let stage_id = scope.current_stage_id();
    let source = Slot::new(0, 0);
    let stream: StreamEdge<i32> =
        StreamEdge::new(scope.name(), source, stage_id);

    let gathered = stream.gather(&mut scope);
    // Must be a different stage
    assert_ne!(gathered.stage_id(), stage_id);
    // The new stage should have parallelism 1
    let new_parallelism = scope.stage_parallelism(gathered.stage_id()).unwrap();
    assert_eq!(new_parallelism, 1);
}

#[test]
fn gather_from_single_worker_still_creates_new_stage() {
    let mut scope = RootScope::<u64>::new("test", 1);
    let stage_id = scope.current_stage_id();
    let source = Slot::new(0, 0);
    let stream: StreamEdge<i32> =
        StreamEdge::new(scope.name(), source, stage_id);

    // Even from parallelism=1, gather creates a new stage (consistent behavior).
    let gathered = stream.gather(&mut scope);
    assert_ne!(gathered.stage_id(), stage_id);
    let new_parallelism = scope.stage_parallelism(gathered.stage_id()).unwrap();
    assert_eq!(new_parallelism, 1);
}

#[test]
fn gather_operator_metadata() {
    let op = GatherOperator::<u64, i32>::new("my_gather", 7, StageId::new(0), StageId::new(2));
    assert_eq!(op.name(), "my_gather");
    assert_eq!(op.index(), 7);
    assert_eq!(op.source_stage(), StageId::new(0));
    assert_eq!(op.target_stage(), StageId::new(2));
    assert_eq!(op.strategy().name(), "Gather");
}

#[test]
fn gather_operator_debug() {
    let op = GatherOperator::<u64, i32>::new("g", 2, StageId::new(0), StageId::new(1));
    let debug = op.to_text();
    assert!(debug.contains("GatherOperator"));
    assert!(debug.contains("g"));
}
