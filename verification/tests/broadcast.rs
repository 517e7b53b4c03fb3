use instancy::operators::broadcast::{BroadcastExt, BroadcastOperator};
use instancy::partition::PartitionStrategy;
use instancy::scope::RootScope;
use instancy::stage::StageId;
use instancy::stream::{Slot, StreamEdge};

#[test]
fn broadcast_same_stage() {
    let mut scope = RootScope::<u64>::new("test", 4);
    let stage_id = scope.current_stage_id();
    let source = Slot::new(0, 0);
    let stream: StreamEdge<i32> = StreamEdge::new(scope.name(), source, stage_id);

    let broadcasted = stream.broadcast(&mut scope);
    assert_eq!(broadcasted.stage_id(), stage_id);
}

#[test]
fn broadcast_to_new_stage() {
    let mut scope = RootScope::<u64>::new("test", 4);
    let stage_id = scope.current_stage_id();
    let source = Slot::new(0, 0);
    let stream: StreamEdge<i32> =
        StreamEdge::new(scope.name(), source, stage_id);

    let broadcasted = stream.broadcast_to(&mut scope, 8);
    assert_ne!(broadcasted.stage_id(), stage_id);
    let new_parallelism = scope.stage_parallelism(broadcasted.stage_id()).unwrap();
    assert_eq!(new_parallelism, 8);
}


#[test]
fn broadcast_local_same_stage() {
    let mut scope = RootScope::<u64>::new("test", 4);
    let stage_id = scope.current_stage_id();
    let source = Slot::new(0, 0);
    let stream: StreamEdge<i32> = StreamEdge::new(scope.name(), source, stage_id);

    let broadcasted = stream.broadcast_local(&mut scope);
    assert_eq!(broadcasted.stage_id(), stage_id);
}

#[test]
fn broadcast_local_to_new_stage() {
    let mut scope = RootScope::<u64>::new("test", 4);
    let stage_id = scope.current_stage_id();
    let source = Slot::new(0, 0);
    let stream: StreamEdge<i32> =
        StreamEdge::new(scope.name(), source, stage_id);

    let broadcasted = stream.broadcast_local_to(&mut scope, 12);
    assert_ne!(broadcasted.stage_id(), stage_id);
    let new_parallelism = scope.stage_parallelism(broadcasted.stage_id()).unwrap();
    assert_eq!(new_parallelism, 12);
}


#[test]
fn broadcast_operator_metadata() {
    let op = BroadcastOperator::<u64, i32>::new(
        "my_broadcast",
        4,
        StageId::new(0),
        StageId::new(1),
        PartitionStrategy::Broadcast,
    );
    assert_eq!(op.name(), "my_broadcast");
    assert_eq!(op.index(), 4);
    assert_eq!(op.source_stage(), StageId::new(0));
    assert_eq!(op.target_stage(), StageId::new(1));
    assert_eq!(op.strategy().name(), "Broadcast");
}

#[test]
fn broadcast_local_operator_metadata() {
    let op = BroadcastOperator::<u64, i32>::new(
        "local_bc",
        6,
        StageId::new(0),
        StageId::new(0),
        PartitionStrategy::BroadcastLocal,
    );
    assert_eq!(op.strategy().name(), "BroadcastLocal");
}

#[test]
fn broadcast_operator_debug() {
    let op = BroadcastOperator::<u64, i32>::new(
        "bc",
        1,
        StageId::new(0),
        StageId::new(1),
        PartitionStrategy::Broadcast,
    );
    let debug = op.to_text();
    assert!(debug.contains("BroadcastOperator"));
    assert!(debug.contains("bc"));
}
