use instancy::operators::exchange::{ExchangeExt, ExchangeOperator};
use instancy::partition::PartitionStrategy;
use instancy::scope::RootScope;
use instancy::stage::RegionId;
use instancy::stream::{Slot, StreamEdge};

#[test]
fn exchange_ext_produces_stream_same_region() {
    let mut scope = RootScope::<u64>::new("test", 4);
    let region_id = scope.current_region();
    let source = Slot::new(0, 0);
    let stream: StreamEdge<(u64, String)> =
        StreamEdge::new(scope.name(), source, region_id);

    let exchanged = stream.exchange(&mut scope, |record: &(u64, String)| record.0);
    // Same parallelism → same region
    assert_eq!(exchanged.region_id(), region_id);
}

#[test]
fn exchange_to_creates_new_region() {
    let mut scope = RootScope::<u64>::new("test", 4);
    let region_id = scope.current_region();
    let source = Slot::new(0, 0);
    let stream: StreamEdge<i32> =
        StreamEdge::new(scope.name(), source, region_id);

    let exchanged = stream.exchange_to(&mut scope, 8, |record: &i32| *record);
    // Different parallelism → new region
    assert_ne!(exchanged.region_id(), region_id);
}


#[test]
fn exchange_by_hash_produces_stream() {
    let mut scope = RootScope::<u64>::new("test", 4);
    let region_id = scope.current_region();
    let source = Slot::new(0, 0);
    let stream: StreamEdge<i32> =
        StreamEdge::new(scope.name(), source, region_id);

    let exchanged = stream.exchange_by_hash(&mut scope, |record: &i32| *record as u64);
    assert_eq!(exchanged.region_id(), region_id);
}

#[test]
fn exchange_by_hash_to_creates_new_region() {
    let mut scope = RootScope::<u64>::new("test", 4);
    let region_id = scope.current_region();
    let source = Slot::new(0, 0);
    let stream: StreamEdge<i32> =
        StreamEdge::new(scope.name(), source, region_id);

    let exchanged = stream.exchange_by_hash_to(&mut scope, 16, |record: &i32| *record as u64);
    assert_ne!(exchanged.region_id(), region_id);
}

#[test]
fn exchange_operator_metadata() {
    let strategy = PartitionStrategy::<i32>::exchange_by_key("by_id", |x: &i32| *x);
    let op = ExchangeOperator::<u64, i32>::new(
        "my_exchange",
        5,
        RegionId::new(0),
        RegionId::new(1),
        strategy,
    );
    assert_eq!(op.name(), "my_exchange");
    assert_eq!(op.index(), 5);
    assert_eq!(op.source_region(), RegionId::new(0));
    assert_eq!(op.target_region(), RegionId::new(1));
    assert_eq!(op.strategy().name(), "Exchange");
}

#[test]
fn exchange_operator_debug() {
    let strategy = PartitionStrategy::<i32>::exchange("hash", |x: &i32| *x as u64);
    let op = ExchangeOperator::<u64, i32>::new(
        "ex",
        1,
        RegionId::new(0),
        RegionId::new(0),
        strategy,
    );
    let debug = op.to_text();
    assert!(debug.contains("ExchangeOperator"));
    assert!(debug.contains("ex"));
}
