use std::collections::HashMap;

use instancy::id::{DataflowId, DataflowIdAllocator};

#[test]
fn dataflow_id_encoding() {
    let id = DataflowId::new(5, 42);
    assert_eq!(id.node_index(), 5);
    assert_eq!(id.sequence(), 42);
    assert_eq!(id.as_raw(), (5u64 << 48) | 42);
}

#[test]
fn dataflow_id_from_raw_roundtrip() {
    let raw = 0x0003_0000_0000_0001u64; // node=3, seq=1
    let id = DataflowId::from_raw(raw);
    assert_eq!(id.node_index(), 3);
    assert_eq!(id.sequence(), 1);
    assert_eq!(id.as_raw(), raw);
}

#[test]
fn dataflow_id_max_values() {
    let id = DataflowId::new(u16::MAX, DataflowId::MAX_SEQUENCE);
    assert_eq!(id.node_index(), u16::MAX);
    assert_eq!(id.sequence(), DataflowId::MAX_SEQUENCE);
}


#[test]
fn dataflow_id_equality() {
    let a = DataflowId::new(1, 100);
    let b = DataflowId::new(1, 100);
    let c = DataflowId::new(1, 101);
    let d = DataflowId::new(2, 100);
    assert_eq!(a, b);
    assert_ne!(a, c);
    assert_ne!(a, d);
}

#[test]
fn dataflow_id_ordering() {
    let a = DataflowId::new(0, 1);
    let b = DataflowId::new(0, 2);
    let c = DataflowId::new(1, 1);
    assert!(a < b);
    assert!(b < c); // node 1 > node 0 in high bits
}

#[test]
fn dataflow_id_display() {
    let id = DataflowId::new(7, 123);
    assert_eq!(id.to_text(), "df-7-123");
}

#[test]
fn dataflow_id_debug() {
    let id = DataflowId::new(2, 50);
    let dbg = id.to_debug_text();
    assert!(dbg.contains("node=2"));
    assert!(dbg.contains("seq=50"));
}

#[test]
fn allocator_generates_unique_ids() {
    let mut alloc = DataflowIdAllocator::new(3);
    let id1 = alloc.allocate();
    let id2 = alloc.allocate();
    let id3 = alloc.allocate();

    assert_eq!(id1.node_index(), 3);
    assert_eq!(id2.node_index(), 3);
    assert_eq!(id3.node_index(), 3);

    assert_eq!(id1.sequence(), 1);
    assert_eq!(id2.sequence(), 2);
    assert_eq!(id3.sequence(), 3);

    assert_ne!(id1, id2);
    assert_ne!(id2, id3);
}

#[test]
fn allocator_different_nodes_no_collision() {
    let mut alloc_a = DataflowIdAllocator::new(0);
    let mut alloc_b = DataflowIdAllocator::new(1);

    let ids_a: Vec<_> = (0..100).map(|_| alloc_a.allocate()).collect();
    let ids_b: Vec<_> = (0..100).map(|_| alloc_b.allocate()).collect();

    // No overlap between nodes
    for a in &ids_a {
        for b in &ids_b {
            assert_ne!(a, b);
        }
    }
}


#[test]
fn allocator_starts_at_one() {
    let mut alloc = DataflowIdAllocator::new(0);
    let first = alloc.allocate();
    assert_eq!(first.sequence(), 1, "sequence 0 is reserved");
}

#[test]
fn dataflow_id_hash_usable_in_collections() {
    let mut map = HashMap::new();
    let id = DataflowId::new(1, 42);
    map.insert(id, "test");
    assert_eq!(map.get(&id), Some(&"test"));
}
