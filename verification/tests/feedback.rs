use instancy::operators::feedback::{ConnectLoop, EnterExt, FeedbackExt, LeaveExt};
use instancy::order::{PathSummary, Product};
use instancy::scope::RootScope;
use instancy::stream::{DataStream, Slot};


#[test]
fn iterative_creates_child_scope_with_product_timestamp() {
    let mut root = RootScope::<u64>::new("root", 4);
    let child = root.iterative::<u32>("my_loop");

    assert_eq!(child.name(), "my_loop");
    // Child scope address is [parent_index] where parent_index is the allocated op index
    assert_eq!(child.depth(), 1);
    assert_eq!(child.stage_parallelism(child.current_stage_id()), Some(4));
}

#[test]
fn iterative_allocates_parent_operator_index() {
    let mut root = RootScope::<u64>::new("root", 4);
    assert_eq!(root.operator_count(), 0);

    let _child = root.iterative::<u32>("loop1");
    assert_eq!(root.operator_count(), 1);

    let _child2 = root.iterative::<u32>("loop2");
    assert_eq!(root.operator_count(), 2);
}

#[test]
fn iterative_child_starts_at_operator_index_1() {
    let mut root = RootScope::<u64>::new("root", 4);
    let mut child = root.iterative::<u32>("my_loop");

    // First user operator should be index 1 (0 is reserved for scope boundary)
    assert_eq!(child.allocate_operator_index(), 1);
    assert_eq!(child.allocate_operator_index(), 2);
}

#[test]
fn nested_iterative() {
    let mut root = RootScope::<u64>::new("root", 4);
    let mut child = root.iterative::<u32>("outer_loop");
    let inner = child.iterative::<u32>("inner_loop");

    // Inner scope has depth 2
    assert_eq!(inner.depth(), 2);
    assert_eq!(inner.stage_parallelism(inner.current_stage_id()), Some(4));
}


#[test]
fn enter_produces_stream_in_child_scope() {
    let mut root = RootScope::<u64>::new("root", 4);
    let mut child = root.iterative::<u32>("loop");

    let source = Slot::new(0, 0);
    let region_id = root.current_region();
    let parent_stream: DataStream<i32> =
        DataStream::new(root.name(), source, region_id);

    let child_stream = parent_stream.enter(&mut root, &mut child);

    // Stream is now in child scope
    assert_eq!(child_stream.scope_name(), "loop");
    // Source is the scope boundary (operator 0)
    assert_eq!(child_stream.source().operator_index, 0);
}

#[test]
fn enter_preserves_child_region() {
    let mut root = RootScope::<u64>::new("root", 4);
    let mut child = root.iterative::<u32>("loop");

    let source = Slot::new(0, 0);
    let region_id = root.current_region();
    let parent_stream: DataStream<i32> =
        DataStream::new(root.name(), source, region_id);

    let child_stream = parent_stream.enter(&mut root, &mut child);
    assert_eq!(child_stream.region_id(), child.current_region());
}

#[test]
fn multiple_enters_get_distinct_slots() {
    let mut root = RootScope::<u64>::new("root", 4);
    let mut child = root.iterative::<u32>("loop");

    let region_id = root.current_region();
    let stream1: DataStream<i32> =
        DataStream::new(root.name(), Slot::new(0, 0), region_id);
    let stream2: DataStream<String> =
        DataStream::new(root.name(), Slot::new(1, 0), region_id);

    let in1 = stream1.enter(&mut root, &mut child);
    let in2 = stream2.enter(&mut root, &mut child);

    // Both use operator 0 (boundary) but different slot indices
    assert_eq!(in1.source().operator_index, 0);
    assert_eq!(in2.source().operator_index, 0);
    assert_ne!(in1.source().slot_index, in2.source().slot_index);
    assert_eq!(in1.source().slot_index, 0);
    assert_eq!(in2.source().slot_index, 1);
}

#[test]
fn multiple_leaves_get_distinct_slots() {
    let mut root = RootScope::<u64>::new("root", 4);
    let mut child = root.iterative::<u32>("loop");

    let child_region = child.current_region();
    let op1 = child.allocate_operator_index();
    let op2 = child.allocate_operator_index();

    let s1: DataStream<i32> =
        DataStream::new(child.name(), Slot::new(op1, 0), child_region);
    let s2: DataStream<String> =
        DataStream::new(child.name(), Slot::new(op2, 0), child_region);

    let out1 = s1.leave(&mut child, &mut root);
    let out2 = s2.leave(&mut child, &mut root);

    // Both reference the same parent operator (subscope) but different slots
    assert_eq!(out1.source().operator_index, out2.source().operator_index);
    assert_ne!(out1.source().slot_index, out2.source().slot_index);
    assert_eq!(out1.source().slot_index, 0);
    assert_eq!(out2.source().slot_index, 1);
}


#[test]
fn leave_produces_stream_in_parent_scope() {
    let mut root = RootScope::<u64>::new("root", 4);
    let mut child = root.iterative::<u32>("loop");

    let op_idx = child.allocate_operator_index();
    let child_region = child.current_region();
    let child_stream: DataStream<i32> =
        DataStream::new(child.name(), Slot::new(op_idx, 0), child_region);

    let parent_stream = child_stream.leave(&mut child, &mut root);

    assert_eq!(parent_stream.scope_name(), "root");
}

#[test]
fn leave_source_references_subscope_operator() {
    let mut root = RootScope::<u64>::new("root", 4);
    let mut child = root.iterative::<u32>("loop");

    let op_idx = child.allocate_operator_index();
    let child_region = child.current_region();
    let child_stream: DataStream<i32> =
        DataStream::new(child.name(), Slot::new(op_idx, 0), child_region);

    let parent_stream = child_stream.leave(&mut child, &mut root);

    // The parent stream's source operator index corresponds to the child scope's
    // position in the parent (last part of child's address).
    let child_addr = child.addr();
    let expected_parent_op = child_addr.last().copied().unwrap();
    assert_eq!(parent_stream.source().operator_index, expected_parent_op);
}


#[test]
fn feedback_creates_handle_and_stream() {
    let mut root = RootScope::<u64>::new("root", 4);
    let mut child = root.iterative::<u32>("loop");

    let (handle, stream) = child.feedback::<i32>(1u32);

    assert_eq!(handle.operator_index(), 1); // first user op
    assert_eq!(stream.source().operator_index, 1);
    assert_eq!(stream.region_id(), child.current_region());

    // Clean up: connect the loop
    let region = child.current_region();
    let dummy: DataStream<i32> =
        DataStream::new(child.name(), Slot::new(99, 0), region);
    dummy.connect_loop(&mut child, handle);
}

#[test]
fn feedback_summary_advances_inner_only() {
    let mut root = RootScope::<u64>::new("root", 4);
    let mut child = root.iterative::<u32>("loop");

    let (handle, _stream) = child.feedback::<i32>(3u32);

    // Summary should be Product(0, 3) — outer identity, inner +3
    let summary = handle.summary();
    assert_eq!(summary.outer, 0u64); // outer identity (default for u64 summary)
    assert_eq!(summary.inner, 3u32); // inner advances by 3

    // Clean up: connect the loop
    let region = child.current_region();
    let dummy: DataStream<i32> =
        DataStream::new(child.name(), Slot::new(99, 0), region);
    dummy.connect_loop(&mut child, handle);
}

#[test]
fn feedback_summary_results_in_correct_advancement() {
    let mut root = RootScope::<u64>::new("root", 4);
    let mut child = root.iterative::<u32>("loop");

    let (handle, _stream) = child.feedback::<i32>(1u32);
    let summary = handle.summary();

    // Applying the summary to a timestamp should advance inner by 1
    let t = Product::new(5u64, 0u32);
    let result = summary.results_in(&t);
    assert_eq!(result, Some(Product::new(5, 1)));

    let t2 = Product::new(5u64, 3u32);
    let result2 = summary.results_in(&t2);
    assert_eq!(result2, Some(Product::new(5, 4)));

    // Clean up: connect the loop
    let region = child.current_region();
    let dummy: DataStream<i32> =
        DataStream::new(child.name(), Slot::new(99, 0), region);
    dummy.connect_loop(&mut child, handle);
}

#[test]
fn feedback_multiple_in_same_scope() {
    let mut root = RootScope::<u64>::new("root", 4);
    let mut child = root.iterative::<u32>("loop");

    let (h1, _s1) = child.feedback::<i32>(1u32);
    let (h2, _s2) = child.feedback::<String>(1u32);

    // Different operator indices
    assert_ne!(h1.operator_index(), h2.operator_index());

    // Clean up: connect them
    let source = Slot::new(99, 0);
    let region = child.current_region();
    let dummy1: DataStream<i32> =
        DataStream::new(child.name(), source, region);
    let dummy2: DataStream<String> =
        DataStream::new(child.name(), source, region);
    dummy1.connect_loop(&mut child, h1);
    dummy2.connect_loop(&mut child, h2);
}


#[test]
fn connect_loop_consumes_handle() {
    let mut root = RootScope::<u64>::new("root", 4);
    let mut child = root.iterative::<u32>("loop");

    let (handle, _stream) = child.feedback::<i32>(1u32);

    let source = Slot::new(2, 0);
    let region = child.current_region();
    let result_stream: DataStream<i32> =
        DataStream::new(child.name(), source, region);

    // connect_loop consumes the handle
    result_stream.connect_loop(&mut child, handle);
    // handle is no longer usable (moved)
}


#[test]
fn full_loop_construction() {
    let mut root = RootScope::<u64>::new("root", 4);
    let mut child = root.iterative::<u32>("my_loop");

    // Create feedback edge
    let (handle, feedback_stream) = child.feedback::<i32>(1u32);

    // Create input entering the scope
    let parent_source = Slot::new(0, 0);
    let parent_region = root.current_region();
    let input: DataStream<i32> =
        DataStream::new(root.name(), parent_source, parent_region);
    let input_in_loop = input.enter(&mut root, &mut child);

    // Both streams exist in the child scope
    assert_eq!(input_in_loop.scope_name(), "my_loop");
    assert_eq!(feedback_stream.scope_name(), "my_loop");

    // Simulate processing: create a result stream
    let result_source = Slot::new(child.allocate_operator_index(), 0);
    let child_region = child.current_region();
    let result: DataStream<i32> =
        DataStream::new(child.name(), result_source, child_region);

    // Close the loop
    result.connect_loop(&mut child, handle);

    // Create output leaving the scope
    let output_source = Slot::new(child.allocate_operator_index(), 0);
    let output: DataStream<i32> =
        DataStream::new(child.name(), output_source, child_region);
    let _parent_output = output.leave(&mut child, &mut root);
}


#[test]
fn enter_then_leave_round_trip() {
    let mut root = RootScope::<u64>::new("root", 4);
    let mut child = root.iterative::<u32>("loop");

    let source = Slot::new(0, 0);
    let region = root.current_region();
    let stream: DataStream<i32> =
        DataStream::new(root.name(), source, region);

    // Enter and immediately leave
    let in_child = stream.enter(&mut root, &mut child);
    let back_in_parent = in_child.leave(&mut child, &mut root);

    assert_eq!(back_in_parent.scope_name(), "root");
}

#[test]
fn feedback_with_zero_summary_is_rejected_by_progress() {
    // A zero summary means no timestamp advancement — the loop would never terminate.
    // This is valid at graph-construction time (the summary is just metadata),
    // but the progress tracker would detect the non-advancing cycle.
    let mut root = RootScope::<u64>::new("root", 4);
    let mut child = root.iterative::<u32>("loop");

    let (handle, _stream) = child.feedback::<i32>(0u32);

    // Summary is Product(0, 0) — no advancement
    let summary = handle.summary();
    assert_eq!(summary.outer, 0u64);
    assert_eq!(summary.inner, 0u32);

    // Graph construction allows it; progress tracker will reject at validation time.
    // Clean up
    let region = child.current_region();
    let dummy: DataStream<i32> =
        DataStream::new(child.name(), Slot::new(99, 0), region);
    dummy.connect_loop(&mut child, handle);
}

#[test]
fn nested_loop_feedback() {
    let mut root = RootScope::<u64>::new("root", 4);
    let mut outer_loop = root.iterative::<u32>("outer");
    let mut inner_loop = outer_loop.iterative::<u32>("inner");

    // Feedback in the inner loop
    let (handle, _stream) = inner_loop.feedback::<i32>(1u32);

    // The summary type is Product<Product<u64, u32>, u32>
    let summary = handle.summary();
    // Outer of the inner summary = Product(default_u64_summary, default_u32_summary)
    assert_eq!(summary.outer, Product::new(0u64, 0u32));
    // Inner = 1u32
    assert_eq!(summary.inner, 1u32);

    // Clean up
    let region = inner_loop.current_region();
    let dummy: DataStream<i32> =
        DataStream::new(inner_loop.name(), Slot::new(99, 0), region);
    dummy.connect_loop(&mut inner_loop, handle);
}
