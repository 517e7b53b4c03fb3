use instancy::graph::{DataflowGraph, EdgeInfo, OperatorInfo};
use instancy::stage::RegionId;
use instancy::stream::Slot;

fn make_region() -> RegionId {
    RegionId::new(0)
}


#[test]
fn operator_info_creation() {
    let info = OperatorInfo::new(0, "my_op", make_region(), 1, 1);
    assert_eq!(info.index, 0);
    assert_eq!(info.name, "my_op");
    assert_eq!(info.input_count, 1);
    assert_eq!(info.output_count, 1);
}

#[test]
fn operator_info_display() {
    let info = OperatorInfo::new(3, "filter", make_region(), 1, 1);
    let s = info.to_text();
    assert!(s.contains("Op[3]"));
    assert!(s.contains("filter"));
}


#[test]
fn edge_info_creation() {
    let edge = EdgeInfo::new(
        Slot::new(0, 0),
        Slot::new(1, 0),
        make_region(),
        make_region(),
    );
    assert_eq!(edge.source.operator_index, 0);
    assert_eq!(edge.target.operator_index, 1);
}

#[test]
fn edge_info_display() {
    let edge = EdgeInfo::new(
        Slot::new(2, 0),
        Slot::new(3, 1),
        make_region(),
        make_region(),
    );
    let s = edge.to_text();
    assert!(s.contains("Op2:Slot0"));
    assert!(s.contains("Op3:Slot1"));
}


#[test]
fn empty_graph() {
    let graph = DataflowGraph::new();
    assert_eq!(graph.operator_count(), 0);
    assert_eq!(graph.edge_count(), 0);
    assert!(graph.validate().is_ok());
}

#[test]
fn register_operators() {
    let mut graph = DataflowGraph::new();
    let r = make_region();
    graph
        .register_operator(OperatorInfo::new(0, "source", r, 0, 1))
        .unwrap();
    graph
        .register_operator(OperatorInfo::new(1, "map", r, 1, 1))
        .unwrap();
    graph
        .register_operator(OperatorInfo::new(2, "sink", r, 1, 0))
        .unwrap();

    assert_eq!(graph.operator_count(), 3);
    assert_eq!(graph.operator(0).unwrap().name, "source");
    assert_eq!(graph.operator(1).unwrap().name, "map");
    assert_eq!(graph.operator(2).unwrap().name, "sink");
    assert!(graph.operator(99).is_none());
}

#[test]
fn duplicate_operator_rejected() {
    let mut graph = DataflowGraph::new();
    let r = make_region();
    graph
        .register_operator(OperatorInfo::new(0, "first", r, 1, 1))
        .unwrap();
    let err = graph
        .register_operator(OperatorInfo::new(0, "second", r, 1, 1))
        .unwrap_err();
    assert!(err.to_text().contains("Duplicate operator index 0"));
}

#[test]
fn add_edges() {
    let mut graph = DataflowGraph::new();
    let r = make_region();
    graph
        .register_operator(OperatorInfo::new(0, "a", r, 0, 1))
        .unwrap();
    graph
        .register_operator(OperatorInfo::new(1, "b", r, 1, 1))
        .unwrap();

    graph.add_edge(EdgeInfo::new(
        Slot::new(0, 0),
        Slot::new(1, 0),
        r,
        r,
    ));

    assert_eq!(graph.edge_count(), 1);
    assert_eq!(graph.edges()[0].source, Slot::new(0, 0));
    assert_eq!(graph.edges()[0].target, Slot::new(1, 0));
}


#[test]
fn edges_from_and_to() {
    let mut graph = DataflowGraph::new();
    let r = make_region();
    graph
        .register_operator(OperatorInfo::new(0, "a", r, 0, 2))
        .unwrap();
    graph
        .register_operator(OperatorInfo::new(1, "b", r, 1, 1))
        .unwrap();
    graph
        .register_operator(OperatorInfo::new(2, "c", r, 1, 0))
        .unwrap();

    graph.add_edge(EdgeInfo::new(Slot::new(0, 0), Slot::new(1, 0), r, r));
    graph.add_edge(EdgeInfo::new(Slot::new(0, 1), Slot::new(2, 0), r, r));

    assert_eq!(graph.edges_from(0).len(), 2);
    assert_eq!(graph.edges_from(1).len(), 0);
    assert_eq!(graph.edges_to(1).len(), 1);
    assert_eq!(graph.edges_to(2).len(), 1);
    assert_eq!(graph.edges_to(0).len(), 0);
}

#[test]
fn successors_and_predecessors() {
    let mut graph = DataflowGraph::new();
    let r = make_region();
    graph
        .register_operator(OperatorInfo::new(0, "a", r, 0, 1))
        .unwrap();
    graph
        .register_operator(OperatorInfo::new(1, "b", r, 1, 1))
        .unwrap();
    graph
        .register_operator(OperatorInfo::new(2, "c", r, 1, 0))
        .unwrap();

    graph.add_edge(EdgeInfo::new(Slot::new(0, 0), Slot::new(1, 0), r, r));
    graph.add_edge(EdgeInfo::new(Slot::new(1, 0), Slot::new(2, 0), r, r));

    assert_eq!(graph.successors(0), vec![1]);
    assert_eq!(graph.successors(1), vec![2]);
    assert_eq!(graph.successors(2), Vec::<usize>::new());

    assert_eq!(graph.predecessors(0), Vec::<usize>::new());
    assert_eq!(graph.predecessors(1), vec![0]);
    assert_eq!(graph.predecessors(2), vec![1]);
}


#[test]
fn topological_order_linear() {
    let mut graph = DataflowGraph::new();
    let r = make_region();
    graph
        .register_operator(OperatorInfo::new(0, "a", r, 0, 1))
        .unwrap();
    graph
        .register_operator(OperatorInfo::new(1, "b", r, 1, 1))
        .unwrap();
    graph
        .register_operator(OperatorInfo::new(2, "c", r, 1, 0))
        .unwrap();

    graph.add_edge(EdgeInfo::new(Slot::new(0, 0), Slot::new(1, 0), r, r));
    graph.add_edge(EdgeInfo::new(Slot::new(1, 0), Slot::new(2, 0), r, r));

    let order = graph.topological_order().unwrap();
    assert_eq!(order, vec![0, 1, 2]);
}

#[test]
fn topological_order_diamond() {
    //   0
    //  / \
    // 1   2
    //  \ /
    //   3
    let mut graph = DataflowGraph::new();
    let r = make_region();
    graph
        .register_operator(OperatorInfo::new(0, "source", r, 0, 2))
        .unwrap();
    graph
        .register_operator(OperatorInfo::new(1, "left", r, 1, 1))
        .unwrap();
    graph
        .register_operator(OperatorInfo::new(2, "right", r, 1, 1))
        .unwrap();
    graph
        .register_operator(OperatorInfo::new(3, "join", r, 2, 0))
        .unwrap();

    graph.add_edge(EdgeInfo::new(Slot::new(0, 0), Slot::new(1, 0), r, r));
    graph.add_edge(EdgeInfo::new(Slot::new(0, 1), Slot::new(2, 0), r, r));
    graph.add_edge(EdgeInfo::new(Slot::new(1, 0), Slot::new(3, 0), r, r));
    graph.add_edge(EdgeInfo::new(Slot::new(2, 0), Slot::new(3, 1), r, r));

    let order = graph.topological_order().unwrap();
    assert_eq!(order[0], 0); // source first
    assert_eq!(order[3], 3); // join last
    // 1 and 2 can be in either order, but both before 3
    assert!(order.contains(&1));
    assert!(order.contains(&2));
}

#[test]
fn topological_order_disconnected() {
    let mut graph = DataflowGraph::new();
    let r = make_region();
    graph
        .register_operator(OperatorInfo::new(0, "a", r, 0, 0))
        .unwrap();
    graph
        .register_operator(OperatorInfo::new(1, "b", r, 0, 0))
        .unwrap();

    let order = graph.topological_order().unwrap();
    assert_eq!(order, vec![0, 1]);
}

#[test]
fn topological_order_cycle_detected() {
    let mut graph = DataflowGraph::new();
    let r = make_region();
    graph
        .register_operator(OperatorInfo::new(0, "a", r, 1, 1))
        .unwrap();
    graph
        .register_operator(OperatorInfo::new(1, "b", r, 1, 1))
        .unwrap();

    graph.add_edge(EdgeInfo::new(Slot::new(0, 0), Slot::new(1, 0), r, r));
    graph.add_edge(EdgeInfo::new(Slot::new(1, 0), Slot::new(0, 0), r, r));

    let err = graph.topological_order().unwrap_err();
    assert!(err.to_text().contains("Cycle detected"));
}


#[test]
fn validate_valid_graph() {
    let mut graph = DataflowGraph::new();
    let r = make_region();
    graph
        .register_operator(OperatorInfo::new(0, "a", r, 0, 1))
        .unwrap();
    graph
        .register_operator(OperatorInfo::new(1, "b", r, 1, 0))
        .unwrap();
    graph.add_edge(EdgeInfo::new(Slot::new(0, 0), Slot::new(1, 0), r, r));

    assert!(graph.validate().is_ok());
}

#[test]
fn validate_missing_source_operator() {
    let mut graph = DataflowGraph::new();
    let r = make_region();
    graph
        .register_operator(OperatorInfo::new(1, "b", r, 1, 0))
        .unwrap();
    graph.add_edge(EdgeInfo::new(Slot::new(0, 0), Slot::new(1, 0), r, r));

    let err = graph.validate().unwrap_err();
    assert!(err.to_text().contains("source operator 0 is not registered"));
}

#[test]
fn validate_missing_target_operator() {
    let mut graph = DataflowGraph::new();
    let r = make_region();
    graph
        .register_operator(OperatorInfo::new(0, "a", r, 0, 1))
        .unwrap();
    graph.add_edge(EdgeInfo::new(Slot::new(0, 0), Slot::new(1, 0), r, r));

    let err = graph.validate().unwrap_err();
    assert!(err.to_text().contains("target operator 1 is not registered"));
}

#[test]
fn validate_port_out_of_bounds() {
    let mut graph = DataflowGraph::new();
    let r = make_region();
    graph
        .register_operator(OperatorInfo::new(0, "a", r, 0, 1))
        .unwrap();
    graph
        .register_operator(OperatorInfo::new(1, "b", r, 1, 0))
        .unwrap();

    // Source port 1 but operator 0 only has 1 output (port 0).
    graph.add_edge(EdgeInfo::new(Slot::new(0, 1), Slot::new(1, 0), r, r));
    let err = graph.validate().unwrap_err();
    assert!(err.to_text().contains("source port 1 exceeds"));
}

#[test]
fn validate_duplicate_edge() {
    let mut graph = DataflowGraph::new();
    let r = make_region();
    graph
        .register_operator(OperatorInfo::new(0, "a", r, 0, 1))
        .unwrap();
    graph
        .register_operator(OperatorInfo::new(1, "b", r, 1, 0))
        .unwrap();

    graph.add_edge(EdgeInfo::new(Slot::new(0, 0), Slot::new(1, 0), r, r));
    graph.add_edge(EdgeInfo::new(Slot::new(0, 0), Slot::new(1, 0), r, r));

    let err = graph.validate().unwrap_err();
    assert!(err.to_text().contains("Duplicate edge"));
}

#[test]
fn validate_cycle() {
    let mut graph = DataflowGraph::new();
    let r = make_region();
    graph
        .register_operator(OperatorInfo::new(0, "a", r, 1, 1))
        .unwrap();
    graph
        .register_operator(OperatorInfo::new(1, "b", r, 1, 1))
        .unwrap();

    graph.add_edge(EdgeInfo::new(Slot::new(0, 0), Slot::new(1, 0), r, r));
    graph.add_edge(EdgeInfo::new(Slot::new(1, 0), Slot::new(0, 0), r, r));

    let err = graph.validate().unwrap_err();
    assert!(err.to_text().contains("Cycle detected"));
}


#[test]
fn display_graph() {
    let mut graph = DataflowGraph::new();
    let r = make_region();
    graph
        .register_operator(OperatorInfo::new(0, "source", r, 0, 1))
        .unwrap();
    graph
        .register_operator(OperatorInfo::new(1, "sink", r, 1, 0))
        .unwrap();
    graph.add_edge(EdgeInfo::new(Slot::new(0, 0), Slot::new(1, 0), r, r));

    let s = graph.to_text();
    assert!(s.contains("2 operators"));
    assert!(s.contains("1 edges"));
    assert!(s.contains("source"));
    assert!(s.contains("sink"));
}
