use gg::graph::{query_log, CommitId, GraphEdge, GraphEdgeType, GraphNode, LogCoordinates, LogLine, QueryState};

fn id(s: &str) -> CommitId {
    CommitId::new(s.as_bytes().to_vec())
}

fn edge(target: &str, edge_type: GraphEdgeType) -> GraphEdge {
    GraphEdge { target: id(target), edge_type }
}

fn node(name: &str, edges: Vec<GraphEdge>) -> GraphNode {
    GraphNode { id: id(name), edges }
}

#[test]
fn linear_history_page_of_two() {
    let nodes = vec![
        node("B", vec![edge("A", GraphEdgeType::Direct)]),
        node("A", vec![edge("root", GraphEdgeType::Missing)]),
    ];
    let page = query_log(&nodes, &vec![false, false], &id("root"), 2);
    assert_eq!(page.rows.len(), 2);
    assert!(!page.has_more);
    assert_eq!(page.rows[0].commit.bytes, b"B".to_vec());
    assert_eq!(page.rows[1].commit.bytes, b"A".to_vec());
    assert_eq!(page.rows[0].location, LogCoordinates(0, 0));
    assert_eq!(page.rows[1].location, LogCoordinates(0, 1));
    assert!(page.rows[0].lines.is_empty());
    assert_eq!(
        page.rows[1].lines,
        vec![LogLine::ToNode { indirect: false, source: LogCoordinates(0, 0), target: LogCoordinates(0, 1) }]
    );
}

#[test]
fn page_size_limits_rows_and_reports_more() {
    let nodes = vec![
        node("C", vec![edge("B", GraphEdgeType::Direct)]),
        node("B", vec![edge("A", GraphEdgeType::Direct)]),
        node("A", vec![]),
    ];
    let page = query_log(&nodes, &vec![false, false, false], &id("root"), 2);
    assert_eq!(page.rows.len(), 2);
    assert!(page.has_more);
}

#[test]
fn diamond_uses_two_columns_and_closes_every_stem() {
    // D merges B and C, both children of A.
    let nodes = vec![
        node("D", vec![edge("B", GraphEdgeType::Direct), edge("C", GraphEdgeType::Direct)]),
        node("C", vec![edge("A", GraphEdgeType::Direct)]),
        node("B", vec![edge("A", GraphEdgeType::Direct)]),
        node("A", vec![]),
    ];
    let mut state = QueryState::new(10);
    let root = id("root");
    let mut rows = Vec::new();
    for n in &nodes {
        let imm = state.inherits_immutability(&n.id);
        rows.push(state.layout_row(&n.id, &n.edges, imm, &root));
    }
    assert!(state.is_settled());
    assert_eq!(state.next_row(), 4);
    let commits: Vec<Vec<u8>> = rows.iter().map(|r| r.commit.bytes.clone()).collect();
    assert_eq!(commits, vec![b"D".to_vec(), b"C".to_vec(), b"B".to_vec(), b"A".to_vec()]);
    assert_eq!(rows[0].location, LogCoordinates(0, 0));
    // C is awaited in slot 1, to the right of B's stem.
    assert_eq!(rows[1].location, LogCoordinates(1, 1));
    assert_eq!(
        rows[1].lines[0],
        LogLine::ToNode { indirect: false, source: LogCoordinates(0, 0), target: LogCoordinates(1, 1) }
    );
    // B's edge to A meets the stem that C opened.
    assert_eq!(rows[2].location, LogCoordinates(0, 2));
    assert_eq!(
        rows[2].lines[1],
        LogLine::ToIntersection { indirect: false, source: LogCoordinates(0, 2), target: LogCoordinates(1, 3) }
    );
    assert_eq!(rows[3].location, LogCoordinates(1, 3));
    assert_eq!(rows[3].padding, 0);
}

#[test]
fn missing_edge_ends_in_a_boundary_row() {
    let nodes = vec![node("X", vec![edge("gone", GraphEdgeType::Missing)]), node("Y", vec![])];
    let page = query_log(&nodes, &vec![false, false], &id("root"), 10);
    assert_eq!(page.rows.len(), 2);
    assert_eq!(
        page.rows[0].lines,
        vec![LogLine::ToMissing { indirect: true, source: LogCoordinates(0, 0), target: LogCoordinates(0, 1) }]
    );
    // The boundary takes a grid row of its own.
    assert_eq!(page.rows[1].location, LogCoordinates(0, 2));
    assert_eq!(page.rows[1].padding, 0);
}

#[test]
fn immutability_is_inherited_along_stems() {
    let nodes = vec![
        node("B", vec![edge("A", GraphEdgeType::Direct)]),
        node("A", vec![]),
    ];
    // The predicate calls B immutable and A mutable; A inherits from B's stem.
    let page = query_log(&nodes, &vec![true, false], &id("root"), 10);
    assert!(page.rows[0].immutable);
    assert!(page.rows[1].immutable);
    let page = query_log(&nodes, &vec![false, true], &id("root"), 10);
    assert!(!page.rows[0].immutable);
    assert!(page.rows[1].immutable);
}

#[test]
fn indirect_edges_are_marked() {
    let nodes = vec![
        node("B", vec![edge("A", GraphEdgeType::Indirect)]),
        node("A", vec![]),
    ];
    let page = query_log(&nodes, &vec![false, false], &id("root"), 10);
    assert_eq!(
        page.rows[1].lines,
        vec![LogLine::ToNode { indirect: true, source: LogCoordinates(0, 0), target: LogCoordinates(0, 1) }]
    );
}

#[test]
fn empty_traversal_gives_empty_page() {
    let page = query_log(&Vec::new(), &Vec::new(), &id("root"), 5);
    assert!(page.rows.is_empty());
    assert!(!page.has_more);
}

#[test]
fn several_missing_edges_all_end_in_boundaries() {
    let nodes = vec![node(
        "M",
        vec![edge("gone1", GraphEdgeType::Missing), edge("gone2", GraphEdgeType::Missing)],
    )];
    let mut state = QueryState::new(10);
    let root = id("root");
    let imm = state.inherits_immutability(&nodes[0].id);
    let row = state.layout_row(&nodes[0].id, &nodes[0].edges, imm, &root);
    assert!(state.is_settled());
    assert_eq!(state.next_row(), 2);
    assert_eq!(
        row.lines,
        vec![
            LogLine::ToMissing { indirect: true, source: LogCoordinates(0, 0), target: LogCoordinates(0, 1) },
            LogLine::ToMissing { indirect: true, source: LogCoordinates(0, 0), target: LogCoordinates(1, 1) },
        ]
    );
}
