use sttp_core_rs::session_graph::{session_graph, GraphEdge, GraphNode};

fn node(session: &str, timestamp: i64, id: &str, parent: Option<&str>) -> GraphNode {
    GraphNode {
        session_id: session.to_string(),
        timestamp,
        graph_id: id.to_string(),
        parent_id: parent.map(|p| p.to_string()),
    }
}

#[test]
fn session_graph_groups_sessions_newest_first() {
    let nodes = vec![
        node("b", 10, "n0", None),
        node("a", 30, "n1", Some("n0")),
        node("b", 20, "n2", Some("zz")),
        node("c", 30, "n3", None),
        node("a", 5, "n4", Some("n1")),
    ];
    let graph = session_graph(&nodes);

    assert_eq!(graph.order, vec![1, 3, 2, 0, 4]);
    let sessions: Vec<&str> = graph.groups.iter().map(|g| g.session_id.as_str()).collect();
    assert_eq!(sessions, vec!["a", "c", "b"]);
    assert_eq!(graph.groups[0].members, vec![1, 4]);
    assert_eq!(graph.groups[0].last_modified, 30);
    assert_eq!(graph.groups[1].members, vec![3]);
    assert_eq!(graph.groups[2].members, vec![2, 0]);
    assert_eq!(graph.groups[2].last_modified, 20);

    assert_eq!(
        graph.timeline,
        vec![GraphEdge::Timeline { from: 0, to: 1 }, GraphEdge::Timeline { from: 1, to: 2 }]
    );
    assert_eq!(
        graph.session_edges,
        vec![
            GraphEdge::Membership { group: 0, index: 0, node: 1 },
            GraphEdge::NodeTimeline { group: 0, index: 0, from: 1, to: 4 },
            GraphEdge::Lineage { group: 0, index: 0, node: 1 },
            GraphEdge::Membership { group: 0, index: 1, node: 4 },
            GraphEdge::Lineage { group: 0, index: 1, node: 4 },
            GraphEdge::Membership { group: 1, index: 0, node: 3 },
            GraphEdge::Membership { group: 2, index: 0, node: 2 },
            GraphEdge::NodeTimeline { group: 2, index: 0, from: 2, to: 0 },
            GraphEdge::Membership { group: 2, index: 1, node: 0 },
        ]
    );
}

#[test]
fn session_graph_of_no_nodes_is_empty() {
    let graph = session_graph(&Vec::new());
    assert!(graph.order.is_empty());
    assert!(graph.groups.is_empty());
    assert!(graph.timeline.is_empty());
    assert!(graph.session_edges.is_empty());
}

#[test]
fn session_graph_of_one_session_has_no_timeline() {
    let nodes = vec![node("s", 1, "x", None), node("s", 1, "y", Some("x"))];
    let graph = session_graph(&nodes);
    assert_eq!(graph.order, vec![0, 1]);
    assert_eq!(graph.groups.len(), 1);
    assert!(graph.timeline.is_empty());
    assert_eq!(graph.session_edges.len(), 4);
}
