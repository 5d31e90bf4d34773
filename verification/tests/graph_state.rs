use dotspace::events::{EventEdgeInfo, EventNodeInfo, EventResult, GraphEvent};
use dotspace::graph_state::GraphState;

fn node(id: &str) -> GraphEvent {
    GraphEvent::AddNode {
        id: id.to_string(),
        info: EventNodeInfo {
            name: id.to_string(),
            node_type: None,
            level: 0,
        },
    }
}

fn edge(from: &str, to: &str) -> GraphEvent {
    GraphEvent::AddEdge {
        from: from.to_string(),
        to: to.to_string(),
    }
}

#[test]
fn test_add_and_remove_nodes() {
    let mut state = GraphState::new();

    // Add a node
    let result = state.process_event(GraphEvent::AddNode {
        id: "A".to_string(),
        info: EventNodeInfo {
            name: "Node A".to_string(),
            node_type: None,
            level: 0,
        },
    });

    assert!(matches!(result, EventResult::Success));
    assert_eq!(state.node_count(), 1);

    // Try to add the same node again
    let result = state.process_event(GraphEvent::AddNode {
        id: "A".to_string(),
        info: EventNodeInfo {
            name: "Node A".to_string(),
            node_type: None,
            level: 0,
        },
    });

    assert!(matches!(result, EventResult::NodeExists));
    assert_eq!(state.node_count(), 1);

    // Remove the node
    let result = state.process_event(GraphEvent::RemoveNode {
        id: "A".to_string(),
    });

    assert!(matches!(result, EventResult::Success));
    assert_eq!(state.node_count(), 0);
}

#[test]
fn test_batch_processing() {
    let mut state = GraphState::new();

    let events = vec![
        GraphEvent::BatchStart,
        node("A"),
        node("B"),
        edge("A", "B"),
        GraphEvent::BatchEnd,
    ];

    state.process_events(events);

    assert_eq!(state.node_count(), 2);
    assert_eq!(state.edge_count(), 1);
}

#[test]
fn test_duplicate_rejection_keeps_count() {
    let mut state = GraphState::new();
    let r1 = state.process_event(node("A"));
    let r2 = state.process_event(node("A"));
    assert_eq!(r1, EventResult::Success);
    assert_eq!(r2, EventResult::NodeExists);
    assert_eq!(state.node_count(), 1);
}

#[test]
fn test_batching_is_equivalent_to_direct_application() {
    // direct run
    let mut direct = GraphState::new();
    let direct_results = direct.process_events(vec![
        node("A"),
        node("B"),
        node("A"),
        edge("A", "B"),
        edge("A", "B"),
    ]);

    // the same events inside a batch
    let mut batched = GraphState::new();
    let batched_results = batched.process_events(vec![
        GraphEvent::BatchStart,
        node("A"),
        node("B"),
        node("A"),
        edge("A", "B"),
        edge("A", "B"),
        GraphEvent::BatchEnd,
    ]);

    // the wrapped run acknowledges every event with Success
    assert!(batched_results.iter().all(|r| *r == EventResult::Success));
    assert_eq!(batched_results.len(), 7);
    assert_eq!(
        direct_results,
        vec![
            EventResult::Success,
            EventResult::Success,
            EventResult::NodeExists,
            EventResult::Success,
            EventResult::EdgeExists,
        ]
    );

    // and reaches exactly the same state
    assert_eq!(direct.node_count(), batched.node_count());
    assert_eq!(direct.edge_count(), batched.edge_count());
    assert_eq!(direct.node_count(), 2);
    assert_eq!(direct.edge_count(), 1);
}

#[test]
fn test_dedup_counts_match_success_outcomes() {
    let mut state = GraphState::new();
    let events = vec![
        node("A"),
        node("B"),
        node("A"),
        node("C"),
        node("B"),
        edge("A", "B"),
        edge("A", "B"),
        edge("B", "C"),
    ];
    let results = state.process_events(events);
    let node_successes = results[..5]
        .iter()
        .filter(|r| **r == EventResult::Success)
        .count();
    let edge_successes = results[5..]
        .iter()
        .filter(|r| **r == EventResult::Success)
        .count();
    assert_eq!(state.node_count(), node_successes);
    assert_eq!(state.edge_count(), edge_successes);
    assert_eq!(state.node_count(), 3);
    assert_eq!(state.edge_count(), 2);
}

#[test]
fn test_removal_cascades() {
    let mut state = GraphState::new();
    state.process_events(vec![
        node("A"),
        node("B"),
        node("C"),
        edge("A", "B"),
        edge("B", "C"),
        edge("C", "A"),
    ]);
    assert_eq!(state.edge_count(), 3);

    let r = state.process_event(GraphEvent::RemoveNode {
        id: "A".to_string(),
    });
    assert_eq!(r, EventResult::Success);
    // every edge incident to A is gone
    assert_eq!(state.node_count(), 2);
    assert_eq!(state.edge_count(), 1);

    // a RemoveEdge on a pair involving the removed node never succeeds
    let r = state.process_event(GraphEvent::RemoveEdge {
        from: "A".to_string(),
        to: "B".to_string(),
    });
    assert_eq!(r, EventResult::NodeNotFound);
    let r = state.process_event(GraphEvent::RemoveEdge {
        from: "C".to_string(),
        to: "A".to_string(),
    });
    assert_eq!(r, EventResult::NodeNotFound);
    assert_eq!(state.edge_count(), 1);
}

#[test]
fn test_snapshot_fidelity_and_independence() {
    let mut state = GraphState::new();
    state.process_events(vec![
        GraphEvent::AddNode {
            id: "A".to_string(),
            info: EventNodeInfo {
                name: "Alpha".to_string(),
                node_type: Some("team".to_string()),
                level: 2,
            },
        },
        node("B"),
        edge("A", "B"),
    ]);

    let snap = state.as_graph_data();
    assert_eq!(snap.node_count(), state.node_count());
    assert_eq!(snap.edge_count(), state.edge_count());
    let a = snap.get("A").unwrap();
    assert_eq!(a.name, "Alpha");
    assert_eq!(a.node_type, Some("team".to_string()));
    assert_eq!(a.level, 2);

    // mutating the live state afterwards does not alter the snapshot
    state.process_event(GraphEvent::RemoveNode {
        id: "A".to_string(),
    });
    state.process_event(GraphEvent::Clear);
    assert_eq!(state.node_count(), 0);
    assert_eq!(snap.node_count(), 2);
    assert_eq!(snap.edge_count(), 1);
    assert!(snap.contains_id("A"));
}

#[test]
fn test_update_node_replaces_payload() {
    let mut state = GraphState::new();
    state.process_event(node("A"));
    let r = state.process_event(GraphEvent::UpdateNode {
        id: "A".to_string(),
        info: EventNodeInfo {
            name: "Renamed".to_string(),
            node_type: Some("site".to_string()),
            level: 7,
        },
    });
    assert_eq!(r, EventResult::Success);
    let info = state.get_node("A").unwrap();
    assert_eq!(info.name, "Renamed");
    assert_eq!(info.node_type, Some("site".to_string()));
    assert_eq!(info.level, 7);

    let r = state.process_event(GraphEvent::UpdateNode {
        id: "missing".to_string(),
        info: EventNodeInfo {
            name: "x".to_string(),
            node_type: None,
            level: 0,
        },
    });
    assert_eq!(r, EventResult::NodeNotFound);
}

#[test]
fn test_edge_rejections() {
    let mut state = GraphState::new();
    state.process_event(node("A"));
    state.process_event(node("B"));

    // an edge to a missing node is rejected
    let r = state.process_event(edge("A", "missing"));
    assert_eq!(r, EventResult::NodeNotFound);

    // a duplicate ordered pair is rejected
    assert_eq!(state.process_event(edge("A", "B")), EventResult::Success);
    assert_eq!(state.process_event(edge("A", "B")), EventResult::EdgeExists);
    // but the reverse direction is a different pair
    assert_eq!(state.process_event(edge("B", "A")), EventResult::Success);

    // removing a missing edge between present nodes
    let r = state.process_event(GraphEvent::RemoveEdge {
        from: "A".to_string(),
        to: "A".to_string(),
    });
    assert_eq!(r, EventResult::EdgeNotFound);
    assert_eq!(state.edge_count(), 2);
}

#[test]
fn test_rich_edge_payload_kept() {
    let mut state = GraphState::new();
    state.process_event(node("A"));
    state.process_event(node("B"));
    let r = state.process_event(GraphEvent::AddRichEdge {
        from: "A".to_string(),
        to: "B".to_string(),
        info: EventEdgeInfo {
            label: Some("hello".to_string()),
            edge_type: Some("async".to_string()),
            sequence: Some(3),
        },
    });
    assert_eq!(r, EventResult::Success);
    // the rich pair occupies the ordered pair like a plain edge
    assert_eq!(state.process_event(edge("A", "B")), EventResult::EdgeExists);
    assert_eq!(state.edge_count(), 1);
}

#[test]
fn test_clear_empties_graph() {
    let mut state = GraphState::new();
    state.process_events(vec![node("A"), node("B"), edge("A", "B")]);
    let r = state.process_event(GraphEvent::Clear);
    assert_eq!(r, EventResult::Success);
    assert_eq!(state.node_count(), 0);
    assert_eq!(state.edge_count(), 0);
    assert!(state.get_node("A").is_none());
}

#[test]
fn test_nested_batch_start_is_queued_literally() {
    // A second BatchStart inside an open batch is queued as an ordinary
    // event; when the queue is flushed it reopens a batch, so events queued
    // after it stay pending until another BatchEnd arrives.
    let mut state = GraphState::new();
    let results = state.process_events(vec![
        GraphEvent::BatchStart,
        node("A"),
        GraphEvent::BatchStart,
        node("B"),
        GraphEvent::BatchEnd,
    ]);
    assert!(results.iter().all(|r| *r == EventResult::Success));
    // A was applied by the flush; B sits in the reopened batch
    assert_eq!(state.node_count(), 1);
    assert!(state.get_node("A").is_some());
    assert!(state.get_node("B").is_none());
    // closing the reopened batch applies B
    state.process_event(GraphEvent::BatchEnd);
    assert_eq!(state.node_count(), 2);
}

#[test]
fn test_default_state_is_empty() {
    let state = GraphState::default();
    assert_eq!(state.node_count(), 0);
    assert_eq!(state.edge_count(), 0);
}
