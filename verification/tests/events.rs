use dotspace::events::{EventNodeInfo, GraphEvent};

#[test]
fn test_event_affects_node() {
    let event = GraphEvent::AddNode {
        id: "A".to_string(),
        info: EventNodeInfo {
            name: "Node A".to_string(),
            node_type: None,
            level: 0,
        },
    };

    assert!(event.affects_node("A"));
    assert!(!event.affects_node("B"));
}

#[test]
fn test_edge_events_affect_both_nodes() {
    let event = GraphEvent::AddEdge {
        from: "A".to_string(),
        to: "B".to_string(),
    };

    assert!(event.affects_node("A"));
    assert!(event.affects_node("B"));
    assert!(!event.affects_node("C"));
}

#[test]
fn test_clear_affects_every_node() {
    assert!(GraphEvent::Clear.affects_node("anything"));
    assert!(GraphEvent::Clear.affects_node(""));
}

#[test]
fn test_batch_markers_affect_no_node() {
    assert!(!GraphEvent::BatchStart.affects_node("A"));
    assert!(!GraphEvent::BatchEnd.affects_node("A"));
}

#[test]
fn test_rich_edge_affects_both_endpoints() {
    let event = GraphEvent::AddRichEdge {
        from: "X".to_string(),
        to: "Y".to_string(),
        info: dotspace::events::EventEdgeInfo {
            label: Some("m".to_string()),
            edge_type: Some("sync".to_string()),
            sequence: Some(0),
        },
    };
    assert!(event.affects_node("X"));
    assert!(event.affects_node("Y"));
    assert!(!event.affects_node("Z"));
}
