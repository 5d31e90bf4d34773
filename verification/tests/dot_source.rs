use dotspace::events::GraphEvent;
use dotspace::graph_state::GraphState;
use dotspace::parser::parse_dot_file;
use dotspace::sources::dot::DotSource;
use dotspace::sources::GraphEventSource;
use std::collections::HashSet;

#[test]
fn test_simple_dot_to_events() {
    let dot_content = r#"
            digraph {
                A -> B;
                B -> C;
            }
        "#;

    let source = DotSource::from_str(dot_content);
    let events = source.events().unwrap();

    // Should have: BatchStart, 3 AddNode, 2 AddEdge, BatchEnd
    assert_eq!(events.len(), 7);

    // Check batch markers
    assert!(matches!(events.first(), Some(GraphEvent::BatchStart)));
    assert!(matches!(events.last(), Some(GraphEvent::BatchEnd)));

    // Count event types
    let node_count = events
        .iter()
        .filter(|e| matches!(e, GraphEvent::AddNode { .. }))
        .count();
    let edge_count = events
        .iter()
        .filter(|e| matches!(e, GraphEvent::AddEdge { .. }))
        .count();

    assert_eq!(node_count, 3);
    assert_eq!(edge_count, 2);
}

#[test]
fn test_duplicate_node_names() {
    let dot_content = r#"
            digraph {
                Server -> Database;
                Server -> Cache;
                "Server" -> Queue;
            }
        "#;

    let source = DotSource::from_str(dot_content);
    let events = source.events().unwrap();

    // Should handle duplicate "Server" references
    let node_events: Vec<_> = events
        .iter()
        .filter_map(|e| match e {
            GraphEvent::AddNode { id, .. } => Some(id.clone()),
            _ => None,
        })
        .collect();

    // Should have unique IDs
    let unique_ids: HashSet<_> = node_events.iter().cloned().collect();
    assert_eq!(node_events.len(), unique_ids.len());
}

#[test]
fn test_event_stream_produces_same_graph_as_direct_parse() {
    // the event stream must produce the same graph structure as parsing
    // the document directly
    let dot_content = r#"
            digraph {
                A [type="team", level="2"];
                B [type="user", level="1"];
                C [type="user", level="1"];
                A -> B;
                A -> C;
                B -> C;
            }
        "#;

    // Get graph via direct parse
    let direct_graph = parse_dot_file(dot_content);

    // Get graph via event stream
    let source = DotSource::from_str(dot_content);
    let events = source.events().unwrap();
    let mut state = GraphState::new();
    state.process_events(events);
    let event_graph = state.as_graph_data();

    // Compare structure
    assert_eq!(direct_graph.node_count(), event_graph.node_count());
    assert_eq!(direct_graph.edge_count(), event_graph.edge_count());

    // Verify all nodes exist with correct properties
    for (name, _) in &direct_graph.node_map {
        assert!(event_graph.contains_id(name));

        let direct_node = direct_graph.get(name).unwrap();
        let event_node = event_graph.get(name).unwrap();

        assert_eq!(direct_node.name, event_node.name);
        assert_eq!(direct_node.node_type, event_node.node_type);
        assert_eq!(direct_node.level, event_node.level);
    }
}

#[test]
fn test_dot_round_trip() {
    // single-line document: three AddNode events, two AddEdge events,
    // bracketed by the batch markers
    let source = DotSource::from_str("digraph { A -> B; B -> C; }");
    let events = source.events().unwrap();

    assert_eq!(events.len(), 7);
    assert!(matches!(events.first(), Some(GraphEvent::BatchStart)));
    assert!(matches!(events.last(), Some(GraphEvent::BatchEnd)));
    let ids: Vec<_> = events
        .iter()
        .filter_map(|e| match e {
            GraphEvent::AddNode { id, .. } => Some(id.as_str()),
            _ => None,
        })
        .collect();
    assert_eq!(ids, vec!["A", "B", "C"]);

    let mut state = GraphState::new();
    state.process_events(events);
    assert_eq!(state.node_count(), 3);
    assert_eq!(state.edge_count(), 2);
}

#[test]
fn test_dot_source_capabilities() {
    let source = DotSource::new(String::new());
    assert_eq!(source.source_name(), "DOT");
    assert!(!source.is_live());

    // DOT parsing is permissive: even empty text yields a (bracketed) batch
    let events = source.events().unwrap();
    assert_eq!(events.len(), 2);
    assert!(matches!(events[0], GraphEvent::BatchStart));
    assert!(matches!(events[1], GraphEvent::BatchEnd));
}

#[test]
fn test_nodes_precede_edges_in_stream() {
    let source = DotSource::from_str("digraph { A -> B; C [type=\"site\"]; B -> C; }");
    let events = source.events().unwrap();
    let first_edge = events
        .iter()
        .position(|e| matches!(e, GraphEvent::AddEdge { .. }))
        .unwrap();
    let last_node = events
        .iter()
        .rposition(|e| matches!(e, GraphEvent::AddNode { .. }))
        .unwrap();
    assert!(last_node < first_edge);
}
