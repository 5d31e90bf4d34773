use dotspace::events::GraphEvent;
use dotspace::graph_state::GraphState;
use dotspace::sources::plantuml::PlantUMLSource;
use dotspace::sources::{GraphEventSource, SourceError};

#[test]
fn test_simple_plantuml_to_events() {
    let plantuml_content = r"
            @startuml
            actor User
            participant Server
            User -> Server: Request
            Server --> User: Response
            @enduml
        ";

    let source = PlantUMLSource::from_content(plantuml_content);
    let events = source.events().unwrap();

    // Should have: BatchStart, 2 AddNode, 2 AddRichEdge, BatchEnd
    assert!(events.len() >= 5);

    // Check batch markers
    assert!(matches!(events.first(), Some(GraphEvent::BatchStart)));
    assert!(matches!(events.last(), Some(GraphEvent::BatchEnd)));

    // Count event types
    let node_count = events
        .iter()
        .filter(|e| matches!(e, GraphEvent::AddNode { .. }))
        .count();
    let edge_count = events
        .iter()
        .filter(|e| matches!(e, GraphEvent::AddRichEdge { .. }))
        .count();

    assert_eq!(node_count, 2);
    assert_eq!(edge_count, 2);
}

#[test]
fn test_rich_edge_payload() {
    let content = "@startuml\nactor User\nparticipant Server\nUser -> Server: Request\n@enduml\n";
    let source = PlantUMLSource::from_content(content);
    let events = source.events().unwrap();

    let edge = events
        .iter()
        .find(|e| matches!(e, GraphEvent::AddRichEdge { .. }))
        .unwrap();
    if let GraphEvent::AddRichEdge { from, to, info } = edge {
        assert_eq!(from, "User");
        assert_eq!(to, "Server");
        assert_eq!(info.label, Some("Request".to_string()));
        assert_eq!(info.edge_type, Some("sync".to_string()));
        assert_eq!(info.sequence, Some(0));
    }
}

#[test]
fn test_message_kinds_and_sequence_numbers() {
    let content = "@startuml\nA -> B: one\nB --> A: two\nA ->> B: three\n@enduml\n";
    let events = PlantUMLSource::from_content(content).events().unwrap();
    let kinds: Vec<_> = events
        .iter()
        .filter_map(|e| match e {
            GraphEvent::AddRichEdge { info, .. } => {
                Some((info.edge_type.clone().unwrap(), info.sequence.unwrap()))
            }
            _ => None,
        })
        .collect();
    assert_eq!(
        kinds,
        vec![
            ("sync".to_string(), 0),
            ("return".to_string(), 1),
            ("async".to_string(), 2),
        ]
    );
}

#[test]
fn test_undeclared_endpoints_are_auto_created() {
    let content = "@startuml\nA -> B: hi\n@enduml\n";
    let events = PlantUMLSource::from_content(content).events().unwrap();
    let node_ids: Vec<_> = events
        .iter()
        .filter_map(|e| match e {
            GraphEvent::AddNode { id, info } => Some((id.clone(), info.node_type.clone())),
            _ => None,
        })
        .collect();
    assert_eq!(node_ids.len(), 2);
    assert_eq!(node_ids[0].0, "A");
    assert_eq!(node_ids[0].1, Some("actor:participant".to_string()));
    assert_eq!(node_ids[1].0, "B");
}

#[test]
fn test_participant_kinds_map_to_tags() {
    let content = "@startuml\nactor U\ndatabase D\nentity E\nboundary B\ncontrol C\nqueue Q\n@enduml\n";
    let events = PlantUMLSource::from_content(content).events().unwrap();
    let tags: Vec<_> = events
        .iter()
        .filter_map(|e| match e {
            GraphEvent::AddNode { info, .. } => Some(info.node_type.clone().unwrap()),
            _ => None,
        })
        .collect();
    assert_eq!(
        tags,
        vec![
            "actor:human".to_string(),
            "database".to_string(),
            "external".to_string(),
            "process".to_string(),
            "process".to_string(),
            "actor:queue".to_string(),
        ]
    );
    // every participant sits on the flat layer
    for e in &events {
        if let GraphEvent::AddNode { info, .. } = e {
            assert_eq!(info.level, 0);
        }
    }
}

#[test]
fn test_participant_alias() {
    let content = "@startuml\nparticipant A as \"Alice\"\nparticipant B as \"Bob\"\nA -> B: Hello Bob\n@enduml\n";
    let events = PlantUMLSource::from_content(content).events().unwrap();

    // the node keeps its id and displays the alias
    let alice = events
        .iter()
        .find_map(|e| match e {
            GraphEvent::AddNode { id, info } if id == "A" => Some(info.clone()),
            _ => None,
        })
        .unwrap();
    assert_eq!(alice.name, "Alice");

    // messages address the node by its id
    let edge = events
        .iter()
        .find(|e| matches!(e, GraphEvent::AddRichEdge { .. }))
        .unwrap();
    if let GraphEvent::AddRichEdge { from, to, .. } = edge {
        assert_eq!(from, "A");
        assert_eq!(to, "B");
    }
}

#[test]
fn test_reversed_arrow_swaps_endpoints() {
    let content = "@startuml\nparticipant A\nparticipant B\nA <- B: reply\n@enduml\n";
    let events = PlantUMLSource::from_content(content).events().unwrap();
    let edge = events
        .iter()
        .find(|e| matches!(e, GraphEvent::AddRichEdge { .. }))
        .unwrap();
    if let GraphEvent::AddRichEdge { from, to, info } = edge {
        assert_eq!(from, "B");
        assert_eq!(to, "A");
        assert_eq!(info.edge_type, Some("sync".to_string()));
    }
}

#[test]
fn test_missing_end_tag_is_parse_error() {
    let source = PlantUMLSource::from_content("@startuml\nA -> B: x\n");
    assert!(matches!(source.events(), Err(SourceError::ParseError(_))));
}

#[test]
fn test_missing_start_tag_is_parse_error() {
    let source = PlantUMLSource::from_content("A -> B: x\n@enduml\n");
    assert!(matches!(source.events(), Err(SourceError::ParseError(_))));
}

#[test]
fn test_unrecognizable_line_is_parse_error() {
    let source = PlantUMLSource::from_content("@startuml\n123 not a rule\n@enduml\n");
    assert!(matches!(source.events(), Err(SourceError::ParseError(_))));
}

#[test]
fn test_unknown_arrow_is_parse_error() {
    let source = PlantUMLSource::from_content("@startuml\nA // B: lost\n@enduml\n");
    assert!(matches!(source.events(), Err(SourceError::ParseError(_))));
}

#[test]
fn test_unterminated_block_is_parse_error() {
    let source =
        PlantUMLSource::from_content("@startuml\nalt happy path\nA -> B: ok\n@enduml\n");
    assert!(matches!(source.events(), Err(SourceError::ParseError(_))));
}

#[test]
fn test_terminated_block_contents_are_processed() {
    let content = "@startuml\nalt happy\nA -> B: ok\nelse sad\nB -> A: no\nend\n@enduml\n";
    let events = PlantUMLSource::from_content(content).events().unwrap();
    let edges = events
        .iter()
        .filter(|e| matches!(e, GraphEvent::AddRichEdge { .. }))
        .count();
    assert_eq!(edges, 2);
}

#[test]
fn test_comments_notes_and_activation_are_skipped() {
    let content = "@startuml\n' a comment\nparticipant A\nnote left A: hi\nactivate A\ndeactivate A\n== phase ==\n@enduml\n";
    let events = PlantUMLSource::from_content(content).events().unwrap();
    // only the batch markers and the one declared participant
    assert_eq!(events.len(), 3);
}

#[test]
fn test_plantuml_source_capabilities() {
    let source = PlantUMLSource::new("@startuml\n@enduml\n".to_string());
    assert_eq!(source.source_name(), "PlantUML");
    assert!(!source.is_live());
    let events = source.events().unwrap();
    assert_eq!(events.len(), 2);
}

#[test]
fn test_plantuml_events_apply_cleanly() {
    let content = "@startuml\nactor User\nparticipant Server\nUser -> Server: Request\nServer --> User: Response\n@enduml\n";
    let events = PlantUMLSource::from_content(content).events().unwrap();
    let mut state = GraphState::new();
    let results = state.process_events(events);
    assert!(results
        .iter()
        .all(|r| *r == dotspace::events::EventResult::Success));
    assert_eq!(state.node_count(), 2);
    assert_eq!(state.edge_count(), 2);
}
