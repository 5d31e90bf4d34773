use dotspace::sources::dot::DotSource;
use dotspace::sources::plantuml::PlantUMLSource;
use dotspace::sources::{detect_format, DiagramSource, GraphEventSource, SourceError, SourceRegistry};

#[test]
fn test_detect_plantuml_marker_wins() {
    assert_eq!(detect_format("@startuml\nA -> B\n@enduml"), Some("plantuml"));
    assert_eq!(detect_format("  @startsequence"), Some("plantuml"));
    // the PlantUML marker takes priority over DOT hints
    assert_eq!(
        detect_format("digraph { } @startuml"),
        Some("plantuml")
    );
}

#[test]
fn test_detect_dot() {
    assert_eq!(detect_format("digraph { A -> B; }"), Some("dot"));
    assert_eq!(detect_format("graph G { }"), Some("dot"));
    assert_eq!(detect_format("A -> B"), Some("dot"));
}

#[test]
fn test_detect_dot_fallback_on_brackets() {
    assert_eq!(detect_format("X [shape=box]"), Some("dot"));
}

#[test]
fn test_detect_unknown() {
    assert_eq!(detect_format("just some words"), None);
    assert_eq!(detect_format(""), None);
}

#[test]
fn test_registry_register_and_lookup() {
    let mut registry = SourceRegistry::new();
    assert!(registry.is_empty());
    assert_eq!(registry.len(), 0);

    registry.register(DiagramSource::Dot(DotSource::from_str("digraph { }")));
    registry.register(DiagramSource::PlantUml(PlantUMLSource::from_content(
        "@startuml\n@enduml",
    )));
    assert!(!registry.is_empty());
    assert_eq!(registry.len(), 2);

    // lookup is ASCII case-insensitive
    let dot = registry.get_source("dot").unwrap();
    assert_eq!(dot.source_name(), "DOT");
    let puml = registry.get_source("PLANTUML").unwrap();
    assert_eq!(puml.source_name(), "PlantUML");
    assert!(registry.get_source("mermaid").is_none());
}

#[test]
fn test_registry_sources_produce_events() {
    let mut registry = SourceRegistry::new();
    registry.register(DiagramSource::Dot(DotSource::from_str(
        "digraph { A -> B; }",
    )));
    let source = registry.get_source("DOT").unwrap();
    assert!(!source.is_live());
    let events = source.events().unwrap();
    assert_eq!(events.len(), 5);
}

#[test]
fn test_error_messages() {
    assert_eq!(
        SourceError::UnknownFormat.message(),
        "Unable to determine diagram format"
    );
    assert_eq!(
        SourceError::ParseError("bad".to_string()).message(),
        "Parse error: bad"
    );
    assert_eq!(
        SourceError::InvalidInput("x".to_string()).message(),
        "Invalid input: x"
    );
    assert_eq!(
        SourceError::IoError("closed".to_string()).message(),
        "IO error: closed"
    );
}

#[test]
fn test_default_registry_is_empty() {
    let registry = SourceRegistry::default();
    assert!(registry.is_empty());
}
