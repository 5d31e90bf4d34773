use dotspace::parser::parse_dot_file;
use dotspace::types::NodeType;

#[test]
fn test_parse_simple_graph() {
    let dot = r"
            digraph {
                A -> B;
                B -> C;
            }
        ";
    let graph_data = parse_dot_file(dot);
    assert_eq!(graph_data.node_count(), 3);
    assert_eq!(graph_data.edge_count(), 2);
}

#[test]
fn test_node_type_parsing() {
    let test_cases = vec![
        ("organization", NodeType::Organization),
        ("org", NodeType::Organization),
        ("lob", NodeType::LineOfBusiness),
        ("lineofbusiness", NodeType::LineOfBusiness),
        ("line_of_business", NodeType::LineOfBusiness),
        ("site", NodeType::Site),
        ("team", NodeType::Team),
        ("user", NodeType::User),
        ("unknown", NodeType::Default),
    ];

    for (input, expected) in test_cases {
        assert_eq!(NodeType::parse(input), expected);
    }
}

#[test]
fn test_parse_node_with_attributes() {
    let dot = r#"
            digraph {
                "Node1" [type="team", level="2"];
                "Node2" [type="user", level="1"];
                "Node1" -> "Node2";
            }
        "#;
    let graph_data = parse_dot_file(dot);

    let node1 = graph_data.get("Node1").unwrap();
    assert_eq!(node1.node_type, Some("team".to_string()));
    assert_eq!(node1.level, 2);
}

#[test]
fn test_parse_edge_with_style() {
    let dot = r#"
            digraph {
                A -> B [style="dashed"];
                B -> C; // Comment
            }
        "#;
    let graph_data = parse_dot_file(dot);
    assert_eq!(graph_data.edge_count(), 2);
}

#[test]
fn test_quoted_node_names() {
    let dot = r#"
            digraph {
                "Node with spaces" -> "Another node";
                "Another node" -> SimpleNode;
            }
        "#;
    let graph_data = parse_dot_file(dot);
    assert_eq!(graph_data.node_count(), 3);
    assert!(graph_data.contains_id("Node with spaces"));
}

#[test]
fn test_parse_nodes_without_attributes() {
    let dot = r"
            digraph {
                NodeA;
                NodeB;
                NodeC;
                NodeA -> NodeB;
                NodeB -> NodeC;
            }
        ";
    let graph_data = parse_dot_file(dot);
    assert_eq!(graph_data.node_count(), 3);

    for node in &graph_data.nodes {
        assert_eq!(node.node_type, None);
        assert_eq!(node.level, 0);
    }
}

#[test]
fn test_complex_graph_parsing() {
    let dot = r#"
            digraph OrgChart {
                rankdir=TB;

                // Organization level
                "ACME Corp" [type="organization", level="3"];

                // Business units
                "Sales" [type="lob", level="2"];
                "Engineering" [type="lob", level="2"];

                // Sites
                "NYC Office" [type="site", level="1"];
                "SF Office" [type="site", level="1"];

                // Teams
                "Frontend Team" [type="team", level="1"];
                "Backend Team" [type="team", level="1"];

                // Connections
                "ACME Corp" -> "Sales";
                "ACME Corp" -> "Engineering";
                "Sales" -> "NYC Office";
                "Engineering" -> "SF Office";
                "Engineering" -> "Frontend Team";
                "Engineering" -> "Backend Team";
            }
        "#;

    let graph_data = parse_dot_file(dot);

    // Check node count
    assert_eq!(graph_data.node_count(), 7);
    assert_eq!(graph_data.edge_count(), 6);

    // Verify specific nodes
    let acme = graph_data.get("ACME Corp").unwrap();
    assert_eq!(acme.node_type, Some("organization".to_string()));
    assert_eq!(acme.level, 3);

    let frontend = graph_data.get("Frontend Team").unwrap();
    assert_eq!(frontend.node_type, Some("team".to_string()));
    assert_eq!(frontend.level, 1);
}

#[test]
fn test_attribute_example() {
    // a typed, levelled node plus a default-payload neighbour
    let dot = "\"CEO\" [type=\"organization\", level=\"3\"];\n\"CEO\" -> \"Manager\";";
    let graph_data = parse_dot_file(dot);

    let ceo = graph_data.get("CEO").unwrap();
    assert_eq!(ceo.node_type, Some("organization".to_string()));
    assert_eq!(ceo.level, 3);

    let manager = graph_data.get("Manager").unwrap();
    assert_eq!(manager.node_type, None);
    assert_eq!(manager.level, 0);
    assert_eq!(manager.name, "Manager");
}

#[test]
fn test_single_line_document() {
    let graph_data = parse_dot_file("digraph { A -> B; B -> C; }");
    assert_eq!(graph_data.node_count(), 3);
    assert_eq!(graph_data.edge_count(), 2);
    assert!(graph_data.contains_id("A"));
    assert!(graph_data.contains_id("B"));
    assert!(graph_data.contains_id("C"));
}

#[test]
fn test_empty_and_malformed_input_is_permissive() {
    let empty = parse_dot_file("");
    assert_eq!(empty.node_count(), 0);
    assert_eq!(empty.edge_count(), 0);

    // malformed attribute fragments are skipped, not fatal
    let messy = parse_dot_file("X [type=, =3, junk];\nX -> Y;");
    assert_eq!(messy.node_count(), 2);
    assert_eq!(messy.edge_count(), 1);

    // an unparsable level falls back to 0
    let overflow = parse_dot_file("A [level=\"99999999999999\"];\nA -> B;");
    assert_eq!(overflow.get("A").unwrap().level, 0);
}

#[test]
fn test_unattributed_standalone_statements_define_no_node() {
    // bare statements carry no attribute block; nodes come from edges
    let graph_data = parse_dot_file("digraph { OnlyMentioned; }");
    assert_eq!(graph_data.node_count(), 0);
}

#[test]
fn test_snapshot_map_indices_are_consistent() {
    let graph_data = parse_dot_file("digraph { A -> B; }");
    let ai = graph_data.node_index("A").unwrap();
    let bi = graph_data.node_index("B").unwrap();
    assert_eq!(graph_data.nodes[ai].name, "A");
    assert_eq!(graph_data.nodes[bi].name, "B");
    assert_eq!(graph_data.edges, vec![(ai, bi)]);
}
