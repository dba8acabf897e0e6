use openapi::models::{
    format_for_first_byte, Api, DataType, DataTypeFormat, DocumentFormat, Schema, SchemaNode,
};
use openapi::resolver::Error;

fn blank() -> SchemaNode {
    SchemaNode {
        name: None,
        description: None,
        data_type: None,
        format: None,
        reference: None,
        items: None,
        additional_properties: None,
        properties: Vec::new(),
        cyclic: false,
    }
}

fn placeholder(target: &str) -> SchemaNode {
    SchemaNode {
        reference: Some(format!("#/definitions/{}", target)),
        ..blank()
    }
}

fn api(nodes: Vec<SchemaNode>, definitions: Vec<(&str, usize)>) -> Api {
    Api {
        swagger: String::from("2.0"),
        nodes,
        definitions: definitions
            .into_iter()
            .map(|(n, h)| (String::from(n), h))
            .collect(),
    }
}

#[test]
fn self_cycle_items_is_flagged() {
    // X.items references X itself.
    let doc = api(
        vec![
            placeholder("X"),
            SchemaNode {
                name: Some(String::from("X")),
                items: Some(0),
                ..blank()
            },
        ],
        vec![("X", 1)],
    );
    let resolved = doc.resolve().expect("self-cycle must resolve");
    assert_eq!(resolved.nodes[1].items, Some(1));
    assert!(resolved.nodes[1].cyclic);
}

#[test]
fn self_cycle_property_is_flagged() {
    // X has a property referencing X itself.
    let doc = api(
        vec![
            placeholder("X"),
            SchemaNode {
                name: Some(String::from("X")),
                properties: vec![(String::from("next"), 0)],
                ..blank()
            },
        ],
        vec![("X", 1)],
    );
    let resolved = doc.resolve().expect("self-cycle must resolve");
    assert_eq!(resolved.nodes[1].properties[0].1, 1);
    assert!(resolved.nodes[1].cyclic);
}

#[test]
fn mutual_cycle_flags_both() {
    // X references Y, Y references X; neither references itself directly.
    let doc = api(
        vec![
            placeholder("Y"),
            SchemaNode {
                name: Some(String::from("X")),
                items: Some(0),
                ..blank()
            },
            placeholder("X"),
            SchemaNode {
                name: Some(String::from("Y")),
                items: Some(2),
                ..blank()
            },
        ],
        vec![("X", 1), ("Y", 3)],
    );
    let resolved = doc.resolve().expect("mutual cycle must resolve");
    assert_eq!(resolved.nodes[1].items, Some(3));
    assert_eq!(resolved.nodes[3].items, Some(1));
    assert!(resolved.nodes[1].cyclic);
    assert!(resolved.nodes[3].cyclic);
}

#[test]
fn missing_reference_fails_naming_ghost() {
    let doc = api(
        vec![
            placeholder("Ghost"),
            SchemaNode {
                name: Some(String::from("A")),
                items: Some(0),
                ..blank()
            },
        ],
        vec![("A", 1)],
    );
    let err = doc.resolve().expect_err("missing target must fail");
    assert_eq!(
        err,
        Error::UnresolvedReference {
            source: String::from("A"),
            target: String::from("Ghost"),
        }
    );
}

#[test]
fn malformed_reference_is_reported_distinctly() {
    let doc = api(
        vec![
            SchemaNode {
                reference: Some(String::from("definitions/Alpha")),
                ..blank()
            },
            SchemaNode {
                name: Some(String::from("A")),
                items: Some(0),
                ..blank()
            },
        ],
        vec![("A", 1)],
    );
    let err = doc.resolve().expect_err("malformed marker must fail");
    assert_eq!(
        err,
        Error::MalformedReference {
            source: String::from("A"),
            reference: String::from("definitions/Alpha"),
        }
    );
}

#[test]
fn acyclic_graph_stays_unflagged() {
    // A -> B, B is a plain integer schema: no cycle anywhere.
    let doc = api(
        vec![
            placeholder("B"),
            SchemaNode {
                name: Some(String::from("A")),
                items: Some(0),
                ..blank()
            },
            SchemaNode {
                name: Some(String::from("B")),
                data_type: Some(DataType::Integer),
                format: Some(DataTypeFormat::Int64),
                ..blank()
            },
        ],
        vec![("A", 1), ("B", 2)],
    );
    let resolved = doc.resolve().expect("acyclic document must resolve");
    assert_eq!(resolved.nodes[1].items, Some(2));
    for node in &resolved.nodes {
        assert!(!node.cyclic);
    }
    // Every slot reachable from a definition points at a marker-free node.
    let target = resolved.nodes[1].items.unwrap();
    assert!(resolved.nodes[target].reference.is_none());
}

#[test]
fn two_parents_share_one_node() {
    // A and B both reference C: both slots must hold the identical handle.
    let doc = api(
        vec![
            placeholder("C"),
            SchemaNode {
                name: Some(String::from("A")),
                items: Some(0),
                ..blank()
            },
            placeholder("C"),
            SchemaNode {
                name: Some(String::from("B")),
                items: Some(2),
                ..blank()
            },
            SchemaNode {
                name: Some(String::from("C")),
                data_type: Some(DataType::String),
                ..blank()
            },
        ],
        vec![("A", 1), ("B", 3), ("C", 4)],
    );
    let mut resolved = doc.resolve().expect("sharing document must resolve");
    let via_a = resolved.nodes[1].items.unwrap();
    let via_b = resolved.nodes[3].items.unwrap();
    assert_eq!(via_a, via_b);
    assert_eq!(via_a, 4);
    // A mutation made through A's handle is observable through B's handle.
    resolved.nodes[via_a].description = Some(String::from("shared"));
    assert_eq!(
        resolved.nodes[via_b].description.as_deref(),
        Some("shared")
    );
}

#[test]
fn referenced_definition_acquires_its_key_as_name() {
    // Inner is only discovered via Outer's reference and has no name.
    let doc = api(
        vec![
            placeholder("Inner"),
            SchemaNode {
                name: Some(String::from("Outer")),
                additional_properties: Some(0),
                ..blank()
            },
            SchemaNode {
                data_type: Some(DataType::Object),
                ..blank()
            },
        ],
        vec![("Outer", 1), ("Inner", 2)],
    );
    let resolved = doc.resolve().expect("back-fill document must resolve");
    assert_eq!(resolved.nodes[2].name.as_deref(), Some("Inner"));
    assert_eq!(resolved.nodes[1].additional_properties, Some(2));
}

#[test]
fn resolving_a_resolved_document_changes_nothing() {
    // A document with a cycle, sharing and a plain leaf; resolve twice.
    let doc = api(
        vec![
            placeholder("Y"),
            SchemaNode {
                name: Some(String::from("X")),
                items: Some(0),
                ..blank()
            },
            placeholder("X"),
            SchemaNode {
                name: Some(String::from("Y")),
                properties: vec![(String::from("back"), 2)],
                ..blank()
            },
            SchemaNode {
                name: Some(String::from("Leaf")),
                data_type: Some(DataType::Boolean),
                ..blank()
            },
        ],
        vec![("X", 1), ("Y", 3), ("Leaf", 4)],
    );
    let once = doc.resolve().expect("first resolution must succeed");
    let twice = once.clone().resolve().expect("second resolution must succeed");
    assert_eq!(twice, once);
}

#[test]
fn empty_document_resolves_unchanged() {
    let doc = api(Vec::new(), Vec::new());
    let resolved = doc.resolve().expect("empty document must resolve");
    assert_eq!(resolved.swagger, "2.0");
    assert!(resolved.nodes.is_empty());
    assert!(resolved.definitions.is_empty());
}

#[test]
fn metadata_comes_through_unchanged() {
    let doc = api(
        vec![
            placeholder("B"),
            SchemaNode {
                name: Some(String::from("A")),
                description: Some(String::from("outer object")),
                data_type: Some(DataType::Array),
                items: Some(0),
                ..blank()
            },
            SchemaNode {
                name: Some(String::from("B")),
                description: Some(String::from("a date")),
                data_type: Some(DataType::String),
                format: Some(DataTypeFormat::Date),
                ..blank()
            },
        ],
        vec![("A", 1), ("B", 2)],
    );
    let resolved = doc.resolve().expect("must resolve");
    assert_eq!(resolved.swagger, "2.0");
    assert_eq!(resolved.definitions.len(), 2);
    assert_eq!(resolved.definitions[0].0, "A");
    assert_eq!(resolved.nodes[1].description.as_deref(), Some("outer object"));
    assert_eq!(resolved.nodes[1].data_type, Some(DataType::Array));
    assert_eq!(resolved.nodes[2].description.as_deref(), Some("a date"));
    assert_eq!(resolved.nodes[2].format, Some(DataTypeFormat::Date));
}

#[test]
fn nested_anonymous_children_are_resolved() {
    // A's property is an anonymous array whose items reference B.
    let doc = api(
        vec![
            placeholder("B"),
            SchemaNode {
                data_type: Some(DataType::Array),
                items: Some(0),
                ..blank()
            },
            SchemaNode {
                name: Some(String::from("A")),
                properties: vec![(String::from("list"), 1)],
                ..blank()
            },
            SchemaNode {
                name: Some(String::from("B")),
                ..blank()
            },
        ],
        vec![("A", 2), ("B", 3)],
    );
    let resolved = doc.resolve().expect("must resolve");
    assert_eq!(resolved.nodes[2].properties[0].1, 1);
    assert_eq!(resolved.nodes[1].items, Some(3));
    assert!(!resolved.nodes[3].cyclic);
}

#[test]
fn first_byte_selects_the_parser() {
    assert_eq!(format_for_first_byte(b'{'), DocumentFormat::Json);
    assert_eq!(format_for_first_byte(b'a'), DocumentFormat::Yaml);
    assert_eq!(format_for_first_byte(b'-'), DocumentFormat::Yaml);
}

#[test]
fn schema_capability_set_reads_and_writes() {
    let mut node = blank();
    assert!(Schema::name(&node).is_none());
    Schema::set_name(&mut node, "Pet");
    assert_eq!(Schema::name(&node), Some("Pet"));
    assert!(!Schema::is_cyclic(&node));
    Schema::set_cyclic(&mut node, true);
    assert!(Schema::is_cyclic(&node));
    Schema::set_items(&mut node, 7);
    assert_eq!(Schema::items(&node), Some(7));
    Schema::set_additional_properties(&mut node, 9);
    assert_eq!(Schema::additional_properties(&node), Some(9));
    node.properties.push((String::from("p"), 1));
    Schema::set_property(&mut node, 0, 4);
    assert_eq!(Schema::properties(&node)[0], (String::from("p"), 4));
    assert!(Schema::reference(&node).is_none());
    assert!(Schema::description(&node).is_none());
    assert!(Schema::data_type(&node).is_none());
    assert!(Schema::format(&node).is_none());
}
