use nimbus_ecs::entity::Entity;
use nimbus_ecs::serializers::nimbus::{EntityMap, NimbusDeserializer, NimbusError, TextFormat};
use nimbus_ecs::serializers::scene::{sort_columns, write_json_scene, write_scene, SceneBlock, SceneColumn};
use nimbus_ecs::world::World;

fn parse_error(input: &str) -> (usize, String) {
    match NimbusDeserializer::new().parse(input) {
        Err(NimbusError::Parse { line, message }) => (line, message),
        other => panic!("expected a parse error, got {:?}", other.map(|w| w.entities.len())),
    }
}

#[test]
fn test_parse_empty() {
    let deserializer = NimbusDeserializer::new();
    let result = deserializer.parse("").unwrap();
    assert!(result.entities.is_empty());
}

#[test]
fn test_parse_comments_only() {
    let deserializer = NimbusDeserializer::new();
    let input = r#"
# This is a comment
# Another comment
        "#;
    let result = deserializer.parse(input).unwrap();
    assert!(result.entities.is_empty());
}

#[test]
fn test_parse_single_entity() {
    let deserializer = NimbusDeserializer::new();
    let input = r#"
@entity 0
  Position: {"x": 1.0, "y": 2.0}
  Velocity: {"dx": 0.0, "dy": 0.0}
        "#;
    let result = deserializer.parse(input).unwrap();
    assert_eq!(result.entities.len(), 1);
    assert_eq!(result.entities[0].index, 0);
    assert_eq!(result.entities[0].components.len(), 2);
}

#[test]
fn test_parse_multiple_entities() {
    let deserializer = NimbusDeserializer::new();
    let input = r#"
@entity 0
  Position: {"x": 0.0, "y": 0.0}

@entity 1
  Position: {"x": 10.0, "y": 20.0}
  Enemy: {"target": 0}
        "#;
    let result = deserializer.parse(input).unwrap();
    assert_eq!(result.entities.len(), 2);
    assert_eq!(result.entities[0].index, 0);
    assert_eq!(result.entities[1].index, 1);
    assert_eq!(result.entities[1].components.len(), 2);
}

#[test]
fn test_entity_map() {
    let mut map = EntityMap::new();
    let e1 = Entity::from_raw(1, 0);
    let e2 = Entity::from_raw(5, 2);

    map.insert(0, e1);
    map.insert(1, e2);

    assert_eq!(map.get(0), Some(e1));
    assert_eq!(map.get(1), Some(e2));
    assert_eq!(map.get(2), None);
}

#[test]
fn entity_map_remaps_and_lists() {
    let mut map = EntityMap::default();
    map.insert(3, Entity::from_raw(9, 1));
    map.insert(3, Entity::from_raw(4, 0));
    map.insert(7, Entity::from_raw(2, 2));
    assert_eq!(map.remap(Entity::from_raw(3, 99)), Some(Entity::from_raw(4, 0)));
    assert_eq!(map.remap(Entity::from_raw(8, 0)), None);
    let mut pairs = map.iter();
    pairs.sort_by_key(|p| p.0);
    assert_eq!(pairs, vec![(3, Entity::from_raw(4, 0)), (7, Entity::from_raw(2, 2))]);
}

#[test]
fn parse_archetype_blocks() {
    let input = "# Nimbus Scene Format v1\n@archetype [Position, Velocity]\n  @entity 0\n    Position: {\"x\": 1.0}\n    Velocity: {\"dx\": 2.0}\n  @entity 3\n    Position: {\"x\": 4.0}\n\n@archetype [ Tag , ]\n  @entity 5\n    Tag: null\n";
    let world = NimbusDeserializer::with_format(TextFormat::JsonPretty).parse(input).unwrap();
    assert!(world.header.is_none());
    assert!(world.entities.is_empty());
    assert_eq!(world.archetypes.len(), 2);
    assert_eq!(world.archetypes[0].component_types, vec!["Position".to_string(), "Velocity".to_string()]);
    assert_eq!(world.archetypes[0].entities.len(), 2);
    assert_eq!(world.archetypes[0].entities[1].index, 3);
    assert_eq!(
        world.archetypes[0].entities[0].components,
        vec![
            ("Position".to_string(), "{\"x\": 1.0}".to_string()),
            ("Velocity".to_string(), "{\"dx\": 2.0}".to_string()),
        ]
    );
    assert_eq!(world.archetypes[1].component_types, vec!["Tag".to_string()]);
    assert_eq!(world.archetypes[1].entities[0].components, vec![("Tag".to_string(), "null".to_string())]);
}

#[test]
fn parse_multi_line_value() {
    let input = "@entity 2\n  Stats: {\n    \"hp\": 10,\n    \"name\": \"a}b\"\n  }\n  Tag: 1\n";
    let world = NimbusDeserializer::new().parse(input).unwrap();
    let e = &world.entities[0];
    assert_eq!(e.index, 2);
    assert_eq!(
        e.components,
        vec![
            ("Stats".to_string(), "{\n\"hp\": 10,\n\"name\": \"a}b\"\n}".to_string()),
            ("Tag".to_string(), "1".to_string()),
        ]
    );
}

#[test]
fn parse_crlf_lines() {
    let input = "@entity 1\r\n  A: 5\r\n";
    let world = NimbusDeserializer::new().parse(input).unwrap();
    assert_eq!(world.entities[0].components, vec![("A".to_string(), "5".to_string())]);
}

#[test]
fn archetype_line_drops_entity_without_block() {
    let input = "@entity 1\n  A: 1\n@archetype [B]\n@entity 2\n";
    let world = NimbusDeserializer::new().parse(input).unwrap();
    assert!(world.entities.is_empty());
    assert_eq!(world.archetypes.len(), 1);
    assert_eq!(world.archetypes[0].entities[0].index, 2);
}

#[test]
fn parse_errors_name_their_line() {
    assert_eq!(parse_error("@archetype Position]"), (1, "Expected '[' after @archetype".to_string()));
    assert_eq!(parse_error("\n@archetype [Position"), (2, "Expected ']' in @archetype".to_string()));
    assert_eq!(parse_error("@entity"), (1, "Expected entity index after @entity".to_string()));
    assert_eq!(parse_error("@entity x1"), (1, "Invalid entity index: x1".to_string()));
    assert_eq!(parse_error("@entity 4294967296"), (1, "Invalid entity index: 4294967296".to_string()));
    assert_eq!(parse_error("  Position: 1"), (1, "Component outside of entity block".to_string()));
    assert_eq!(parse_error("@entity 0\n  Position 1"), (2, "Expected ':' after component type name".to_string()));
    assert_eq!(parse_error("@entity 0\n\n  P: {\n\"a\": 1"), (3, "Unclosed braces in component value".to_string()));
    assert_eq!(parse_error("@entity 0\nstray text  "), (2, "Unexpected content: stray text".to_string()));
}

#[test]
fn entity_index_accepts_plus_sign() {
    let world = NimbusDeserializer::new().parse("@entity +12 trailing\n").unwrap();
    assert_eq!(world.entities[0].index, 12);
}

#[test]
fn try_parse_reports_reversed_brackets() {
    assert!(NimbusDeserializer::new().try_parse("@archetype ][").is_none());
    assert!(NimbusDeserializer::new().try_parse("@entity 0").unwrap().is_ok());
}

fn column(name: &str, values: &[&str]) -> SceneColumn {
    SceneColumn { name: name.to_string(), values: values.iter().map(|v| v.to_string()).collect() }
}

#[test]
fn write_scene_frames_blocks() {
    let blocks = vec![
        SceneBlock { entity_count: 2, columns: vec![column("A", &["1", "2"]), column("B", &["x", "y"])] },
        SceneBlock { entity_count: 3, columns: vec![] },
        SceneBlock { entity_count: 0, columns: vec![column("C", &[])] },
        SceneBlock { entity_count: 1, columns: vec![column("C", &["{}"])] },
    ];
    let text = write_scene(&blocks);
    assert_eq!(
        text,
        "# Nimbus Scene Format v1\n# Generated by nimbus_ecs\n\n\
@archetype [A, B]\n  @entity 0\n    A: 1\n    B: x\n  @entity 1\n    A: 2\n    B: y\n\n\
@archetype [C]\n  @entity 5\n    C: {}\n\n"
    );
}

#[test]
fn written_scene_parses_back() {
    let blocks = vec![SceneBlock { entity_count: 2, columns: vec![column("Pos", &["{\"x\": 1}", "{\"x\": 2}"])] }];
    let text = write_scene(&blocks);
    let world = NimbusDeserializer::new().parse(&text).unwrap();
    assert_eq!(world.archetypes.len(), 1);
    assert_eq!(world.archetypes[0].component_types, vec!["Pos".to_string()]);
    assert_eq!(world.archetypes[0].entities[1].index, 1);
    assert_eq!(world.archetypes[0].entities[1].components, vec![("Pos".to_string(), "{\"x\": 2}".to_string())]);
}

#[test]
fn write_scene_of_nothing_is_the_header() {
    assert_eq!(write_scene(&Vec::new()), "# Nimbus Scene Format v1\n# Generated by nimbus_ecs\n\n");
}

#[test]
fn sort_columns_orders_by_name() {
    let sorted = sort_columns(vec![column("Velocity", &[]), column("Health", &[]), column("Position", &[]), column("Heal", &[])]);
    let names: Vec<&str> = sorted.iter().map(|c| c.name.as_str()).collect();
    assert_eq!(names, vec!["Heal", "Health", "Position", "Velocity"]);
}

#[test]
fn sort_columns_keeps_equal_names_in_order() {
    let sorted = sort_columns(vec![column("B", &["first"]), column("A", &[]), column("B", &["second"])]);
    let seen: Vec<(&str, usize)> = sorted.iter().map(|c| (c.name.as_str(), c.values.len())).collect();
    assert_eq!(seen, vec![("A", 0), ("B", 1), ("B", 1)]);
    assert_eq!(sorted[1].values, vec!["first".to_string()]);
    assert_eq!(sorted[2].values, vec!["second".to_string()]);
}

#[test]
fn write_json_scene_counts_written_entities() {
    let blocks = vec![
        SceneBlock { entity_count: 3, columns: vec![] },
        SceneBlock { entity_count: 2, columns: vec![column("A", &["1", "2"]), column("B", &["{}", "[]"])] },
        SceneBlock { entity_count: 0, columns: vec![column("C", &[])] },
        SceneBlock { entity_count: 1, columns: vec![column("C", &["true"])] },
    ];
    assert_eq!(
        write_json_scene(&blocks),
        "{\"archetypes\":[{\"components\":[\"A\",\"B\"],\"entities\":[{\"id\":0,\"A\":1,\"B\":{}},{\"id\":1,\"A\":2,\"B\":[]}]},\
{\"components\":[\"C\"],\"entities\":[{\"id\":2,\"C\":true}]}]}"
    );
    assert_eq!(write_json_scene(&Vec::new()), "{\"archetypes\":[]}");
}

#[test]
fn load_entities_maps_file_indices() {
    let input = "@archetype [A]\n  @entity 4\n    A: 1\n  @entity 9\n@entity 4\n";
    let deserializer = NimbusDeserializer::new();
    let parsed = deserializer.parse(input).unwrap();
    let mut world: World<u8> = World::new();
    let existing = world.spawn();
    let (map, spawned) = deserializer.load_entities(&parsed, &mut world);
    assert_eq!(spawned.len(), 3);
    assert!(!spawned.contains(&existing));
    assert_eq!(map.get(9), Some(spawned[1]));
    assert_eq!(map.get(4), Some(spawned[2]));
    assert_eq!(map.get(0), None);
    for e in &spawned {
        assert!(world.is_alive(*e));
    }
    assert_eq!(world.matching_entities(&[], &[]).len(), 4);
}


#[test]
fn error_messages_name_what_failed() {
    let parse = NimbusError::Parse { line: 12, message: "bad line".to_string() };
    assert_eq!(parse.message(), "Parse error at line 12: bad line");
    let unknown = NimbusError::UnknownComponent { line: 0, name: "Pos".to_string() };
    assert_eq!(unknown.message(), "Unknown component 'Pos' at line 0");
    let reference = NimbusError::InvalidReference { line: 3, reference: "#9".to_string() };
    assert_eq!(reference.message(), "Invalid entity reference '#9' at line 3");
    let ser = NimbusError::Serialize { entity: 7, component: "Vel".to_string(), message: "nan".to_string() };
    assert_eq!(ser.message(), "Failed to serialize Vel on entity 7: nan");
    let de = NimbusError::Deserialize { line: 40, component: "Hp".to_string(), message: "eof".to_string() };
    assert_eq!(de.message(), "Failed to deserialize Hp at line 40: eof");
}
