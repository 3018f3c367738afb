// Tree invariants and the editor/codec asymmetry: unique paths over varied
// schemas, relevance-aware editor traversal, relevance-blind serialization.

use config_tree::json::{JsonAdapter, Serde};
use config_tree::editor::editor_visit;
use config_tree::manager::ManagerSet;
use config_tree::registry::RootRegistry;
use config_tree::schema::{
    BoolMetadata, EnumSchema, EnumVariant, NumericMetadata, Schema, SchemaField, ScalarMetadata,
    StringMetadata, StructMetadata, StructSchema,
};
use config_tree::tree::ConfigValue;

fn int_field(key: &str, default: i64) -> SchemaField {
    SchemaField {
        key: key.to_string(),
        schema: Schema::Scalar(ScalarMetadata::Numeric(NumericMetadata {
            default,
            min: i64::MIN,
            max: i64::MAX,
            precision: Some(1),
            slider: false,
        })),
    }
}

fn bool_field(key: &str) -> SchemaField {
    SchemaField {
        key: key.to_string(),
        schema: Schema::Scalar(ScalarMetadata::Flag(BoolMetadata { default: false })),
    }
}

fn string_field(key: &str) -> SchemaField {
    SchemaField {
        key: key.to_string(),
        schema: Schema::Scalar(ScalarMetadata::Str(StringMetadata {
            default: String::new(),
            max_length: None,
            multiline: false,
        })),
    }
}

fn enum_field(key: &str) -> SchemaField {
    SchemaField {
        key: key.to_string(),
        schema: Schema::Enum(EnumSchema {
            variants: vec![
                EnumVariant { name: "White".to_string(), fields: vec![] },
                EnumVariant {
                    name: "Rgb".to_string(),
                    fields: vec![int_field("0", 0), int_field("1", 0), int_field("2", 0)],
                },
                EnumVariant { name: "Named".to_string(), fields: vec![string_field("code")] },
            ],
            default: 0,
        }),
    }
}

fn assert_paths_unique(reg: &RootRegistry) {
    let paths: Vec<String> = reg.store.nodes.iter().map(|n| n.node.path.join("\u{1f}")).collect();
    for a in 0..paths.len() {
        for b in (a + 1)..paths.len() {
            assert_ne!(paths[a], paths[b]);
        }
    }
}

#[test]
fn spawned_paths_are_unique_across_schemas() {
    // a flat struct
    let mut reg = RootRegistry::new();
    let flat = Schema::Struct(StructSchema {
        metadata: StructMetadata,
        fields: vec![int_field("a", 1), bool_field("b"), string_field("c")],
    });
    reg.init_config("flat".to_string(), &flat, ManagerSet::none());
    assert_paths_unique(&reg);

    // nested structs and enums, and a second root in the same store
    let nested = Schema::Struct(StructSchema {
        metadata: StructMetadata,
        fields: vec![
            enum_field("color"),
            SchemaField {
                key: "inner".to_string(),
                schema: Schema::Struct(StructSchema {
                    metadata: StructMetadata,
                    fields: vec![enum_field("tint"), int_field("n", 7)],
                }),
            },
        ],
    });
    reg.init_config("nested".to_string(), &nested, ManagerSet::none());
    assert_paths_unique(&reg);

    // a bare scalar root
    let scalar = Schema::Scalar(ScalarMetadata::Flag(BoolMetadata { default: true }));
    reg.init_config("flag".to_string(), &scalar, ManagerSet::none());
    assert_paths_unique(&reg);
}

#[test]
fn editor_skips_inactive_variants_codec_does_not() {
    let mut reg = RootRegistry::new();
    let schema = Schema::Struct(StructSchema {
        metadata: StructMetadata,
        fields: vec![int_field("thickness", 3), enum_field("color")],
    });
    let root = reg.init_config("ui".to_string(), &schema, ManagerSet::all());

    // with White active, no draw hook fires for any node under Rgb or Named
    let root_node = reg.root_handle(root).node();
    let visited = editor_visit(&reg.store, root_node);
    let visited_paths: Vec<Vec<String>> =
        visited.iter().map(|id| reg.store.nodes[id.0].node.path.clone()).collect();
    assert!(visited_paths.iter().all(|p| !p.iter().any(|s| s.starts_with("Rgb:"))));
    assert!(visited_paths.iter().all(|p| !p.iter().any(|s| s.starts_with("Named:"))));
    // but the always-relevant scalars are drawn
    assert!(visited_paths.iter().any(|p| p == &vec!["ui".to_string(), "thickness".to_string()]));
    assert!(visited_paths
        .iter()
        .any(|p| p == &vec!["ui".to_string(), "color".to_string(), "discrim".to_string()]));

    // the codec still serializes the inactive Rgb fields
    let json = Serde::new_with_adapter(JsonAdapter { pretty: false });
    let data = json.to_json_string(&reg.store);
    assert!(data.contains("\"ui.color.Rgb:0\""));
    assert!(data.contains("\"ui.color.Rgb:1\""));
    assert!(data.contains("\"ui.color.Named:code\""));

    // switching to Named makes its field visible to the editor
    let discrim = reg
        .store
        .nodes
        .iter()
        .position(|n| n.node.path == vec!["ui".to_string(), "color".to_string(), "discrim".to_string()])
        .map(config_tree::tree::NodeId)
        .unwrap();
    reg.edit_scalar(discrim, ConfigValue::Discrim(2));
    let visited = editor_visit(&reg.store, root_node);
    let visited_paths: Vec<Vec<String>> =
        visited.iter().map(|id| reg.store.nodes[id.0].node.path.clone()).collect();
    assert!(visited_paths.iter().any(|p| p.iter().any(|s| s == "Named:code")));
    assert!(visited_paths.iter().all(|p| !p.iter().any(|s| s.starts_with("Rgb:"))));
}

#[test]
fn managers_attach_their_records() {
    let mut reg = RootRegistry::new();
    let schema = Schema::Struct(StructSchema {
        metadata: StructMetadata,
        fields: vec![int_field("n", 0)],
    });
    reg.init_config("only_codec".to_string(), &schema, ManagerSet::codec());
    for n in reg.store.nodes.iter() {
        if n.scalar.is_some() {
            assert!(n.serde_record.is_some());
            assert!(n.draw_record.is_none());
        }
    }

    let mut reg = RootRegistry::new();
    let schema = Schema::Struct(StructSchema {
        metadata: StructMetadata,
        fields: vec![int_field("n", 0)],
    });
    reg.init_config("only_editor".to_string(), &schema, ManagerSet::editor());
    for n in reg.store.nodes.iter() {
        if n.scalar.is_some() {
            assert!(n.serde_record.is_none());
            assert!(n.draw_record.is_some());
        }
    }
}

#[test]
fn variant_subtrees_link_to_their_discriminant() {
    let mut reg = RootRegistry::new();
    let schema = Schema::Struct(StructSchema {
        metadata: StructMetadata,
        fields: vec![enum_field("color")],
    });
    reg.init_config("ui".to_string(), &schema, ManagerSet::none());

    let discrim = reg
        .store
        .nodes
        .iter()
        .position(|n| n.node.path.last().map(|s| s == "discrim").unwrap_or(false))
        .unwrap();
    // every variant-field subtree root carries a relevance link to the
    // discriminant requiring its own variant
    let rgb0 = reg
        .store
        .nodes
        .iter()
        .position(|n| n.node.path.last().map(|s| s == "Rgb:0").unwrap_or(false))
        .unwrap();
    let link = reg.store.nodes[rgb0].relevance.as_ref().unwrap();
    assert_eq!(link.dependency.0, discrim);
    assert_eq!(link.required_variant, 1);

    // the discriminant itself and the enum node carry no relevance link
    assert!(reg.store.nodes[discrim].relevance.is_none());
}

#[test]
fn editor_walks_all_roots_in_registration_order() {
    let mut reg = RootRegistry::new();
    let first = Schema::Struct(StructSchema {
        metadata: StructMetadata,
        fields: vec![int_field("a", 1)],
    });
    let second = Schema::Struct(StructSchema {
        metadata: StructMetadata,
        fields: vec![int_field("b", 2)],
    });
    reg.init_config("one".to_string(), &first, ManagerSet::editor());
    reg.init_config("two".to_string(), &second, ManagerSet::editor());

    let visited = reg.editor_visit_all();
    let visited_paths: Vec<String> =
        visited.iter().map(|id| reg.store.nodes[id.0].node.path.join(".")).collect();
    assert_eq!(visited_paths, vec!["one.a".to_string(), "two.b".to_string()]);
}

#[test]
fn serialize_orders_by_path_vector_not_flat_bytes() {
    // the key "a-b" sorts below "a.z" as raw bytes ('-' < '.'), but the
    // path vector ["a", "z"] precedes ["a-b"], and the path order wins
    let mut reg = RootRegistry::new();
    let deep = Schema::Struct(StructSchema {
        metadata: StructMetadata,
        fields: vec![int_field("z", 1)],
    });
    let flat = Schema::Scalar(ScalarMetadata::Flag(BoolMetadata { default: false }));
    reg.init_config("a".to_string(), &deep, ManagerSet::codec());
    reg.init_config("a-b".to_string(), &flat, ManagerSet::codec());

    let entries = config_tree::codec::serialize_all(&reg.store);
    let keys: Vec<&str> = entries.iter().map(|e| e.0.as_str()).collect();
    assert_eq!(keys, vec!["a.z", "a-b"]);
}
