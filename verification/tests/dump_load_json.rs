// The end-to-end codec scenario: spawn a schema with an integer, a nested
// enum with float, struct and string variants; serialize it to the flat
// path-keyed JSON map; reload a payload and observe the updated values.

use config_tree::codec::WireValue;
use config_tree::json::{JsonAdapter, Serde};
use config_tree::manager::ManagerSet;
use config_tree::read::Reader;
use config_tree::registry::RootRegistry;
use config_tree::schema::{
    EnumSchema, EnumVariant, NumberMetadata, NumericMetadata, Schema, SchemaField, ScalarMetadata,
    StringMetadata, StructMetadata, StructSchema,
};
use config_tree::tree::ConfigValue;

fn float_field(key: &str) -> SchemaField {
    SchemaField {
        key: key.to_string(),
        schema: Schema::Scalar(ScalarMetadata::Number(NumberMetadata {
            default: serde_json::Number::from_f64(0.0).unwrap(),
        })),
    }
}

fn int_field(key: &str, default: i64) -> SchemaField {
    SchemaField {
        key: key.to_string(),
        schema: Schema::Scalar(ScalarMetadata::Numeric(NumericMetadata {
            default,
            min: i64::MIN,
            max: i64::MAX,
            precision: Some(1),
            slider: false,
        })),
    }
}

fn string_field(key: &str) -> SchemaField {
    SchemaField {
        key: key.to_string(),
        schema: Schema::Scalar(ScalarMetadata::Str(StringMetadata {
            default: String::new(),
            max_length: None,
            multiline: false,
        })),
    }
}

/// The schema `{thickness: i32 = 3, color: enum{White, Rgb(f32,f32,f32),
/// Rgba(Rgba(f32,f32,f32,f32)), Named{code: String}}}`.
pub fn settings_schema() -> Schema {
    let rgba = Schema::Struct(StructSchema {
        metadata: StructMetadata,
        fields: vec![float_field("0"), float_field("1"), float_field("2"), float_field("3")],
    });
    let color = Schema::Enum(EnumSchema {
        variants: vec![
            EnumVariant { name: "White".to_string(), fields: vec![] },
            EnumVariant {
                name: "Rgb".to_string(),
                fields: vec![float_field("0"), float_field("1"), float_field("2")],
            },
            EnumVariant {
                name: "Rgba".to_string(),
                fields: vec![SchemaField { key: "0".to_string(), schema: rgba }],
            },
            EnumVariant { name: "Named".to_string(), fields: vec![string_field("code")] },
        ],
        default: 0,
    });
    Schema::Struct(StructSchema {
        metadata: StructMetadata,
        fields: vec![
            int_field("thickness", 3),
            SchemaField { key: "color".to_string(), schema: color },
        ],
    })
}

#[test]
fn test_run() {
    let mut reg = RootRegistry::new();
    let schema = settings_schema();
    let root = reg.init_config("ui".to_string(), &schema, ManagerSet::codec());

    // the freshly spawned tree reads as its defaults
    let settings = reg.read_root(root);
    match &settings {
        Reader::Struct(fields) => {
            assert!(matches!(fields[0], Reader::Scalar(ConfigValue::Int(3))));
            match &fields[1] {
                Reader::Enum { variant, fields } => {
                    assert_eq!(*variant, 0);
                    assert!(fields.is_empty());
                }
                _ => panic!("color must be an enum"),
            }
        }
        _ => panic!("settings must be a struct"),
    }

    // dump
    let json = Serde::new_with_adapter(JsonAdapter { pretty: false });
    let data = json.to_json_string(&reg.store);
    assert_eq!(
        data,
        r#"{"ui.color.Named:code":"","ui.color.Rgb:0":0.0,"ui.color.Rgb:1":0.0,"ui.color.Rgb:2":0.0,"ui.color.Rgba:0.0":0.0,"ui.color.Rgba:0.1":0.0,"ui.color.Rgba:0.2":0.0,"ui.color.Rgba:0.3":0.0,"ui.color.discrim":"White","ui.thickness":3}"#
    );

    let pretty_json = Serde::new_with_adapter(JsonAdapter { pretty: true });
    let data = pretty_json.to_json_string(&reg.store);
    assert_eq!(
        data,
        r#"{
  "ui.color.Named:code": "",
  "ui.color.Rgb:0": 0.0,
  "ui.color.Rgb:1": 0.0,
  "ui.color.Rgb:2": 0.0,
  "ui.color.Rgba:0.0": 0.0,
  "ui.color.Rgba:0.1": 0.0,
  "ui.color.Rgba:0.2": 0.0,
  "ui.color.Rgba:0.3": 0.0,
  "ui.color.discrim": "White",
  "ui.thickness": 3
}"#
    );

    // load
    let input = r#"{
        "ui.thickness": 5,
        "ui.color.discrim": "Named",
        "ui.color.Named:code": "red"
    }"#;
    json.load_json_str(&mut reg.store, input).unwrap();

    let settings = reg.read_root(root);
    match &settings {
        Reader::Struct(fields) => {
            assert!(matches!(fields[0], Reader::Scalar(ConfigValue::Int(5))));
            match &fields[1] {
                Reader::Enum { variant, fields } => {
                    assert_eq!(*variant, 3);
                    match &fields[0] {
                        Reader::Scalar(ConfigValue::Text(code)) => assert_eq!(code, "red"),
                        _ => panic!("code must be a string scalar"),
                    }
                }
                _ => panic!("color must be an enum"),
            }
        }
        _ => panic!("settings must be a struct"),
    }
}

#[test]
fn round_trip_restores_defaults() {
    let mut reg = RootRegistry::new();
    let schema = settings_schema();
    let root = reg.init_config("ui".to_string(), &schema, ManagerSet::codec());
    let json = Serde::new_with_adapter(JsonAdapter { pretty: false });

    let before = json.to_json_string(&reg.store);
    json.load_json_str(&mut reg.store, &before).unwrap();
    let after = json.to_json_string(&reg.store);
    assert_eq!(before, after);

    // reading back still yields the defaults
    let settings = reg.read_root(root);
    match &settings {
        Reader::Struct(fields) => {
            assert!(matches!(fields[0], Reader::Scalar(ConfigValue::Int(3))));
        }
        _ => panic!("settings must be a struct"),
    }
}

#[test]
fn unknown_keys_are_ignored_and_missing_keys_keep_values() {
    let mut reg = RootRegistry::new();
    let schema = settings_schema();
    let root = reg.init_config("ui".to_string(), &schema, ManagerSet::codec());
    let json = Serde::new_with_adapter(JsonAdapter { pretty: false });

    json.load_json_str(&mut reg.store, r#"{"nope.such.key": 1, "ui.thickness": 9}"#).unwrap();
    let settings = reg.read_root(root);
    match &settings {
        Reader::Struct(fields) => {
            assert!(matches!(fields[0], Reader::Scalar(ConfigValue::Int(9))));
            // color untouched by the payload
            assert!(matches!(fields[1], Reader::Enum { variant: 0, .. }));
        }
        _ => panic!("settings must be a struct"),
    }
}

#[test]
fn decode_errors() {
    let mut reg = RootRegistry::new();
    let schema = settings_schema();
    let _ = reg.init_config("ui".to_string(), &schema, ManagerSet::codec());
    let json = Serde::new_with_adapter(JsonAdapter { pretty: false });

    // not a JSON object at all
    let r = json.load_json_str(&mut reg.store, "[1, 2]");
    assert!(matches!(r, Err(config_tree::codec::DecodeError::Syntax(_))));

    // wrong value shape for an integer scalar
    let r = json.load_json_str(&mut reg.store, r#"{"ui.thickness": true}"#);
    assert!(matches!(r, Err(config_tree::codec::DecodeError::WrongType)));

    // unknown variant name for the discriminant
    let r = json.load_json_str(&mut reg.store, r#"{"ui.color.discrim": "Pink"}"#);
    assert!(matches!(r, Err(config_tree::codec::DecodeError::UnknownVariant)));

    // a fractional number does not load into an integer scalar
    let r = json.load_json_str(&mut reg.store, r#"{"ui.thickness": 5.5}"#);
    assert!(matches!(r, Err(config_tree::codec::DecodeError::WrongType)));
}

#[test]
fn serialize_entries_are_sorted_wire_values() {
    let mut reg = RootRegistry::new();
    let schema = settings_schema();
    let _ = reg.init_config("ui".to_string(), &schema, ManagerSet::codec());

    let entries = config_tree::codec::serialize_all(&reg.store);
    let keys: Vec<&str> = entries.iter().map(|e| e.0.as_str()).collect();
    assert_eq!(
        keys,
        vec![
            "ui.color.Named:code",
            "ui.color.Rgb:0",
            "ui.color.Rgb:1",
            "ui.color.Rgb:2",
            "ui.color.Rgba:0.0",
            "ui.color.Rgba:0.1",
            "ui.color.Rgba:0.2",
            "ui.color.Rgba:0.3",
            "ui.color.discrim",
            "ui.thickness",
        ]
    );
    assert!(matches!(entries[9].1, WireValue::Int(3)));
    match &entries[8].1 {
        WireValue::Text(name) => assert_eq!(name, "White"),
        _ => panic!("the discriminant serializes as its variant name"),
    }
}

#[test]
fn integer_wire_values_load_into_number_fields() {
    let mut reg = RootRegistry::new();
    let schema = settings_schema();
    let _ = reg.init_config("ui".to_string(), &schema, ManagerSet::codec());

    // a hand-built entry list can carry a plain integer for a number field
    let entries = vec![("ui.color.Rgb:0".to_string(), WireValue::Int(7))];
    config_tree::codec::apply_all(&mut reg.store, &entries).unwrap();

    let json = Serde::new_with_adapter(JsonAdapter { pretty: false });
    let data = json.to_json_string(&reg.store);
    assert!(data.contains("\"ui.color.Rgb:0\":7"));
}
