// Unit-level behavior: generations, metadata defaults, readers, and the
// string helpers the codec's flat keys rest on.

use config_tree::read::Reader;
use config_tree::schema::{BoolMetadata, NumericMetadata, StringMetadata};
use config_tree::strutil::{join_path, str_eq, str_key_lt};
use config_tree::tree::ConfigValue;
use config_tree::FieldGeneration;

#[test]
fn generation_starts_at_one_and_increments() {
    let g = FieldGeneration::initial();
    assert_eq!(g.0, 1);
    let g = g.next();
    assert_eq!(g.0, 2);
    assert_eq!(g.next().0, 3);
}

#[test]
fn numeric_metadata_defaults() {
    let m = NumericMetadata::default();
    assert_eq!(m.default, 0);
    assert_eq!(m.min, i64::MIN);
    assert_eq!(m.max, i64::MAX);
    assert_eq!(m.precision, Some(1));
    assert!(!m.slider);
}

#[test]
fn string_and_bool_metadata_defaults() {
    let m = StringMetadata::default();
    assert_eq!(m.default, "");
    assert!(m.max_length.is_none());
    assert!(!m.multiline);
    let b = BoolMetadata::default();
    assert!(!b.default);
}

#[test]
fn config_value_duplicate_preserves_value() {
    let v = ConfigValue::Text("hello".to_string());
    match v.duplicate() {
        ConfigValue::Text(s) => assert_eq!(s, "hello"),
        _ => panic!("a text value duplicates as text"),
    }
    let n = ConfigValue::Num(serde_json::Number::from_f64(1.5).unwrap());
    match n.duplicate() {
        ConfigValue::Num(x) => assert_eq!(x, serde_json::Number::from_f64(1.5).unwrap()),
        _ => panic!("a number value duplicates as a number"),
    }
}

#[test]
fn join_path_joins_with_dots() {
    let p = vec!["ui".to_string(), "color".to_string(), "Rgb:0".to_string()];
    assert_eq!(join_path(&p), "ui.color.Rgb:0");
    let single = vec!["ui".to_string()];
    assert_eq!(join_path(&single), "ui");
}

#[test]
fn string_helpers_compare_correctly() {
    assert!(str_eq("abc", "abc"));
    assert!(!str_eq("abc", "abd"));
    assert!(!str_eq("abc", "ab"));
    assert!(str_key_lt("Named", "Rgb"));
    assert!(str_key_lt("Rgb", "Rgba"));
    assert!(str_key_lt("Rgba", "discrim"));
    assert!(!str_key_lt("thickness", "discrim"));
    assert!(!str_key_lt("abc", "abc"));
    // the separator sorts below every other character, so flat keys order
    // like their path vectors: ["a", "z"] precedes ["a-b"]
    assert!(str_key_lt("a.z", "a-b"));
    assert!(!str_key_lt("a-b", "a.z"));
}

#[test]
fn reader_shapes_match_values() {
    let r = Reader::Struct(vec![
        Reader::Scalar(ConfigValue::Bool(true)),
        Reader::Enum { variant: 2, fields: vec![Reader::Scalar(ConfigValue::Int(-4))] },
    ]);
    match r {
        Reader::Struct(fields) => {
            assert!(matches!(fields[0], Reader::Scalar(ConfigValue::Bool(true))));
            match &fields[1] {
                Reader::Enum { variant, fields } => {
                    assert_eq!(*variant, 2);
                    assert!(matches!(fields[0], Reader::Scalar(ConfigValue::Int(-4))));
                }
                _ => panic!("expected an enum reader"),
            }
        }
        _ => panic!("expected a struct reader"),
    }
}
