// Change detection behavior: witness stability without writes, witness
// propagation after scalar edits, and witness changes on variant switches.

use config_tree::manager::ManagerSet;
use config_tree::read::{changed, Changed, ReadConfigChange};
use config_tree::FieldGeneration;
use config_tree::registry::RootRegistry;
use config_tree::schema::{
    EnumSchema, EnumVariant, NumericMetadata, Schema, SchemaField, ScalarMetadata, StructMetadata,
    StructSchema,
};
use config_tree::tree::{ConfigValue, NodeId};

fn int_field(key: &str, default: i64) -> SchemaField {
    SchemaField {
        key: key.to_string(),
        schema: Schema::Scalar(ScalarMetadata::Numeric(NumericMetadata {
            default,
            min: i64::MIN,
            max: i64::MAX,
            precision: Some(1),
            slider: false,
        })),
    }
}

fn nested_schema() -> Schema {
    let inner = Schema::Enum(EnumSchema {
        variants: vec![
            EnumVariant { name: "Off".to_string(), fields: vec![] },
            EnumVariant { name: "On".to_string(), fields: vec![int_field("level", 1)] },
        ],
        default: 0,
    });
    Schema::Struct(StructSchema {
        metadata: StructMetadata,
        fields: vec![
            int_field("width", 640),
            SchemaField { key: "mode".to_string(), schema: inner },
        ],
    })
}

fn find_node(reg: &RootRegistry, path: &[&str]) -> NodeId {
    for (j, n) in reg.store.nodes.iter().enumerate() {
        if n.node.path.len() == path.len()
            && n.node.path.iter().zip(path.iter()).all(|(a, b)| a == b)
        {
            return NodeId(j);
        }
    }
    panic!("no node at the given path");
}

#[test]
fn witness_is_stable_without_writes() {
    let mut reg = RootRegistry::new();
    let schema = nested_schema();
    let root = reg.init_config("video".to_string(), &schema, ManagerSet::none());
    let w1 = reg.changed_root(root);
    let w2 = reg.changed_root(root);
    assert!(w1.same_as(&w2));
}

#[test]
fn scalar_edit_changes_node_and_ancestor_witness() {
    let mut reg = RootRegistry::new();
    let schema = nested_schema();
    let root = reg.init_config("video".to_string(), &schema, ManagerSet::none());

    let width = find_node(&reg, &["video", "width"]);
    let before_leaf = changed(&reg.store, &config_tree::schema::SpawnNode::Scalar(width));
    let before_root = reg.changed_root(root);

    reg.edit_scalar(width, ConfigValue::Int(800));

    let after_leaf = changed(&reg.store, &config_tree::schema::SpawnNode::Scalar(width));
    let after_root = reg.changed_root(root);
    assert!(!before_leaf.same_as(&after_leaf));
    assert!(!before_root.same_as(&after_root));
}

#[test]
fn variant_switch_changes_witness_without_touching_scalars() {
    let mut reg = RootRegistry::new();
    let schema = nested_schema();
    let root = reg.init_config("video".to_string(), &schema, ManagerSet::none());

    let discrim = find_node(&reg, &["video", "mode", "discrim"]);
    let before = reg.changed_root(root);
    reg.edit_scalar(discrim, ConfigValue::Discrim(1));
    let after = reg.changed_root(root);
    assert!(!before.same_as(&after));
}

#[test]
fn consume_change_tracks_edits() {
    let mut reg = RootRegistry::new();
    let schema = nested_schema();
    let root = reg.init_config("video".to_string(), &schema, ManagerSet::none());

    let mut tracker = ReadConfigChange::new();
    // the first check always reports a change
    assert!(tracker.consume_change(&reg.store, reg.root_handle(root)));
    // no writes in between: no change
    assert!(!tracker.consume_change(&reg.store, reg.root_handle(root)));

    let width = find_node(&reg, &["video", "width"]);
    reg.edit_scalar(width, ConfigValue::Int(1024));
    assert!(tracker.consume_change(&reg.store, reg.root_handle(root)));
    assert!(!tracker.consume_change(&reg.store, reg.root_handle(root)));
}

#[test]
fn witness_comparison_is_structural() {
    let a = Changed::Struct(vec![Changed::Scalar(FieldGeneration(1)), Changed::Enum {
        variant: 0,
        fields: vec![],
    }]);
    let b = Changed::Struct(vec![Changed::Scalar(FieldGeneration(1)), Changed::Enum {
        variant: 0,
        fields: vec![],
    }]);
    let c = Changed::Struct(vec![Changed::Scalar(FieldGeneration(2)), Changed::Enum {
        variant: 0,
        fields: vec![],
    }]);
    let d = Changed::Struct(vec![Changed::Scalar(FieldGeneration(1)), Changed::Enum {
        variant: 1,
        fields: vec![],
    }]);
    assert!(a.same_as(&b));
    assert!(!a.same_as(&c));
    assert!(!a.same_as(&d));
    assert!(!a.same_as(&Changed::Scalar(FieldGeneration(1))));
}

#[test]
fn edit_inside_inactive_variant_leaves_enum_witness_unchanged() {
    // the witness only covers the active variant: a write into an inactive
    // subtree is invisible until that variant becomes active
    let mut reg = RootRegistry::new();
    let schema = nested_schema();
    let root = reg.init_config("video".to_string(), &schema, ManagerSet::none());

    let level = find_node(&reg, &["video", "mode", "On:level"]);
    let before = reg.changed_root(root);
    reg.edit_scalar(level, ConfigValue::Int(5));
    let after = reg.changed_root(root);
    assert!(before.same_as(&after));

    // once the variant becomes active, the change shows
    let discrim = find_node(&reg, &["video", "mode", "discrim"]);
    reg.edit_scalar(discrim, ConfigValue::Discrim(1));
    let active = reg.changed_root(root);
    assert!(!after.same_as(&active));
}
