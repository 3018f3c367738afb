//! The schema a configuration tree is spawned from: scalar metadata for the
//! leaves, and ordered field lists for struct and enum composites.

use vstd::prelude::*;
use vstd::seq_lib::*;

use crate::strutil::clone_strings;
use crate::tree::{meta_ok, seg_ok, ConditionalRelevance, ConfigStore, NodeId};

verus! {

/// Metadata for integer scalar config fields.
#[derive(Debug, Clone, Copy, PartialEq, Eq, Structural)]
pub struct NumericMetadata {
    /// The default value.
    pub default: i64,
    /// The minimum possible value.
    pub min: i64,
    /// The maximum possible value.
    pub max: i64,
    /// The precision of the value.
    pub precision: Option<i64>,
    /// Whether to display the value as a slider in the UI.
    pub slider: bool,
}

impl Default for NumericMetadata {
    fn default() -> (r: Self)
        ensures
            r.default == 0,
            r.min == i64::MIN,
            r.max == i64::MAX,
            r.precision == Some(1i64),
            r.slider == false,
    {
        NumericMetadata { default: 0, min: i64::MIN, max: i64::MAX, precision: Some(1), slider: false }
    }
}

/// Metadata for floating-point-like scalar config fields, whose values the
/// tree carries as opaque JSON numbers.
pub struct NumberMetadata {
    /// The default value.
    pub default: serde_json::Number,
}

/// Metadata for string fields.
pub struct StringMetadata {
    /// The default value.
    pub default: String,
    /// The maximum length of the string.
    pub max_length: Option<usize>,
    /// Whether the string can span multiple lines in the UI.
    pub multiline: bool,
}

impl Default for StringMetadata {
    fn default() -> (r: Self)
        ensures
            r.default@ == Seq::<char>::empty(),
            r.max_length is None,
            r.multiline == false,
    {
        StringMetadata { default: String::new(), max_length: None, multiline: false }
    }
}

/// Metadata for boolean fields.
pub struct BoolMetadata {
    /// The default value.
    pub default: bool,
}

impl Default for BoolMetadata {
    fn default() -> (r: Self)
        ensures
            r.default == false,
    {
        BoolMetadata { default: false }
    }
}

/// Metadata for the discriminant node of an enum field: the variant names, in
/// declaration order, and the index of the initially active variant.
pub struct DiscrimMetadata {
    /// The variant names, in declaration order.
    pub variants: Vec<String>,
    /// The index of the initially active variant.
    pub default: usize,
}

/// Metadata type for composite (struct- or enum-shaped) config fields.
#[derive(Default)]
pub struct StructMetadata;

/// The immutable metadata attached to a scalar node at spawn time.
pub enum ScalarMetadata {
    /// An integer scalar.
    Numeric(NumericMetadata),
    /// A float-like scalar, held as an opaque JSON number.
    Number(NumberMetadata),
    /// A string scalar.
    Str(StringMetadata),
    /// A boolean scalar.
    Flag(BoolMetadata),
    /// An enum discriminant.
    Discrim(DiscrimMetadata),
}

/// One named field of a struct schema or of an enum variant.
pub struct SchemaField {
    /// The path segment this field contributes.
    pub key: String,
    /// The field's own schema.
    pub schema: Schema,
}

/// A struct-shaped composite: an ordered list of named fields.
pub struct StructSchema {
    /// Metadata of the composite node itself.
    pub metadata: StructMetadata,
    /// The fields, in declaration order.
    pub fields: Vec<SchemaField>,
}

/// One variant of an enum schema.
pub struct EnumVariant {
    /// The variant's name, used in paths and in the serialized discriminant.
    pub name: String,
    /// The variant's fields, in declaration order.
    pub fields: Vec<SchemaField>,
}

/// An enum-shaped composite: a discriminant plus a full field list per
/// variant.  Every variant's subtree is spawned, not just the active one.
pub struct EnumSchema {
    /// The variants, in declaration order.
    pub variants: Vec<EnumVariant>,
    /// The index of the initially active variant.
    pub default: usize,
}

/// A config field schema: a scalar leaf, or a struct or enum composite.
pub enum Schema {
    /// A scalar leaf, mapped to exactly one node.
    Scalar(ScalarMetadata),
    /// A struct composite, mapped to one node plus one subtree per field.
    Struct(StructSchema),
    /// An enum composite, mapped to one node, a discriminant node, and one
    /// subtree per field of every variant.
    Enum(EnumSchema),
}

/// Whether two scalar metadata records carry the same mathematical content.
pub open spec fn same_meta(a: ScalarMetadata, b: ScalarMetadata) -> bool {
    match (a, b) {
        (ScalarMetadata::Numeric(x), ScalarMetadata::Numeric(y)) => x.default == y.default
            && x.min == y.min && x.max == y.max && x.precision == y.precision && x.slider
            == y.slider,
        (ScalarMetadata::Number(x), ScalarMetadata::Number(y)) => x.default == y.default,
        (ScalarMetadata::Str(x), ScalarMetadata::Str(y)) => x.default@ == y.default@
            && x.max_length == y.max_length && x.multiline == y.multiline,
        (ScalarMetadata::Flag(x), ScalarMetadata::Flag(y)) => x.default == y.default,
        (ScalarMetadata::Discrim(x), ScalarMetadata::Discrim(y)) => x.variants.deep_view()
            == y.variants.deep_view() && x.default == y.default,
        _ => false,
    }
}

/// The default value a scalar node starts with, from its metadata.
pub open spec fn default_value(m: ScalarMetadata) -> crate::tree::ConfigVal {
    match m {
        ScalarMetadata::Numeric(nm) => crate::tree::ConfigVal::Int(nm.default),
        ScalarMetadata::Number(nm) => crate::tree::ConfigVal::Num(nm.default),
        ScalarMetadata::Str(sm) => crate::tree::ConfigVal::Text(sm.default@),
        ScalarMetadata::Flag(bm) => crate::tree::ConfigVal::Bool(bm.default),
        ScalarMetadata::Discrim(dm) => crate::tree::ConfigVal::Discrim(dm.default),
    }
}

/// Metadata with the same content prescribes the same shapes and defaults.
pub proof fn lemma_same_meta(a: ScalarMetadata, b: ScalarMetadata)
    requires
        same_meta(a, b),
    ensures
        meta_ok(a) == meta_ok(b),
        default_value(a) == default_value(b),
        forall|v: crate::tree::ConfigValue| #[trigger]
            crate::tree::value_matches(a, v) == crate::tree::value_matches(b, v),
        a is Discrim == b is Discrim,
{
    match (a, b) {
        (ScalarMetadata::Discrim(x), ScalarMetadata::Discrim(y)) => {
            assert(x.variants.deep_view().len() == x.variants@.len());
            assert(y.variants.deep_view().len() == y.variants@.len());
            assert forall|i: int| 0 <= i < x.variants@.len() implies x.variants@[i]@
                == y.variants@[i]@ by {
                assert(x.variants.deep_view()[i] == x.variants@[i]@);
                assert(y.variants.deep_view()[i] == y.variants@[i]@);
            }
        },
        _ => {},
    }
}

impl ScalarMetadata {
    /// Copies the metadata; the copy has the same content.
    pub fn duplicate(&self) -> (r: ScalarMetadata)
        ensures
            same_meta(r, *self),
            same_meta(*self, r),
    {
        match self {
            ScalarMetadata::Numeric(nm) => ScalarMetadata::Numeric(*nm),
            ScalarMetadata::Number(nm) => ScalarMetadata::Number(
                NumberMetadata { default: nm.default.clone() },
            ),
            ScalarMetadata::Str(sm) => ScalarMetadata::Str(
                StringMetadata {
                    default: sm.default.clone(),
                    max_length: sm.max_length,
                    multiline: sm.multiline,
                },
            ),
            ScalarMetadata::Flag(bm) => ScalarMetadata::Flag(BoolMetadata { default: bm.default }),
            ScalarMetadata::Discrim(dm) => ScalarMetadata::Discrim(
                DiscrimMetadata { variants: clone_strings(&dm.variants), default: dm.default },
            ),
        }
    }

    /// The default value a scalar node of this metadata starts with.
    pub fn default_of(&self) -> (r: crate::tree::ConfigValue)
        ensures
            r@ == default_value(*self),
    {
        match self {
            ScalarMetadata::Numeric(nm) => crate::tree::ConfigValue::Int(nm.default),
            ScalarMetadata::Number(nm) => crate::tree::ConfigValue::Num(nm.default.clone()),
            ScalarMetadata::Str(sm) => crate::tree::ConfigValue::Text(sm.default.clone()),
            ScalarMetadata::Flag(bm) => crate::tree::ConfigValue::Bool(bm.default),
            ScalarMetadata::Discrim(dm) => crate::tree::ConfigValue::Discrim(dm.default),
        }
    }
}

/// The path segment of an enum variant field: `"{variant}:{key}"`.
pub open spec fn variant_seg_of(name: Seq<char>, key: Seq<char>) -> Seq<char> {
    name + seq![':'] + key
}

/// The path segment a field contributes: its key, prefixed by the variant
/// name for enum variant fields.
pub open spec fn field_seg(prefix: Option<Seq<char>>, key: Seq<char>) -> Seq<char> {
    match prefix {
        Some(n) => variant_seg_of(n, key),
        None => key,
    }
}

/// Pairwise-distinct field keys.
pub open spec fn keys_distinct(fs: Seq<SchemaField>) -> bool {
    forall|i: int, j: int| 0 <= i < j < fs.len() ==> fs[i].key@ != fs[j].key@
}

/// Well-formed field list: valid keys and well-formed field schemas.
pub open spec fn fields_wf(fs: Seq<SchemaField>) -> bool
    decreases fs,
{
    fs.len() == 0 || {
        &&& fields_wf(fs.drop_last())
        &&& seg_ok(fs.last().key@)
        &&& schema_wf(fs.last().schema)
    }
}

/// Well-formed variant list: each variant's field list well-formed with
/// distinct keys.
pub open spec fn variants_wf(vs: Seq<EnumVariant>) -> bool
    decreases vs,
{
    vs.len() == 0 || {
        &&& variants_wf(vs.drop_last())
        &&& keys_distinct(vs.last().fields@)
        &&& fields_wf(vs.last().fields@)
    }
}

/// Valid, pairwise-distinct, colon-free variant names.
pub open spec fn names_ok(vs: Seq<EnumVariant>) -> bool {
    &&& forall|v: int|
        0 <= v < vs.len() ==> seg_ok((#[trigger] vs[v]).name@) && !vs[v].name@.contains(':')
    &&& forall|v: int, w: int| 0 <= v < w < vs.len() ==> vs[v].name@ != vs[w].name@
}

/// Well-formed schema: valid metadata at the leaves (discriminants are
/// implicit, never declared), distinct keys per composite, distinct
/// colon-free names per enum, and an existing default variant.
pub open spec fn schema_wf(s: Schema) -> bool
    decreases s,
{
    match s {
        Schema::Scalar(m) => meta_ok(m) && !(m is Discrim),
        Schema::Struct(st) => keys_distinct(st.fields@) && fields_wf(st.fields@),
        Schema::Enum(e) => {
            &&& e.variants@.len() > 0
            &&& e.default < e.variants@.len()
            &&& names_ok(e.variants@)
            &&& variants_wf(e.variants@)
        },
    }
}

/// Each element of a well-formed field list is well-formed.
pub proof fn lemma_fields_wf_all(fs: Seq<SchemaField>)
    requires
        fields_wf(fs),
    ensures
        forall|i: int|
            0 <= i < fs.len() ==> seg_ok((#[trigger] fs[i]).key@) && schema_wf(fs[i].schema),
    decreases fs.len(),
{
    if fs.len() > 0 {
        lemma_fields_wf_all(fs.drop_last());
        assert forall|i: int|
            0 <= i < fs.len() implies seg_ok((#[trigger] fs[i]).key@) && schema_wf(
            fs[i].schema,
        ) by {
            if i < fs.len() - 1 {
                assert(fs.drop_last()[i] == fs[i]);
            } else {
                assert(fs[i] == fs.last());
            }
        }
    }
}

/// Each element of a well-formed variant list is well-formed.
pub proof fn lemma_variants_wf_all(vs: Seq<EnumVariant>)
    requires
        variants_wf(vs),
    ensures
        forall|v: int|
            0 <= v < vs.len() ==> keys_distinct((#[trigger] vs[v]).fields@) && fields_wf(
                vs[v].fields@,
            ),
    decreases vs.len(),
{
    if vs.len() > 0 {
        lemma_variants_wf_all(vs.drop_last());
        assert forall|v: int|
            0 <= v < vs.len() implies keys_distinct((#[trigger] vs[v]).fields@) && fields_wf(
            vs[v].fields@,
        ) by {
            if v < vs.len() - 1 {
                assert(vs.drop_last()[v] == vs[v]);
            } else {
                assert(vs[v] == vs.last());
            }
        }
    }
}

/// How many nodes spawning this schema creates.
pub open spec fn node_count(s: Schema) -> nat
    decreases s,
{
    match s {
        Schema::Scalar(_) => 1,
        Schema::Struct(st) => 1 + fields_count(st.fields@),
        Schema::Enum(e) => 2 + variants_count(e.variants@),
    }
}

/// Total node count of a field list.
pub open spec fn fields_count(fs: Seq<SchemaField>) -> nat
    decreases fs,
{
    if fs.len() == 0 {
        0
    } else {
        node_count(fs[0].schema) + fields_count(fs.drop_first())
    }
}

/// Total node count of a variant list.
pub open spec fn variants_count(vs: Seq<EnumVariant>) -> nat
    decreases vs,
{
    if vs.len() == 0 {
        0
    } else {
        fields_count(vs[0].fields@) + variants_count(vs.drop_first())
    }
}

/// Unfolds `fields_count` at position `k`.
pub proof fn lemma_fields_count_skip(fs: Seq<SchemaField>, k: int)
    requires
        0 <= k < fs.len(),
    ensures
        fields_count(fs.skip(k)) == node_count(fs[k].schema) + fields_count(fs.skip(k + 1)),
    decreases fs.len() - k,
{
    assert(fs.skip(k)[0] == fs[k]);
    assert(fs.skip(k).drop_first() =~= fs.skip(k + 1));
}

/// Unfolds `variants_count` at position `v`.
pub proof fn lemma_variants_count_skip(vs: Seq<EnumVariant>, v: int)
    requires
        0 <= v < vs.len(),
    ensures
        variants_count(vs.skip(v)) == fields_count(vs[v].fields@) + variants_count(vs.skip(v + 1)),
    decreases vs.len() - v,
{
    assert(vs.skip(v)[0] == vs[v]);
    assert(vs.skip(v).drop_first() =~= vs.skip(v + 1));
}

/// The spawn handle of a config subtree: what a parent retains to address
/// this field's nodes later.
pub enum SpawnNode {
    /// A scalar leaf: its node.
    Scalar(NodeId),
    /// A struct: its own node and one handle per field.
    Struct {
        /// The subtree-root node.
        node: NodeId,
        /// One handle per field, in declaration order.
        fields: Vec<SpawnNode>,
    },
    /// An enum: its own node, its discriminant node, and one handle per field
    /// of every variant.
    Enum {
        /// The subtree-root node.
        node: NodeId,
        /// The discriminant node holding the active-variant tag.
        discrim: NodeId,
        /// One handle list per variant, in declaration order.
        variants: Vec<Vec<SpawnNode>>,
    },
}

impl SpawnNode {
    /// The node of the subtree root.
    pub open spec fn spec_node(self) -> NodeId {
        match self {
            SpawnNode::Scalar(id) => id,
            SpawnNode::Struct { node, .. } => node,
            SpawnNode::Enum { node, .. } => node,
        }
    }

    /// The node of the subtree root.
    pub fn node(&self) -> (r: NodeId)
        ensures
            r == self.spec_node(),
    {
        match self {
            SpawnNode::Scalar(id) => *id,
            SpawnNode::Struct { node, .. } => *node,
            SpawnNode::Enum { node, .. } => *node,
        }
    }
}

/// A handle addresses real nodes of the right shapes: scalar handles point at
/// scalar nodes, and an enum's discriminant node carries one variant name per
/// handle list.
pub open spec fn handle_ok(store: ConfigStore, h: SpawnNode) -> bool
    decreases h,
{
    match h {
        SpawnNode::Scalar(id) => store.contains(id) && store.nodes@[id.0 as int].scalar is Some,
        SpawnNode::Struct { node, fields } => store.contains(node) && handles_ok(store, fields@),
        SpawnNode::Enum { node, discrim, variants } => {
            &&& store.contains(node)
            &&& store.contains(discrim)
            &&& store.nodes@[discrim.0 as int].scalar matches Some(sf) && sf.metadata matches ScalarMetadata::Discrim(dm) && dm.variants@.len() == variants@.len()
            &&& handles_ok_matrix(store, variants@)
        },
    }
}

/// Every handle of a list addresses nodes of the right shapes.
pub open spec fn handles_ok(store: ConfigStore, hs: Seq<SpawnNode>) -> bool
    decreases hs,
{
    hs.len() == 0 || (handles_ok(store, hs.drop_last()) && handle_ok(store, hs.last()))
}

/// Every handle of a list of lists addresses nodes of the right shapes.
pub open spec fn handles_ok_matrix(store: ConfigStore, vs: Seq<Vec<SpawnNode>>) -> bool
    decreases vs,
{
    vs.len() == 0 || (handles_ok_matrix(store, vs.drop_last()) && handles_ok(store, vs.last()@))
}

/// Each element of a valid handle list is valid.
pub proof fn lemma_handles_ok_all(store: ConfigStore, hs: Seq<SpawnNode>)
    requires
        handles_ok(store, hs),
    ensures
        forall|j: int| 0 <= j < hs.len() ==> #[trigger] handle_ok(store, hs[j]),
    decreases hs.len(),
{
    if hs.len() > 0 {
        lemma_handles_ok_all(store, hs.drop_last());
        assert forall|j: int| 0 <= j < hs.len() implies #[trigger] handle_ok(store, hs[j]) by {
            if j < hs.len() - 1 {
                assert(hs.drop_last()[j] == hs[j]);
            } else {
                assert(hs[j] == hs.last());
            }
        }
    }
}

/// Each list of a valid handle matrix is valid.
pub proof fn lemma_handles_ok_matrix_all(store: ConfigStore, vs: Seq<Vec<SpawnNode>>)
    requires
        handles_ok_matrix(store, vs),
    ensures
        forall|v: int| 0 <= v < vs.len() ==> #[trigger] handles_ok(store, vs[v]@),
    decreases vs.len(),
{
    if vs.len() > 0 {
        lemma_handles_ok_matrix_all(store, vs.drop_last());
        assert forall|v: int| 0 <= v < vs.len() implies #[trigger] handles_ok(store, vs[v]@) by {
            if v < vs.len() - 1 {
                assert(vs.drop_last()[v] == vs[v]);
            } else {
                assert(vs[v] == vs.last());
            }
        }
    }
}

/// Every node a handle addresses lies below index `n`.
pub open spec fn handle_below(h: SpawnNode, n: int) -> bool
    decreases h,
{
    match h {
        SpawnNode::Scalar(id) => id.0 < n,
        SpawnNode::Struct { node, fields } => node.0 < n && handles_below(fields@, n),
        SpawnNode::Enum { node, discrim, variants } => node.0 < n && discrim.0 < n
            && handles_below_matrix(variants@, n),
    }
}

/// Every node a handle list addresses lies below index `n`.
pub open spec fn handles_below(hs: Seq<SpawnNode>, n: int) -> bool
    decreases hs,
{
    hs.len() == 0 || (handles_below(hs.drop_last(), n) && handle_below(hs.last(), n))
}

/// Every node a handle matrix addresses lies below index `n`.
pub open spec fn handles_below_matrix(vs: Seq<Vec<SpawnNode>>, n: int) -> bool
    decreases vs,
{
    vs.len() == 0 || (handles_below_matrix(vs.drop_last(), n) && handles_below(vs.last()@, n))
}

/// The active-variant index a discriminant node currently holds.
pub open spec fn discrim_of(store: ConfigStore, id: NodeId) -> usize {
    store.nodes@[id.0 as int].scalar->Some_0.data.0->Discrim_0
}

/// Context information of a config field from its referrers: the path so far,
/// the parent node, and the relevance dependency, if any.
pub struct SpawnContext {
    /// The hierarchical path from the root config field.
    pub path: Vec<String>,
    /// The parent node of the config field, if any.
    pub parent: Option<NodeId>,
    /// The relevance dependency of the config field, if any.
    pub dependency: Option<ConditionalRelevance>,
}

impl SpawnContext {
    /// Appends a path component to this context; the joined context carries
    /// no relevance dependency of its own.
    pub fn join(&self, seg: String, parent: Option<NodeId>) -> (r: SpawnContext)
        ensures
            r.path.deep_view() == self.path.deep_view().push(seg@),
            r.parent == parent,
            r.dependency is None,
    {
        let mut path = clone_strings(&self.path);
        let ghost before = path.deep_view();
        path.push(seg);
        proof {
            assert(path.deep_view() =~= before.push(seg@));
        }
        SpawnContext { path, parent, dependency: None }
    }

    /// Adds a relevance dependency to this context.
    pub fn with_dependency(self, dependency: NodeId, required_variant: usize) -> (r: SpawnContext)
        ensures
            r.path == self.path,
            r.parent == self.parent,
            r.dependency == Some(ConditionalRelevance { dependency, required_variant }),
    {
        SpawnContext { dependency: Some(ConditionalRelevance { dependency, required_variant }), ..self }
    }
}


/// A valid handle's subtree-root node is in the store.
pub proof fn lemma_handle_ok_node(store: ConfigStore, h: SpawnNode)
    requires
        handle_ok(store, h),
    ensures
        store.contains(h.spec_node()),
{
    match h {
        SpawnNode::Scalar(_) => {},
        SpawnNode::Struct { .. } => {},
        SpawnNode::Enum { .. } => {},
    }
}
} // verus!
