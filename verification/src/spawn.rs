//! Spawning: materializes a schema into the node store, one node per scalar,
//! one node per composite, a discriminant node per enum, and a full subtree
//! for every enum variant, the inactive ones linked to the discriminant by a
//! relevance record.

use vstd::prelude::*;
use vstd::seq_lib::*;

use crate::manager::ManagerSet;
use crate::schema::{
    default_value, field_seg, handle_ok, handles_ok, handles_ok_matrix, same_meta, variant_seg_of,
    EnumVariant, Schema, SchemaField, ScalarMetadata, SpawnNode,
};
use crate::tree::{ConditionalRelevance, ConfigStore, Node, NodeId};

verus! {

/// What spawning `s` at `path` guarantees of the store: the handle addresses
/// freshly materialized nodes whose paths, metadata, initial values, relevance
/// links and manager records follow the schema.
pub open spec fn spawned(
    store: ConfigStore,
    h: SpawnNode,
    s: Schema,
    path: Seq<Seq<char>>,
    dep: Option<ConditionalRelevance>,
    managers: ManagerSet,
) -> bool
    decreases h,
{
    match (h, s) {
        (SpawnNode::Scalar(id), Schema::Scalar(m)) => {
            &&& store.contains(id)
            &&& spawned_node_record(store.nodes@[id.0 as int], path, dep)
            &&& store.nodes@[id.0 as int].scalar matches Some(sf) && same_meta(sf.metadata, m)
                && sf.data.0@ == default_value(m)
            &&& (store.nodes@[id.0 as int].serde_record is Some <==> managers.serde)
            &&& (store.nodes@[id.0 as int].draw_record is Some <==> managers.egui)
        },
        (SpawnNode::Struct { node, fields }, Schema::Struct(st)) => {
            &&& store.contains(node)
            &&& spawned_node_record(store.nodes@[node.0 as int], path, dep)
            &&& store.nodes@[node.0 as int].scalar is None
            &&& fields@.len() == st.fields@.len()
            &&& spawned_fields(store, fields@, st.fields@, path, None, None, managers)
        },
        (SpawnNode::Enum { node, discrim, variants }, Schema::Enum(e)) => {
            &&& store.contains(node)
            &&& spawned_node_record(store.nodes@[node.0 as int], path, dep)
            &&& store.nodes@[node.0 as int].scalar is None
            &&& store.contains(discrim)
            &&& spawned_node_record(
                store.nodes@[discrim.0 as int],
                path.push(discrim_seg()),
                None,
            )
            &&& store.nodes@[discrim.0 as int].scalar matches Some(sf) && sf.metadata matches ScalarMetadata::Discrim(dm) && dm.variants.deep_view() == variant_names(e.variants@)
                && dm.default == e.default && sf.data.0@ == (crate::tree::ConfigVal::Discrim(
                e.default,
            ))
            &&& (store.nodes@[discrim.0 as int].serde_record is Some <==> managers.serde)
            &&& (store.nodes@[discrim.0 as int].draw_record is Some <==> managers.egui)
            &&& variants@.len() == e.variants@.len()
            &&& spawned_variants(store, variants@, e.variants@, path, discrim, managers)
        },
        _ => false,
    }
}

/// The path segment of a discriminant node.
pub open spec fn discrim_seg() -> Seq<char> {
    "discrim"@
}

/// The names of a variant list, in order.
pub open spec fn variant_names(vs: Seq<EnumVariant>) -> Seq<Seq<char>> {
    Seq::new(vs.len(), |v: int| vs[v].name@)
}

/// The node record facts every spawned node satisfies: the given path, the
/// given relevance link, and the starting generation.
pub open spec fn spawned_node_record(
    n: Node,
    path: Seq<Seq<char>>,
    dep: Option<ConditionalRelevance>,
) -> bool {
    &&& n.node.path.deep_view() == path
    &&& n.node.generation.0 == 1
    &&& n.relevance == dep
}

/// `spawned`, over a list of sibling fields below `base`.
pub open spec fn spawned_fields(
    store: ConfigStore,
    hs: Seq<SpawnNode>,
    fs: Seq<SchemaField>,
    base: Seq<Seq<char>>,
    prefix: Option<Seq<char>>,
    dep: Option<ConditionalRelevance>,
    managers: ManagerSet,
) -> bool
    decreases hs,
{
    &&& hs.len() == fs.len()
    &&& (hs.len() == 0 || {
        &&& spawned_fields(store, hs.drop_last(), fs.drop_last(), base, prefix, dep, managers)
        &&& spawned(
            store,
            hs.last(),
            fs.last().schema,
            base.push(field_seg(prefix, fs.last().key@)),
            dep,
            managers,
        )
    })
}

/// `spawned`, over the variant handle lists of an enum: variant `v`'s fields
/// carry a relevance link to the discriminant requiring variant `v`.
pub open spec fn spawned_variants(
    store: ConfigStore,
    vss: Seq<Vec<SpawnNode>>,
    evs: Seq<EnumVariant>,
    base: Seq<Seq<char>>,
    discrim: NodeId,
    managers: ManagerSet,
) -> bool
    decreases vss,
{
    &&& vss.len() == evs.len()
    &&& (vss.len() == 0 || {
        &&& spawned_variants(store, vss.drop_last(), evs.drop_last(), base, discrim, managers)
        &&& spawned_fields(
            store,
            vss.last()@,
            evs.last().fields@,
            base,
            Some(evs.last().name@),
            Some(
                ConditionalRelevance {
                    dependency: discrim,
                    required_variant: (vss.len() - 1) as usize,
                },
            ),
            managers,
        )
    })
}

/// Whether `s2` carries the same nodes as `s1` below `n`, apart from child
/// lists and root markers, possibly with more nodes after them.
pub open spec fn store_extends(s1: ConfigStore, s2: ConfigStore, n: int) -> bool {
    &&& 0 <= n <= s1.nodes@.len()
    &&& s1.nodes@.len() <= s2.nodes@.len()
    &&& forall|j: int|
        0 <= j < n ==> {
            &&& (#[trigger] s2.nodes@[j]).node == s1.nodes@[j].node
            &&& s2.nodes@[j].scalar == s1.nodes@[j].scalar
            &&& s2.nodes@[j].relevance == s1.nodes@[j].relevance
            &&& s2.nodes@[j].serde_record == s1.nodes@[j].serde_record
            &&& s2.nodes@[j].draw_record == s1.nodes@[j].draw_record
        }
}

/// `spawned` facts survive a store extension that keeps the addressed nodes.
pub proof fn lemma_spawned_frame(
    s1: ConfigStore,
    s2: ConfigStore,
    h: SpawnNode,
    s: Schema,
    path: Seq<Seq<char>>,
    dep: Option<ConditionalRelevance>,
    managers: ManagerSet,
    n: int,
)
    requires
        spawned(s1, h, s, path, dep, managers),
        crate::schema::handle_below(h, n),
        store_extends(s1, s2, n),
    ensures
        spawned(s2, h, s, path, dep, managers),
    decreases h,
{
    match (h, s) {
        (SpawnNode::Scalar(id), Schema::Scalar(m)) => {},
        (SpawnNode::Struct { node, fields }, Schema::Struct(st)) => {
            lemma_spawned_fields_frame(
                s1,
                s2,
                fields@,
                st.fields@,
                path,
                None,
                None,
                managers,
                n,
            );
        },
        (SpawnNode::Enum { node, discrim, variants }, Schema::Enum(e)) => {
            lemma_spawned_variants_frame(s1, s2, variants@, e.variants@, path, discrim, managers, n);
        },
        _ => {},
    }
}

/// `spawned_fields` facts survive a store extension.
pub proof fn lemma_spawned_fields_frame(
    s1: ConfigStore,
    s2: ConfigStore,
    hs: Seq<SpawnNode>,
    fs: Seq<SchemaField>,
    base: Seq<Seq<char>>,
    prefix: Option<Seq<char>>,
    dep: Option<ConditionalRelevance>,
    managers: ManagerSet,
    n: int,
)
    requires
        spawned_fields(s1, hs, fs, base, prefix, dep, managers),
        crate::schema::handles_below(hs, n),
        store_extends(s1, s2, n),
    ensures
        spawned_fields(s2, hs, fs, base, prefix, dep, managers),
    decreases hs,
{
    if hs.len() > 0 {
        lemma_spawned_fields_frame(
            s1,
            s2,
            hs.drop_last(),
            fs.drop_last(),
            base,
            prefix,
            dep,
            managers,
            n,
        );
        lemma_spawned_frame(
            s1,
            s2,
            hs.last(),
            fs.last().schema,
            base.push(field_seg(prefix, fs.last().key@)),
            dep,
            managers,
            n,
        );
    }
}

/// `spawned_variants` facts survive a store extension.
pub proof fn lemma_spawned_variants_frame(
    s1: ConfigStore,
    s2: ConfigStore,
    vss: Seq<Vec<SpawnNode>>,
    evs: Seq<EnumVariant>,
    base: Seq<Seq<char>>,
    discrim: NodeId,
    managers: ManagerSet,
    n: int,
)
    requires
        spawned_variants(s1, vss, evs, base, discrim, managers),
        crate::schema::handles_below_matrix(vss, n),
        store_extends(s1, s2, n),
    ensures
        spawned_variants(s2, vss, evs, base, discrim, managers),
    decreases vss,
{
    if vss.len() > 0 {
        lemma_spawned_variants_frame(
            s1,
            s2,
            vss.drop_last(),
            evs.drop_last(),
            base,
            discrim,
            managers,
            n,
        );
        lemma_spawned_fields_frame(
            s1,
            s2,
            vss.last()@,
            evs.last().fields@,
            base,
            Some(evs.last().name@),
            Some(
                ConditionalRelevance {
                    dependency: discrim,
                    required_variant: (vss.len() - 1) as usize,
                },
            ),
            managers,
            n,
        );
    }
}

/// A spawned handle addresses nodes of the right shapes.
pub proof fn lemma_spawned_handle_ok(
    store: ConfigStore,
    h: SpawnNode,
    s: Schema,
    path: Seq<Seq<char>>,
    dep: Option<ConditionalRelevance>,
    managers: ManagerSet,
)
    requires
        spawned(store, h, s, path, dep, managers),
    ensures
        handle_ok(store, h),
    decreases h,
{
    match (h, s) {
        (SpawnNode::Scalar(id), Schema::Scalar(m)) => {},
        (SpawnNode::Struct { node, fields }, Schema::Struct(st)) => {
            lemma_spawned_fields_handles_ok(
                store,
                fields@,
                st.fields@,
                path,
                None,
                None,
                managers,
            );
        },
        (SpawnNode::Enum { node, discrim, variants }, Schema::Enum(e)) => {
            lemma_spawned_variants_handles_ok(store, variants@, e.variants@, path, discrim, managers);
            let dm = store.nodes@[discrim.0 as int].scalar->Some_0.metadata->Discrim_0;
            assert(dm.variants.deep_view().len() == dm.variants@.len());
            assert(variant_names(e.variants@).len() == e.variants@.len());
        },
        _ => {},
    }
}

/// A spawned handle list addresses nodes of the right shapes.
pub proof fn lemma_spawned_fields_handles_ok(
    store: ConfigStore,
    hs: Seq<SpawnNode>,
    fs: Seq<SchemaField>,
    base: Seq<Seq<char>>,
    prefix: Option<Seq<char>>,
    dep: Option<ConditionalRelevance>,
    managers: ManagerSet,
)
    requires
        spawned_fields(store, hs, fs, base, prefix, dep, managers),
    ensures
        handles_ok(store, hs),
    decreases hs,
{
    if hs.len() > 0 {
        lemma_spawned_fields_handles_ok(
            store,
            hs.drop_last(),
            fs.drop_last(),
            base,
            prefix,
            dep,
            managers,
        );
        lemma_spawned_handle_ok(
            store,
            hs.last(),
            fs.last().schema,
            base.push(field_seg(prefix, fs.last().key@)),
            dep,
            managers,
        );
    }
}

/// A spawned handle matrix addresses nodes of the right shapes.
pub proof fn lemma_spawned_variants_handles_ok(
    store: ConfigStore,
    vss: Seq<Vec<SpawnNode>>,
    evs: Seq<EnumVariant>,
    base: Seq<Seq<char>>,
    discrim: NodeId,
    managers: ManagerSet,
)
    requires
        spawned_variants(store, vss, evs, base, discrim, managers),
    ensures
        handles_ok_matrix(store, vss),
    decreases vss,
{
    if vss.len() > 0 {
        lemma_spawned_variants_handles_ok(
            store,
            vss.drop_last(),
            evs.drop_last(),
            base,
            discrim,
            managers,
        );
        lemma_spawned_fields_handles_ok(
            store,
            vss.last()@,
            evs.last().fields@,
            base,
            Some(evs.last().name@),
            Some(
                ConditionalRelevance {
                    dependency: discrim,
                    required_variant: (vss.len() - 1) as usize,
                },
            ),
            managers,
        );
    }
}

/// A bound on handle nodes stays a bound when the store only grows.
pub proof fn lemma_handle_below_mono(h: SpawnNode, n1: int, n2: int)
    requires
        crate::schema::handle_below(h, n1),
        n1 <= n2,
    ensures
        crate::schema::handle_below(h, n2),
    decreases h,
{
    match h {
        SpawnNode::Scalar(_) => {},
        SpawnNode::Struct { node, fields } => {
            lemma_handles_below_mono(fields@, n1, n2);
        },
        SpawnNode::Enum { node, discrim, variants } => {
            lemma_handles_below_matrix_mono(variants@, n1, n2);
        },
    }
}

/// A bound on a handle list stays a bound when the store only grows.
pub proof fn lemma_handles_below_mono(hs: Seq<SpawnNode>, n1: int, n2: int)
    requires
        crate::schema::handles_below(hs, n1),
        n1 <= n2,
    ensures
        crate::schema::handles_below(hs, n2),
    decreases hs,
{
    if hs.len() > 0 {
        lemma_handles_below_mono(hs.drop_last(), n1, n2);
        lemma_handle_below_mono(hs.last(), n1, n2);
    }
}

/// A bound on a handle matrix stays a bound when the store only grows.
pub proof fn lemma_handles_below_matrix_mono(vs: Seq<Vec<SpawnNode>>, n1: int, n2: int)
    requires
        crate::schema::handles_below_matrix(vs, n1),
        n1 <= n2,
    ensures
        crate::schema::handles_below_matrix(vs, n2),
    decreases vs,
{
    if vs.len() > 0 {
        lemma_handles_below_matrix_mono(vs.drop_last(), n1, n2);
        lemma_handles_below_mono(vs.last()@, n1, n2);
    }
}

/// No path of the store extends (or equals) `p`.
pub open spec fn subtree_fresh(nodes: Seq<Node>, p: Seq<Seq<char>>) -> bool {
    forall|j: int|
        0 <= j < nodes.len() ==> !p.is_prefix_of((#[trigger] nodes[j]).node.path.deep_view())
}

/// No path of the store extends any child path `base ++ [seg(field)]`.
pub open spec fn children_fresh(
    nodes: Seq<Node>,
    base: Seq<Seq<char>>,
    prefix: Option<Seq<char>>,
    fs: Seq<SchemaField>,
) -> bool {
    forall|j: int, m: int|
        #![trigger nodes[j], fs[m]]
        0 <= j < nodes.len() && 0 <= m < fs.len() ==> !(base.push(
            field_seg(prefix, fs[m].key@),
        )).is_prefix_of(nodes[j].node.path.deep_view())
}

/// No path of the store extends any variant-field path of the variants in
/// `vs`.
pub open spec fn variants_fresh(
    nodes: Seq<Node>,
    base: Seq<Seq<char>>,
    vs: Seq<EnumVariant>,
) -> bool {
    forall|j: int, w: int, m: int|
        #![trigger nodes[j], vs[w].fields@[m]]
        0 <= j < nodes.len() && 0 <= w < vs.len() && 0 <= m < vs[w].fields@.len() ==> !(base.push(
            variant_seg_of(vs[w].name@, vs[w].fields@[m].key@),
        )).is_prefix_of(nodes[j].node.path.deep_view())
}

/// A sequence is a prefix of itself extended.
proof fn lemma_prefix_of_push(p: Seq<Seq<char>>, s: Seq<char>)
    ensures
        p.is_prefix_of(p.push(s)),
{
    assert(p =~= p.push(s).subrange(0, p.len() as int));
}

/// Prefixes chain.
proof fn lemma_prefix_trans(a: Seq<Seq<char>>, b: Seq<Seq<char>>, c: Seq<Seq<char>>)
    requires
        a.is_prefix_of(b),
        b.is_prefix_of(c),
    ensures
        a.is_prefix_of(c),
{
    assert forall|i: int| 0 <= i < a.len() implies a[i] == c[i] by {
        assert(a[i] == b.subrange(0, a.len() as int)[i]);
        assert(b[i] == c.subrange(0, b.len() as int)[i]);
    }
    assert(a =~= c.subrange(0, a.len() as int));
}

/// Extensions of the same base by different segments cannot prefix the same
/// path.
proof fn lemma_push_prefix_differs(
    base: Seq<Seq<char>>,
    s1: Seq<char>,
    s2: Seq<char>,
    q: Seq<Seq<char>>,
)
    requires
        (base.push(s1)).is_prefix_of(q),
        s1 != s2,
    ensures
        !(base.push(s2)).is_prefix_of(q),
{
    assert(q[base.len() as int] == base.push(s1).subrange(0, base.len() as int + 1)[base.len() as int]);
    assert(base.push(s1)[base.len() as int] == s1);
    assert(q[base.len() as int] == s1) by {
        assert(base.push(s1)[base.len() as int] == q.subrange(0, base.len() as int + 1)[base.len() as int]);
    }
    if (base.push(s2)).is_prefix_of(q) {
        assert(base.push(s2)[base.len() as int] == q.subrange(0, base.len() as int + 1)[base.len() as int]);
        assert(q[base.len() as int] == s2);
    }
}

/// A variant segment is never equal to a colon-free segment.
proof fn lemma_variant_seg_ne_plain(n: Seq<char>, k: Seq<char>, t: Seq<char>)
    requires
        !t.contains(':'),
    ensures
        variant_seg_of(n, k) != t,
{
    let s = variant_seg_of(n, k);
    assert(s[n.len() as int] == ':');
    assert(s.contains(':'));
}

/// Variant segments of the same variant differ when the keys differ.
proof fn lemma_variant_seg_ne_key(n: Seq<char>, k1: Seq<char>, k2: Seq<char>)
    requires
        k1 != k2,
    ensures
        variant_seg_of(n, k1) != variant_seg_of(n, k2),
{
    let s1 = variant_seg_of(n, k1);
    let s2 = variant_seg_of(n, k2);
    if s1 == s2 {
        assert(s1.len() == n.len() + 1 + k1.len());
        assert(s2.len() == n.len() + 1 + k2.len());
        assert(k1.len() == k2.len());
        assert forall|i: int| 0 <= i < k1.len() implies k1[i] == k2[i] by {
            assert(s1[n.len() + 1 + i] == k1[i]);
            assert(s2[n.len() + 1 + i] == k2[i]);
        }
        assert(k1 =~= k2);
    }
}

/// Variant segments of variants with different colon-free names differ.
proof fn lemma_variant_seg_ne_name(n1: Seq<char>, k1: Seq<char>, n2: Seq<char>, k2: Seq<char>)
    requires
        n1 != n2,
        !n1.contains(':'),
        !n2.contains(':'),
    ensures
        variant_seg_of(n1, k1) != variant_seg_of(n2, k2),
{
    let s1 = variant_seg_of(n1, k1);
    let s2 = variant_seg_of(n2, k2);
    if s1 == s2 {
        if n1.len() == n2.len() {
            assert forall|i: int| 0 <= i < n1.len() implies n1[i] == n2[i] by {
                assert(s1[i] == n1[i]);
                assert(s2[i] == n2[i]);
            }
            assert(n1 =~= n2);
        } else if n1.len() < n2.len() {
            assert(s1[n1.len() as int] == ':');
            assert(s2[n1.len() as int] == n2[n1.len() as int]);
            assert(n2.contains(':'));
        } else {
            assert(s2[n2.len() as int] == ':');
            assert(s1[n2.len() as int] == n1[n2.len() as int]);
            assert(n1.contains(':'));
        }
    }
}

/// A default value has the shape its metadata prescribes.
proof fn lemma_value_matches_default(m: ScalarMetadata, v: crate::tree::ConfigValue)
    requires
        v@ == default_value(m),
        crate::tree::meta_ok(m),
    ensures
        crate::tree::value_matches(m, v),
{
    match m {
        ScalarMetadata::Numeric(_) => {
            match v {
                crate::tree::ConfigValue::Int(_) => {},
                _ => {
                    assert(false);
                },
            }
        },
        ScalarMetadata::Number(_) => {
            match v {
                crate::tree::ConfigValue::Num(_) => {},
                _ => {
                    assert(false);
                },
            }
        },
        ScalarMetadata::Str(_) => {
            match v {
                crate::tree::ConfigValue::Text(_) => {},
                _ => {
                    assert(false);
                },
            }
        },
        ScalarMetadata::Flag(_) => {
            match v {
                crate::tree::ConfigValue::Bool(_) => {},
                _ => {
                    assert(false);
                },
            }
        },
        ScalarMetadata::Discrim(dm) => {
            match v {
                crate::tree::ConfigValue::Discrim(d) => {
                    assert(d == dm.default);
                },
                _ => {
                    assert(false);
                },
            }
        },
    }
}

/// The discriminant segment is a valid, colon-free path segment.
proof fn lemma_discrim_seg_ok()
    ensures
        crate::tree::seg_ok(discrim_seg()),
        !discrim_seg().contains(':'),
{
    reveal_strlit("discrim");
    let s = discrim_seg();
    assert(s.len() == 7);
    assert forall|i: int| 0 <= i < 7 implies s[i] != '.' && s[i] != ':' by {
        if i == 0 {
            assert(s[0] == 'd');
        } else if i == 1 {
            assert(s[1] == 'i');
        } else if i == 2 {
            assert(s[2] == 's');
        } else if i == 3 {
            assert(s[3] == 'c');
        } else if i == 4 {
            assert(s[4] == 'r');
        } else if i == 5 {
            assert(s[5] == 'i');
        } else {
            assert(s[6] == 'm');
        }
    }
}

/// A variant segment is a valid path segment.
proof fn lemma_variant_seg_ok(n: Seq<char>, k: Seq<char>)
    requires
        crate::tree::seg_ok(n),
        crate::tree::seg_ok(k),
    ensures
        crate::tree::seg_ok(variant_seg_of(n, k)),
{
    let s = variant_seg_of(n, k);
    assert(s.len() > 0);
    if s.contains('.') {
        let i = choose|i: int| 0 <= i < s.len() && s[i] == '.';
        if i < n.len() {
            assert(s[i] == n[i]);
            assert(n.contains('.'));
        } else if i == n.len() {
            assert(s[i] == ':');
        } else {
            assert(s[i] == k[i - n.len() - 1]);
            assert(k.contains('.'));
        }
    }
}


/// Spawns one subtree per field below `base`, each field's path extending
/// `base` by its segment, every subtree a child of `parent`, all carrying the
/// given relevance dependency.
fn spawn_field_list(
    store: &mut ConfigStore,
    base: &Vec<String>,
    parent: NodeId,
    prefix: Option<&String>,
    dep: Option<ConditionalRelevance>,
    fields: &Vec<SchemaField>,
    managers: ManagerSet,
) -> (hs: Vec<SpawnNode>)
    requires
        old(store).wf(),
        crate::tree::path_ok(base.deep_view()),
        crate::schema::keys_distinct(fields@),
        crate::schema::fields_wf(fields@),
        (match prefix {
            Some(p) => crate::tree::seg_ok(p@) && !p@.contains(':'),
            None => true,
        }),
        parent.0 < old(store).nodes@.len(),
        dep matches Some(r) ==> crate::tree::is_discrim_node(
            old(store).nodes@,
            r.dependency.0 as int,
        ),
        children_fresh(old(store).nodes@, base.deep_view(), prefix_view(prefix), fields@),
        old(store).nodes@.len() + crate::schema::fields_count(fields@) <= usize::MAX,
    ensures
        final(store).wf(),
        final(store).nodes@.len() == old(store).nodes@.len() + crate::schema::fields_count(
            fields@,
        ),
        forall|j: int|
            0 <= j < old(store).nodes@.len() && j != parent.0 ==> final(store).nodes@[j] == old(store).nodes@[j],
        final(store).nodes@[parent.0 as int] == (Node {
            children: final(store).nodes@[parent.0 as int].children,
            ..old(store).nodes@[parent.0 as int]
        }),
        spawned_fields(
            *final(store),
            hs@,
            fields@,
            base.deep_view(),
            prefix_view(prefix),
            dep,
            managers,
        ),
        crate::schema::handles_below(hs@, final(store).nodes@.len() as int),
        forall|j: int|
            old(store).nodes@.len() <= j < final(store).nodes@.len() ==> exists|m: int|
                0 <= m < fields@.len() && (base.deep_view().push(
                    field_seg(prefix_view(prefix), fields@[m].key@),
                )).is_prefix_of(
                    (#[trigger] final(store).nodes@[j]).node.path.deep_view(),
                ),
    decreases *fields,
{
    let ghost len0 = old(store).nodes@.len() as int;
    let ghost basev = base.deep_view();
    let ghost pv = prefix_view(prefix);
    let mut hs: Vec<SpawnNode> = Vec::new();
    let mut k: usize = 0;
    proof {
        assert(fields@.skip(0) =~= fields@);
        crate::schema::lemma_fields_wf_all(fields@);
    }
    while k < fields.len()
        invariant
            store.wf(),
            0 <= k <= fields@.len(),
            hs@.len() == k,
            basev == base.deep_view(),
            pv == prefix_view(prefix),
            crate::tree::path_ok(basev),
            crate::schema::keys_distinct(fields@),
            crate::schema::fields_wf(fields@),
            forall|i: int|
                0 <= i < fields@.len() ==> crate::tree::seg_ok((#[trigger] fields@[i]).key@)
                    && crate::schema::schema_wf(fields@[i].schema),
            (match prefix {
                Some(p) => crate::tree::seg_ok(p@) && !p@.contains(':'),
                None => true,
            }),
            parent.0 < len0,
            len0 <= store.nodes@.len(),
            dep matches Some(r) ==> crate::tree::is_discrim_node(
                store.nodes@,
                r.dependency.0 as int,
            ),
            store.nodes@.len() + crate::schema::fields_count(fields@.skip(k as int)) == len0
                + crate::schema::fields_count(fields@),
            len0 + crate::schema::fields_count(fields@) <= usize::MAX,
            forall|j: int|
                0 <= j < len0 && j != parent.0 ==> store.nodes@[j] == old(store).nodes@[j],
            store.nodes@[parent.0 as int] == (Node {
                children: store.nodes@[parent.0 as int].children,
                ..old(store).nodes@[parent.0 as int]
            }),
            spawned_fields(*store, hs@, fields@.take(k as int), basev, pv, dep, managers),
            crate::schema::handles_below(hs@, store.nodes@.len() as int),
            children_fresh(store.nodes@, basev, pv, fields@.skip(k as int)),
            forall|j: int|
                len0 <= j < store.nodes@.len() ==> exists|m: int|
                    0 <= m < k && (basev.push(
                        field_seg(pv, fields@[m].key@),
                    )).is_prefix_of((#[trigger] store.nodes@[j]).node.path.deep_view()),
        decreases fields@.len() - k,
    {
        let ghost prev = *store;
        let ghost seg_spec = field_seg(pv, fields@[k as int].key@);
        let f = &fields[k];
        let seg: String = match prefix {
            Some(p) => crate::strutil::variant_seg(p.as_str(), f.key.as_str()),
            None => f.key.clone(),
        };
        proof {
            assert(seg@ == seg_spec);
            match prefix {
                Some(p) => {
                    lemma_variant_seg_ok(p@, fields@[k as int].key@);
                },
                None => {},
            }
            assert(crate::tree::seg_ok(seg_spec));
        }
        let mut cpath = crate::strutil::clone_strings(base);
        let ghost before_push = cpath.deep_view();
        cpath.push(seg);
        proof {
            assert(cpath.deep_view() =~= basev.push(seg_spec));
            assert forall|i: int| 0 <= i < cpath.deep_view().len() implies crate::tree::seg_ok(
                #[trigger] cpath.deep_view()[i],
            ) by {
                if i < basev.len() {
                    assert(cpath.deep_view()[i] == basev[i]);
                } else {
                    assert(cpath.deep_view()[i] == seg_spec);
                }
            }
            assert(crate::tree::path_ok(cpath.deep_view()));
            // freshness of the child path, from the remaining-fields freshness
            assert(fields@.skip(k as int)[0] == fields@[k as int]);
            assert forall|j: int| 0 <= j < store.nodes@.len() implies !(basev.push(
                seg_spec,
            )).is_prefix_of((#[trigger] store.nodes@[j]).node.path.deep_view()) by {
                assert(store.nodes@[j] == store.nodes@[j]);
                assert(fields@.skip(k as int)[0] == fields@[k as int]);
            }
            assert(subtree_fresh(store.nodes@, cpath.deep_view()));
            crate::schema::lemma_fields_count_skip(fields@, k as int);
            assert(decreases_to!(*fields => fields@));
            assert(decreases_to!(fields@ => fields@[k as int]));
        }
        let child_ctx = crate::schema::SpawnContext {
            path: cpath,
            parent: Some(parent),
            dependency: dep,
        };
        let sub = spawn(store, child_ctx, &f.schema, managers);
        proof {
            assert(prev.nodes@.len() < store.nodes@.len());
        }
        let ghost hs_old = hs@;
        hs.push(sub);
        proof {
            let now = *store;
            let prev_len = prev.nodes@.len() as int;
            assert(hs@ == hs_old.push(sub));
            assert(hs@.drop_last() =~= hs_old);
            // the store extends the previous one on everything the spawned
            // facts read
            assert(store_extends(prev, now, prev_len));
            // earlier siblings keep their spawned facts
            lemma_spawned_fields_frame(
                prev,
                now,
                hs_old,
                fields@.take(k as int),
                basev,
                pv,
                dep,
                managers,
                prev_len,
            );
            assert(fields@.take(k + 1).drop_last() =~= fields@.take(k as int));
            assert(fields@.take(k + 1).last() == fields@[k as int]);
            assert(hs@.last() == sub);
            assert(spawned_fields(now, hs@, fields@.take(k + 1), basev, pv, dep, managers));
            // bounds
            lemma_handles_below_mono(hs_old, prev_len, now.nodes@.len() as int);
            assert(crate::schema::handles_below(hs@, now.nodes@.len() as int));
            // count bookkeeping
            crate::schema::lemma_fields_count_skip(fields@, k as int);
            // dependency node is untouched
            if dep is Some {
                let d = dep->Some_0.dependency.0 as int;
                assert(now.nodes@[d].scalar == prev.nodes@[d].scalar);
            }
            // freshness of the remaining fields
            assert forall|j: int, m: int|
                #![trigger now.nodes@[j], fields@.skip(k + 1)[m]]
                0 <= j < now.nodes@.len() && 0 <= m < fields@.skip(k + 1).len() implies !(
            basev.push(
                field_seg(pv, fields@.skip(k + 1)[m].key@),
            )).is_prefix_of(now.nodes@[j].node.path.deep_view()) by {
                let fm = fields@.skip(k + 1)[m];
                assert(fm == fields@[k + 1 + m]);
                let segm = field_seg(pv, fm.key@);
                assert(fields@[k as int].key@ != fields@[k + 1 + m].key@);
                assert(seg_spec != segm) by {
                    match pv {
                        Some(n) => {
                            lemma_variant_seg_ne_key(
                                n,
                                fields@[k as int].key@,
                                fields@[k + 1 + m].key@,
                            );
                        },
                        None => {},
                    }
                }
                if j < prev_len {
                    assert(fields@.skip(k as int)[m + 1] == fields@[k + 1 + m]);
                    assert(prev.nodes@[j] == prev.nodes@[j]);
                    assert(now.nodes@[j].node == prev.nodes@[j].node);
                } else {
                    assert(cpath.deep_view().is_prefix_of(now.nodes@[j].node.path.deep_view()));
                    lemma_push_prefix_differs(
                        basev,
                        seg_spec,
                        segm,
                        now.nodes@[j].node.path.deep_view(),
                    );
                }
            }
            // coverage of the new nodes
            assert forall|j: int| len0 <= j < now.nodes@.len() implies exists|m: int|
                0 <= m < k + 1 && (basev.push(
                    field_seg(pv, fields@[m].key@),
                )).is_prefix_of((#[trigger] now.nodes@[j]).node.path.deep_view()) by {
                if j < prev_len {
                    assert(now.nodes@[j].node == prev.nodes@[j].node);
                    let m = choose|m: int|
                        0 <= m < k && (basev.push(
                            field_seg(pv, fields@[m].key@),
                        )).is_prefix_of(prev.nodes@[j].node.path.deep_view());
                    assert((basev.push(field_seg(pv, fields@[m].key@))).is_prefix_of(
                        now.nodes@[j].node.path.deep_view(),
                    ));
                } else {
                    assert(cpath.deep_view().is_prefix_of(now.nodes@[j].node.path.deep_view()));
                    assert((basev.push(field_seg(pv, fields@[k as int].key@))).is_prefix_of(
                        now.nodes@[j].node.path.deep_view(),
                    ));
                }
            }
        }
        k = k + 1;
    }
    proof {
        assert(fields@.take(fields@.len() as int) =~= fields@);
        assert(fields@.skip(fields@.len() as int) =~= Seq::<SchemaField>::empty());
    }
    hs
}

/// The view of an optional segment prefix.
pub open spec fn prefix_view(prefix: Option<&String>) -> Option<Seq<char>> {
    match prefix {
        Some(p) => Some(p@),
        None => None,
    }
}


/// Copies the variant names of an enum schema for the discriminant metadata.
fn clone_names(vs: &Vec<EnumVariant>) -> (r: Vec<String>)
    ensures
        r.deep_view() == variant_names(vs@),
{
    let mut r: Vec<String> = Vec::new();
    let mut i: usize = 0;
    while i < vs.len()
        invariant
            0 <= i <= vs@.len(),
            r.deep_view() =~= variant_names(vs@).take(i as int),
        decreases vs@.len() - i,
    {
        let x = vs[i].name.clone();
        let ghost prev = r@;
        let ghost prevdv = r.deep_view();
        r.push(x);
        proof {
            assert(variant_names(vs@).len() == vs@.len());
            assert(prevdv.len() == prev.len());
            assert(prev.len() == i);
            assert(r@ == prev.push(x));
            assert forall|j: int| 0 <= j < r@.len() implies r.deep_view()[j] == variant_names(
                vs@,
            ).take(i + 1)[j] by {
                assert(r.deep_view()[j] == r@[j]@);
                if j < i {
                    assert(r@[j] == prev[j]);
                    assert(prevdv[j] == prev[j]@);
                    assert(prevdv[j] == variant_names(vs@).take(i as int)[j]);
                } else {
                    assert(r@[j] == x);
                    assert(x@ == vs@[i as int].name@);
                    assert(variant_names(vs@)[i as int] == vs@[i as int].name@);
                }
            }
            assert(r.deep_view() =~= variant_names(vs@).take(i + 1));
        }
        i = i + 1;
    }
    proof {
        assert(variant_names(vs@).take(vs@.len() as int) =~= variant_names(vs@));
    }
    r
}

/// Spawns the subtree for `schema` at `ctx.path`: one node per scalar and
/// composite, a discriminant node per enum, and a full subtree for every
/// variant.  Scalar nodes start at their metadata defaults with the active
/// managers' records attached; variant subtree roots carry a relevance link
/// to their discriminant.
pub fn spawn(
    store: &mut ConfigStore,
    ctx: crate::schema::SpawnContext,
    schema: &Schema,
    managers: ManagerSet,
) -> (h: SpawnNode)
    requires
        old(store).wf(),
        crate::schema::schema_wf(*schema),
        crate::tree::path_ok(ctx.path.deep_view()),
        subtree_fresh(old(store).nodes@, ctx.path.deep_view()),
        ctx.parent matches Some(p) ==> p.0 < old(store).nodes@.len(),
        ctx.dependency matches Some(r) ==> crate::tree::is_discrim_node(
            old(store).nodes@,
            r.dependency.0 as int,
        ),
        old(store).nodes@.len() + crate::schema::node_count(*schema) <= usize::MAX,
    ensures
        final(store).wf(),
        final(store).nodes@.len() == old(store).nodes@.len() + crate::schema::node_count(*schema),
        forall|j: int|
            0 <= j < old(store).nodes@.len() && Some(NodeId(j as usize)) != ctx.parent ==> final(store).nodes@[j] == old(store).nodes@[j],
        ctx.parent matches Some(p) ==> final(store).nodes@[p.0 as int].children.0@ == old(store).nodes@[p.0 as int].children.0@.push(NodeId(old(store).nodes@.len() as usize)) && (final(store).nodes@[p.0 as int] == (Node {
            children: final(store).nodes@[p.0 as int].children,
            ..old(store).nodes@[p.0 as int]
        })),
        spawned(*final(store), h, *schema, ctx.path.deep_view(), ctx.dependency, managers),
        handle_ok(*final(store), h),
        crate::schema::handle_below(h, final(store).nodes@.len() as int),
        h.spec_node() == NodeId(old(store).nodes@.len() as usize),
        forall|j: int|
            old(store).nodes@.len() <= j < final(store).nodes@.len()
                ==> ctx.path.deep_view().is_prefix_of(
                (#[trigger] final(store).nodes@[j]).node.path.deep_view(),
            ),
    decreases *schema,
{
    let ghost len0 = old(store).nodes@.len() as int;
    let ghost pathv = ctx.path.deep_view();
    proof {
        // a path equal to an existing one would be a prefix of it
        assert forall|j: int| 0 <= j < store.nodes@.len() implies (
        #[trigger] store.nodes@[j]).node.path.deep_view() != pathv by {
            if store.nodes@[j].node.path.deep_view() == pathv {
                assert(pathv =~= store.nodes@[j].node.path.deep_view().subrange(
                    0,
                    pathv.len() as int,
                ));
            }
        }
        assert(pathv.is_prefix_of(pathv)) by {
            assert(pathv =~= pathv.subrange(0, pathv.len() as int));
        }
    }
    match schema {
        Schema::Scalar(m) => {
            let (serde_r, draw_r) = managers.new_entity();
            let value = m.default_of();
            let meta = m.duplicate();
            proof {
                crate::schema::lemma_same_meta(meta, *m);
                crate::schema::lemma_same_meta(*m, meta);
                lemma_value_matches_default(meta, value);
                assert(crate::tree::scalar_ok(
                    crate::tree::ScalarField {
                        data: crate::tree::ScalarData(value),
                        metadata: meta,
                    },
                ));
            }
            let id = store.create(
                ctx.path,
                ctx.parent,
                ctx.dependency,
                Some(
                    crate::tree::ScalarField {
                        data: crate::tree::ScalarData(value),
                        metadata: meta,
                    },
                ),
                serde_r,
                draw_r,
            );
            let h = SpawnNode::Scalar(id);
            proof {
                assert(spawned(*store, h, *schema, pathv, ctx.dependency, managers));
            }
            h
        },
        Schema::Struct(st) => {
            let base = crate::strutil::clone_strings(&ctx.path);
            let node = store.create(ctx.path, ctx.parent, ctx.dependency, None, None, None, );
            proof {
                assert(decreases_to!(*schema => (*schema)->Struct_0));
                assert(decreases_to!((*schema)->Struct_0 => (*schema)->Struct_0.fields));
                // freshness for every child path
                assert forall|j: int, m: int|
                    #![trigger store.nodes@[j], st.fields@[m]]
                    0 <= j < store.nodes@.len() && 0 <= m < st.fields@.len() implies !(
                pathv.push(
                    field_seg(None, st.fields@[m].key@),
                )).is_prefix_of(store.nodes@[j].node.path.deep_view()) by {
                    let q = store.nodes@[j].node.path.deep_view();
                    if j < len0 {
                        lemma_prefix_of_push(pathv, field_seg(None, st.fields@[m].key@));
                        if (pathv.push(field_seg(None, st.fields@[m].key@))).is_prefix_of(q) {
                            lemma_prefix_trans(
                                pathv,
                                pathv.push(field_seg(None, st.fields@[m].key@)),
                                q,
                            );
                        }
                    } else {
                        assert(q == pathv);
                    }
                }
                assert(children_fresh(store.nodes@, base.deep_view(), None, st.fields@));
            }
            let handles = spawn_field_list(store, &base, node, None, None, &st.fields, managers);
            let h = SpawnNode::Struct { node, fields: handles };
            proof {
                let fin = *store;
                assert(fin.nodes@[node.0 as int].node == (crate::tree::ConfigNode {
                    path: fin.nodes@[node.0 as int].node.path,
                    generation: crate::FieldGeneration(1),
                }));
                assert(spawned_node_record(fin.nodes@[node.0 as int], pathv, ctx.dependency));
                assert(spawned(fin, h, *schema, pathv, ctx.dependency, managers));
                lemma_spawned_handle_ok(fin, h, *schema, pathv, ctx.dependency, managers);
                assert(node.0 < fin.nodes@.len());
                // every new node's path extends the context path
                assert forall|j: int| len0 <= j < fin.nodes@.len() implies pathv.is_prefix_of(
                    (#[trigger] fin.nodes@[j]).node.path.deep_view(),
                ) by {
                    if j == len0 {
                        assert(fin.nodes@[j].node.path.deep_view() == pathv);
                    } else {
                        let m = choose|m: int|
                            0 <= m < st.fields@.len() && (base.deep_view().push(
                                field_seg(None, st.fields@[m].key@),
                            )).is_prefix_of(fin.nodes@[j].node.path.deep_view());
                        lemma_prefix_of_push(pathv, field_seg(None, st.fields@[m].key@));
                        lemma_prefix_trans(
                            pathv,
                            pathv.push(field_seg(None, st.fields@[m].key@)),
                            fin.nodes@[j].node.path.deep_view(),
                        );
                    }
                }
            }
            h
        },
        Schema::Enum(e) => {
            let base = crate::strutil::clone_strings(&ctx.path);
            let node = store.create(ctx.path, ctx.parent, ctx.dependency, None, None, None, );
            // the discriminant node
            let mut dpath = crate::strutil::clone_strings(&base);
            let dseg = <String as vstd::string::StringExecFns>::from_str("discrim");
            proof {
                lemma_discrim_seg_ok();
                assert(dseg@ == discrim_seg());
            }
            dpath.push(dseg);
            let names = clone_names(&e.variants);
            let dm = crate::schema::DiscrimMetadata { variants: names, default: e.default };
            let dmeta = ScalarMetadata::Discrim(dm);
            let (serde_r, draw_r) = managers.new_entity();
            proof {
                let dpv = dpath.deep_view();
                assert(dpv =~= pathv.push(discrim_seg()));
                assert forall|i: int| 0 <= i < dpv.len() implies crate::tree::seg_ok(
                    #[trigger] dpv[i],
                ) by {
                    if i < pathv.len() {
                        assert(dpv[i] == pathv[i]);
                    } else {
                        assert(dpv[i] == discrim_seg());
                    }
                }
                assert(crate::tree::path_ok(dpv));
                // discriminant metadata is well-formed
                let nv = dmeta->Discrim_0.variants;
                assert(nv.deep_view() == variant_names(e.variants@));
                assert(nv.deep_view().len() == nv@.len());
                assert forall|i: int| 0 <= i < nv@.len() implies crate::tree::seg_ok(
                    (#[trigger] nv@[i])@,
                ) by {
                    assert(nv.deep_view()[i] == nv@[i]@);
                    assert(nv@[i]@ == variant_names(e.variants@)[i]);
                    assert(variant_names(e.variants@)[i] == e.variants@[i].name@);
                }
                assert forall|i: int, j: int| 0 <= i < j < nv@.len() implies nv@[i]@ != nv@[j]@ by {
                    assert(nv.deep_view()[i] == nv@[i]@);
                    assert(nv.deep_view()[j] == nv@[j]@);
                    assert(nv@[i]@ == e.variants@[i].name@);
                    assert(nv@[j]@ == e.variants@[j].name@);
                }
                assert(crate::tree::meta_ok(dmeta));
                assert(crate::tree::value_matches(
                    dmeta,
                    crate::tree::ConfigValue::Discrim(e.default),
                ));
                // freshness of the discriminant path
                assert forall|j: int| 0 <= j < store.nodes@.len() implies (
                #[trigger] store.nodes@[j]).node.path.deep_view() != dpv by {
                    let q = store.nodes@[j].node.path.deep_view();
                    if j < len0 {
                        if q == dpv {
                            lemma_prefix_of_push(pathv, discrim_seg());
                            assert(dpv.is_prefix_of(q)) by {
                                assert(dpv =~= q.subrange(0, dpv.len() as int));
                            }
                            lemma_prefix_trans(pathv, dpv, q);
                        }
                    } else {
                        assert(q == pathv);
                    }
                }
            }
            let did = store.create(
                dpath,
                Some(node),
                None,
                Some(
                    crate::tree::ScalarField {
                        data: crate::tree::ScalarData(
                            crate::tree::ConfigValue::Discrim(e.default),
                        ),
                        metadata: dmeta,
                    },
                ),
                serde_r,
                draw_r,
            );
            let ghost len2 = store.nodes@.len() as int;
            proof {
                assert(len2 == len0 + 2);
                assert(crate::tree::is_discrim_node(store.nodes@, did.0 as int));
                // all variant-field paths are fresh
                assert forall|j: int, w: int, m: int|
                    #![trigger store.nodes@[j], e.variants@[w].fields@[m]]
                    0 <= j < store.nodes@.len() && 0 <= w < e.variants@.len() && 0 <= m
                    < e.variants@[w].fields@.len() implies !(pathv.push(
                    variant_seg_of(e.variants@[w].name@, e.variants@[w].fields@[m].key@),
                )).is_prefix_of(store.nodes@[j].node.path.deep_view()) by {
                    let sg = variant_seg_of(e.variants@[w].name@, e.variants@[w].fields@[m].key@);
                    let q = store.nodes@[j].node.path.deep_view();
                    if j < len0 {
                        lemma_prefix_of_push(pathv, sg);
                        if (pathv.push(sg)).is_prefix_of(q) {
                            lemma_prefix_trans(pathv, pathv.push(sg), q);
                        }
                    } else if j == len0 {
                        assert(q == pathv);
                    } else {
                        assert(q == pathv.push(discrim_seg()));
                        lemma_discrim_seg_ok();
                        lemma_variant_seg_ne_plain(
                            e.variants@[w].name@,
                            e.variants@[w].fields@[m].key@,
                            discrim_seg(),
                        );
                        lemma_push_prefix_differs(pathv, discrim_seg(), sg, q);
                    }
                }
                assert(variants_fresh(store.nodes@, pathv, e.variants@.skip(0)));
                assert(e.variants@.skip(0) =~= e.variants@);
                crate::schema::lemma_variants_wf_all(e.variants@);
            }
            let mut vhandles: Vec<Vec<SpawnNode>> = Vec::new();
            let mut v: usize = 0;
            while v < e.variants.len()
                invariant
                    store.wf(),
                    *schema == (Schema::Enum(*e)),
                    0 <= v <= e.variants@.len(),
                    vhandles@.len() == v,
                    pathv == ctx.path.deep_view(),
                    base.deep_view() == pathv,
                    crate::tree::path_ok(pathv),
                    crate::schema::schema_wf(Schema::Enum(*e)),
                    forall|w: int|
                        0 <= w < e.variants@.len() ==> crate::schema::keys_distinct(
                            (#[trigger] e.variants@[w]).fields@,
                        ) && crate::schema::fields_wf(e.variants@[w].fields@),
                    node.0 == len0,
                    did.0 == len0 + 1,
                    len2 == len0 + 2,
                    len2 <= store.nodes@.len(),
                    ctx.parent matches Some(p) ==> p.0 < len0,
                    store.nodes@.len() + crate::schema::variants_count(e.variants@.skip(v as int))
                        == len2 + crate::schema::variants_count(e.variants@),
                    len2 + crate::schema::variants_count(e.variants@) <= usize::MAX,
                    forall|j: int|
                        0 <= j < len0 && Some(NodeId(j as usize)) != ctx.parent ==> store.nodes@[j]
                            == old(store).nodes@[j],
                    ctx.parent matches Some(p) ==> store.nodes@[p.0 as int].children.0@ == old(store).nodes@[p.0 as int].children.0@.push(NodeId(len0 as usize)) && (
                    store.nodes@[p.0 as int] == (Node {
                        children: store.nodes@[p.0 as int].children,
                        ..old(store).nodes@[p.0 as int]
                    })),
                    spawned_node_record(store.nodes@[node.0 as int], pathv, ctx.dependency),
                    store.nodes@[node.0 as int].scalar is None,
                    spawned_node_record(
                        store.nodes@[did.0 as int],
                        pathv.push(discrim_seg()),
                        None,
                    ),
                    store.nodes@[did.0 as int].scalar matches Some(sf) && sf.metadata matches ScalarMetadata::Discrim(dm2) && dm2.variants.deep_view() == variant_names(e.variants@)
                        && dm2.default == e.default && sf.data.0@ == (
                    crate::tree::ConfigVal::Discrim(e.default)),
                    (store.nodes@[did.0 as int].serde_record is Some <==> managers.serde),
                    (store.nodes@[did.0 as int].draw_record is Some <==> managers.egui),
                    crate::tree::is_discrim_node(store.nodes@, did.0 as int),
                    spawned_variants(
                        *store,
                        vhandles@,
                        e.variants@.take(v as int),
                        pathv,
                        did,
                        managers,
                    ),
                    crate::schema::handles_below_matrix(vhandles@, store.nodes@.len() as int),
                    variants_fresh(store.nodes@, pathv, e.variants@.skip(v as int)),
                    forall|j: int|
                        len0 <= j < store.nodes@.len() ==> pathv.is_prefix_of(
                            (#[trigger] store.nodes@[j]).node.path.deep_view(),
                        ),
                decreases e.variants@.len() - v,
            {
                let ghost prev = *store;
                let var = &e.variants[v];
                let dep = ConditionalRelevance { dependency: did, required_variant: v };
                proof {
                    crate::schema::lemma_variants_count_skip(e.variants@, v as int);
                    // this variant's field paths are fresh
                    assert forall|j: int, m: int|
                        #![trigger store.nodes@[j], var.fields@[m]]
                        0 <= j < store.nodes@.len() && 0 <= m < var.fields@.len() implies !(
                    base.deep_view().push(
                        field_seg(Some(var.name@), var.fields@[m].key@),
                    )).is_prefix_of(store.nodes@[j].node.path.deep_view()) by {
                        assert(e.variants@.skip(v as int)[0] == e.variants@[v as int]);
                        assert(e.variants@.skip(v as int)[0].fields@[m] == var.fields@[m]);
                    }
                    assert(children_fresh(
                        store.nodes@,
                        base.deep_view(),
                        Some(var.name@),
                        var.fields@,
                    ));
                    assert(decreases_to!(*schema => (*schema)->Enum_0));
                    assert((*schema)->Enum_0 == *e);
                    assert(decreases_to!(*e => e.variants));
                    assert(decreases_to!(e.variants => e.variants@));
                    assert(decreases_to!(e.variants@ => e.variants@[v as int]));
                    assert(decreases_to!(e.variants@[v as int] => e.variants@[v as int].fields));
                }
                let hs = spawn_field_list(
                    store,
                    &base,
                    node,
                    Some(&var.name),
                    Some(dep),
                    &var.fields,
                    managers,
                );
                let ghost vh_old = vhandles@;
                vhandles.push(hs);
                proof {
                    let now = *store;
                    let prev_len = prev.nodes@.len() as int;
                    assert(vhandles@ == vh_old.push(hs));
                    assert(vhandles@.drop_last() =~= vh_old);
                    assert(store_extends(prev, now, prev_len));
                    lemma_spawned_variants_frame(
                        prev,
                        now,
                        vh_old,
                        e.variants@.take(v as int),
                        pathv,
                        did,
                        managers,
                        prev_len,
                    );
                    assert(e.variants@.take(v + 1).drop_last() =~= e.variants@.take(v as int));
                    assert(e.variants@.take(v + 1).last() == e.variants@[v as int]);
                    assert(prefix_view(Some(&var.name)) == Some(var.name@));
                    assert(vhandles@.last() == hs);
                    assert(spawned_variants(
                        now,
                        vhandles@,
                        e.variants@.take(v + 1),
                        pathv,
                        did,
                        managers,
                    ));
                    lemma_handles_below_matrix_mono(
                        vh_old,
                        prev_len,
                        now.nodes@.len() as int,
                    );
                    assert(crate::schema::handles_below_matrix(
                        vhandles@,
                        now.nodes@.len() as int,
                    ));
                    crate::schema::lemma_variants_count_skip(e.variants@, v as int);
                    // remaining variants stay fresh
                    assert forall|j: int, w: int, m: int|
                        #![trigger now.nodes@[j], e.variants@.skip(v + 1)[w].fields@[m]]
                        0 <= j < now.nodes@.len() && 0 <= w < e.variants@.skip(v + 1).len() && 0
                        <= m < e.variants@.skip(v + 1)[w].fields@.len() implies !(pathv.push(
                        variant_seg_of(
                            e.variants@.skip(v + 1)[w].name@,
                            e.variants@.skip(v + 1)[w].fields@[m].key@,
                        ),
                    )).is_prefix_of(now.nodes@[j].node.path.deep_view()) by {
                        let vw = e.variants@.skip(v + 1)[w];
                        assert(vw == e.variants@[v + 1 + w]);
                        let sg = variant_seg_of(vw.name@, vw.fields@[m].key@);
                        let q = now.nodes@[j].node.path.deep_view();
                        if j < prev_len {
                            assert(e.variants@.skip(v as int)[w + 1] == e.variants@[v + 1 + w]);
                            assert(now.nodes@[j].node == prev.nodes@[j].node);
                            assert(prev.nodes@[j] == prev.nodes@[j]);
                        } else {
                            let m0 = choose|m0: int|
                                0 <= m0 < var.fields@.len() && (base.deep_view().push(
                                    field_seg(Some(var.name@), var.fields@[m0].key@),
                                )).is_prefix_of(q);
                            assert(e.variants@[v as int].name@ != e.variants@[v + 1 + w].name@);
                            lemma_variant_seg_ne_name(
                                var.name@,
                                var.fields@[m0].key@,
                                vw.name@,
                                vw.fields@[m].key@,
                            );
                            lemma_push_prefix_differs(
                                pathv,
                                variant_seg_of(var.name@, var.fields@[m0].key@),
                                sg,
                                q,
                            );
                        }
                    }
                    // new nodes extend the context path
                    assert forall|j: int|
                        len0 <= j < now.nodes@.len() implies pathv.is_prefix_of(
                        (#[trigger] now.nodes@[j]).node.path.deep_view(),
                    ) by {
                        if j < prev_len {
                            assert(now.nodes@[j].node == prev.nodes@[j].node);
                        } else {
                            let m0 = choose|m0: int|
                                0 <= m0 < var.fields@.len() && (base.deep_view().push(
                                    field_seg(Some(var.name@), var.fields@[m0].key@),
                                )).is_prefix_of(now.nodes@[j].node.path.deep_view());
                            lemma_prefix_of_push(
                                pathv,
                                field_seg(Some(var.name@), var.fields@[m0].key@),
                            );
                            lemma_prefix_trans(
                                pathv,
                                pathv.push(field_seg(Some(var.name@), var.fields@[m0].key@)),
                                now.nodes@[j].node.path.deep_view(),
                            );
                        }
                    }
                }
                v = v + 1;
            }
            let h = SpawnNode::Enum { node, discrim: did, variants: vhandles };
            proof {
                assert(e.variants@.take(e.variants@.len() as int) =~= e.variants@);
                assert(e.variants@.skip(e.variants@.len() as int) =~= Seq::<EnumVariant>::empty());
                assert(spawned(*store, h, *schema, pathv, ctx.dependency, managers));
                lemma_spawned_handle_ok(*store, h, *schema, pathv, ctx.dependency, managers);
            }
            h
        },
    }
}

/// Whether `s2` keeps the scalar shapes of `s1`'s nodes below its length:
/// what `handle_ok` reads survives value edits, appends, and marker changes.
pub open spec fn handle_ok_extends(s1: ConfigStore, s2: ConfigStore) -> bool {
    &&& s1.nodes@.len() <= s2.nodes@.len()
    &&& forall|j: int|
        0 <= j < s1.nodes@.len() ==> ((#[trigger] s2.nodes@[j]).scalar is Some <==> s1.nodes@[j].scalar is Some) && (s1.nodes@[j].scalar is Some
            ==> s2.nodes@[j].scalar->Some_0.metadata == s1.nodes@[j].scalar->Some_0.metadata)
}

/// `handle_ok` survives a shape-preserving store extension.
pub proof fn lemma_handle_ok_frame(s1: ConfigStore, s2: ConfigStore, h: SpawnNode)
    requires
        handle_ok(s1, h),
        crate::schema::handle_below(h, s1.nodes@.len() as int),
        handle_ok_extends(s1, s2),
    ensures
        handle_ok(s2, h),
    decreases h,
{
    match h {
        SpawnNode::Scalar(id) => {},
        SpawnNode::Struct { node, fields } => {
            lemma_handles_ok_frame(s1, s2, fields@);
        },
        SpawnNode::Enum { node, discrim, variants } => {
            lemma_handles_ok_matrix_frame(s1, s2, variants@);
        },
    }
}

/// List version of [`lemma_handle_ok_frame`].
pub proof fn lemma_handles_ok_frame(s1: ConfigStore, s2: ConfigStore, hs: Seq<SpawnNode>)
    requires
        handles_ok(s1, hs),
        crate::schema::handles_below(hs, s1.nodes@.len() as int),
        handle_ok_extends(s1, s2),
    ensures
        handles_ok(s2, hs),
    decreases hs,
{
    if hs.len() > 0 {
        lemma_handles_ok_frame(s1, s2, hs.drop_last());
        lemma_handle_ok_frame(s1, s2, hs.last());
    }
}

/// Matrix version of [`lemma_handle_ok_frame`].
pub proof fn lemma_handles_ok_matrix_frame(
    s1: ConfigStore,
    s2: ConfigStore,
    vs: Seq<Vec<SpawnNode>>,
)
    requires
        handles_ok_matrix(s1, vs),
        crate::schema::handles_below_matrix(vs, s1.nodes@.len() as int),
        handle_ok_extends(s1, s2),
    ensures
        handles_ok_matrix(s2, vs),
    decreases vs,
{
    if vs.len() > 0 {
        lemma_handles_ok_matrix_frame(s1, s2, vs.drop_last());
        lemma_handles_ok_frame(s1, s2, vs.last()@);
    }
}

} // verus!
