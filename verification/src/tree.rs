//! The node store: an append-only table of config nodes, each holding a path,
//! a change-detection generation, optional parent and relevance links, an
//! optional scalar record, and optional manager-attached records.

use vstd::prelude::*;

use crate::FieldGeneration;
use crate::schema::ScalarMetadata;

verus! {

/// An opaque handle addressing one node in a [`ConfigStore`].
#[derive(Debug, Clone, Copy, PartialEq, Eq, Structural)]
pub struct NodeId(pub usize);

/// The typed payload of a scalar config field.
pub enum ConfigValue {
    /// An integer value.
    Int(i64),
    /// A float-like value, carried as an opaque JSON number.
    Num(serde_json::Number),
    /// A boolean value.
    Bool(bool),
    /// A string value.
    Text(String),
    /// The active-variant index of an enum discriminant.
    Discrim(usize),
}

/// The mathematical value of a [`ConfigValue`].
pub enum ConfigVal {
    /// An integer value.
    Int(i64),
    /// A float-like value, carried as an opaque JSON number.
    Num(serde_json::Number),
    /// A boolean value.
    Bool(bool),
    /// A string value.
    Text(Seq<char>),
    /// The active-variant index of an enum discriminant.
    Discrim(usize),
}

impl View for ConfigValue {
    type V = ConfigVal;

    open spec fn view(&self) -> ConfigVal {
        match *self {
            ConfigValue::Int(i) => ConfigVal::Int(i),
            ConfigValue::Num(n) => ConfigVal::Num(n),
            ConfigValue::Bool(b) => ConfigVal::Bool(b),
            ConfigValue::Text(s) => ConfigVal::Text(s@),
            ConfigValue::Discrim(d) => ConfigVal::Discrim(d),
        }
    }
}

impl ConfigValue {
    /// Copies the value; the copy has the same mathematical value.
    pub fn duplicate(&self) -> (r: ConfigValue)
        ensures
            r@ == self@,
    {
        match self {
            ConfigValue::Int(i) => ConfigValue::Int(*i),
            ConfigValue::Num(n) => ConfigValue::Num(n.clone()),
            ConfigValue::Bool(b) => ConfigValue::Bool(*b),
            ConfigValue::Text(s) => ConfigValue::Text(s.clone()),
            ConfigValue::Discrim(d) => ConfigValue::Discrim(*d),
        }
    }
}

/// Stores the mutable typed data of a scalar config field.
pub struct ScalarData(pub ConfigValue);

/// The scalar record of a leaf node: the mutable value and the metadata that
/// is immutable after spawn.
pub struct ScalarField {
    /// The mutable payload.
    pub data: ScalarData,
    /// The immutable metadata (constraints, defaults, display hints).
    pub metadata: ScalarMetadata,
}

/// The record every config node carries: its path and its generation.
pub struct ConfigNode {
    /// The hierarchical path from the root config field.  Uniquely identifies
    /// the node for the lifetime of the store.
    pub path: Vec<String>,
    /// The generation of the field, used for change detection.
    pub generation: FieldGeneration,
}

/// Marks a node as the root of a registered top-level tree.
pub struct RootNode;

/// Back-reference from a child node to its parent node.
#[derive(Debug, Clone, Copy, PartialEq, Eq, Structural)]
pub struct ChildNodeOf(pub NodeId);

/// The ordered list of child nodes of a config node.
pub struct ChildNodeList(pub Vec<NodeId>);

/// Marks a node as conditionally "irrelevant" based on the state of another
/// node: the node is relevant only while the discriminant node `dependency`
/// currently holds the variant `required_variant`.
///
/// Relevance is not inserted into descendant nodes; consumers that depend on
/// it traverse the tree from the roots and skip irrelevant subtrees.
#[derive(Debug, Clone, Copy, PartialEq, Eq, Structural)]
pub struct ConditionalRelevance {
    /// The discriminant node this node depends on.
    pub dependency: NodeId,
    /// The variant index under which this node is relevant.
    pub required_variant: usize,
}

/// The record the codec manager attaches to a scalar node at spawn time,
/// marking it for serialization.
pub struct SerdeRecord;

/// The record the editor manager attaches to a scalar node at spawn time,
/// standing for its draw hook.
pub struct DrawRecord;

/// One entry of the store: a node and all its optional records.
pub struct Node {
    /// The path and generation record; present on every node.
    pub node: ConfigNode,
    /// Present on registered root nodes.
    pub root: Option<RootNode>,
    /// Present on every non-root node.
    pub parent: Option<ChildNodeOf>,
    /// The node's children, in spawn order.
    pub children: ChildNodeList,
    /// Present on nodes whose applicability depends on a discriminant.
    pub relevance: Option<ConditionalRelevance>,
    /// Present on scalar leaf nodes.
    pub scalar: Option<ScalarField>,
    /// Attached by the codec manager.
    pub serde_record: Option<SerdeRecord>,
    /// Attached by the editor manager.
    pub draw_record: Option<DrawRecord>,
}

/// A path segment is nonempty and contains no `'.'`, so that flat keys joined
/// with `'.'` decompose unambiguously.
pub open spec fn seg_ok(s: Seq<char>) -> bool {
    s.len() > 0 && !s.contains('.')
}

/// A path is a nonempty list of valid segments.
pub open spec fn path_ok(p: Seq<Seq<char>>) -> bool {
    p.len() > 0 && forall|i: int| 0 <= i < p.len() ==> seg_ok(#[trigger] p[i])
}

/// Whether a value has the shape the metadata prescribes.
pub open spec fn value_matches(m: ScalarMetadata, v: ConfigValue) -> bool {
    match m {
        ScalarMetadata::Numeric(_) => v is Int,
        ScalarMetadata::Number(_) => v is Num,
        ScalarMetadata::Str(_) => v is Text,
        ScalarMetadata::Flag(_) => v is Bool,
        ScalarMetadata::Discrim(dm) => v matches ConfigValue::Discrim(d) && d < dm.variants@.len(),
    }
}

/// Well-formed scalar metadata: discriminants name at least one variant, the
/// names are distinct valid segments, and the default variant exists.
pub open spec fn meta_ok(m: ScalarMetadata) -> bool {
    match m {
        ScalarMetadata::Discrim(dm) => {
            &&& dm.variants@.len() > 0
            &&& dm.default < dm.variants@.len()
            &&& forall|i: int| 0 <= i < dm.variants@.len() ==> seg_ok(#[trigger] dm.variants@[i]@)
            &&& forall|i: int, j: int|
                0 <= i < j < dm.variants@.len() ==> dm.variants@[i]@ != dm.variants@[j]@
        },
        _ => true,
    }
}

/// A well-formed scalar record: valid metadata and a matching value.
pub open spec fn scalar_ok(sf: ScalarField) -> bool {
    meta_ok(sf.metadata) && value_matches(sf.metadata, sf.data.0)
}

/// Whether node `d` is a discriminant scalar node.
pub open spec fn is_discrim_node(nodes: Seq<Node>, d: int) -> bool {
    &&& 0 <= d < nodes.len()
    &&& nodes[d].scalar matches Some(sf) && sf.metadata is Discrim
}

/// Per-node well-formedness over the whole table.
pub open spec fn node_ok(nodes: Seq<Node>, i: int) -> bool {
    let n = nodes[i];
    &&& path_ok(n.node.path.deep_view())
    &&& n.node.generation.0 >= 1
    &&& (n.parent matches Some(p) ==> p.0.0 < i)
    &&& (forall|k: int|
        0 <= k < n.children.0@.len() ==> {
            let c = (#[trigger] n.children.0@[k]).0;
            &&& i < c < nodes.len()
            &&& nodes[c as int].parent == Some(ChildNodeOf(NodeId(i as usize)))
        })
    &&& (n.relevance matches Some(r) ==> {
        &&& r.dependency.0 < i
        &&& is_discrim_node(nodes, r.dependency.0 as int)
    })
    &&& (n.scalar matches Some(sf) ==> scalar_ok(sf))
    &&& (n.serde_record is Some ==> n.scalar is Some)
    &&& (n.draw_record is Some ==> n.scalar is Some)
}

/// Every node has a different path.
pub open spec fn paths_unique(nodes: Seq<Node>) -> bool {
    forall|i: int, j: int|
        0 <= i < nodes.len() && 0 <= j < nodes.len() && i != j ==> (
        #[trigger] nodes[i].node.path.deep_view()) != (#[trigger] nodes[j].node.path.deep_view())
}

/// A sparse table of config nodes keyed by [`NodeId`] handles.  The store is
/// append-only: nodes are created during root registration and mutated in
/// place afterwards, never removed.
pub struct ConfigStore {
    /// The nodes, indexed by handle.
    pub nodes: Vec<Node>,
}

impl ConfigStore {
    /// The store invariant: every node well-formed, every path unique.
    pub open spec fn wf(self) -> bool {
        &&& forall|i: int| 0 <= i < self.nodes@.len() ==> node_ok(self.nodes@, i)
        &&& paths_unique(self.nodes@)
    }

    /// Whether `id` addresses a node of this store.
    pub open spec fn contains(self, id: NodeId) -> bool {
        id.0 < self.nodes@.len()
    }

    /// Creates an empty store.
    pub fn new() -> (r: Self)
        ensures
            r.wf(),
            r.nodes@.len() == 0,
    {
        ConfigStore { nodes: Vec::new() }
    }

    /// The number of nodes spawned so far.
    pub fn len(&self) -> (r: usize)
        ensures
            r == self.nodes@.len(),
    {
        self.nodes.len()
    }

    /// Borrows the node addressed by `id`.
    pub fn node(&self, id: NodeId) -> (r: &Node)
        requires
            self.contains(id),
        ensures
            *r == self.nodes@[id.0 as int],
    {
        &self.nodes[id.0]
    }

    /// Creates a new node with a fresh path and returns its handle.
    ///
    /// Creation appends the node; the only existing record it touches is the
    /// parent's child list, which gains the new handle at the end.
    pub fn create(
        &mut self,
        path: Vec<String>,
        parent: Option<NodeId>,
        relevance: Option<ConditionalRelevance>,
        scalar: Option<ScalarField>,
        serde_record: Option<SerdeRecord>,
        draw_record: Option<DrawRecord>,
    ) -> (r: NodeId)
        requires
            old(self).wf(),
            old(self).nodes@.len() < usize::MAX,
            path_ok(path.deep_view()),
            forall|j: int|
                0 <= j < old(self).nodes@.len() ==> (#[trigger] old(
                    self,
                ).nodes@[j]).node.path.deep_view() != path.deep_view(),
            parent matches Some(p) ==> p.0 < old(self).nodes@.len(),
            relevance matches Some(r) ==> is_discrim_node(old(self).nodes@, r.dependency.0 as int),
            scalar matches Some(sf) ==> scalar_ok(sf),
            serde_record is Some ==> scalar is Some,
            draw_record is Some ==> scalar is Some,
        ensures
            final(self).wf(),
            r.0 == old(self).nodes@.len(),
            final(self).nodes@.len() == old(self).nodes@.len() + 1,
            forall|j: int|
                0 <= j < old(self).nodes@.len() && Some(NodeId(j as usize)) != parent
                    ==> final(self).nodes@[j] == old(self).nodes@[j],
            parent matches Some(p) ==> final(self).nodes@[p.0 as int].children.0@ == old(
                self,
            ).nodes@[p.0 as int].children.0@.push(r) && (final(self).nodes@[p.0 as int] == (Node {
                children: final(self).nodes@[p.0 as int].children,
                ..old(self).nodes@[p.0 as int]
            })),
            final(self).nodes@[r.0 as int].node.path == path,
            final(self).nodes@[r.0 as int].node.generation == (FieldGeneration(1)),
            final(self).nodes@[r.0 as int].root is None,
            final(self).nodes@[r.0 as int].parent == (match parent {
                Some(p) => Some(ChildNodeOf(p)),
                None => None,
            }),
            final(self).nodes@[r.0 as int].children.0@ == Seq::<NodeId>::empty(),
            final(self).nodes@[r.0 as int].relevance == relevance,
            final(self).nodes@[r.0 as int].scalar == scalar,
            final(self).nodes@[r.0 as int].serde_record == serde_record,
            final(self).nodes@[r.0 as int].draw_record == draw_record,
    {
        let id = NodeId(self.nodes.len());
        let node = Node {
            node: ConfigNode { path, generation: FieldGeneration(1) },
            root: None,
            parent: match parent {
                Some(p) => Some(ChildNodeOf(p)),
                None => None,
            },
            children: ChildNodeList(Vec::new()),
            relevance,
            scalar,
            serde_record,
            draw_record,
        };
        self.nodes.push(node);
        if let Some(p) = parent {
            let list = &mut self.nodes[p.0];
            list.children.0.push(id);
        }
        proof {
            assert(self.nodes@[id.0 as int].relevance matches Some(r) ==> is_discrim_node(
                self.nodes@,
                r.dependency.0 as int,
            )) by {
                if self.nodes@[id.0 as int].relevance is Some {
                    let d = self.nodes@[id.0 as int].relevance->Some_0.dependency.0 as int;
                    assert(self.nodes@[d].scalar == old(self).nodes@[d].scalar);
                }
            }
            assert(node_ok_new(self.nodes@, id.0 as int, parent));
            self.lemma_create_wf(*old(self), parent, id);
        }
        id
    }

    /// Well-formedness is preserved by `create`.
    proof fn lemma_create_wf(self, prev: Self, parent: Option<NodeId>, id: NodeId)
        requires
            prev.wf(),
            id.0 == prev.nodes@.len(),
            self.nodes@.len() == prev.nodes@.len() + 1,
            forall|j: int|
                0 <= j < prev.nodes@.len() && Some(NodeId(j as usize)) != parent
                    ==> self.nodes@[j] == prev.nodes@[j],
            parent matches Some(p) ==> {
                &&& p.0 < prev.nodes@.len()
                &&& self.nodes@[p.0 as int].children.0@ == prev.nodes@[p.0 as int].children.0@.push(
                    id,
                )
                &&& (self.nodes@[p.0 as int] == (Node {
                    children: self.nodes@[p.0 as int].children,
                    ..prev.nodes@[p.0 as int]
                }))
                &&& self.nodes@[id.0 as int].parent == Some(ChildNodeOf(p))
            },
            path_ok(self.nodes@[id.0 as int].node.path.deep_view()),
            forall|j: int|
                0 <= j < prev.nodes@.len() ==> (#[trigger] prev.nodes@[j]).node.path.deep_view()
                    != self.nodes@[id.0 as int].node.path.deep_view(),
            node_ok_new(self.nodes@, id.0 as int, parent),
        ensures
            self.wf(),
    {
        let n = self.nodes@;
        let prevn = prev.nodes@;
        assert forall|i: int| 0 <= i < n.len() implies node_ok(n, i) by {
            if i < prevn.len() {
                assert(node_ok(prevn, i));
                assert(n[i].node == prevn[i].node);
                assert(n[i].scalar == prevn[i].scalar);
                assert(n[i].relevance == prevn[i].relevance);
                assert(n[i].parent == prevn[i].parent);
                if parent == Some(NodeId(i as usize)) {
                    assert forall|k: int| 0 <= k < n[i].children.0@.len() implies {
                        let c = (#[trigger] n[i].children.0@[k]).0;
                        &&& i < c < n.len()
                        &&& n[c as int].parent == Some(ChildNodeOf(NodeId(i as usize)))
                    } by {
                        if k < prevn[i].children.0@.len() {
                            assert(n[i].children.0@[k] == prevn[i].children.0@[k]);
                            let c = prevn[i].children.0@[k].0;
                            assert(i < c < prevn.len());
                            assert(n[c as int] == prevn[c as int]);
                        } else {
                            assert(n[i].children.0@[k] == id);
                            assert(n[id.0 as int].parent == Some(ChildNodeOf(NodeId(i as usize))));
                        }
                    }
                } else {
                    assert(n[i].children == prevn[i].children);
                    assert forall|k: int| 0 <= k < n[i].children.0@.len() implies {
                        let c = (#[trigger] n[i].children.0@[k]).0;
                        &&& i < c < n.len()
                        &&& n[c as int].parent == Some(ChildNodeOf(NodeId(i as usize)))
                    } by {
                        let c = prevn[i].children.0@[k].0;
                        assert(i < c < prevn.len());
                        if parent == Some(NodeId(c)) {
                            assert(n[c as int].parent == prevn[c as int].parent);
                        } else {
                            assert(n[c as int] == prevn[c as int]);
                        }
                    }
                }
                if n[i].relevance is Some {
                    let d = n[i].relevance->Some_0.dependency.0 as int;
                    assert(is_discrim_node(prevn, d));
                    assert(n[d] == prevn[d] || (parent == Some(NodeId(d as usize))));
                    assert(n[d].scalar == prevn[d].scalar);
                }
            } else {
                assert(i == id.0 as int);
            }
        }
        assert forall|i: int, j: int|
            0 <= i < n.len() && 0 <= j < n.len() && i != j implies (
        #[trigger] n[i].node.path.deep_view()) != (#[trigger] n[j].node.path.deep_view()) by {
            if i < prevn.len() && j < prevn.len() {
                assert(prevn[i].node.path.deep_view() != prevn[j].node.path.deep_view());
                assert(n[i].node == prevn[i].node);
                assert(n[j].node == prevn[j].node);
            } else if i < prevn.len() {
                assert(n[i].node == prevn[i].node);
                assert(prevn[i].node.path.deep_view() != n[j].node.path.deep_view());
            } else {
                assert(n[j].node == prevn[j].node);
                assert(prevn[j].node.path.deep_view() != n[i].node.path.deep_view());
            }
        }
    }
}

impl ConfigStore {
    /// Well-formedness is preserved by an in-place update of one node that
    /// keeps its path, links and record shapes.
    proof fn lemma_update_wf(self, prev: Self, i: int)
        requires
            prev.wf(),
            self.nodes@.len() == prev.nodes@.len(),
            0 <= i < prev.nodes@.len(),
            forall|j: int|
                0 <= j < prev.nodes@.len() && j != i ==> self.nodes@[j] == prev.nodes@[j],
            self.nodes@[i].node.path == prev.nodes@[i].node.path,
            self.nodes@[i].node.generation.0 >= 1,
            self.nodes@[i].parent == prev.nodes@[i].parent,
            self.nodes@[i].children == prev.nodes@[i].children,
            self.nodes@[i].relevance == prev.nodes@[i].relevance,
            self.nodes@[i].serde_record is Some <==> prev.nodes@[i].serde_record is Some,
            self.nodes@[i].draw_record is Some <==> prev.nodes@[i].draw_record is Some,
            match (prev.nodes@[i].scalar, self.nodes@[i].scalar) {
                (Some(a), Some(b)) => a.metadata == b.metadata && scalar_ok(b),
                (None, None) => true,
                _ => false,
            },
        ensures
            self.wf(),
    {
        let n = self.nodes@;
        let prevn = prev.nodes@;
        assert forall|j: int| 0 <= j < n.len() implies node_ok(n, j) by {
            assert(node_ok(prevn, j));
            assert(n[j].node.path == prevn[j].node.path);
            assert forall|k: int| 0 <= k < n[j].children.0@.len() implies {
                let c = (#[trigger] n[j].children.0@[k]).0;
                &&& j < c < n.len()
                &&& n[c as int].parent == Some(ChildNodeOf(NodeId(j as usize)))
            } by {
                assert(n[j].children == prevn[j].children);
                let c = prevn[j].children.0@[k].0;
                assert(j < c < prevn.len());
                assert(n[c as int].parent == prevn[c as int].parent);
            }
            if n[j].relevance is Some {
                let d = n[j].relevance->Some_0.dependency.0 as int;
                assert(is_discrim_node(prevn, d));
                assert(n[d].scalar is Some && n[d].scalar->Some_0.metadata == prevn[
                    d
                ].scalar->Some_0.metadata);
            }
        }
        assert forall|a: int, b: int|
            0 <= a < n.len() && 0 <= b < n.len() && a != b implies (
        #[trigger] n[a].node.path.deep_view()) != (#[trigger] n[b].node.path.deep_view()) by {
            assert(n[a].node.path == prevn[a].node.path);
            assert(n[b].node.path == prevn[b].node.path);
            assert(prevn[a].node.path.deep_view() != prevn[b].node.path.deep_view());
        }
    }

    /// Overwrites the value of the scalar node `id` without touching its
    /// generation; the codec uses this when applying loaded data.
    pub fn write_scalar(&mut self, id: NodeId, v: ConfigValue)
        requires
            old(self).wf(),
            old(self).contains(id),
            old(self).nodes@[id.0 as int].scalar is Some,
            value_matches(old(self).nodes@[id.0 as int].scalar->Some_0.metadata, v),
        ensures
            final(self).wf(),
            final(self).nodes@.len() == old(self).nodes@.len(),
            forall|j: int|
                0 <= j < old(self).nodes@.len() && j != id.0 ==> final(self).nodes@[j] == old(
                    self,
                ).nodes@[j],
            final(self).nodes@[id.0 as int] == (Node {
                scalar: Some(
                    ScalarField {
                        data: ScalarData(v),
                        metadata: old(self).nodes@[id.0 as int].scalar->Some_0.metadata,
                    },
                ),
                ..old(self).nodes@[id.0 as int]
            }),
    {
        let n = &mut self.nodes[id.0];
        if let Some(sf) = &mut n.scalar {
            sf.data = ScalarData(v);
        }
        proof {
            assert(node_ok(old(self).nodes@, id.0 as int));
            self.lemma_update_wf(*old(self), id.0 as int);
        }
    }

    /// Increments the generation of node `id` by one.
    pub fn bump_generation(&mut self, id: NodeId)
        requires
            old(self).wf(),
            old(self).contains(id),
            old(self).nodes@[id.0 as int].node.generation.0 < u64::MAX,
        ensures
            final(self).wf(),
            final(self).nodes@.len() == old(self).nodes@.len(),
            forall|j: int|
                0 <= j < old(self).nodes@.len() && j != id.0 ==> final(self).nodes@[j] == old(
                    self,
                ).nodes@[j],
            final(self).nodes@[id.0 as int] == (Node {
                node: ConfigNode {
                    path: old(self).nodes@[id.0 as int].node.path,
                    generation: FieldGeneration(
                        (old(self).nodes@[id.0 as int].node.generation.0 + 1) as u64,
                    ),
                },
                ..old(self).nodes@[id.0 as int]
            }),
    {
        let g = self.nodes[id.0].node.generation.next();
        let n = &mut self.nodes[id.0];
        n.node.generation = g;
        proof {
            assert(node_ok(old(self).nodes@, id.0 as int));
            self.lemma_update_wf(*old(self), id.0 as int);
        }
    }

    /// Overwrites the value of the scalar node `id` and increments its
    /// generation; this is what a confirmed editor edit does.
    pub fn edit_scalar(&mut self, id: NodeId, v: ConfigValue)
        requires
            old(self).wf(),
            old(self).contains(id),
            old(self).nodes@[id.0 as int].scalar is Some,
            value_matches(old(self).nodes@[id.0 as int].scalar->Some_0.metadata, v),
            old(self).nodes@[id.0 as int].node.generation.0 < u64::MAX,
        ensures
            final(self).wf(),
            final(self).nodes@.len() == old(self).nodes@.len(),
            forall|j: int|
                0 <= j < old(self).nodes@.len() && j != id.0 ==> final(self).nodes@[j] == old(
                    self,
                ).nodes@[j],
            final(self).nodes@[id.0 as int] == (Node {
                node: ConfigNode {
                    path: old(self).nodes@[id.0 as int].node.path,
                    generation: FieldGeneration(
                        (old(self).nodes@[id.0 as int].node.generation.0 + 1) as u64,
                    ),
                },
                scalar: Some(
                    ScalarField {
                        data: ScalarData(v),
                        metadata: old(self).nodes@[id.0 as int].scalar->Some_0.metadata,
                    },
                ),
                ..old(self).nodes@[id.0 as int]
            }),
    {
        self.write_scalar(id, v);
        self.bump_generation(id);
    }

    /// Tags node `id` as the root of a registered top-level tree.
    pub fn mark_root(&mut self, id: NodeId)
        requires
            old(self).wf(),
            old(self).contains(id),
        ensures
            final(self).wf(),
            final(self).nodes@.len() == old(self).nodes@.len(),
            forall|j: int|
                0 <= j < old(self).nodes@.len() && j != id.0 ==> final(self).nodes@[j] == old(
                    self,
                ).nodes@[j],
            final(self).nodes@[id.0 as int] == (Node {
                root: Some(RootNode),
                ..old(self).nodes@[id.0 as int]
            }),
    {
        let n = &mut self.nodes[id.0];
        n.root = Some(RootNode);
        proof {
            assert(node_ok(old(self).nodes@, id.0 as int));
            self.lemma_update_wf(*old(self), id.0 as int);
        }
    }
}

/// In a well-formed store every node's path is unique for the lifetime of
/// the store, whatever trees were spawned into it.
pub proof fn lemma_paths_unique(store: ConfigStore)
    requires
        store.wf(),
    ensures
        forall|i: int, j: int|
            0 <= i < store.nodes@.len() && 0 <= j < store.nodes@.len() && i != j ==> (
            #[trigger] store.nodes@[i].node.path.deep_view()) != (
            #[trigger] store.nodes@[j].node.path.deep_view()),
{
}

/// What `create` establishes of the appended node itself.
pub open spec fn node_ok_new(nodes: Seq<Node>, i: int, parent: Option<NodeId>) -> bool {
    let n = nodes[i];
    &&& path_ok(n.node.path.deep_view())
    &&& n.node.generation.0 >= 1
    &&& (n.parent matches Some(p) ==> p.0.0 < i)
    &&& n.children.0@.len() == 0
    &&& (n.relevance matches Some(r) ==> {
        &&& r.dependency.0 < i
        &&& is_discrim_node(nodes, r.dependency.0 as int)
    })
    &&& (n.scalar matches Some(sf) ==> scalar_ok(sf))
    &&& (n.serde_record is Some ==> n.scalar is Some)
    &&& (n.draw_record is Some ==> n.scalar is Some)
}

} // verus!
