//! The root registry: binds named top-level config trees to one store,
//! enforcing that every root key is unique and that a single manager set is
//! used across all registrations.

use vstd::prelude::*;

use crate::manager::ManagerSet;
use crate::schema::{handle_ok, schema_wf, Schema, SpawnContext, SpawnNode};
use crate::spawn::{handle_ok_extends, spawn, spawned, store_extends, subtree_fresh};
use crate::tree::{seg_ok, ConfigStore, NodeId};

verus! {

/// The application-level table of registered root config trees.
pub struct RootRegistry {
    /// The node store all roots are spawned into.
    pub store: ConfigStore,
    /// The manager set fixed by the first registration.
    pub managers: Option<ManagerSet>,
    /// The root keys, in registration order.
    pub root_keys: Vec<String>,
    /// The spawn handles of the roots, in registration order.
    pub roots: Vec<SpawnNode>,
}

/// The subtree-root nodes of a handle list, in order.
pub open spec fn root_nodes(rs: Seq<SpawnNode>) -> Seq<NodeId> {
    Seq::new(rs.len(), |i: int| rs[i].spec_node())
}

impl RootRegistry {
    /// The registry invariant: a well-formed store, distinct valid root keys,
    /// valid handles, and every node path starting with its root's key.
    pub open spec fn wf(self) -> bool {
        &&& self.store.wf()
        &&& self.root_keys@.len() == self.roots@.len()
        &&& forall|a: int, b: int|
            0 <= a < b < self.root_keys@.len() ==> self.root_keys@[a]@ != self.root_keys@[b]@
        &&& forall|i: int| 0 <= i < self.root_keys@.len() ==> seg_ok((#[trigger] self.root_keys@[i])@)
        &&& forall|i: int|
            0 <= i < self.roots@.len() ==> handle_ok(self.store, #[trigger] self.roots@[i])
                && crate::schema::handle_below(self.roots@[i], self.store.nodes@.len() as int)
        &&& forall|j: int|
            0 <= j < self.store.nodes@.len() ==> exists|i: int|
                0 <= i < self.root_keys@.len() && (#[trigger] self.store.nodes@[j]).node.path.deep_view()[0]
                    == self.root_keys@[i]@
    }

    /// An empty registry with no manager set chosen yet.
    pub fn new() -> (r: Self)
        ensures
            r.wf(),
            r.managers is None,
            r.roots@.len() == 0,
            r.store.nodes@.len() == 0,
    {
        RootRegistry {
            store: ConfigStore::new(),
            managers: None,
            root_keys: Vec::new(),
            roots: Vec::new(),
        }
    }

    /// The number of registered roots.
    pub fn root_count(&self) -> (r: usize)
        ensures
            r == self.roots@.len(),
    {
        self.roots.len()
    }

    /// Borrows the spawn handle of root `i`.
    pub fn root_handle(&self, i: usize) -> (r: &SpawnNode)
        requires
            self.wf(),
            i < self.roots@.len(),
        ensures
            *r == self.roots@[i as int],
            handle_ok(self.store, *r),
    {
        &self.roots[i]
    }

    /// Registers a root config tree under `key`: spawns the schema at the
    /// path `[key]`, tags the subtree root as a registered root, and returns
    /// the root's index.  The manager set must be the same across all
    /// registrations, and each key must be unique.
    pub fn init_config(&mut self, key: String, schema: &Schema, managers: ManagerSet) -> (r: usize)
        requires
            old(self).wf(),
            schema_wf(*schema),
            seg_ok(key@),
            forall|i: int| 0 <= i < old(self).root_keys@.len() ==> old(self).root_keys@[i]@ != key@,
            old(self).managers matches Some(m) ==> m == managers,
            old(self).store.nodes@.len() + crate::schema::node_count(*schema) <= usize::MAX,
        ensures
            final(self).wf(),
            final(self).managers == Some(managers),
            r == old(self).roots@.len(),
            final(self).roots@.len() == r + 1,
            final(self).root_keys@ == old(self).root_keys@.push(key),
            forall|j: int|
                0 <= j < old(self).store.nodes@.len() ==> final(self).store.nodes@[j] == old(self).store.nodes@[j],
            spawned(
                final(self).store,
                final(self).roots@[r as int],
                *schema,
                seq![key@],
                None,
                managers,
            ),
            final(self).store.nodes@[final(self).roots@[r as int].spec_node().0 as int].root
                is Some,
            final(self).roots@[r as int].spec_node() == NodeId(
                old(self).store.nodes@.len() as usize,
            ),
            crate::read::spec_read(final(self).store, final(self).roots@[r as int])
                == crate::read::default_read(*schema),
    {
        let key_copy = key.clone();
        let mut path: Vec<String> = Vec::new();
        path.push(key);
        let ghost pathv = path.deep_view();
        proof {
            assert(pathv =~= seq![key_copy@]);
            assert(crate::tree::path_ok(pathv));
            assert forall|j: int| 0 <= j < self.store.nodes@.len() implies !pathv.is_prefix_of(
                (#[trigger] self.store.nodes@[j]).node.path.deep_view(),
            ) by {
                let q = self.store.nodes@[j].node.path.deep_view();
                if pathv.is_prefix_of(q) {
                    assert(pathv[0] == q.subrange(0, 1)[0]);
                    assert(q[0] == key_copy@);
                    let i = choose|i: int|
                        0 <= i < self.root_keys@.len() && self.store.nodes@[j].node.path.deep_view()[0]
                            == self.root_keys@[i]@;
                    assert(self.root_keys@[i]@ != key_copy@);
                }
            }
            assert(subtree_fresh(self.store.nodes@, pathv));
        }
        let ctx = SpawnContext { path, parent: None, dependency: None };
        let ghost pre = self.store;
        let h = spawn(&mut self.store, ctx, schema, managers);
        let ghost mid = self.store;
        let root_id = h.node();
        self.store.mark_root(root_id);
        proof {
            let now = self.store;
            // everything spawn and the marker established survives, since the
            // marker only sets the root tag of the new node
            assert(store_extends(mid, now, mid.nodes@.len() as int));
            crate::spawn::lemma_spawned_frame(
                mid,
                now,
                h,
                *schema,
                pathv,
                None,
                managers,
                mid.nodes@.len() as int,
            );
            assert(handle_ok_extends(mid, now)) by {
                assert forall|j: int|
                    0 <= j < mid.nodes@.len() implies ((#[trigger] now.nodes@[j]).scalar is Some
                    <==> mid.nodes@[j].scalar is Some) && (mid.nodes@[j].scalar is Some
                    ==> now.nodes@[j].scalar->Some_0.metadata
                    == mid.nodes@[j].scalar->Some_0.metadata) by {
                    if j != root_id.0 {
                        assert(now.nodes@[j] == mid.nodes@[j]);
                    }
                }
            }
            crate::spawn::lemma_handle_ok_frame(mid, now, h);
            assert(handle_ok_extends(pre, now)) by {
                assert forall|j: int|
                    0 <= j < pre.nodes@.len() implies ((#[trigger] now.nodes@[j]).scalar is Some
                    <==> pre.nodes@[j].scalar is Some) && (pre.nodes@[j].scalar is Some
                    ==> now.nodes@[j].scalar->Some_0.metadata
                    == pre.nodes@[j].scalar->Some_0.metadata) by {
                    assert(mid.nodes@[j] == pre.nodes@[j]);
                    if j != root_id.0 {
                        assert(now.nodes@[j] == mid.nodes@[j]);
                    }
                }
            }
            assert forall|i: int| 0 <= i < self.roots@.len() implies handle_ok(
                now,
                #[trigger] self.roots@[i],
            ) && crate::schema::handle_below(self.roots@[i], now.nodes@.len() as int) by {
                crate::spawn::lemma_handle_ok_frame(pre, now, self.roots@[i]);
                crate::spawn::lemma_handle_below_mono(
                    self.roots@[i],
                    pre.nodes@.len() as int,
                    now.nodes@.len() as int,
                );
            }
        }
        let r = self.roots.len();
        self.roots.push(h);
        self.root_keys.push(key_copy);
        if self.managers.is_none() {
            self.managers = Some(managers);
        }
        proof {
            let now = self.store;
            assert forall|j: int| 0 <= j < now.nodes@.len() implies exists|i: int|
                0 <= i < self.root_keys@.len() && (
                #[trigger] now.nodes@[j]).node.path.deep_view()[0] == self.root_keys@[i]@ by {
                if j < pre.nodes@.len() {
                    assert(now.nodes@[j] == pre.nodes@[j]);
                    let i = choose|i: int|
                        0 <= i < old(self).root_keys@.len() && pre.nodes@[j].node.path.deep_view()[0]
                            == old(self).root_keys@[i]@;
                    assert(self.root_keys@[i] == old(self).root_keys@[i]);
                    assert(0 <= i < self.root_keys@.len()
                        && now.nodes@[j].node.path.deep_view()[0] == self.root_keys@[i]@);
                } else {
                    assert(mid.nodes@[j].node == now.nodes@[j].node || j == root_id.0);
                    assert(now.nodes@[j].node.path == mid.nodes@[j].node.path);
                    assert(pathv.is_prefix_of(mid.nodes@[j].node.path.deep_view()));
                    assert(mid.nodes@[j].node.path.deep_view()[0] == pathv.subrange(0, 1)[0]);
                    let i = self.root_keys@.len() - 1;
                    assert(self.root_keys@[i] == key_copy);
                    assert(0 <= i < self.root_keys@.len()
                        && now.nodes@[j].node.path.deep_view()[0] == self.root_keys@[i]@);
                }
            }
            assert(final(self).roots@[r as int] == h);
            crate::read::lemma_spawn_reads_defaults(
                self.store,
                h,
                *schema,
                pathv,
                None,
                managers,
            );
        }
        r
    }

    /// Walks every registered root as the editor renders them, in
    /// registration order, returning the scalar nodes whose draw hooks would
    /// run.
    pub fn editor_visit_all(&self) -> (r: Vec<NodeId>)
        requires
            self.wf(),
        ensures
            r@ == crate::editor::visit_roots_spec(self.store, root_nodes(self.roots@)),
    {
        let mut ids: Vec<NodeId> = Vec::new();
        let mut k: usize = 0;
        while k < self.roots.len()
            invariant
                self.wf(),
                0 <= k <= self.roots@.len(),
                ids@ =~= root_nodes(self.roots@).take(k as int),
            decreases self.roots@.len() - k,
        {
            ids.push(self.roots[k].node());
            proof {
                assert(ids@ =~= root_nodes(self.roots@).take(k + 1));
            }
            k = k + 1;
        }
        proof {
            assert(root_nodes(self.roots@).take(self.roots@.len() as int) =~= root_nodes(
                self.roots@,
            ));
            assert forall|i: int| 0 <= i < ids@.len() implies (#[trigger] ids@[i]).0
                < self.store.nodes@.len() by {
                crate::schema::lemma_handle_ok_node(self.store, self.roots@[i]);
            }
        }
        crate::editor::editor_visit_roots(&self.store, &ids)
    }

    /// Reads the typed projection of root `i`.
    pub fn read_root(&self, i: usize) -> (r: crate::read::Reader)
        requires
            self.wf(),
            i < self.roots@.len(),
        ensures
            r@ == crate::read::spec_read(self.store, self.roots@[i as int]),
    {
        crate::read::read(&self.store, &self.roots[i])
    }

    /// Computes the change witness of root `i`.
    pub fn changed_root(&self, i: usize) -> (r: crate::read::Changed)
        requires
            self.wf(),
            i < self.roots@.len(),
        ensures
            r@ == crate::read::spec_changed(self.store, self.roots@[i as int]),
    {
        crate::read::changed(&self.store, &self.roots[i])
    }

    /// Overwrites the value of the scalar node `id` and bumps its generation,
    /// as a confirmed editor edit does.
    pub fn edit_scalar(&mut self, id: NodeId, v: crate::tree::ConfigValue)
        requires
            old(self).wf(),
            old(self).store.contains(id),
            old(self).store.nodes@[id.0 as int].scalar is Some,
            crate::tree::value_matches(
                old(self).store.nodes@[id.0 as int].scalar->Some_0.metadata,
                v,
            ),
            old(self).store.nodes@[id.0 as int].node.generation.0 < u64::MAX,
        ensures
            final(self).wf(),
            final(self).roots@ == old(self).roots@,
            final(self).root_keys@ == old(self).root_keys@,
            final(self).managers == old(self).managers,
            final(self).store.nodes@.len() == old(self).store.nodes@.len(),
            forall|j: int|
                0 <= j < old(self).store.nodes@.len() && j != id.0 ==> final(self).store.nodes@[j] == old(self).store.nodes@[j],
            final(self).store.nodes@[id.0 as int] == (crate::tree::Node {
                node: crate::tree::ConfigNode {
                    path: old(self).store.nodes@[id.0 as int].node.path,
                    generation: crate::FieldGeneration(
                        (old(self).store.nodes@[id.0 as int].node.generation.0 + 1) as u64,
                    ),
                },
                scalar: Some(
                    crate::tree::ScalarField {
                        data: crate::tree::ScalarData(v),
                        metadata: old(self).store.nodes@[id.0 as int].scalar->Some_0.metadata,
                    },
                ),
                ..old(self).store.nodes@[id.0 as int]
            }),
    {
        let ghost pre = self.store;
        self.store.edit_scalar(id, v);
        proof {
            let now = self.store;
            assert(handle_ok_extends(pre, now)) by {
                assert forall|j: int|
                    0 <= j < pre.nodes@.len() implies ((#[trigger] now.nodes@[j]).scalar is Some
                    <==> pre.nodes@[j].scalar is Some) && (pre.nodes@[j].scalar is Some
                    ==> now.nodes@[j].scalar->Some_0.metadata
                    == pre.nodes@[j].scalar->Some_0.metadata) by {
                    if j != id.0 {
                        assert(now.nodes@[j] == pre.nodes@[j]);
                    }
                }
            }
            assert forall|i: int| 0 <= i < self.roots@.len() implies handle_ok(
                now,
                #[trigger] self.roots@[i],
            ) && crate::schema::handle_below(self.roots@[i], now.nodes@.len() as int) by {
                crate::spawn::lemma_handle_ok_frame(pre, now, self.roots@[i]);
            }
            assert forall|j: int| 0 <= j < now.nodes@.len() implies exists|i: int|
                0 <= i < self.root_keys@.len() && (
                #[trigger] now.nodes@[j]).node.path.deep_view()[0] == self.root_keys@[i]@ by {
                assert(now.nodes@[j].node.path == pre.nodes@[j].node.path);
                let i = choose|i: int|
                    0 <= i < self.root_keys@.len() && pre.nodes@[j].node.path.deep_view()[0]
                        == self.root_keys@[i]@;
                assert(0 <= i < self.root_keys@.len() && now.nodes@[j].node.path.deep_view()[0]
                    == self.root_keys@[i]@);
            }
        }
    }
}

} // verus!
