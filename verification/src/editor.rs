//! The editor backend: walks the tree from a root, renders composites as
//! groups and scalars through their attached draw hooks, and skips subtrees
//! whose relevance dependency currently selects another variant.  A confirmed
//! edit overwrites the scalar and bumps its generation.

use vstd::prelude::*;

use crate::tree::{ConfigStore, ConfigValue, NodeId};

verus! {

/// Marker types that carry editor styling, letting hosts extend the editor
/// for their own scalar types.
pub trait Style {

}

/// The default editor style.
pub struct DefaultStyle;

impl Style for DefaultStyle {

}

/// The editor manager: attaches a draw record to every scalar node it
/// supports at spawn time, styled by `S`.
pub struct Egui<S: Style> {
    /// The style the editor draws with.
    pub style: S,
}

/// Whether node `j` is relevant right now: either it carries no relevance
/// link, or its discriminant dependency currently selects the variant the
/// link requires.  Resolution is local: only the direct dependency is
/// consulted, and the tree walk skips irrelevant subtrees wholesale.
pub open spec fn relevant(store: ConfigStore, j: int) -> bool {
    match store.nodes@[j].relevance {
        Some(r) => crate::schema::discrim_of(store, r.dependency) == r.required_variant,
        None => true,
    }
}

/// The scalar nodes an editor traversal of the subtree at `j` invokes draw
/// hooks for, in traversal order: nothing for an irrelevant node, the node
/// itself if it carries a draw record, else its children in order.
pub open spec fn visit_spec(store: ConfigStore, j: int) -> Seq<NodeId>
    decreases store.nodes@.len() - j, 1int, 0int,
{
    if !(0 <= j < store.nodes@.len()) {
        Seq::empty()
    } else if !relevant(store, j) {
        Seq::empty()
    } else if store.nodes@[j].draw_record is Some {
        seq![NodeId(j as usize)]
    } else {
        visit_list(store, j, store.nodes@[j].children.0@, 0)
    }
}

/// The visit order of the children `cs` of node `j`, starting at child `k`.
pub open spec fn visit_list(store: ConfigStore, j: int, cs: Seq<NodeId>, k: int) -> Seq<NodeId>
    decreases store.nodes@.len() - j, 0int, cs.len() - k,
{
    if !(0 <= k < cs.len()) {
        Seq::empty()
    } else if !(j < cs[k].0 < store.nodes@.len()) {
        visit_list(store, j, cs, k + 1)
    } else {
        visit_spec(store, cs[k].0 as int) + visit_list(store, j, cs, k + 1)
    }
}

/// Every node the editor visits is itself relevant: no draw hook ever runs
/// for a node whose own relevance link points away, and a skipped subtree
/// contributes nothing at all.
pub proof fn lemma_visit_only_relevant(store: ConfigStore, j: int)
    ensures
        forall|i: int|
            0 <= i < visit_spec(store, j).len() ==> relevant(
                store,
                (#[trigger] visit_spec(store, j)[i]).0 as int,
            ),
    decreases store.nodes@.len() - j, 1int, 0int,
{
    if 0 <= j < store.nodes@.len() && relevant(store, j) {
        if store.nodes@[j].draw_record is Some {
            vstd::std_specs::vec::axiom_spec_len(&store.nodes);
        } else {
            lemma_visit_list_only_relevant(store, j, store.nodes@[j].children.0@, 0);
        }
    }
    assert forall|i: int| 0 <= i < visit_spec(store, j).len() implies relevant(
        store,
        (#[trigger] visit_spec(store, j)[i]).0 as int,
    ) by {
        if 0 <= j < store.nodes@.len() && relevant(store, j) {
            if store.nodes@[j].draw_record is Some {
                assert(visit_spec(store, j)[i] == NodeId(j as usize));
                assert(NodeId(j as usize).0 as int == j);
            } else {
                assert(visit_spec(store, j)[i] == visit_list(
                    store,
                    j,
                    store.nodes@[j].children.0@,
                    0,
                )[i]);
            }
        }
    }
}

/// List version of [`lemma_visit_only_relevant`].
#[verifier::rlimit(50)]
proof fn lemma_visit_list_only_relevant(store: ConfigStore, j: int, cs: Seq<NodeId>, k: int)
    ensures
        forall|i: int|
            0 <= i < visit_list(store, j, cs, k).len() ==> relevant(
                store,
                (#[trigger] visit_list(store, j, cs, k)[i]).0 as int,
            ),
    decreases store.nodes@.len() - j, 0int, cs.len() - k,
{
    if 0 <= k < cs.len() {
        if !(j < cs[k].0 < store.nodes@.len()) {
            lemma_visit_list_only_relevant(store, j, cs, k + 1);
        } else {
            lemma_visit_only_relevant(store, cs[k].0 as int);
            lemma_visit_list_only_relevant(store, j, cs, k + 1);
        }
    }
    assert forall|i: int|
        0 <= i < visit_list(store, j, cs, k).len() implies relevant(
        store,
        (#[trigger] visit_list(store, j, cs, k)[i]).0 as int,
    ) by {
        if 0 <= k < cs.len() {
            if !(j < cs[k].0 < store.nodes@.len()) {
                assert(visit_list(store, j, cs, k)[i] == visit_list(store, j, cs, k + 1)[i]);
                assert(relevant(store, visit_list(store, j, cs, k + 1)[i].0 as int));
            } else {
                let head = visit_spec(store, cs[k].0 as int);
                if i < head.len() {
                    assert(visit_list(store, j, cs, k)[i] == head[i]);
                    assert(relevant(store, head[i].0 as int));
                } else {
                    assert(visit_list(store, j, cs, k)[i] == visit_list(store, j, cs, k + 1)[i
                        - head.len()]);
                    assert(relevant(
                        store,
                        visit_list(store, j, cs, k + 1)[i - head.len()].0 as int,
                    ));
                }
            }
        }
    }
}

/// Reads the active variant of the discriminant a relevance link points at.
fn dependency_active(store: &ConfigStore, dep: NodeId) -> (d: usize)
    requires
        store.wf(),
        crate::tree::is_discrim_node(store.nodes@, dep.0 as int),
    ensures
        d == crate::schema::discrim_of(*store, dep),
{
    proof {
        assert(crate::tree::node_ok(store.nodes@, dep.0 as int));
    }
    let n = store.node(dep);
    match &n.scalar {
        Some(sf) => match &sf.data.0 {
            ConfigValue::Discrim(d) => *d,
            _ => unreached(),
        },
        None => unreached(),
    }
}

/// Walks the subtree at `id` as the editor renders it, returning the scalar
/// nodes whose draw hooks it would invoke, in order.  Subtrees whose
/// relevance dependency currently selects another variant are skipped
/// without being entered.
pub fn editor_visit(store: &ConfigStore, id: NodeId) -> (r: Vec<NodeId>)
    requires
        store.wf(),
        store.contains(id),
    ensures
        r@ == visit_spec(*store, id.0 as int),
    decreases store.nodes@.len() - id.0,
{
    let n = store.node(id);
    match &n.relevance {
        Some(cr) => {
            proof {
                assert(crate::tree::node_ok(store.nodes@, id.0 as int));
            }
            let d = dependency_active(store, cr.dependency);
            if d != cr.required_variant {
                proof {
                    assert(!relevant(*store, id.0 as int));
                }
                return Vec::new();
            }
        },
        None => {},
    }
    if n.draw_record.is_some() {
        let mut r: Vec<NodeId> = Vec::new();
        r.push(id);
        proof {
            assert(r@ =~= seq![id]);
            assert(NodeId(id.0 as usize) == id);
        }
        return r;
    }
    let mut out: Vec<NodeId> = Vec::new();
    let mut k: usize = 0;
    let ghost cs = n.children.0@;
    while k < store.node(id).children.0.len()
        invariant
            store.wf(),
            store.contains(id),
            cs == store.nodes@[id.0 as int].children.0@,
            relevant(*store, id.0 as int),
            store.nodes@[id.0 as int].draw_record is None,
            0 <= k <= cs.len(),
            visit_spec(*store, id.0 as int) == visit_list(*store, id.0 as int, cs, 0),
            visit_list(*store, id.0 as int, cs, 0) == out@ + visit_list(
                *store,
                id.0 as int,
                cs,
                k as int,
            ),
        decreases cs.len() - k,
    {
        proof {
            assert(crate::tree::node_ok(store.nodes@, id.0 as int));
            assert(id.0 < cs[k as int].0 < store.nodes@.len());
        }
        let c = store.node(id).children.0[k];
        let mut sub = editor_visit(store, c);
        proof {
            assert(out@ + (visit_spec(*store, c.0 as int) + visit_list(
                *store,
                id.0 as int,
                cs,
                k + 1,
            )) =~= (out@ + visit_spec(*store, c.0 as int)) + visit_list(
                *store,
                id.0 as int,
                cs,
                k + 1,
            ));
        }
        out.append(&mut sub);
        k = k + 1;
    }
    proof {
        assert(out@ + visit_list(*store, id.0 as int, cs, cs.len() as int) =~= out@);
    }
    out
}


/// The visit order over a list of subtree roots, in order.
pub open spec fn visit_roots_spec(store: ConfigStore, rs: Seq<NodeId>) -> Seq<NodeId>
    decreases rs,
{
    if rs.len() == 0 {
        Seq::empty()
    } else {
        visit_roots_spec(store, rs.drop_last()) + visit_spec(store, rs.last().0 as int)
    }
}

/// Walks every given subtree in order, as the editor renders a window with
/// all registered roots.
pub fn editor_visit_roots(store: &ConfigStore, roots: &Vec<NodeId>) -> (r: Vec<NodeId>)
    requires
        store.wf(),
        forall|i: int| 0 <= i < roots@.len() ==> (#[trigger] roots@[i]).0 < store.nodes@.len(),
    ensures
        r@ == visit_roots_spec(*store, roots@),
{
    let mut out: Vec<NodeId> = Vec::new();
    let mut k: usize = 0;
    proof {
        assert(out@ =~= visit_roots_spec(*store, roots@.take(0)));
    }
    while k < roots.len()
        invariant
            store.wf(),
            forall|i: int| 0 <= i < roots@.len() ==> (#[trigger] roots@[i]).0 < store.nodes@.len(),
            0 <= k <= roots@.len(),
            out@ == visit_roots_spec(*store, roots@.take(k as int)),
        decreases roots@.len() - k,
    {
        let mut sub = editor_visit(store, roots[k]);
        out.append(&mut sub);
        proof {
            assert(roots@.take(k + 1).drop_last() =~= roots@.take(k as int));
            assert(roots@.take(k + 1).last() == roots@[k as int]);
        }
        k = k + 1;
    }
    proof {
        assert(roots@.take(roots@.len() as int) =~= roots@);
    }
    out
}
} // verus!
