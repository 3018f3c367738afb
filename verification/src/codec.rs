//! The persistence codec: serializes every codec-managed scalar node into a
//! flat path-keyed map, sorted by key, and applies loaded maps back onto the
//! store.  Unknown keys are ignored; relevance is not consulted, so inactive
//! enum variants are persisted and loaded like any other field.

use vstd::prelude::*;
use vstd::seq_lib::*;

use crate::strutil::{join_of, join_path, key_lt, path_lt, str_eq, str_key_lt};
use crate::tree::{ConfigStore, ConfigVal, ConfigValue, Node, NodeId};

verus! {

/// A value as it crosses the codec boundary: integers, opaque JSON numbers,
/// booleans, text, or something the codec does not handle.
pub enum WireValue {
    /// An integer.
    Int(i64),
    /// An opaque JSON number.
    Num(serde_json::Number),
    /// A boolean.
    Bool(bool),
    /// A string; also carries enum discriminants, as the variant name.
    Text(String),
    /// A value of a shape the codec does not map onto scalars.
    Other,
}

/// The mathematical value of a [`WireValue`].
pub enum WireVal {
    /// An integer.
    Int(i64),
    /// An opaque JSON number.
    Num(serde_json::Number),
    /// A boolean.
    Bool(bool),
    /// A string.
    Text(Seq<char>),
    /// A value of a shape the codec does not map onto scalars.
    Other,
}

impl View for WireValue {
    type V = WireVal;

    open spec fn view(&self) -> WireVal {
        match *self {
            WireValue::Int(i) => WireVal::Int(i),
            WireValue::Num(n) => WireVal::Num(n),
            WireValue::Bool(b) => WireVal::Bool(b),
            WireValue::Text(s) => WireVal::Text(s@),
            WireValue::Other => WireVal::Other,
        }
    }
}

/// The error a failed load surfaces: the input was not a JSON object, a
/// recognized key carried a value of the wrong shape, or a discriminant key
/// named an unknown variant.
#[derive(Debug)]
pub enum DecodeError {
    /// The input could not be parsed as a JSON object.
    Syntax(serde_json::Error),
    /// A recognized key carried a value of the wrong shape for its scalar.
    WrongType,
    /// A discriminant key named a variant the schema does not have.
    UnknownVariant,
}

/// Whether the codec serializes node `j`: it must carry both a scalar record
/// and the codec manager's record.
pub open spec fn is_serialized(nodes: Seq<Node>, j: int) -> bool {
    &&& 0 <= j < nodes.len()
    &&& nodes[j].scalar is Some
    &&& nodes[j].serde_record is Some
}

/// The wire value of a scalar: its payload, with discriminants written as
/// their variant name.
pub open spec fn wire_of_scalar(m: crate::schema::ScalarMetadata, v: ConfigVal) -> WireVal {
    match v {
        ConfigVal::Int(i) => WireVal::Int(i),
        ConfigVal::Num(n) => WireVal::Num(n),
        ConfigVal::Bool(b) => WireVal::Bool(b),
        ConfigVal::Text(s) => WireVal::Text(s),
        ConfigVal::Discrim(d) => WireVal::Text(m->Discrim_0.variants.deep_view()[d as int]),
    }
}

/// The codec entry of node `j`: its flat key and its wire value.
pub open spec fn entry_of(nodes: Seq<Node>, j: int) -> (Seq<char>, WireVal) {
    (
        join_of(nodes[j].node.path.deep_view()),
        wire_of_scalar(
            nodes[j].scalar->Some_0.metadata,
            nodes[j].scalar->Some_0.data.0@,
        ),
    )
}

/// The entries of every serialized node up to index `n`, in node order.
pub open spec fn scan_spec(nodes: Seq<Node>, n: int) -> Seq<(Seq<char>, WireVal)>
    decreases n,
{
    if n <= 0 {
        Seq::empty()
    } else if is_serialized(nodes, n - 1) {
        scan_spec(nodes, n - 1).push(entry_of(nodes, n - 1))
    } else {
        scan_spec(nodes, n - 1)
    }
}

/// The view of an entry list.
pub open spec fn entries_view(es: Seq<(String, WireValue)>) -> Seq<(Seq<char>, WireVal)> {
    Seq::new(es.len(), |k: int| (es[k].0@, es[k].1@))
}

/// Entry keys are in ascending flat-key order (equal keys permitted by the
/// predicate; the serializer's keys are distinct).  Because every segment is
/// dot-free, this is exactly the ascending element-wise order of the
/// decomposed path vectors: see
/// [`crate::strutil::lemma_key_lt_is_path_order`].
pub open spec fn entries_sorted(es: Seq<(Seq<char>, WireVal)>) -> bool {
    forall|a: int, b: int|
        0 <= a < b < es.len() ==> key_lt((#[trigger] es[a]).0, (#[trigger] es[b]).0) || es[a].0
            == es[b].0
}

impl WireValue {
    /// Copies the value; the copy has the same mathematical value.
    pub fn duplicate(&self) -> (r: WireValue)
        ensures
            r@ == self@,
    {
        match self {
            WireValue::Int(i) => WireValue::Int(*i),
            WireValue::Num(n) => WireValue::Num(n.clone()),
            WireValue::Bool(b) => WireValue::Bool(*b),
            WireValue::Text(s) => WireValue::Text(s.clone()),
            WireValue::Other => WireValue::Other,
        }
    }
}

/// Serializes all codec-managed scalar nodes of the store into a flat map:
/// one entry per node, keyed by the path segments joined with `'.'`, sorted
/// in ascending path order for deterministic output.
pub fn serialize_all(store: &ConfigStore) -> (r: Vec<(String, WireValue)>)
    requires
        store.wf(),
    ensures
        entries_view(r@).to_multiset() == scan_spec(
            store.nodes@,
            store.nodes@.len() as int,
        ).to_multiset(),
        entries_sorted(entries_view(r@)),
        forall|k: int|
            0 <= k < r@.len() ==> entry_faithful(store.nodes@, #[trigger] entries_view(r@)[k]),
        forall|a: int, b: int|
            0 <= a < b < r@.len() ==> entries_view(r@)[a].0 != entries_view(r@)[b].0,
{
    let mut out: Vec<(String, WireValue)> = Vec::new();
    let mut j: usize = 0;
    while j < store.nodes.len()
        invariant
            store.wf(),
            0 <= j <= store.nodes@.len(),
            entries_view(out@) =~= scan_spec(store.nodes@, j as int),
        decreases store.nodes@.len() - j,
    {
        let ghost before = entries_view(out@);
        let n = &store.nodes[j];
        if n.serde_record.is_some() && n.scalar.is_some() {
            let key = join_path(&n.node.path);
            let value = match &n.scalar {
                Some(sf) => match &sf.data.0 {
                    ConfigValue::Int(i) => WireValue::Int(*i),
                    ConfigValue::Num(num) => WireValue::Num(num.clone()),
                    ConfigValue::Bool(b) => WireValue::Bool(*b),
                    ConfigValue::Text(s) => WireValue::Text(s.clone()),
                    ConfigValue::Discrim(d) => {
                        proof {
                            assert(crate::tree::node_ok(store.nodes@, j as int));
                        }
                        match &sf.metadata {
                            crate::schema::ScalarMetadata::Discrim(dm) => {
                                proof {
                                    assert(dm.variants.deep_view()[*d as int] == dm.variants@[*d
                                        as int]@);
                                }
                                WireValue::Text(dm.variants[*d].clone())
                            },
                            _ => unreached(),
                        }
                    },
                },
                None => unreached(),
            };
            out.push((key, value));
            proof {
                assert forall|k: int| 0 <= k < out@.len() implies entries_view(out@)[k]
                    == scan_spec(store.nodes@, j + 1)[k] by {
                    if k < before.len() {
                        assert(entries_view(out@)[k] == before[k]);
                        assert(before[k] == scan_spec(store.nodes@, j as int)[k]);
                    } else {
                        assert(out@[k] == (key, value));
                        assert(entries_view(out@)[k] == (key@, value@));
                    }
                }
                assert(entries_view(out@) =~= scan_spec(store.nodes@, j + 1));
            }
        } else {
            proof {
                assert(entries_view(out@) =~= scan_spec(store.nodes@, j + 1));
            }
        }
        j = j + 1;
    }
    sort_entries(&mut out);
    proof {
        let scan = scan_spec(store.nodes@, store.nodes@.len() as int);
        lemma_scan_faithful(store.nodes@, store.nodes@.len() as int);
        lemma_scan_keys_distinct(store.nodes@, store.nodes@.len() as int);
        let ov = entries_view(out@);
        ov.to_multiset_ensures();
        scan.to_multiset_ensures();
        assert forall|k: int| 0 <= k < out@.len() implies entry_faithful(
            store.nodes@,
            #[trigger] entries_view(out@)[k],
        ) by {
            assert(ov.contains(ov[k]));
            assert(ov.to_multiset().count(ov[k]) > 0);
            assert(scan.to_multiset().count(ov[k]) > 0);
            assert(scan.contains(ov[k]));
            let i = choose|i: int| 0 <= i < scan.len() && scan[i] == ov[k];
            assert(entry_faithful(store.nodes@, scan[i]));
        }
        lemma_perm_keys_distinct(scan, ov);
    }
    out
}

/// An entry produced by some codec-managed node below index `n`.
spec fn entry_from_below(nodes: Seq<Node>, n: int, e: (Seq<char>, WireVal)) -> bool {
    exists|j: int| 0 <= j < n && is_serialized(nodes, j) && e == entry_of(nodes, j)
}

/// Scan entries carry pairwise distinct keys: paths are unique, segments are
/// dot-free, and joining is injective on such paths.
proof fn lemma_scan_keys_distinct(nodes: Seq<Node>, n: int)
    requires
        0 <= n <= nodes.len(),
        forall|j: int| 0 <= j < nodes.len() ==> crate::tree::node_ok(nodes, j),
        crate::tree::paths_unique(nodes),
    ensures
        forall|i: int|
            0 <= i < scan_spec(nodes, n).len() ==> entry_from_below(
                nodes,
                n,
                #[trigger] scan_spec(nodes, n)[i],
            ),
        forall|a: int, b: int|
            0 <= a < b < scan_spec(nodes, n).len() ==> scan_spec(nodes, n)[a].0 != scan_spec(
                nodes,
                n,
            )[b].0,
    decreases n,
{
    if n > 0 {
        lemma_scan_keys_distinct(nodes, n - 1);
        let cur = scan_spec(nodes, n);
        let prev = scan_spec(nodes, n - 1);
        assert forall|i: int| 0 <= i < cur.len() implies entry_from_below(
            nodes,
            n,
            #[trigger] cur[i],
        ) by {
            if is_serialized(nodes, n - 1) && i == cur.len() - 1 {
                assert(0 <= n - 1 < n && is_serialized(nodes, n - 1) && cur[i] == entry_of(
                    nodes,
                    n - 1,
                ));
            } else {
                assert(cur[i] == prev[i]);
                assert(entry_from_below(nodes, n - 1, prev[i]));
                let j = choose|j: int|
                    0 <= j < n - 1 && is_serialized(nodes, j) && prev[i] == entry_of(nodes, j);
                assert(0 <= j < n && is_serialized(nodes, j) && cur[i] == entry_of(nodes, j));
            }
        }
        assert forall|a: int, b: int| 0 <= a < b < cur.len() implies cur[a].0 != cur[b].0 by {
            if is_serialized(nodes, n - 1) && b == cur.len() - 1 {
                assert(cur[a] == prev[a]);
                assert(entry_from_below(nodes, n - 1, prev[a]));
                let j = choose|j: int|
                    0 <= j < n - 1 && is_serialized(nodes, j) && prev[a] == entry_of(nodes, j);
                if cur[a].0 == cur[b].0 {
                    lemma_keys_same_node(nodes, j, n - 1);
                }
            } else {
                assert(cur[a] == prev[a]);
                assert(cur[b] == prev[b]);
            }
        }
    }
}

/// Two codec-managed nodes with the same flat key are the same node.
proof fn lemma_keys_same_node(nodes: Seq<Node>, j1: int, j2: int)
    requires
        forall|j: int| 0 <= j < nodes.len() ==> crate::tree::node_ok(nodes, j),
        crate::tree::paths_unique(nodes),
        0 <= j1 < nodes.len(),
        0 <= j2 < nodes.len(),
        join_of(nodes[j1].node.path.deep_view()) == join_of(nodes[j2].node.path.deep_view()),
    ensures
        j1 == j2,
{
    assert(crate::tree::node_ok(nodes, j1));
    assert(crate::tree::node_ok(nodes, j2));
    let p1 = nodes[j1].node.path.deep_view();
    let p2 = nodes[j2].node.path.deep_view();
    assert forall|i: int| 0 <= i < p1.len() implies (#[trigger] p1[i]).len() > 0
        && !p1[i].contains('.') by {
        assert(crate::tree::seg_ok(p1[i]));
    }
    assert forall|i: int| 0 <= i < p2.len() implies (#[trigger] p2[i]).len() > 0
        && !p2[i].contains('.') by {
        assert(crate::tree::seg_ok(p2[i]));
    }
    crate::strutil::lemma_join_injective(p1, p2);
}

/// Key distinctness survives any permutation of the entries.
proof fn lemma_perm_keys_distinct(
    v1: Seq<(Seq<char>, WireVal)>,
    v2: Seq<(Seq<char>, WireVal)>,
)
    requires
        v1.to_multiset() == v2.to_multiset(),
        forall|a: int, b: int| 0 <= a < b < v1.len() ==> v1[a].0 != v1[b].0,
    ensures
        forall|a: int, b: int| 0 <= a < b < v2.len() ==> v2[a].0 != v2[b].0,
{
    v1.to_multiset_ensures();
    v2.to_multiset_ensures();
    assert(v1.no_duplicates()) by {
        assert forall|i: int, j: int|
            0 <= i < v1.len() && 0 <= j < v1.len() && i != j implies v1[i] != v1[j] by {
            if i < j {
                assert(v1[i].0 != v1[j].0);
            } else {
                assert(v1[j].0 != v1[i].0);
            }
        }
    }
    v1.lemma_multiset_has_no_duplicates();
    v2.lemma_multiset_has_no_duplicates_conv();
    assert forall|a: int, b: int| 0 <= a < b < v2.len() implies v2[a].0 != v2[b].0 by {
        if v2[a].0 == v2[b].0 {
            if v2[a] == v2[b] {
                assert(false);
            } else {
                assert(v2.contains(v2[a]));
                assert(v2.to_multiset().count(v2[a]) > 0);
                assert(v1.to_multiset().count(v2[a]) > 0);
                assert(v1.contains(v2[a]));
                assert(v2.contains(v2[b]));
                assert(v2.to_multiset().count(v2[b]) > 0);
                assert(v1.to_multiset().count(v2[b]) > 0);
                assert(v1.contains(v2[b]));
                let ia = choose|i: int| 0 <= i < v1.len() && v1[i] == v2[a];
                let ib = choose|i: int| 0 <= i < v1.len() && v1[i] == v2[b];
                assert(ia != ib);
                if ia < ib {
                    assert(v1[ia].0 != v1[ib].0);
                } else {
                    assert(v1[ib].0 != v1[ia].0);
                }
            }
        }
    }
}

/// Sorts an entry list by key, keeping exactly the same entries.
fn sort_entries(v: &mut Vec<(String, WireValue)>)
    ensures
        entries_view(final(v)@).to_multiset() == entries_view(old(v)@).to_multiset(),
        entries_sorted(entries_view(final(v)@)),
{
    if v.len() < 2 {
        return ;
    }
    let mut i: usize = 1;
    while i < v.len()
        invariant
            entries_view(v@).to_multiset() == entries_view(old(v)@).to_multiset(),
            1 <= i <= v@.len(),
            entries_sorted(entries_view(v@.take(i as int))),
        decreases v@.len() - i,
    {
        let ghost pre = v@;
        let x = v.remove(i);
        let mut p: usize = 0;
        loop
            invariant
                0 <= p <= i,
                i < pre.len(),
                v@ == pre.remove(i as int),
                v@.len() == pre.len() - 1,
                forall|q: int| 0 <= q < p ==> key_lt(entries_view(v@)[q].0, x.0@),
            ensures
                0 <= p <= i,
                v@ == pre.remove(i as int),
                p < i ==> !key_lt(v@[p as int].0@, x.0@),
                forall|q: int| 0 <= q < p ==> key_lt(entries_view(v@)[q].0, x.0@),
            decreases i - p,
        {
            if p >= i {
                break ;
            }
            if !str_key_lt(v[p].0.as_str(), x.0.as_str()) {
                break ;
            }
            proof {
                assert(entries_view(v@)[p as int].0 == v@[p as int].0@);
            }
            p = p + 1;
        }
        v.insert(p, x);
        proof {
            lemma_insert_remove_multiset(pre, i as int, p as int);
            assert(entries_view(v@).to_multiset() == entries_view(pre).to_multiset());
            lemma_sorted_after_insert(pre, v@, i as int, p as int, x);
        }
        i = i + 1;
    }
    proof {
        if v@.len() > 0 {
            assert(v@.take(v@.len() as int) =~= v@);
            assert(entries_view(v@.take(v@.len() as int)) =~= entries_view(v@));
        }
        assert(entries_sorted(entries_view(v@)));
    }
}

/// Inserting an element anywhere adds it to the sequence's multiset.
proof fn lemma_insert_multiset<A>(s: Seq<A>, p: int, x: A)
    requires
        0 <= p <= s.len(),
    ensures
        s.insert(p, x).to_multiset() =~= s.to_multiset().insert(x),
{
    broadcast use vstd::multiset::group_multiset_axioms;

    assert(s.insert(p, x) =~= s.take(p).push(x) + s.skip(p));
    assert(s =~= s.take(p) + s.skip(p));
    lemma_multiset_commutative(s.take(p).push(x), s.skip(p));
    lemma_multiset_commutative(s.take(p), s.skip(p));
    s.take(p).to_multiset_ensures();
    assert(s.take(p).push(x).to_multiset() =~= s.take(p).to_multiset().insert(x));
    assert(s.insert(p, x).to_multiset() =~= s.take(p).to_multiset().insert(x).add(
        s.skip(p).to_multiset(),
    ));
    assert(s.take(p).to_multiset().insert(x).add(s.skip(p).to_multiset()) =~= s.take(
        p,
    ).to_multiset().add(s.skip(p).to_multiset()).insert(x));
}

/// Removing at `i` and inserting the removed element at `p` permutes the
/// entries.
proof fn lemma_insert_remove_multiset(pre: Seq<(String, WireValue)>, i: int, p: int)
    requires
        0 <= i < pre.len(),
        0 <= p <= pre.len() - 1,
    ensures
        entries_view(pre.remove(i).insert(p, pre[i])).to_multiset() == entries_view(
            pre,
        ).to_multiset(),
{
    broadcast use vstd::multiset::group_multiset_axioms;

    let vp = entries_view(pre);
    let xv = (pre[i].0@, pre[i].1@);
    let vr = entries_view(pre.remove(i));
    assert(vr =~= vp.remove(i));
    assert(entries_view(pre.remove(i).insert(p, pre[i])) =~= vr.insert(p, xv));
    vp.to_multiset_ensures();
    assert(vp.remove(i).to_multiset() =~= vp.to_multiset().remove(vp[i]));
    lemma_insert_multiset(vp.remove(i), p, xv);
    assert(vp[i] == xv);
    assert(vp.contains(xv));
    assert(vp.to_multiset().count(xv) > 0);
    assert(vp.to_multiset().remove(xv).insert(xv) =~= vp.to_multiset());
    assert(entries_view(pre.remove(i).insert(p, pre[i])).to_multiset() =~= vp.to_multiset());
}

/// After moving the element at `i` to position `p` past only
/// lexicographically smaller keys, the sorted prefix grows by one.
proof fn lemma_sorted_after_insert(
    pre: Seq<(String, WireValue)>,
    now: Seq<(String, WireValue)>,
    i: int,
    p: int,
    x: (String, WireValue),
)
    requires
        0 <= i < pre.len(),
        0 <= p <= i,
        x == pre[i],
        now == pre.remove(i).insert(p, x),
        entries_sorted(entries_view(pre.take(i))),
        forall|q: int| 0 <= q < p ==> key_lt(entries_view(pre.remove(i))[q].0, x.0@),
        p < i ==> !key_lt(pre.remove(i)[p].0@, x.0@),
    ensures
        entries_sorted(entries_view(now.take(i + 1))),
{
    let prev = pre.remove(i);
    assert forall|q: int| 0 <= q < i implies prev[q] == pre[q] by {}
    assert forall|a: int, b: int|
        0 <= a < b < i + 1 implies key_lt(
        (#[trigger] entries_view(now.take(i + 1))[a]).0,
        (#[trigger] entries_view(now.take(i + 1))[b]).0,
    ) || entries_view(now.take(i + 1))[a].0 == entries_view(now.take(i + 1))[b].0 by {
        let na = now[a];
        let nb = now[b];
        assert(entries_view(now.take(i + 1))[a].0 == na.0@);
        assert(entries_view(now.take(i + 1))[b].0 == nb.0@);
        if a < p && b < p {
            assert(na == pre[a]);
            assert(nb == pre[b]);
            assert(entries_view(pre.take(i))[a].0 == pre[a].0@);
            assert(entries_view(pre.take(i))[b].0 == pre[b].0@);
        } else if a < p && b == p {
            assert(na == pre[a]);
            assert(nb == x);
            assert(entries_view(prev)[a].0 == pre[a].0@);
        } else if a < p && b > p {
            assert(na == pre[a]);
            assert(nb == prev[b - 1]);
            assert(prev[b - 1] == pre[b - 1]);
            assert(entries_view(pre.take(i))[a].0 == pre[a].0@);
            assert(entries_view(pre.take(i))[b - 1].0 == pre[b - 1].0@);
        } else if a == p {
            assert(na == x);
            assert(nb == prev[b - 1]);
            assert(prev[b - 1] == pre[b - 1]);
            // x is not below the element it was inserted before, which is
            // itself not above any later element of the sorted prefix
            assert(!key_lt(prev[p].0@, x.0@));
            assert(prev[p] == pre[p]);
            if b - 1 == p {
                crate::strutil::lemma_key_lt_total(x.0@, nb.0@);
            } else {
                assert(entries_view(pre.take(i))[p].0 == pre[p].0@);
                assert(entries_view(pre.take(i))[b - 1].0 == pre[b - 1].0@);
                crate::strutil::lemma_key_lt_total(x.0@, pre[p].0@);
                if key_lt(pre[p].0@, pre[b - 1].0@) {
                    if key_lt(x.0@, pre[p].0@) {
                        crate::strutil::lemma_key_lt_trans(x.0@, pre[p].0@, pre[b - 1].0@);
                    }
                } else {
                    assert(pre[p].0@ == pre[b - 1].0@);
                }
            }
        } else {
            assert(na == prev[a - 1]);
            assert(nb == prev[b - 1]);
            assert(prev[a - 1] == pre[a - 1]);
            assert(prev[b - 1] == pre[b - 1]);
            assert(entries_view(pre.take(i))[a - 1].0 == pre[a - 1].0@);
            assert(entries_view(pre.take(i))[b - 1].0 == pre[b - 1].0@);
        }
    }
}


/// The first codec-managed node whose flat key is `key`, scanning from `j`.
pub open spec fn lookup_from(nodes: Seq<Node>, key: Seq<char>, j: int) -> Option<int>
    decreases nodes.len() - j,
{
    if j < 0 || j >= nodes.len() {
        None
    } else if is_serialized(nodes, j) && join_of(nodes[j].node.path.deep_view()) == key {
        Some(j)
    } else {
        lookup_from(nodes, key, j + 1)
    }
}

/// The first codec-managed node whose flat key is `key`.
pub open spec fn lookup_first(nodes: Seq<Node>, key: Seq<char>) -> Option<int> {
    lookup_from(nodes, key, 0)
}

/// The first variant with name `t`, scanning from `j`.
pub open spec fn name_index_from(names: Seq<Seq<char>>, t: Seq<char>, j: int) -> Option<int>
    decreases names.len() - j,
{
    if j < 0 || j >= names.len() {
        None
    } else if names[j] == t {
        Some(j)
    } else {
        name_index_from(names, t, j + 1)
    }
}

/// What loading a wire value into a scalar of the given metadata yields: the
/// stored value, or the error for a value of the wrong shape or an unknown
/// variant name.
pub open spec fn convert_spec(
    m: crate::schema::ScalarMetadata,
    w: WireVal,
) -> Result<ConfigVal, DecodeError> {
    match m {
        crate::schema::ScalarMetadata::Numeric(_) => match w {
            WireVal::Int(i) => Ok(ConfigVal::Int(i)),
            WireVal::Num(n) => match crate::json::num_as_i64(n) {
                Some(i) => Ok(ConfigVal::Int(i)),
                None => Err(DecodeError::WrongType),
            },
            _ => Err(DecodeError::WrongType),
        },
        crate::schema::ScalarMetadata::Number(_) => match w {
            WireVal::Num(n) => Ok(ConfigVal::Num(n)),
            WireVal::Int(i) => Ok(ConfigVal::Num(crate::json::num_of_i64(i))),
            _ => Err(DecodeError::WrongType),
        },
        crate::schema::ScalarMetadata::Str(_) => match w {
            WireVal::Text(s) => Ok(ConfigVal::Text(s)),
            _ => Err(DecodeError::WrongType),
        },
        crate::schema::ScalarMetadata::Flag(_) => match w {
            WireVal::Bool(b) => Ok(ConfigVal::Bool(b)),
            _ => Err(DecodeError::WrongType),
        },
        crate::schema::ScalarMetadata::Discrim(dm) => match w {
            WireVal::Text(t) => match name_index_from(dm.variants.deep_view(), t, 0) {
                Some(d) => Ok(ConfigVal::Discrim(d as usize)),
                None => Err(DecodeError::UnknownVariant),
            },
            _ => Err(DecodeError::WrongType),
        },
    }
}

/// The scalar values currently stored, node by node.
pub open spec fn scalar_vals(s: ConfigStore) -> Seq<Option<ConfigVal>> {
    Seq::new(
        s.nodes@.len(),
        |j: int|
            match s.nodes@[j].scalar {
                Some(sf) => Some(sf.data.0@),
                None => None,
            },
    )
}

/// What applying a loaded entry list does to the stored scalar values, key
/// by key in input order: a recognized key overwrites its node's value, an
/// unknown key is ignored, and a failing key aborts the load, keeping the
/// writes made before it.
pub open spec fn apply_spec(
    s: ConfigStore,
    vals: Seq<Option<ConfigVal>>,
    es: Seq<(Seq<char>, WireVal)>,
) -> (Seq<Option<ConfigVal>>, Option<DecodeError>)
    decreases es,
{
    if es.len() == 0 {
        (vals, None)
    } else {
        match lookup_first(s.nodes@, es[0].0) {
            None => apply_spec(s, vals, es.drop_first()),
            Some(j) => match convert_spec(s.nodes@[j].scalar->Some_0.metadata, es[0].1) {
                Ok(v) => apply_spec(s, vals.update(j, Some(v)), es.drop_first()),
                Err(e) => (vals, Some(e)),
            },
        }
    }
}

/// Two stores with the same structure agree on lookups.
proof fn lemma_lookup_agree(n1: Seq<Node>, n2: Seq<Node>, key: Seq<char>, j: int)
    requires
        n1.len() == n2.len(),
        forall|i: int|
            0 <= i < n1.len() ==> (#[trigger] n2[i]).node.path == n1[i].node.path && (n2[i].scalar
                is Some <==> n1[i].scalar is Some) && (n2[i].serde_record is Some <==> n1[i].serde_record is Some),
    ensures
        lookup_from(n2, key, j) == lookup_from(n1, key, j),
    decreases n1.len() - j,
{
    if 0 <= j < n1.len() {
        lemma_lookup_agree(n1, n2, key, j + 1);
    }
}

/// A successfully converted value has the shape the metadata prescribes.
proof fn lemma_convert_matches(
    m: crate::schema::ScalarMetadata,
    w: WireVal,
    cv: ConfigValue,
)
    requires
        convert_spec(m, w) is Ok,
        cv@ == convert_spec(m, w)->Ok_0,
    ensures
        crate::tree::value_matches(m, cv),
{
    match m {
        crate::schema::ScalarMetadata::Numeric(_) => {
            match cv {
                ConfigValue::Int(_) => {},
                _ => {
                    assert(false);
                },
            }
        },
        crate::schema::ScalarMetadata::Number(_) => {
            match cv {
                ConfigValue::Num(_) => {},
                _ => {
                    assert(false);
                },
            }
        },
        crate::schema::ScalarMetadata::Str(_) => {
            match cv {
                ConfigValue::Text(_) => {},
                _ => {
                    assert(false);
                },
            }
        },
        crate::schema::ScalarMetadata::Flag(_) => {
            match cv {
                ConfigValue::Bool(_) => {},
                _ => {
                    assert(false);
                },
            }
        },
        crate::schema::ScalarMetadata::Discrim(dm) => {
            match cv {
                ConfigValue::Discrim(d) => {
                    let t = w->Text_0;
                    lemma_name_index_range(dm.variants.deep_view(), t, 0);
                    assert(dm.variants.deep_view().len() == dm.variants@.len());
                },
                _ => {
                    assert(false);
                },
            }
        },
    }
}

/// A found name index lies within the list.
proof fn lemma_name_index_range(names: Seq<Seq<char>>, t: Seq<char>, j: int)
    requires
        name_index_from(names, t, j) is Some,
    ensures
        j <= name_index_from(names, t, j)->Some_0 < names.len(),
        names[name_index_from(names, t, j)->Some_0] == t,
    decreases names.len() - j,
{
    if 0 <= j < names.len() && names[j] != t {
        lemma_name_index_range(names, t, j + 1);
    }
}

/// Finds the codec-managed node with the given flat key, if any.
fn find_node(store: &ConfigStore, key: &str) -> (r: Option<NodeId>)
    requires
        store.wf(),
    ensures
        (match lookup_first(store.nodes@, key@) {
            Some(j) => r == Some(NodeId(j as usize)),
            None => r is None,
        }),
{
    let mut j: usize = 0;
    while j < store.nodes.len()
        invariant
            store.wf(),
            0 <= j <= store.nodes@.len(),
            lookup_first(store.nodes@, key@) == lookup_from(store.nodes@, key@, j as int),
        decreases store.nodes@.len() - j,
    {
        let n = &store.nodes[j];
        if n.serde_record.is_some() && n.scalar.is_some() {
            let k = join_path(&n.node.path);
            if str_eq(k.as_str(), key) {
                return Some(NodeId(j));
            }
        }
        j = j + 1;
    }
    None
}

/// Finds the variant with the given name, if any.
fn find_variant(names: &Vec<String>, t: &str) -> (r: Option<usize>)
    ensures
        (match name_index_from(names.deep_view(), t@, 0) {
            Some(d) => r == Some(d as usize),
            None => r is None,
        }),
{
    let mut j: usize = 0;
    while j < names.len()
        invariant
            0 <= j <= names@.len(),
            name_index_from(names.deep_view(), t@, 0) == name_index_from(
                names.deep_view(),
                t@,
                j as int,
            ),
        decreases names@.len() - j,
    {
        proof {
            assert(names.deep_view()[j as int] == names@[j as int]@);
        }
        if str_eq(names[j].as_str(), t) {
            return Some(j);
        }
        j = j + 1;
    }
    None
}

/// Converts a loaded wire value for a scalar of the given metadata.
fn convert_value(m: &crate::schema::ScalarMetadata, w: &WireValue) -> (r: Result<
    ConfigValue,
    DecodeError,
>)
    ensures
        (match convert_spec(*m, w@) {
            Ok(v) => r matches Ok(cv) && cv@ == v,
            Err(e) => r matches Err(e2) && e2 == e,
        }),
{
    match m {
        crate::schema::ScalarMetadata::Numeric(_) => match w {
            WireValue::Int(i) => Ok(ConfigValue::Int(*i)),
            WireValue::Num(n) => match crate::json::number_as_i64(n) {
                Some(i) => Ok(ConfigValue::Int(i)),
                None => Err(DecodeError::WrongType),
            },
            _ => Err(DecodeError::WrongType),
        },
        crate::schema::ScalarMetadata::Number(_) => match w {
            WireValue::Num(n) => Ok(ConfigValue::Num(n.clone())),
            WireValue::Int(i) => Ok(ConfigValue::Num(crate::json::number_from_i64(*i))),
            _ => Err(DecodeError::WrongType),
        },
        crate::schema::ScalarMetadata::Str(_) => match w {
            WireValue::Text(s) => Ok(ConfigValue::Text(s.clone())),
            _ => Err(DecodeError::WrongType),
        },
        crate::schema::ScalarMetadata::Flag(_) => match w {
            WireValue::Bool(b) => Ok(ConfigValue::Bool(*b)),
            _ => Err(DecodeError::WrongType),
        },
        crate::schema::ScalarMetadata::Discrim(dm) => match w {
            WireValue::Text(t) => match find_variant(&dm.variants, t.as_str()) {
                Some(d) => Ok(ConfigValue::Discrim(d)),
                None => Err(DecodeError::UnknownVariant),
            },
            _ => Err(DecodeError::WrongType),
        },
    }
}

/// Applies a loaded entry list onto the store, entry by entry in input
/// order.  Keys that match no codec-managed node are silently ignored; keys
/// absent from the input leave the current value untouched; a failing entry
/// aborts the load with an error, keeping the writes made before it.
/// Generations are not bumped by a load.
pub fn apply_all(store: &mut ConfigStore, entries: &Vec<(String, WireValue)>) -> (r: Result<
    (),
    DecodeError,
>)
    requires
        old(store).wf(),
    ensures
        final(store).wf(),
        final(store).nodes@.len() == old(store).nodes@.len(),
        forall|j: int|
            0 <= j < old(store).nodes@.len() ==> (#[trigger] final(store).nodes@[j]) == (Node {
                scalar: final(store).nodes@[j].scalar,
                ..old(store).nodes@[j]
            }) && (match (old(store).nodes@[j].scalar, final(store).nodes@[j].scalar) {
                (Some(a), Some(b)) => b.metadata == a.metadata,
                (None, None) => true,
                _ => false,
            }),
        scalar_vals(*final(store)) == apply_spec(
            *old(store),
            scalar_vals(*old(store)),
            entries_view(entries@),
        ).0,
        r == (match apply_spec(
            *old(store),
            scalar_vals(*old(store)),
            entries_view(entries@),
        ).1 {
            None => Ok::<(), DecodeError>(()),
            Some(e) => Err(e),
        }),
{
    let ghost s0 = *old(store);
    let ghost ev = entries_view(entries@);
    let ghost goal = apply_spec(s0, scalar_vals(s0), ev);
    let mut k: usize = 0;
    proof {
        assert(ev.skip(0) =~= ev);
    }
    while k < entries.len()
        invariant
            store.wf(),
            0 <= k <= entries@.len(),
            s0 == *old(store),
            ev == entries_view(entries@),
            ev.len() == entries@.len(),
            goal == apply_spec(s0, scalar_vals(s0), ev),
            store.nodes@.len() == s0.nodes@.len(),
            forall|j: int|
                0 <= j < s0.nodes@.len() ==> (#[trigger] store.nodes@[j]) == (Node {
                    scalar: store.nodes@[j].scalar,
                    ..s0.nodes@[j]
                }) && (match (s0.nodes@[j].scalar, store.nodes@[j].scalar) {
                    (Some(a), Some(b)) => b.metadata == a.metadata,
                    (None, None) => true,
                    _ => false,
                }),
            goal == apply_spec(s0, scalar_vals(*store), ev.skip(k as int)),
        decreases entries@.len() - k,
    {
        let ghost pre = *store;
        let key = &entries[k].0;
        let wv = &entries[k].1;
        let keys = key.as_str();
        proof {
            assert(keys@ == key@);
            assert(ev.skip(k as int)[0] == ev[k as int]);
            assert(ev[k as int] == (entries@[k as int].0@, entries@[k as int].1@));
            assert(keys@ == ev[k as int].0);
            assert(ev.skip(k as int).drop_first() =~= ev.skip(k + 1));
        }
        match find_node(store, keys) {
            None => {
                proof {
                    lemma_lookup_agree(s0.nodes@, store.nodes@, keys@, 0);
                    assert(lookup_first(s0.nodes@, ev[k as int].0) is None);
                }
            },
            Some(id) => {
                proof {
                    lemma_lookup_agree(s0.nodes@, store.nodes@, keys@, 0);
                    if lookup_first(store.nodes@, keys@) is None {
                        assert(false);
                    }
                    lemma_lookup_range(store.nodes@, keys@, 0);
                    let jj = lookup_first(store.nodes@, keys@)->Some_0;
                    assert(id == NodeId(jj as usize));
                    assert(0 <= jj < store.nodes@.len());
                    vstd::std_specs::vec::axiom_spec_len(&store.nodes);
                    assert(store.nodes@.len() <= usize::MAX);
                    assert(id.0 as int == jj);
                    assert(lookup_first(store.nodes@, keys@) == Some(id.0 as int));
                    assert(lookup_first(s0.nodes@, ev.skip(k as int)[0].0) == Some(id.0 as int));
                    assert(is_serialized(store.nodes@, id.0 as int));
                    assert(store.nodes@[id.0 as int].scalar is Some);
                    assert(store.nodes@[id.0 as int].scalar->Some_0.metadata == s0.nodes@[id.0
                        as int].scalar->Some_0.metadata);
                }
                let conv = {
                    let n = store.node(id);
                    match &n.scalar {
                        Some(sf) => convert_value(&sf.metadata, wv),
                        None => unreached(),
                    }
                };
                let ghost j = id.0 as int;
                match conv {
                    Ok(v) => {
                        proof {
                            assert(store.nodes@[j].scalar->Some_0.metadata
                                == s0.nodes@[j].scalar->Some_0.metadata);
                            lemma_convert_matches(
                                store.nodes@[j].scalar->Some_0.metadata,
                                wv@,
                                v,
                            );
                        }
                        store.write_scalar(id, v);
                        proof {
                            assert(scalar_vals(*store) =~= scalar_vals(pre).update(
                                j,
                                Some(v@),
                            ));
                        }
                    },
                    Err(e) => {
                        proof {
                            assert(convert_spec(
                                s0.nodes@[j].scalar->Some_0.metadata,
                                ev.skip(k as int)[0].1,
                            ) matches Err(e2) && e2 == e);
                            assert(apply_spec(s0, scalar_vals(pre), ev.skip(k as int)) == (
                            scalar_vals(pre), Some(e)));
                        }
                        return Err(e);
                    },
                }
            },
        }
        k = k + 1;
    }
    proof {
        assert(ev.skip(ev.len() as int) =~= Seq::<(Seq<char>, WireVal)>::empty());
    }
    Ok(())
}

/// A found lookup index addresses a codec-managed scalar node.
proof fn lemma_lookup_range(nodes: Seq<Node>, key: Seq<char>, j: int)
    requires
        lookup_from(nodes, key, j) is Some,
    ensures
        j <= lookup_from(nodes, key, j)->Some_0 < nodes.len(),
        is_serialized(nodes, lookup_from(nodes, key, j)->Some_0),
        join_of(nodes[lookup_from(nodes, key, j)->Some_0].node.path.deep_view()) == key,
    decreases nodes.len() - j,
{
    if 0 <= j < nodes.len() && !(is_serialized(nodes, j) && join_of(
        nodes[j].node.path.deep_view(),
    ) == key) {
        lemma_lookup_range(nodes, key, j + 1);
    }
}


/// An entry that the store itself would serialize: the flat key and wire
/// value of some codec-managed node.
pub open spec fn entry_faithful(nodes: Seq<Node>, e: (Seq<char>, WireVal)) -> bool {
    exists|j: int| is_serialized(nodes, j) && e == entry_of(nodes, j)
}

/// Every scan entry is faithful.
proof fn lemma_scan_faithful(nodes: Seq<Node>, n: int)
    requires
        0 <= n <= nodes.len(),
    ensures
        forall|i: int|
            0 <= i < scan_spec(nodes, n).len() ==> entry_faithful(
                nodes,
                #[trigger] scan_spec(nodes, n)[i],
            ),
    decreases n,
{
    if n > 0 {
        lemma_scan_faithful(nodes, n - 1);
        assert forall|i: int| 0 <= i < scan_spec(nodes, n).len() implies entry_faithful(
            nodes,
            #[trigger] scan_spec(nodes, n)[i],
        ) by {
            if is_serialized(nodes, n - 1) && i == scan_spec(nodes, n).len() - 1 {
                assert(is_serialized(nodes, n - 1) && scan_spec(nodes, n)[i] == entry_of(
                    nodes,
                    n - 1,
                ));
            } else {
                assert(scan_spec(nodes, n)[i] == scan_spec(nodes, n - 1)[i]);
                assert(entry_faithful(nodes, scan_spec(nodes, n - 1)[i]));
            }
        }
    }
}

/// A key that some codec-managed node carries is found.
proof fn lemma_lookup_finds(nodes: Seq<Node>, key: Seq<char>, t: int, j0: int)
    requires
        0 <= t <= j0 < nodes.len(),
        is_serialized(nodes, j0),
        join_of(nodes[j0].node.path.deep_view()) == key,
    ensures
        lookup_from(nodes, key, t) is Some,
    decreases j0 - t,
{
    if !(is_serialized(nodes, t) && join_of(nodes[t].node.path.deep_view()) == key) {
        lemma_lookup_finds(nodes, key, t + 1, j0);
    }
}

/// With distinct names, looking a name up finds its own index.
proof fn lemma_name_index_finds(names: Seq<Seq<char>>, t: int, d: int)
    requires
        0 <= t <= d < names.len(),
        forall|i: int, j: int| 0 <= i < j < names.len() ==> names[i] != names[j],
    ensures
        name_index_from(names, names[d], t) == Some(d),
    decreases d - t,
{
    if names[t] != names[d] {
        lemma_name_index_finds(names, t + 1, d);
    }
}

/// Applying faithful entries leaves every stored value unchanged.
proof fn lemma_apply_faithful(s: ConfigStore, es: Seq<(Seq<char>, WireVal)>)
    requires
        s.wf(),
        forall|k: int| 0 <= k < es.len() ==> entry_faithful(s.nodes@, #[trigger] es[k]),
    ensures
        apply_spec(s, scalar_vals(s), es) == (scalar_vals(s), None::<DecodeError>),
    decreases es,
{
    if es.len() > 0 {
        let e = es[0];
        assert(entry_faithful(s.nodes@, es[0]));
        let j0 = choose|j: int| is_serialized(s.nodes@, j) && e == entry_of(s.nodes@, j);
        lemma_lookup_finds(s.nodes@, e.0, 0, j0);
        lemma_lookup_range(s.nodes@, e.0, 0);
        let jf = lookup_first(s.nodes@, e.0)->Some_0;
        // the found node has the same flat key, hence the same path, hence it
        // is the same node
        assert(crate::tree::node_ok(s.nodes@, jf));
        assert(crate::tree::node_ok(s.nodes@, j0));
        let p1 = s.nodes@[jf].node.path.deep_view();
        let p2 = s.nodes@[j0].node.path.deep_view();
        assert forall|i: int| 0 <= i < p1.len() implies (#[trigger] p1[i]).len() > 0
            && !p1[i].contains('.') by {
            assert(crate::tree::seg_ok(p1[i]));
        }
        assert forall|i: int| 0 <= i < p2.len() implies (#[trigger] p2[i]).len() > 0
            && !p2[i].contains('.') by {
            assert(crate::tree::seg_ok(p2[i]));
        }
        crate::strutil::lemma_join_injective(p1, p2);
        assert(jf == j0);
        // converting the node's own wire value gives the value back
        let m = s.nodes@[j0].scalar->Some_0.metadata;
        let v = s.nodes@[j0].scalar->Some_0.data.0@;
        assert(crate::tree::scalar_ok(s.nodes@[j0].scalar->Some_0));
        assert(convert_spec(m, wire_of_scalar(m, v)) == Ok::<ConfigVal, DecodeError>(v)) by {
            match m {
                crate::schema::ScalarMetadata::Discrim(dm) => {
                    let d = v->Discrim_0;
                    assert(d < dm.variants@.len());
                    assert(dm.variants.deep_view().len() == dm.variants@.len());
                    assert forall|i: int, j: int|
                        0 <= i < j < dm.variants.deep_view().len() implies dm.variants.deep_view()[i]
                        != dm.variants.deep_view()[j] by {
                        assert(dm.variants.deep_view()[i] == dm.variants@[i]@);
                        assert(dm.variants.deep_view()[j] == dm.variants@[j]@);
                    }
                    lemma_name_index_finds(dm.variants.deep_view(), 0, d as int);
                },
                _ => {},
            }
        }
        assert(scalar_vals(s).update(j0, Some(v)) =~= scalar_vals(s));
        assert forall|k: int| 0 <= k < es.drop_first().len() implies entry_faithful(
            s.nodes@,
            #[trigger] es.drop_first()[k],
        ) by {
            assert(es.drop_first()[k] == es[k + 1]);
            assert(entry_faithful(s.nodes@, es[k + 1]));
        }
        lemma_apply_faithful(s, es.drop_first());
    }
}

/// Round trip: loading exactly what the codec serialized leaves every stored
/// scalar value unchanged and reports no error.
pub proof fn lemma_serialize_roundtrip(store: ConfigStore, out: Seq<(Seq<char>, WireVal)>)
    requires
        store.wf(),
        out.to_multiset() == scan_spec(store.nodes@, store.nodes@.len() as int).to_multiset(),
    ensures
        apply_spec(store, scalar_vals(store), out) == (scalar_vals(store), None::<DecodeError>),
{
    let scan = scan_spec(store.nodes@, store.nodes@.len() as int);
    lemma_scan_faithful(store.nodes@, store.nodes@.len() as int);
    out.to_multiset_ensures();
    scan.to_multiset_ensures();
    assert forall|k: int| 0 <= k < out.len() implies entry_faithful(
        store.nodes@,
        #[trigger] out[k],
    ) by {
        assert(out.contains(out[k]));
        assert(out.to_multiset().count(out[k]) > 0);
        assert(scan.to_multiset().count(out[k]) > 0);
        assert(scan.contains(out[k]));
        let i = choose|i: int| 0 <= i < scan.len() && scan[i] == out[k];
        assert(entry_faithful(store.nodes@, scan[i]));
    }
    lemma_apply_faithful(store, out);
}


/// The serialized entries appear in ascending path order: for any two entry
/// positions, the nodes they serialize have path vectors in ascending
/// element-wise lexicographic order.  This is what the flat-key sort order
/// amounts to, since paths of dot-free segments and their dot-joined keys
/// order alike.
pub proof fn lemma_entries_in_path_order(
    store: ConfigStore,
    es: Seq<(Seq<char>, WireVal)>,
    a: int,
    b: int,
)
    requires
        store.wf(),
        entries_sorted(es),
        forall|k: int| 0 <= k < es.len() ==> entry_faithful(store.nodes@, #[trigger] es[k]),
        forall|x: int, y: int| 0 <= x < y < es.len() ==> es[x].0 != es[y].0,
        0 <= a < b < es.len(),
    ensures
        exists|j1: int, j2: int|
            {
                &&& is_serialized(store.nodes@, j1)
                &&& is_serialized(store.nodes@, j2)
                &&& es[a] == entry_of(store.nodes@, j1)
                &&& es[b] == entry_of(store.nodes@, j2)
                &&& #[trigger] path_lt(
                    store.nodes@[j1].node.path.deep_view(),
                    store.nodes@[j2].node.path.deep_view(),
                )
            },
{
    assert(entry_faithful(store.nodes@, es[a]));
    assert(entry_faithful(store.nodes@, es[b]));
    let j1 = choose|j: int| is_serialized(store.nodes@, j) && es[a] == entry_of(store.nodes@, j);
    let j2 = choose|j: int| is_serialized(store.nodes@, j) && es[b] == entry_of(store.nodes@, j);
    let p1 = store.nodes@[j1].node.path.deep_view();
    let p2 = store.nodes@[j2].node.path.deep_view();
    assert(crate::tree::node_ok(store.nodes@, j1));
    assert(crate::tree::node_ok(store.nodes@, j2));
    assert forall|i: int| 0 <= i < p1.len() implies !(#[trigger] p1[i]).contains('.') by {
        assert(crate::tree::seg_ok(p1[i]));
    }
    assert forall|i: int| 0 <= i < p2.len() implies !(#[trigger] p2[i]).contains('.') by {
        assert(crate::tree::seg_ok(p2[i]));
    }
    assert(es[a].0 == join_of(p1));
    assert(es[b].0 == join_of(p2));
    assert(key_lt(es[a].0, es[b].0));
    crate::strutil::lemma_key_lt_is_path_order(p1, p2);
    assert(path_lt(p1, p2));
}

} // verus!
